//! Proof resolution for deposits: the attestation path first, the receipt
//! proof as fallback, and the envelope that either one is packed into.
use vstd::prelude::*;
use crate::wire::{
    append_bytes, append_le32, chain_kind_tag, copy_from, framed, proof_kind_of_tag, proof_kind_tag, read_framed, ChainKind,
    ClaimFeeArgs, ProofKind,
};

verus! {

/// Why a deposit got no proof.
#[derive(Clone, Copy, Debug, PartialEq, Eq, Structural)]
pub enum Unresolved {
    /// The receipt proof could not be built.
    ReceiptProofFailed,
}

/// Which path produced the proof, with its raw bytes.
#[derive(Clone, Debug)]
pub enum Resolution {
    Attested(Vec<u8>),
    ReceiptProved(Vec<u8>),
    Unresolvable(Unresolved),
}

/// What the resolver asks its caller to do next.
#[derive(Clone, Debug)]
pub enum ProofTask {
    /// Look up the attestation of this message sequence number.
    QueryAttestation(u64),
    /// Build the receipt proof of the deposit's log.
    BuildReceiptProof,
    /// Resolution is over.
    Finished(Resolution),
}

pub open spec fn begin_spec(sequence: Option<u64>) -> ProofTask {
    match sequence {
        Some(s) => ProofTask::QueryAttestation(s),
        None => ProofTask::BuildReceiptProof,
    }
}

pub open spec fn after_attestation_spec(attestation: Option<Vec<u8>>) -> ProofTask {
    match attestation {
        Some(v) => ProofTask::Finished(Resolution::Attested(v)),
        None => ProofTask::BuildReceiptProof,
    }
}

pub open spec fn after_receipt_proof_spec(receipt: Option<Vec<u8>>) -> Resolution {
    match receipt {
        Some(v) => Resolution::ReceiptProved(v),
        None => Resolution::Unresolvable(Unresolved::ReceiptProofFailed),
    }
}

/// First task for a deposit: the attestation lookup when the transaction
/// published a message, the receipt proof otherwise.
pub fn begin_resolution(sequence: Option<u64>) -> (r: ProofTask)
    ensures
        r == begin_spec(sequence),
{
    match sequence {
        Some(s) => ProofTask::QueryAttestation(s),
        None => ProofTask::BuildReceiptProof,
    }
}

/// Next task once the attestation lookup answered (`None`: unavailable).
pub fn after_attestation(attestation: Option<Vec<u8>>) -> (r: ProofTask)
    ensures
        r == after_attestation_spec(attestation),
{
    match attestation {
        Some(v) => ProofTask::Finished(Resolution::Attested(v)),
        None => ProofTask::BuildReceiptProof,
    }
}

/// Outcome once the receipt proof was attempted (`None`: it failed).
pub fn after_receipt_proof(receipt: Option<Vec<u8>>) -> (r: Resolution)
    ensures
        r == after_receipt_proof_spec(receipt),
{
    match receipt {
        Some(v) => Resolution::ReceiptProved(v),
        None => Resolution::Unresolvable(Unresolved::ReceiptProofFailed),
    }
}

/// The resolution reached by following the tasks, given what the attestation
/// lookup and the receipt proof would answer.
pub open spec fn resolution_of(
    sequence: Option<u64>,
    attestation: Option<Vec<u8>>,
    receipt: Option<Vec<u8>>,
) -> Resolution {
    let first = begin_spec(sequence);
    let second = match first {
        ProofTask::QueryAttestation(_) => after_attestation_spec(attestation),
        _ => first,
    };
    match second {
        ProofTask::Finished(r) => r,
        _ => after_receipt_proof_spec(receipt),
    }
}

/// Whether following the tasks reaches the receipt proof.
pub open spec fn builds_receipt_proof(sequence: Option<u64>, attestation: Option<Vec<u8>>) -> bool {
    match begin_spec(sequence) {
        ProofTask::QueryAttestation(_) => after_attestation_spec(attestation) is BuildReceiptProof,
        t => t is BuildReceiptProof,
    }
}

/// The attestation path wins whenever the transaction published a message and
/// its attestation was found, and then no receipt proof is built; otherwise the
/// outcome is the receipt proof (or its failure), never a mix of the two.
/// Without a published message the attestation is never looked up.
pub proof fn lemma_proof_path_precedence(
    sequence: Option<u64>,
    attestation: Option<Vec<u8>>,
    receipt: Option<Vec<u8>>,
)
    ensures
        sequence is Some && attestation is Some ==> resolution_of(sequence, attestation, receipt)
            == Resolution::Attested(attestation.unwrap()) && !builds_receipt_proof(sequence, attestation),
        sequence is None || attestation is None ==> builds_receipt_proof(sequence, attestation)
            && resolution_of(sequence, attestation, receipt) == after_receipt_proof_spec(receipt),
        sequence is None ==> begin_spec(sequence) is BuildReceiptProof,
        resolution_of(sequence, attestation, receipt) is Attested <==> sequence is Some && attestation is Some,
{
}

/// The proof in the shape the destination chain's prover reads.
#[derive(Clone, Debug)]
pub enum ProofEnvelope {
    Attestation { kind: ProofKind, attestation: Vec<u8> },
    Receipt { kind: ProofKind, receipt: Vec<u8> },
}

/// The envelope for a resolution, for an incoming transfer; none when unresolved.
pub open spec fn envelope_spec(r: Resolution) -> Option<ProofEnvelope> {
    match r {
        Resolution::Attested(v) => Some(ProofEnvelope::Attestation { kind: ProofKind::InitTransfer, attestation: v }),
        Resolution::ReceiptProved(v) => Some(ProofEnvelope::Receipt { kind: ProofKind::InitTransfer, receipt: v }),
        Resolution::Unresolvable(_) => None,
    }
}

pub fn envelope_of(r: Resolution) -> (e: Option<ProofEnvelope>)
    ensures
        e == envelope_spec(r),
{
    match r {
        Resolution::Attested(v) => Some(ProofEnvelope::Attestation { kind: ProofKind::InitTransfer, attestation: v }),
        Resolution::ReceiptProved(v) => Some(ProofEnvelope::Receipt { kind: ProofKind::InitTransfer, receipt: v }),
        Resolution::Unresolvable(_) => None,
    }
}

impl ProofEnvelope {
    /// An envelope can be encoded: an attestation fits its four-byte length.
    pub open spec fn encodable(&self) -> bool {
        match self {
            ProofEnvelope::Attestation { attestation, .. } => attestation@.len() <= u32::MAX,
            ProofEnvelope::Receipt { .. } => true,
        }
    }

    /// The kind's tag, then the attestation framed by its length, or the
    /// receipt proof's bytes as they are.
    pub open spec fn encoding(&self) -> Seq<u8> {
        match self {
            ProofEnvelope::Attestation { kind, attestation } => seq![proof_kind_tag(*kind)] + framed(attestation@),
            ProofEnvelope::Receipt { kind, receipt } => seq![proof_kind_tag(*kind)] + receipt@,
        }
    }

    pub fn encode(&self) -> (r: Option<Vec<u8>>)
        ensures
            r is None <==> !self.encodable(),
            r matches Some(b) ==> b@ == self.encoding(),
    {
        let mut out: Vec<u8> = Vec::new();
        match self {
            ProofEnvelope::Attestation { kind, attestation } => {
                if attestation.len() > u32::MAX as usize {
                    return None;
                }
                out.push(kind.tag());
                append_le32(&mut out, attestation.len() as u32);
                append_bytes(&mut out, attestation.as_slice());
            },
            ProofEnvelope::Receipt { kind, receipt } => {
                out.push(kind.tag());
                append_bytes(&mut out, receipt.as_slice());
            },
        }
        assert(out@ =~= self.encoding());
        Some(out)
    }
}

/// Which of the two proof formats an envelope has.
#[derive(Clone, Copy, Debug, PartialEq, Eq, Structural)]
pub enum ProofPath {
    Attestation,
    Receipt,
}

impl ProofEnvelope {
    pub open spec fn path(&self) -> ProofPath {
        match self {
            ProofEnvelope::Attestation { .. } => ProofPath::Attestation,
            ProofEnvelope::Receipt { .. } => ProofPath::Receipt,
        }
    }

    /// Decodes an envelope of the given format; `None` unless `b` is exactly
    /// the encoding of such an envelope.
    pub fn decode(b: &[u8], path: ProofPath) -> (r: Option<ProofEnvelope>)
        ensures
            r matches Some(e) ==> e.encoding() == b@ && e.encodable() && e.path() == path,
            r is None ==> forall|e: ProofEnvelope| e.encodable() && e.path() == path ==> #[trigger] e.encoding() != b@,
    {
        if b.len() == 0 {
            return None;
        }
        let kind = match ProofKind::from_tag(b[0]) {
            Some(k) => k,
            None => {
                proof {
                    assert forall|e: ProofEnvelope| e.encodable() && e.path() == path implies #[trigger] e.encoding() != b@ by {
                        lemma_envelope_tag(e);
                    }
                }
                return None;
            },
        };
        assert(b@ =~= seq![b@[0]] + b@.subrange(1, b@.len() as int));
        match path {
            ProofPath::Attestation => {
                let bytes = read_framed(b, 1);
                proof {
                    assert forall|e: ProofEnvelope| e.encodable() && e.path() == path && #[trigger] e.encoding() == b@
                        implies framed(e->attestation@) == b@.subrange(1, b@.len() as int) by {
                        lemma_envelope_tag(e);
                    }
                }
                match bytes {
                    Some(v) => {
                        let e = ProofEnvelope::Attestation { kind, attestation: v };
                        assert(e.encoding() =~= b@);
                        Some(e)
                    },
                    None => None,
                }
            },
            ProofPath::Receipt => {
                let v = copy_from(b, 1);
                let e = ProofEnvelope::Receipt { kind, receipt: v };
                assert(e.encoding() =~= b@);
                Some(e)
            },
        }
    }
}

proof fn lemma_envelope_tag(e: ProofEnvelope)
    ensures
        e.encoding().len() >= 1,
        proof_kind_of_tag(e.encoding()[0]) is Some,
        e matches ProofEnvelope::Attestation { kind, attestation }
            ==> e.encoding().subrange(1, e.encoding().len() as int) == framed(attestation@)
            && proof_kind_of_tag(e.encoding()[0]) == Some(kind),
        e matches ProofEnvelope::Receipt { kind, receipt }
            ==> e.encoding().subrange(1, e.encoding().len() as int) == receipt@
            && proof_kind_of_tag(e.encoding()[0]) == Some(kind),
{
    let b = e.encoding();
    match e {
        ProofEnvelope::Attestation { kind, attestation } => {
            assert(b.subrange(1, b.len() as int) =~= framed(attestation@));
        },
        ProofEnvelope::Receipt { kind, receipt } => {
            assert(b.subrange(1, b.len() as int) =~= receipt@);
        },
    }
}

/// An envelope's bytes determine it within its format: two encodable
/// envelopes of one format with the same bytes have the same kind and the
/// same proof bytes, so decoding what was encoded gives it back.
pub proof fn lemma_envelope_round_trip(e: ProofEnvelope, d: ProofEnvelope)
    requires
        e.encodable(),
        d.encodable(),
        e.path() == d.path(),
        e.encoding() == d.encoding(),
    ensures
        e matches ProofEnvelope::Attestation { kind, attestation } ==> d matches ProofEnvelope::Attestation { kind: k, attestation: a }
            && k == kind && a@ == attestation@,
        e matches ProofEnvelope::Receipt { kind, receipt } ==> d matches ProofEnvelope::Receipt { kind: k, receipt: p }
            && k == kind && p@ == receipt@,
{
    lemma_envelope_tag(e);
    lemma_envelope_tag(d);
    if let (ProofEnvelope::Attestation { attestation: a1, .. }, ProofEnvelope::Attestation { attestation: a2, .. }) = (e, d) {
        lemma_framed_injective(a1@, a2@);
    }
}

proof fn lemma_framed_injective(a: Seq<u8>, b: Seq<u8>)
    requires
        framed(a) == framed(b),
    ensures
        a == b,
{
    assert(a =~= framed(a).subrange(4, framed(a).len() as int));
    assert(b =~= framed(b).subrange(4, framed(b).len() as int));
}

/// The queued claim bytes for an envelope, when it and its claim arguments
/// can be encoded.
pub open spec fn claim_bytes(e: ProofEnvelope) -> Option<Seq<u8>> {
    if e.encodable() && e.encoding().len() <= u32::MAX {
        Some(seq![chain_kind_tag(ChainKind::Eth)] + framed(e.encoding()))
    } else {
        None
    }
}

/// Packs an envelope into the claim arguments of a transfer from this chain
/// and encodes them; `None` when a length does not fit its four bytes.
pub fn claim_payload(e: &ProofEnvelope) -> (r: Option<Vec<u8>>)
    ensures
        r matches Some(b) ==> claim_bytes(*e) == Some(b@),
        r is None ==> claim_bytes(*e) is None,
{
    match e.encode() {
        None => None,
        Some(prover_args) => {
            let args = ClaimFeeArgs { chain_kind: ChainKind::Eth, prover_args };
            args.encode()
        },
    }
}

} // verus!
