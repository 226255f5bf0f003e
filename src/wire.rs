//! Binary layout of the proof arguments and of the claim payload: one tag
//! byte per enum, a byte string as its length in four little-endian bytes
//! followed by its bytes.
use vstd::prelude::*;

verus! {

/// Which prover the destination chain runs the proof through.
#[derive(Clone, Copy, Debug, PartialEq, Eq, Structural)]
pub enum ProofKind {
    InitTransfer,
    FinTransfer,
    DeployToken,
    LogMetadata,
}

/// Chain that a claim comes from.
#[derive(Clone, Copy, Debug, PartialEq, Eq, Structural)]
pub enum ChainKind {
    Eth,
    Near,
    Sol,
    Arb,
    Base,
}

pub open spec fn proof_kind_tag(k: ProofKind) -> u8 {
    match k {
        ProofKind::InitTransfer => 0,
        ProofKind::FinTransfer => 1,
        ProofKind::DeployToken => 2,
        ProofKind::LogMetadata => 3,
    }
}

pub open spec fn chain_kind_tag(c: ChainKind) -> u8 {
    match c {
        ChainKind::Eth => 0,
        ChainKind::Near => 1,
        ChainKind::Sol => 2,
        ChainKind::Arb => 3,
        ChainKind::Base => 4,
    }
}

pub open spec fn proof_kind_of_tag(t: u8) -> Option<ProofKind> {
    if t == 0 {
        Some(ProofKind::InitTransfer)
    } else if t == 1 {
        Some(ProofKind::FinTransfer)
    } else if t == 2 {
        Some(ProofKind::DeployToken)
    } else if t == 3 {
        Some(ProofKind::LogMetadata)
    } else {
        None
    }
}

pub open spec fn chain_kind_of_tag(t: u8) -> Option<ChainKind> {
    if t == 0 {
        Some(ChainKind::Eth)
    } else if t == 1 {
        Some(ChainKind::Near)
    } else if t == 2 {
        Some(ChainKind::Sol)
    } else if t == 3 {
        Some(ChainKind::Arb)
    } else if t == 4 {
        Some(ChainKind::Base)
    } else {
        None
    }
}

impl ProofKind {
    pub fn tag(&self) -> (r: u8)
        ensures
            r == proof_kind_tag(*self),
    {
        match self {
            ProofKind::InitTransfer => 0,
            ProofKind::FinTransfer => 1,
            ProofKind::DeployToken => 2,
            ProofKind::LogMetadata => 3,
        }
    }
}

impl ProofKind {
    pub fn from_tag(t: u8) -> (r: Option<ProofKind>)
        ensures
            r == proof_kind_of_tag(t),
    {
        if t == 0 {
            Some(ProofKind::InitTransfer)
        } else if t == 1 {
            Some(ProofKind::FinTransfer)
        } else if t == 2 {
            Some(ProofKind::DeployToken)
        } else if t == 3 {
            Some(ProofKind::LogMetadata)
        } else {
            None
        }
    }
}

impl ChainKind {
    pub fn tag(&self) -> (r: u8)
        ensures
            r == chain_kind_tag(*self),
    {
        match self {
            ChainKind::Eth => 0,
            ChainKind::Near => 1,
            ChainKind::Sol => 2,
            ChainKind::Arb => 3,
            ChainKind::Base => 4,
        }
    }

    pub fn from_tag(t: u8) -> (r: Option<ChainKind>)
        ensures
            r == chain_kind_of_tag(t),
    {
        if t == 0 {
            Some(ChainKind::Eth)
        } else if t == 1 {
            Some(ChainKind::Near)
        } else if t == 2 {
            Some(ChainKind::Sol)
        } else if t == 3 {
            Some(ChainKind::Arb)
        } else if t == 4 {
            Some(ChainKind::Base)
        } else {
            None
        }
    }
}

/// `n` as four little-endian bytes.
pub open spec fn le32(n: nat) -> Seq<u8> {
    seq![(n % 256) as u8, ((n / 256) % 256) as u8, ((n / 65536) % 256) as u8, ((n / 16777216) % 256) as u8]
}

/// The number that four little-endian bytes stand for.
pub open spec fn le32_value(b0: u8, b1: u8, b2: u8, b3: u8) -> nat {
    (b0 + 256 * b1 + 65536 * b2 + 16777216 * b3) as nat
}

/// A byte string framed by its length.
pub open spec fn framed(b: Seq<u8>) -> Seq<u8> {
    le32(b.len()) + b
}

proof fn lemma_le32_value(n: nat)
    requires
        n <= u32::MAX,
    ensures
        le32_value(le32(n)[0], le32(n)[1], le32(n)[2], le32(n)[3]) == n,
{
    let b = le32(n);
    assert(b[0] == n % 256 && b[1] == (n / 256) % 256 && b[2] == (n / 65536) % 256 && b[3] == (n / 16777216) % 256);
    assert(n % 256 + 256 * ((n / 256) % 256) + 65536 * ((n / 65536) % 256) + 16777216 * ((n / 16777216) % 256) == n)
        by (nonlinear_arith) requires n <= 0xffff_ffff;
}

proof fn lemma_le32_bytes(b0: u8, b1: u8, b2: u8, b3: u8)
    ensures
        le32_value(b0, b1, b2, b3) <= u32::MAX,
        le32(le32_value(b0, b1, b2, b3)) == seq![b0, b1, b2, b3],
{
    let n = le32_value(b0, b1, b2, b3);
    let (x0, x1, x2, x3) = (b0 as int, b1 as int, b2 as int, b3 as int);
    assert(n == x0 + 256 * x1 + 65536 * x2 + 16777216 * x3);
    assert(n <= u32::MAX) by (nonlinear_arith)
        requires n == x0 + 256 * x1 + 65536 * x2 + 16777216 * x3, 0 <= x0 < 256, 0 <= x1 < 256, 0 <= x2 < 256, 0 <= x3 < 256;
    assert(n % 256 == x0 && (n / 256) % 256 == x1 && (n / 65536) % 256 == x2 && (n / 16777216) % 256 == x3) by (nonlinear_arith)
        requires n == x0 + 256 * x1 + 65536 * x2 + 16777216 * x3, 0 <= x0 < 256, 0 <= x1 < 256, 0 <= x2 < 256, 0 <= x3 < 256;
    assert(le32(n) =~= seq![b0, b1, b2, b3]);
}

/// Appends `src` to `dst`, byte by byte.
pub fn append_bytes(dst: &mut Vec<u8>, src: &[u8])
    ensures
        final(dst)@ == old(dst)@ + src@,
{
    let mut i: usize = 0;
    while i < src.len()
        invariant
            i <= src@.len(),
            dst@ == old(dst)@ + src@.subrange(0, i as int),
        decreases src@.len() - i,
    {
        dst.push(src[i]);
        i = i + 1;
        assert(src@.subrange(0, i as int) =~= src@.subrange(0, i - 1) + seq![src@[i - 1]]);
    }
    assert(src@.subrange(0, src@.len() as int) =~= src@);
}

/// Appends `n` as four little-endian bytes.
pub fn append_le32(dst: &mut Vec<u8>, n: u32)
    ensures
        final(dst)@ == old(dst)@ + le32(n as nat),
{
    dst.push((n % 256) as u8);
    dst.push(((n / 256) % 256) as u8);
    dst.push(((n / 65536) % 256) as u8);
    dst.push(((n / 16777216) % 256) as u8);
    assert(final(dst)@ =~= old(dst)@ + le32(n as nat));
}

/// Arguments of a claim: the source chain and the encoded proof arguments.
#[derive(Clone, Debug)]
pub struct ClaimFeeArgs {
    pub chain_kind: ChainKind,
    pub prover_args: Vec<u8>,
}

impl ClaimFeeArgs {
    /// The bytes of these arguments: the chain's tag, then the framed proof arguments.
    pub open spec fn encoding(&self) -> Seq<u8> {
        seq![chain_kind_tag(self.chain_kind)] + framed(self.prover_args@)
    }

    /// Encodes the arguments; `None` exactly when the proof arguments are too
    /// long for their four-byte length.
    pub fn encode(&self) -> (r: Option<Vec<u8>>)
        ensures
            r is None <==> self.prover_args@.len() > u32::MAX,
            r matches Some(b) ==> b@ == self.encoding(),
    {
        if self.prover_args.len() > u32::MAX as usize {
            return None;
        }
        let mut out: Vec<u8> = Vec::new();
        out.push(self.chain_kind.tag());
        append_le32(&mut out, self.prover_args.len() as u32);
        append_bytes(&mut out, self.prover_args.as_slice());
        assert(out@ =~= self.encoding());
        Some(out)
    }

    /// Decodes claim arguments; `None` unless `b` is exactly the encoding of some.
    pub fn decode(b: &[u8]) -> (r: Option<ClaimFeeArgs>)
        ensures
            r matches Some(a) ==> a.encoding() == b@ && a.prover_args@.len() <= u32::MAX,
            r is None ==> forall|a: ClaimFeeArgs| a.prover_args@.len() <= u32::MAX ==> #[trigger] a.encoding() != b@,
    {
        if b.len() == 0 {
            return None;
        }
        assert(b@ =~= seq![b@[0]] + b@.subrange(1, b@.len() as int));
        let kind = ChainKind::from_tag(b[0]);
        let args = read_framed(b, 1);
        proof {
            assert forall|a: ClaimFeeArgs| a.prover_args@.len() <= u32::MAX && #[trigger] a.encoding() == b@
                implies kind == Some(a.chain_kind) && framed(a.prover_args@) == b@.subrange(1, b@.len() as int) by {
                lemma_encoding_parts(a);
                assert(a.encoding().subrange(1, a.encoding().len() as int) =~= framed(a.prover_args@));
            }
        }
        match (kind, args) {
            (Some(chain_kind), Some(prover_args)) => {
                let a = ClaimFeeArgs { chain_kind, prover_args };
                assert(a.encoding() =~= b@);
                Some(a)
            },
            _ => None,
        }
    }
}

/// Reads a framed byte string that fills `b` from `at` to its end.
pub fn read_framed(b: &[u8], at: usize) -> (r: Option<Vec<u8>>)
    requires
        at <= b@.len(),
    ensures
        r matches Some(v) ==> framed(v@) == b@.subrange(at as int, b@.len() as int) && v@.len() <= u32::MAX,
        r is None ==> forall|v: Seq<u8>| v.len() <= u32::MAX ==> #[trigger] framed(v) != b@.subrange(at as int, b@.len() as int),
{
    let rest = Ghost(b@.subrange(at as int, b@.len() as int));
    if b.len() - at < 4 {
        proof {
            assert forall|v: Seq<u8>| v.len() <= u32::MAX implies #[trigger] framed(v) != rest@ by {
                assert(framed(v).len() == 4 + v.len());
            }
        }
        return None;
    }
    proof {
        lemma_le32_bytes(b@[at as int], b@[at + 1], b@[at + 2], b@[at + 3]);
    }
    let n: u64 = b[at] as u64 + 256 * (b[at + 1] as u64) + 65536 * (b[at + 2] as u64) + 16777216 * (b[at + 3] as u64);
    assert(n == le32_value(b@[at as int], b@[at + 1], b@[at + 2], b@[at + 3]));
    assert(rest@.subrange(0, 4) =~= seq![b@[at as int], b@[at + 1], b@[at + 2], b@[at + 3]]);
    if n != (b.len() - at - 4) as u64 {
        proof {
            assert forall|v: Seq<u8>| v.len() <= u32::MAX implies #[trigger] framed(v) != rest@ by {
                if framed(v) == rest@ {
                    let f = framed(v);
                    assert(f.subrange(0, 4) =~= le32(v.len()));
                    lemma_le32_value(v.len());
                    assert(le32(v.len())[0] == b@[at as int]);
                    assert(le32(v.len())[1] == b@[at + 1]);
                    assert(le32(v.len())[2] == b@[at + 2]);
                    assert(le32(v.len())[3] == b@[at + 3]);
                    assert(f.len() == 4 + v.len());
                }
            }
        }
        return None;
    }
    let v = copy_from(b, at + 4);
    assert(le32(n as nat) =~= rest@.subrange(0, 4));
    assert(framed(v@) =~= rest@);
    Some(v)
}

/// The bytes of `b` from `start` on.
pub fn copy_from(b: &[u8], start: usize) -> (r: Vec<u8>)
    requires
        start <= b@.len(),
    ensures
        r@ == b@.subrange(start as int, b@.len() as int),
{
    let mut out: Vec<u8> = Vec::new();
    let mut i: usize = start;
    while i < b.len()
        invariant
            start <= i <= b@.len(),
            out@ == b@.subrange(start as int, i as int),
        decreases b@.len() - i,
    {
        out.push(b[i]);
        i = i + 1;
        assert(b@.subrange(start as int, i as int) =~= b@.subrange(start as int, i - 1) + seq![b@[i - 1]]);
    }
    out
}

proof fn lemma_encoding_parts(a: ClaimFeeArgs)
    ensures
        a.encoding().len() == 5 + a.prover_args@.len(),
        a.encoding()[0] == chain_kind_tag(a.chain_kind),
        a.encoding().subrange(1, 5) == le32(a.prover_args@.len()),
        a.encoding().subrange(5, a.encoding().len() as int) == a.prover_args@,
        chain_kind_of_tag(chain_kind_tag(a.chain_kind)) == Some(a.chain_kind),
{
    let e = a.encoding();
    assert(e.subrange(1, 5) =~= le32(a.prover_args@.len()));
    assert(e.subrange(5, e.len() as int) =~= a.prover_args@);
}

/// Encoded claim arguments determine the arguments: two with the same bytes
/// are the same, so decoding what was encoded gives it back, and bytes that
/// decode encode back to exactly those bytes.
pub proof fn lemma_claim_round_trip(a: ClaimFeeArgs, d: ClaimFeeArgs)
    requires
        a.prover_args@.len() <= u32::MAX,
        d.prover_args@.len() <= u32::MAX,
    ensures
        a.encoding() == d.encoding() ==> d.chain_kind == a.chain_kind && d.prover_args@ == a.prover_args@,
{
    lemma_encoding_parts(a);
    lemma_encoding_parts(d);
    if a.encoding() == d.encoding() {
        assert(chain_kind_of_tag(chain_kind_tag(a.chain_kind)) == chain_kind_of_tag(chain_kind_tag(d.chain_kind)));
    }
}

} // verus!
