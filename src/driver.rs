//! The pipeline's decisions for each record: how far the checkpoint moves,
//! which queue write to make, and when a deposit needs a proof.
use vstd::prelude::*;
use crate::decoder::{DecodedEvent, Malformed, RecordOutcome, WithdrawEvent};
use crate::resolver::{claim_bytes, claim_payload, envelope_of, envelope_spec, Resolution};

verus! {

/// A lower-case hex digit.
pub open spec fn hex_digit(d: u8) -> char {
    seq!['0', '1', '2', '3', '4', '5', '6', '7', '8', '9', 'a', 'b', 'c', 'd', 'e', 'f'][(d % 16) as int]
}

/// A byte as two lower-case hex digits.
pub open spec fn hex_byte(b: u8) -> Seq<char> {
    seq![hex_digit(b / 16), hex_digit(b % 16)]
}

/// A 32-byte hash as text: `0x`, then every byte as two lower-case hex digits.
pub open spec fn hash_text(h: Seq<u8>) -> Seq<char> {
    seq!['0', 'x'] + Seq::new(64, |i: int| if i % 2 == 0 { hex_digit(h[i / 2] / 16) } else { hex_digit(h[i / 2] % 16) })
}

/// Relies on the `LowerHex` of `ethereum_types::H256` (fixed-hash's
/// `construct_fixed_hash`), written with `#`: `0x`, then every byte as `{:02x}`.
#[verifier::external_body]
fn render_hash(h: &[u8; 32]) -> (r: String)
    ensures
        r@ == hash_text(h@),
{
    format!("{:#x}", ethereum_types::H256::from(*h))
}

proof fn lemma_hex_byte_injective(a: u8, b: u8)
    requires
        hex_digit(a / 16) == hex_digit(b / 16),
        hex_digit(a % 16) == hex_digit(b % 16),
    ensures
        a == b,
{
    let digits = seq!['0', '1', '2', '3', '4', '5', '6', '7', '8', '9', 'a', 'b', 'c', 'd', 'e', 'f'];
    assert forall|x: int, y: int| 0 <= x < 16 && 0 <= y < 16 && digits[x] == digits[y] implies x == y by {}
}

proof fn lemma_hash_text_digits(h: Seq<u8>, k: int)
    requires
        h.len() == 32,
        0 <= k < 32,
    ensures
        hash_text(h)[2 + 2 * k] == hex_digit(h[k] / 16),
        hash_text(h)[3 + 2 * k] == hex_digit(h[k] % 16),
{
    let body = Seq::new(64, |i: int| if i % 2 == 0 { hex_digit(h[i / 2] / 16) } else { hex_digit(h[i / 2] % 16) });
    assert(hash_text(h) == seq!['0', 'x'] + body);
    assert((2 * k) / 2 == k && (2 * k) % 2 == 0 && (2 * k + 1) / 2 == k && (2 * k + 1) % 2 == 1);
    assert(body[2 * k] == hex_digit(h[k] / 16));
    assert(body[2 * k + 1] == hex_digit(h[k] % 16));
}

/// Different transaction hashes have different queue keys, so the store
/// never merges the writes of two transactions.
pub proof fn lemma_key_identifies_tx(h1: Seq<u8>, h2: Seq<u8>)
    requires
        h1.len() == 32,
        h2.len() == 32,
        hash_text(h1) == hash_text(h2),
    ensures
        h1 == h2,
{
    assert forall|k: int| 0 <= k < 32 implies h1[k] == h2[k] by {
        assert((2 * k) / 2 == k && (2 * k) % 2 == 0 && (2 * k + 1) / 2 == k && (2 * k + 1) % 2 == 1);
        lemma_hash_text_digits(h1, k);
        lemma_hash_text_digits(h2, k);
        assert(hash_text(h1)[2 + 2 * k] == hash_text(h2)[2 + 2 * k]);
        assert(hash_text(h1)[3 + 2 * k] == hash_text(h2)[3 + 2 * k]);
        lemma_hex_byte_injective(h1[k], h2[k]);
    }
    assert(h1 =~= h2);
}

/// The queue key of a transaction: its hash as text.
pub fn record_key(tx_hash: &[u8; 32]) -> (r: String)
    ensures
        r@ == hash_text(tx_hash@),
{
    render_hash(tx_hash)
}

fn same_hash(a: &[u8; 32], b: &[u8; 32]) -> (r: bool)
    ensures
        r == (*a == *b),
{
    let mut i: usize = 0;
    while i < 32
        invariant
            i <= 32,
            forall|k: int| 0 <= k < i ==> a[k] == b[k],
        decreases 32 - i,
    {
        if a[i] != b[i] {
            return false;
        }
        i = i + 1;
    }
    assert(*a =~= *b);
    true
}

fn contains_hash(v: &Vec<[u8; 32]>, h: &[u8; 32]) -> (r: bool)
    ensures
        r == v@.contains(*h),
{
    let mut i: usize = 0;
    while i < v.len()
        invariant
            i <= v@.len(),
            forall|k: int| 0 <= k < i ==> v@[k] != *h,
        decreases v@.len() - i,
    {
        if same_hash(&v[i], h) {
            return true;
        }
        i = i + 1;
    }
    false
}

/// The checkpoint after a record at height `h`: it only moves forward.
pub open spec fn advance(cp: Option<u64>, h: u64) -> Option<u64> {
    match cp {
        Some(c) => if h > c { Some(h) } else { Some(c) },
        None => Some(h),
    }
}

/// Whether a record at height `h` makes a checkpoint write: only when it
/// moves the checkpoint.
pub open spec fn writes_checkpoint(cp: Option<u64>, h: u64) -> bool {
    cp is None || h > cp.unwrap()
}

/// The transactions written to a queue, after one more write of `tx` was
/// asked for: a transaction already written is not written again.
pub open spec fn note_write(sent: Seq<[u8; 32]>, tx: [u8; 32]) -> Seq<[u8; 32]> {
    if sent.contains(tx) { sent } else { sent.push(tx) }
}

/// What the caller does after a record.
#[derive(Clone, Debug)]
pub enum NextStep {
    /// Nothing more: the record is of no event that is queued.
    Nothing,
    /// Push the withdrawal to the withdrawal queue under this key.
    PushWithdraw { key: String, event: WithdrawEvent },
    /// Resolve a proof for the deposit logged at this place, then call `finish_deposit`.
    ResolveDeposit { tx_hash: [u8; 32], log_index: u64 },
    /// The transaction was already queued in this pass.
    AlreadyQueued,
}

/// The decision for one record.
#[derive(Clone, Debug)]
pub enum RecordAction {
    /// The record is dropped; the checkpoint does not move.
    Drop(Malformed),
    /// Write the checkpoint first if asked, then take the step.
    Proceed { checkpoint_write: Option<u64>, step: NextStep },
}

/// Where one pass of the pipeline stands: the checkpoint and the
/// transactions already written to each queue.
pub struct Driver {
    pub checkpoint: Option<u64>,
    pub withdraws_sent: Vec<[u8; 32]>,
    pub transfers_sent: Vec<[u8; 32]>,
}

impl Driver {
    pub open spec fn withdraws(&self) -> Seq<[u8; 32]> {
        self.withdraws_sent@
    }

    pub open spec fn transfers(&self) -> Seq<[u8; 32]> {
        self.transfers_sent@
    }

    /// No transaction is written twice to a queue.
    pub open spec fn wf(&self) -> bool {
        self.withdraws().no_duplicates() && self.transfers().no_duplicates()
    }

    /// A pass that starts from the stored checkpoint, with nothing written yet.
    pub fn new(checkpoint: Option<u64>) -> (r: Driver)
        ensures
            r.wf(),
            r.checkpoint == checkpoint,
            r.withdraws() == Seq::<[u8; 32]>::empty(),
            r.transfers() == Seq::<[u8; 32]>::empty(),
    {
        Driver { checkpoint, withdraws_sent: Vec::new(), transfers_sent: Vec::new() }
    }

    /// Decides what a classified record leads to. A malformed record is
    /// dropped and changes nothing. Any other record first moves the
    /// checkpoint to its height, when it has one that lies beyond; then a
    /// withdrawal not yet queued is pushed, a deposit not yet queued asks for
    /// a proof, and anything else leads nowhere.
    pub fn on_record(&mut self, outcome: RecordOutcome) -> (r: RecordAction)
        requires
            old(self).wf(),
        ensures
            final(self).wf(),
            final(self).transfers() == old(self).transfers(),
            outcome is Malformed ==> *final(self) == *old(self)
                && r == RecordAction::Drop(outcome->Malformed_0),
            !(outcome is Malformed) ==> {
                let rec = match outcome {
                    RecordOutcome::Recognized(rec, _) => rec,
                    RecordOutcome::Unrecognized(rec) => rec,
                    RecordOutcome::Malformed(_) => arbitrary(),
                };
                &&& r matches RecordAction::Proceed { checkpoint_write, step } && {
                    &&& rec.block_number is None ==> checkpoint_write is None
                        && final(self).checkpoint == old(self).checkpoint
                    &&& rec.block_number matches Some(h) ==> final(self).checkpoint == advance(old(self).checkpoint, h)
                        && (checkpoint_write == if writes_checkpoint(old(self).checkpoint, h) { Some(h) } else { None })
                    &&& (outcome matches RecordOutcome::Recognized(_, DecodedEvent::Withdraw(e)) ==> {
                        &&& final(self).withdraws() == note_write(old(self).withdraws(), rec.tx_hash)
                        &&& old(self).withdraws().contains(rec.tx_hash) ==> step is AlreadyQueued
                        &&& !old(self).withdraws().contains(rec.tx_hash) ==> (step matches NextStep::PushWithdraw { key, event }
                            && key@ == hash_text(rec.tx_hash@) && event == e)
                    })
                    &&& (outcome matches RecordOutcome::Recognized(_, DecodedEvent::Deposit(_)) ==> {
                        &&& final(self).withdraws() == old(self).withdraws()
                        &&& old(self).transfers().contains(rec.tx_hash) ==> step is AlreadyQueued
                        &&& !old(self).transfers().contains(rec.tx_hash) ==> step == NextStep::ResolveDeposit {
                            tx_hash: rec.tx_hash,
                            log_index: rec.log_index,
                        }
                    })
                    &&& (outcome is Unrecognized
                        || outcome matches RecordOutcome::Recognized(_, DecodedEvent::MessagePublished(_)))
                        ==> step is Nothing && final(self).withdraws() == old(self).withdraws()
                }
            },
    {
        let (rec, event) = match outcome {
            RecordOutcome::Malformed(m) => {
                return RecordAction::Drop(m);
            },
            RecordOutcome::Unrecognized(rec) => (rec, None),
            RecordOutcome::Recognized(rec, e) => (rec, Some(e)),
        };
        let checkpoint_write = match rec.block_number {
            None => None,
            Some(h) => {
                let moves = match self.checkpoint {
                    None => true,
                    Some(c) => h > c,
                };
                if moves {
                    self.checkpoint = Some(h);
                    Some(h)
                } else {
                    None
                }
            },
        };
        let step = match event {
            Some(DecodedEvent::Withdraw(e)) => {
                if contains_hash(&self.withdraws_sent, &rec.tx_hash) {
                    NextStep::AlreadyQueued
                } else {
                    self.withdraws_sent.push(rec.tx_hash);
                    NextStep::PushWithdraw { key: record_key(&rec.tx_hash), event: e }
                }
            },
            Some(DecodedEvent::Deposit(_)) => {
                if contains_hash(&self.transfers_sent, &rec.tx_hash) {
                    NextStep::AlreadyQueued
                } else {
                    NextStep::ResolveDeposit { tx_hash: rec.tx_hash, log_index: rec.log_index }
                }
            },
            _ => NextStep::Nothing,
        };
        RecordAction::Proceed { checkpoint_write, step }
    }

    /// Ends a deposit's resolution: the key and bytes to push to the transfer
    /// queue, when a proof was found, its payload encodes, and the transaction
    /// was not queued yet in this pass.
    pub fn finish_deposit(&mut self, tx_hash: [u8; 32], resolution: Resolution) -> (r: Option<(String, Vec<u8>)>)
        requires
            old(self).wf(),
        ensures
            final(self).wf(),
            final(self).checkpoint == old(self).checkpoint,
            final(self).withdraws() == old(self).withdraws(),
            r is Some <==> (!old(self).transfers().contains(tx_hash)
                && (envelope_spec(resolution) matches Some(e) && claim_bytes(e) is Some)),
            r matches Some((key, payload)) ==> key@ == hash_text(tx_hash@)
                && claim_bytes(envelope_spec(resolution).unwrap()) == Some(payload@)
                && final(self).transfers() == old(self).transfers().push(tx_hash),
            r is None ==> final(self).transfers() == old(self).transfers(),
    {
        if contains_hash(&self.transfers_sent, &tx_hash) {
            return None;
        }
        let envelope = match envelope_of(resolution) {
            None => {
                return None;
            },
            Some(e) => e,
        };
        match claim_payload(&envelope) {
            None => None,
            Some(payload) => {
                self.transfers_sent.push(tx_hash);
                Some((record_key(&tx_hash), payload))
            },
        }
    }
}

/// The checkpoint after records at heights `hs`, in turn.
pub open spec fn checkpoint_after(cp: Option<u64>, hs: Seq<u64>) -> Option<u64>
    decreases hs.len(),
{
    if hs.len() == 0 {
        cp
    } else {
        advance(checkpoint_after(cp, hs.drop_last()), hs.last())
    }
}

/// The checkpoint writes made for records at heights `hs`, in turn.
pub open spec fn checkpoint_writes(cp: Option<u64>, hs: Seq<u64>) -> Seq<u64>
    decreases hs.len(),
{
    if hs.len() == 0 {
        seq![]
    } else {
        let before = checkpoint_writes(cp, hs.drop_last());
        if writes_checkpoint(checkpoint_after(cp, hs.drop_last()), hs.last()) {
            before.push(hs.last())
        } else {
            before
        }
    }
}

/// Checkpoint `a` is at or beyond checkpoint `b`.
pub open spec fn not_behind(a: Option<u64>, b: Option<u64>) -> bool {
    b is None || (a is Some && a.unwrap() >= b.unwrap())
}

pub open spec fn non_decreasing(hs: Seq<u64>) -> bool {
    forall|i: int, j: int| 0 <= i <= j < hs.len() ==> hs[i] <= hs[j]
}

proof fn lemma_checkpoint_prefix(cp: Option<u64>, hs: Seq<u64>, i: int)
    requires
        0 <= i <= hs.len(),
    ensures
        not_behind(checkpoint_after(cp, hs), checkpoint_after(cp, hs.take(i))),
        not_behind(checkpoint_after(cp, hs), cp),
    decreases hs.len(),
{
    if hs.len() > 0 {
        let prev = hs.drop_last();
        if i == hs.len() {
            assert(hs.take(i) =~= hs);
            lemma_checkpoint_prefix(cp, prev, 0);
        } else {
            assert(hs.take(i) =~= prev.take(i));
            lemma_checkpoint_prefix(cp, prev, i);
        }
    }
}

proof fn lemma_checkpoint_follows(cp: Option<u64>, hs: Seq<u64>)
    requires
        non_decreasing(hs),
        hs.len() > 0,
        cp is None || cp.unwrap() <= hs[0],
    ensures
        checkpoint_after(cp, hs) == Some(hs.last()),
    decreases hs.len(),
{
    let prev = hs.drop_last();
    if hs.len() > 1 {
        assert(prev[0] == hs[0]);
        assert(non_decreasing(prev));
        lemma_checkpoint_follows(cp, prev);
        assert(prev.last() == hs[hs.len() - 2]);
        assert(hs[hs.len() - 2] <= hs[hs.len() - 1]);
    } else {
        assert(prev.len() == 0);
        assert(checkpoint_after(cp, prev) == cp);
        assert(hs.last() == hs[0]);
    }
    assert(checkpoint_after(cp, hs) == advance(checkpoint_after(cp, prev), hs.last()));
}

proof fn lemma_checkpoint_writes(cp: Option<u64>, hs: Seq<u64>)
    ensures
        forall|i: int, j: int| 0 <= i < j < checkpoint_writes(cp, hs).len()
            ==> #[trigger] checkpoint_writes(cp, hs)[i] < #[trigger] checkpoint_writes(cp, hs)[j],
        forall|i: int| 0 <= i < checkpoint_writes(cp, hs).len()
            ==> not_behind(checkpoint_after(cp, hs), Some(#[trigger] checkpoint_writes(cp, hs)[i])),
    decreases hs.len(),
{
    if hs.len() > 0 {
        let prev = hs.drop_last();
        lemma_checkpoint_writes(cp, prev);
        lemma_checkpoint_prefix(cp, hs, hs.len() - 1);
        assert(hs.take(hs.len() - 1) =~= prev);
        let before = checkpoint_writes(cp, prev);
        let c = checkpoint_after(cp, prev);
        let h = hs.last();
        let w = checkpoint_writes(cp, hs);
        if writes_checkpoint(c, h) {
            assert(w == before.push(h));
            assert(checkpoint_after(cp, hs) == Some(h));
            assert forall|i: int| 0 <= i < before.len() implies #[trigger] before[i] < h by {
                assert(not_behind(c, Some(before[i])));
            }
            assert forall|i: int, j: int| 0 <= i < j < w.len() implies #[trigger] w[i] < #[trigger] w[j] by {
                if j == w.len() - 1 {
                    assert(w[i] == before[i]);
                } else {
                    assert(w[i] == before[i] && w[j] == before[j]);
                }
            }
            assert forall|i: int| 0 <= i < w.len() implies not_behind(checkpoint_after(cp, hs), Some(#[trigger] w[i])) by {
                if i < w.len() - 1 {
                    assert(w[i] == before[i]);
                    assert(before[i] < h);
                }
            }
        } else {
            assert(w == before);
            assert forall|i: int| 0 <= i < w.len() implies not_behind(checkpoint_after(cp, hs), Some(#[trigger] w[i])) by {
                assert(not_behind(c, Some(before[i])));
            }
        }
    }
}

/// The stored checkpoint never moves back: after more records it is at or
/// beyond where it was. When the heights come in order, from the stored
/// checkpoint on, it equals the height of each record once that record is
/// processed. Each write moves it strictly forward, so no height is written twice.
pub proof fn lemma_monotonic_checkpoint(cp: Option<u64>, hs: Seq<u64>)
    ensures
        forall|i: int, j: int| 0 <= i <= j <= hs.len()
            ==> not_behind(#[trigger] checkpoint_after(cp, hs.take(j)), #[trigger] checkpoint_after(cp, hs.take(i))),
        non_decreasing(hs) && hs.len() > 0 && (cp is None || cp.unwrap() <= hs[0]) ==> forall|i: int|
            0 <= i < hs.len() ==> #[trigger] checkpoint_after(cp, hs.take(i + 1)) == Some(hs[i]),
        forall|i: int, j: int| 0 <= i < j < checkpoint_writes(cp, hs).len()
            ==> #[trigger] checkpoint_writes(cp, hs)[i] < #[trigger] checkpoint_writes(cp, hs)[j],
{
    assert forall|i: int, j: int| 0 <= i <= j <= hs.len()
        implies not_behind(#[trigger] checkpoint_after(cp, hs.take(j)), #[trigger] checkpoint_after(cp, hs.take(i))) by {
        assert(hs.take(j).take(i) =~= hs.take(i));
        lemma_checkpoint_prefix(cp, hs.take(j), i);
    }
    if non_decreasing(hs) && hs.len() > 0 && (cp is None || cp.unwrap() <= hs[0]) {
        assert forall|i: int| 0 <= i < hs.len() implies #[trigger] checkpoint_after(cp, hs.take(i + 1)) == Some(hs[i]) by {
            let p = hs.take(i + 1);
            assert(p[0] == hs[0]);
            assert(p.last() == hs[i]);
            lemma_checkpoint_follows(cp, p);
        }
    }
    lemma_checkpoint_writes(cp, hs);
}

/// The transactions a queue has received after writes of `offers` were
/// asked for in turn, from those in `sent`.
pub open spec fn sent_after(sent: Seq<[u8; 32]>, offers: Seq<[u8; 32]>) -> Seq<[u8; 32]>
    decreases offers.len(),
{
    if offers.len() == 0 {
        sent
    } else {
        note_write(sent_after(sent, offers.drop_last()), offers.last())
    }
}

/// However often a transaction is offered to a queue in one pass, the queue
/// receives it once: the writes hold no transaction twice, every offered
/// transaction is among them, and what was written before stays first.
pub proof fn lemma_no_double_emission(sent: Seq<[u8; 32]>, offers: Seq<[u8; 32]>)
    requires
        sent.no_duplicates(),
    ensures
        sent_after(sent, offers).no_duplicates(),
        forall|i: int| 0 <= i < offers.len() ==> sent_after(sent, offers).contains(#[trigger] offers[i]),
        sent.len() <= sent_after(sent, offers).len() <= sent.len() + offers.len(),
        sent_after(sent, offers).take(sent.len() as int) == sent,
    decreases offers.len(),
{
    if offers.len() > 0 {
        let prev = offers.drop_last();
        lemma_no_double_emission(sent, prev);
        let before = sent_after(sent, prev);
        let after = sent_after(sent, offers);
        assert(after.contains(offers.last())) by {
            if !before.contains(offers.last()) {
                assert(after[after.len() - 1] == offers.last());
            }
        }
        assert forall|i: int| 0 <= i < offers.len() implies after.contains(#[trigger] offers[i]) by {
            if i < offers.len() - 1 {
                assert(prev[i] == offers[i]);
                let k = choose|k: int| 0 <= k < before.len() && before[k] == prev[i];
                assert(after[k] == before[k]);
            }
        }
        assert(after.take(sent.len() as int) =~= before.take(sent.len() as int));
    }
}

} // verus!
