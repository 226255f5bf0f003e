//! Block ranges to scan: a bounded backfill from the checkpoint to the head,
//! then the live subscription.
use vstd::prelude::*;

verus! {

/// A half-open range of block heights, `[start, end)`.
#[derive(Clone, Copy, Debug, PartialEq, Eq, Structural)]
pub struct BlockRange {
    pub start: u64,
    pub end: u64,
}

impl BlockRange {
    pub open spec fn contains(self, x: u64) -> bool {
        self.start <= x < self.end
    }
}

/// First block of the backfill: the stored checkpoint when there is one,
/// otherwise the last `batch` blocks before `head`.
pub open spec fn start_block_spec(checkpoint: Option<u64>, head: u64, batch: u64) -> u64 {
    match checkpoint {
        Some(b) => b,
        None => if head >= batch { (head - batch) as u64 } else { 0 },
    }
}

/// End of the batch that starts at `next`: `min(next + batch, head)`.
pub open spec fn batch_end(next: u64, head: u64, batch: u64) -> u64 {
    if next + batch >= head { head } else { (next + batch) as u64 }
}

/// The ranges that the backfill fetches, in order, from `next` up to `head`.
pub open spec fn ranges_from(next: u64, head: u64, batch: u64) -> Seq<BlockRange>
    decreases head - next,
{
    if batch == 0 || next >= head {
        seq![]
    } else {
        let end = batch_end(next, head, batch);
        seq![BlockRange { start: next, end }] + ranges_from(end, head, batch)
    }
}

pub fn start_block(checkpoint: Option<u64>, head: u64, batch: u64) -> (r: u64)
    ensures
        r == start_block_spec(checkpoint, head, batch),
{
    match checkpoint {
        Some(b) => b,
        None => if head >= batch { head - batch } else { 0 },
    }
}

/// What the scanner asks its caller to do next.
#[derive(Clone, Copy, Debug, PartialEq, Eq, Structural)]
pub enum ScanStep {
    /// Fetch the logs of this range over HTTP.
    Fetch(BlockRange),
    /// The backfill reached the head: follow the live subscription.
    Live,
}

/// The log source's two phases behind one cursor: backfill batches while
/// `next < head`, then live.
pub struct BlockScanner {
    pub next: u64,
    pub head: u64,
    pub batch: u64,
}

impl BlockScanner {
    pub open spec fn wf(&self) -> bool {
        self.batch > 0
    }

    /// The ranges still to be fetched before the live phase.
    pub open spec fn pending(&self) -> Seq<BlockRange> {
        ranges_from(self.next, self.head, self.batch)
    }

    pub fn new(checkpoint: Option<u64>, head: u64, batch: u64) -> (r: BlockScanner)
        requires
            batch > 0,
        ensures
            r.wf(),
            r.next == start_block_spec(checkpoint, head, batch),
            r.head == head,
            r.batch == batch,
    {
        BlockScanner { next: start_block(checkpoint, head, batch), head, batch }
    }

    pub fn is_live(&self) -> (r: bool)
        ensures
            r == (self.next >= self.head),
    {
        self.next >= self.head
    }

    pub fn next_step(&mut self) -> (r: ScanStep)
        requires
            old(self).wf(),
        ensures
            final(self).wf(),
            final(self).head == old(self).head,
            final(self).batch == old(self).batch,
            old(self).pending().len() > 0 ==> r == ScanStep::Fetch(old(self).pending()[0])
                && final(self).pending() == old(self).pending().drop_first(),
            old(self).pending().len() == 0 ==> r == ScanStep::Live && *final(self) == *old(self),
    {
        if self.next >= self.head {
            ScanStep::Live
        } else {
            let end = if self.batch >= self.head - self.next {
                self.head
            } else {
                self.next + self.batch
            };
            let range = BlockRange { start: self.next, end };
            proof {
                let p = ranges_from(self.next, self.head, self.batch);
                assert(p.drop_first() =~= ranges_from(end, self.head, self.batch));
            }
            self.next = end;
            ScanStep::Fetch(range)
        }
    }
}

/// The backfill is used up exactly when the cursor has reached the head;
/// from then on the scanner only answers `Live`.
pub proof fn lemma_live_after_backfill(s: BlockScanner)
    requires
        s.wf(),
    ensures
        s.pending().len() == 0 <==> s.next >= s.head,
{
    if s.next < s.head {
        assert(s.pending().len() > 0);
    }
}

proof fn lemma_ranges_shape(next: u64, head: u64, batch: u64)
    requires
        batch > 0,
    ensures
        ({
            let rs = ranges_from(next, head, batch);
            &&& next >= head ==> rs.len() == 0
            &&& next < head ==> rs.len() > 0 && rs[0].start == next && rs.last().end == head
            &&& forall|i: int| 0 <= i < rs.len() ==> next <= #[trigger] rs[i].start
            &&& forall|i: int|
                0 <= i < rs.len() ==> #[trigger] rs[i].start < rs[i].end && rs[i].end <= head
                    && rs[i].end <= rs[i].start + batch
                    && rs[i].end == batch_end(rs[i].start, head, batch)
            &&& forall|i: int| 0 <= i < rs.len() - 1 ==> #[trigger] rs[i].end == rs[i + 1].start
        }),
    decreases head - next,
{
    if next < head {
        let end = batch_end(next, head, batch);
        lemma_ranges_shape(end, head, batch);
        let rs = ranges_from(next, head, batch);
        let tail = ranges_from(end, head, batch);
        assert(rs == seq![BlockRange { start: next, end }] + tail);
        assert forall|i: int| 0 <= i < rs.len() - 1 implies #[trigger] rs[i].end == rs[i + 1].start by {
            if i > 0 {
                assert(rs[i] == tail[i - 1]);
                assert(rs[i + 1] == tail[i]);
            }
        }
        assert forall|i: int| 0 <= i < rs.len() implies next <= #[trigger] rs[i].start by {
            if i > 0 {
                assert(rs[i] == tail[i - 1]);
            }
        }
        assert forall|i: int| 0 <= i < rs.len() implies #[trigger] rs[i].start < rs[i].end
            && rs[i].end <= head && rs[i].end <= rs[i].start + batch
            && rs[i].end == batch_end(rs[i].start, head, batch) by {
            if i > 0 {
                assert(rs[i] == tail[i - 1]);
            }
        }
    }
}

/// Some range of `rs` holds block `x`.
pub open spec fn covered(rs: Seq<BlockRange>, x: u64) -> bool {
    exists|i: int| 0 <= i < rs.len() && #[trigger] rs[i].contains(x)
}

/// The backfill from `from` to `head` in batches of `batch` tiles `[from, head)`:
/// it starts at `from`, ends at `head`, each range is non-empty and at most
/// `batch` long, each starts where the one before ended, and every block of
/// `[from, head)` lies in exactly one range.
pub proof fn lemma_backfill_tiles(from: u64, head: u64, batch: u64)
    requires
        batch > 0,
    ensures
        ({
            let rs = ranges_from(from, head, batch);
            &&& from >= head ==> rs.len() == 0
            &&& from < head ==> rs.len() > 0 && rs[0].start == from && rs.last().end == head
            &&& forall|i: int|
                0 <= i < rs.len() ==> #[trigger] rs[i].start < rs[i].end && rs[i].end - rs[i].start <= batch
            &&& forall|i: int| 0 <= i < rs.len() - 1 ==> #[trigger] rs[i].end == rs[i + 1].start
            &&& forall|x: u64| from <= x < head ==> #[trigger] covered(rs, x)
            &&& forall|x: u64, i: int, j: int|
                0 <= i < rs.len() && 0 <= j < rs.len() && #[trigger] rs[i].contains(x)
                    && #[trigger] rs[j].contains(x) ==> i == j
        }),
{
    lemma_ranges_shape(from, head, batch);
    let rs = ranges_from(from, head, batch);
    lemma_ranges_ordered(rs);
    assert forall|x: u64| from <= x < head implies #[trigger] covered(rs, x) by {
        lemma_range_covering(rs, x, from, head);
    }
}

/// Consecutive non-empty ranges: a later range starts at or after an earlier one's end.
proof fn lemma_ranges_ordered(rs: Seq<BlockRange>)
    requires
        forall|i: int| 0 <= i < rs.len() ==> #[trigger] rs[i].start < rs[i].end,
        forall|i: int| 0 <= i < rs.len() - 1 ==> #[trigger] rs[i].end == rs[i + 1].start,
    ensures
        forall|i: int, j: int| 0 <= i < j < rs.len() ==> #[trigger] rs[i].end <= #[trigger] rs[j].start,
{
    assert forall|i: int, j: int| 0 <= i < j < rs.len() implies #[trigger] rs[i].end <= #[trigger] rs[j].start by {
        lemma_ranges_ordered_from(rs, i, j);
    }
}

proof fn lemma_ranges_ordered_from(rs: Seq<BlockRange>, i: int, j: int)
    requires
        forall|k: int| 0 <= k < rs.len() ==> #[trigger] rs[k].start < rs[k].end,
        forall|k: int| 0 <= k < rs.len() - 1 ==> #[trigger] rs[k].end == rs[k + 1].start,
        0 <= i < j < rs.len(),
    ensures
        rs[i].end <= rs[j].start,
    decreases j - i,
{
    if j > i + 1 {
        lemma_ranges_ordered_from(rs, i, j - 1);
        assert(rs[j - 1].end == rs[j].start);
    }
}

proof fn lemma_range_covering(rs: Seq<BlockRange>, x: u64, from: u64, head: u64)
    requires
        rs.len() > 0,
        rs[0].start == from,
        rs.last().end == head,
        from <= x < head,
        forall|i: int| 0 <= i < rs.len() - 1 ==> #[trigger] rs[i].end == rs[i + 1].start,
    ensures
        covered(rs, x),
    decreases rs.len(),
{
    if x < rs[0].end {
        assert(rs[0].contains(x));
    } else {
        let tail = rs.drop_first();
        assert forall|i: int| 0 <= i < tail.len() - 1 implies #[trigger] tail[i].end == tail[i + 1].start by {
            assert(rs[i + 1].end == rs[i + 2].start);
        }
        assert(tail.len() > 0) by {
            if rs.len() == 1 {
                assert(rs.last() == rs[0]);
            }
        }
        assert(tail.last() == rs.last());
        lemma_range_covering(tail, x, rs[1].start, head);
        let i = choose|i: int| 0 <= i < tail.len() && #[trigger] tail[i].contains(x);
        assert(rs[i + 1] == tail[i]);
    }
}

} // verus!
