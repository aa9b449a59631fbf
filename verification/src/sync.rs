//! The sync ledger: which milestone indexes of a queried range are archived and
//! logged, which are archived only, and which are missing altogether.

use std::ops::Range;
use vstd::prelude::*;

verus! {

/// A half-open range `[from, to)` of milestone indexes to reconcile.
#[derive(Debug, Copy, Clone, PartialEq, Eq, Structural)]
pub struct SyncRange {
    /// The first milestone index of the range.
    pub from: u32,
    /// The milestone index at which the range ends; not part of the range.
    pub to: u32,
}

/// One row of the sync table: a milestone that the storage holds.
#[derive(Debug, Copy, Clone, PartialEq, Eq, Structural)]
pub struct SyncRecord {
    /// The index of the archived milestone.
    pub milestone_index: u32,
    /// Who flushed the milestone to a log file, if anybody did yet.
    pub logged_by: Option<u8>,
}

/// Whether some range of `ranges` holds the index `x`.
pub open spec fn covers(ranges: Seq<Range<u32>>, x: int) -> bool {
    exists|i: int| 0 <= i < ranges.len() && (#[trigger] ranges[i]).start <= x < ranges[i].end
}

/// Every range is non-empty, and each range lies wholly below the one before it.
pub open spec fn descending(ranges: Seq<Range<u32>>) -> bool {
    &&& forall|i: int| 0 <= i < ranges.len() ==> (#[trigger] ranges[i]).start < ranges[i].end
    &&& forall|i: int, j: int|
        0 <= i < j < ranges.len() ==> (#[trigger] ranges[j]).end <= (#[trigger] ranges[i]).start
}

/// No two ranges touch: an index lies between any two of them.
pub open spec fn separated(ranges: Seq<Range<u32>>) -> bool {
    forall|i: int, j: int|
        0 <= i < j < ranges.len() ==> (#[trigger] ranges[j]).end < (#[trigger] ranges[i]).start
}

/// No range of `a` shares an index with a range of `b`.
pub open spec fn apart(a: Seq<Range<u32>>, b: Seq<Range<u32>>) -> bool {
    forall|i: int, j: int|
        0 <= i < a.len() && 0 <= j < b.len() ==> (#[trigger] a[i]).end <= (#[trigger] b[j]).start
            || b[j].end <= a[i].start
}

/// Whether the stream holds a record of the milestone `x`.
pub open spec fn recorded(records: Seq<SyncRecord>, x: int) -> bool {
    exists|i: int| 0 <= i < records.len() && (#[trigger] records[i]).milestone_index == x
}

/// Whether the stream holds a record of the milestone `x` that is logged.
pub open spec fn logged(records: Seq<SyncRecord>, x: int) -> bool {
    exists|i: int|
        0 <= i < records.len() && (#[trigger] records[i]).milestone_index == x
            && records[i].logged_by is Some
}

/// Whether the stream holds a record of the milestone `x` that is not logged.
pub open spec fn unlogged(records: Seq<SyncRecord>, x: int) -> bool {
    exists|i: int|
        0 <= i < records.len() && (#[trigger] records[i]).milestone_index == x
            && records[i].logged_by is None
}

/// What the storage promises of the rows it returns for `range`: every row
/// lies in the range, and the rows come by strictly descending index.
pub open spec fn descending_within(records: Seq<SyncRecord>, range: SyncRange) -> bool {
    &&& range.from <= range.to
    &&& forall|i: int|
        0 <= i < records.len() ==> range.from <= (#[trigger] records[i]).milestone_index < range.to
    &&& forall|i: int, j: int|
        0 <= i < j < records.len() ==> (#[trigger] records[j]).milestone_index < (
        #[trigger] records[i]).milestone_index
}

impl SyncRange {
    /// Whether `records` is a stream that the storage can have returned for
    /// this range: every row in the range, and the rows by strictly descending
    /// index.
    pub fn admits(&self, records: &Vec<SyncRecord>) -> (ok: bool)
        ensures
            ok == descending_within(records@, *self),
    {
        if self.from > self.to {
            return false;
        }
        let n: usize = records.len();
        let mut k: usize = 0;
        while k < n
            invariant
                k <= n,
                n == records.len(),
                self.from <= self.to,
                forall|i: int|
                    0 <= i < k ==> self.from <= (#[trigger] records@[i]).milestone_index < self.to,
                forall|i: int, j: int|
                    0 <= i < j < k ==> (#[trigger] records@[j]).milestone_index < (
                    #[trigger] records@[i]).milestone_index,
            decreases n - k,
        {
            let index: u32 = records[k].milestone_index;
            if index < self.from || index >= self.to {
                return false;
            }
            if k > 0 && records[k - 1].milestone_index <= index {
                return false;
            }
            proof {
                assert forall|i: int, j: int| 0 <= i < j < k + 1 implies (
                #[trigger] records@[j]).milestone_index < (
                #[trigger] records@[i]).milestone_index by {
                    if j == k && i < k - 1 {
                        assert(records@[k - 1].milestone_index < records@[i].milestone_index);
                    }
                }
            }
            k += 1;
        }
        true
    }
}

/// What came back from the request for the sync records of a range.
#[derive(Debug, Clone, PartialEq, Eq)]
pub enum SelectResponse {
    /// The channel of the response closed before any answer came.
    Closed,
    /// The request failed and its retries are used up.
    Exhausted,
    /// The rows of the range, highest index first; none if the storage holds
    /// nothing of the range.
    Rows(Vec<SyncRecord>),
}

/// Why sync data could not be fetched.
#[derive(Debug, Copy, Clone, PartialEq, Eq, Structural)]
pub enum FetchError {
    /// The channel of the response closed before any answer came.
    ChannelClosed,
    /// The request failed and its retries are used up.
    RetriesExhausted,
}

/// The record of a sync table over one range of milestone indexes, as three
/// lists of half-open ranges. In each list the ranges descend, so the last
/// range of a list is its lowest.
#[derive(Debug, Clone, PartialEq, Eq)]
pub struct SyncData {
    /// The milestones that are archived and logged.
    pub(crate) completed: Vec<Range<u32>>,
    /// The milestones that are archived but not logged yet.
    pub(crate) synced_but_unlogged: Vec<Range<u32>>,
    /// The milestones that are missing.
    pub(crate) gaps: Vec<Range<u32>>,
}

/// What a `SyncData` holds, as three sequences of ranges.
pub ghost struct SyncDataView {
    pub completed: Seq<Range<u32>>,
    pub synced_but_unlogged: Seq<Range<u32>>,
    pub gaps: Seq<Range<u32>>,
}

impl View for SyncData {
    type V = SyncDataView;

    closed spec fn view(&self) -> SyncDataView {
        SyncDataView {
            completed: self.completed@,
            synced_but_unlogged: self.synced_but_unlogged@,
            gaps: self.gaps@,
        }
    }
}

impl SyncDataView {
    /// The gaps and the unlogged ranges each descend, and no index lies in
    /// two of them.
    pub open spec fn uncomplete_wf(self) -> bool {
        &&& descending(self.synced_but_unlogged)
        &&& descending(self.gaps)
        &&& apart(self.synced_but_unlogged, self.gaps)
    }

    /// Each list descends and no index lies in two ranges.
    pub open spec fn wf(self) -> bool {
        &&& descending(self.completed)
        &&& apart(self.completed, self.synced_but_unlogged)
        &&& apart(self.completed, self.gaps)
        &&& self.uncomplete_wf()
    }

    /// The lists say of each index of `range` what the stream says of it, and
    /// nothing of any other index. No two ranges of one list touch, so each
    /// list is the shortest there is for the indexes it holds.
    pub open spec fn reconciles(self, records: Seq<SyncRecord>, range: SyncRange) -> bool {
        &&& forall|x: int| #[trigger] covers(self.completed, x) <==> logged(records, x)
        &&& forall|x: int| #[trigger] covers(self.synced_but_unlogged, x) <==> unlogged(records, x)
        &&& forall|x: int| #[trigger]
            covers(self.gaps, x) <==> range.from <= x < range.to && !recorded(records, x)
        &&& descending(self.completed) && separated(self.completed)
        &&& descending(self.synced_but_unlogged) && separated(self.synced_but_unlogged)
        &&& descending(self.gaps) && separated(self.gaps)
    }

    /// Every index of `range` lies in exactly one of the three lists, and no
    /// other index lies in any.
    pub open spec fn partitions(self, range: SyncRange) -> bool {
        forall|x: int|
            #![trigger covers(self.completed, x)]
            #![trigger covers(self.synced_but_unlogged, x)]
            #![trigger covers(self.gaps, x)]
            {
                let c = covers(self.completed, x);
                let u = covers(self.synced_but_unlogged, x);
                let g = covers(self.gaps, x);
                if range.from <= x < range.to {
                    (c && !u && !g) || (!c && u && !g) || (!c && !u && g)
                } else {
                    !c && !u && !g
                }
            }
    }

    /// Whether the lowest range that is not completed is a gap: the lowest gap
    /// wins over the lowest unlogged range unless that one starts lower.
    pub open spec fn lowest_is_gap(self) -> bool {
        self.gaps.len() > 0 && (self.synced_but_unlogged.len() == 0 || self.gaps.last().start
            <= self.synced_but_unlogged.last().start)
    }

    /// The lowest range that is a gap or unlogged, if there is any.
    pub open spec fn lowest_gap_or_unlogged(self) -> Option<Range<u32>> {
        if self.lowest_is_gap() {
            Some(self.gaps.last())
        } else if self.synced_but_unlogged.len() > 0 {
            Some(self.synced_but_unlogged.last())
        } else {
            None
        }
    }

    /// What is left once the lowest gap or unlogged range is taken.
    pub open spec fn without_lowest(self) -> SyncDataView {
        if self.lowest_is_gap() {
            SyncDataView { gaps: self.gaps.drop_last(), ..self }
        } else if self.synced_but_unlogged.len() > 0 {
            SyncDataView { synced_but_unlogged: self.synced_but_unlogged.drop_last(), ..self }
        } else {
            self
        }
    }

    /// Whether the index `x` is missing or archived without a log: whether a
    /// gap or an unlogged range holds it.
    pub open spec fn uncomplete(self, x: int) -> bool {
        covers(self.gaps, x) || covers(self.synced_but_unlogged, x)
    }

    /// How many ranges are gaps or unlogged.
    pub open spec fn uncomplete_len(self) -> nat {
        self.gaps.len() + self.synced_but_unlogged.len()
    }

    /// Where a run of touching ranges that has reached `end` stops: as long as
    /// the lowest remaining range starts at `end`, the run takes it.
    pub open spec fn run_end(self, end: u32) -> u32
        decreases self.uncomplete_len(),
    {
        match self.lowest_gap_or_unlogged() {
            Some(next) if next.start == end => self.without_lowest().run_end(next.end),
            _ => end,
        }
    }

    /// What is left of the lists after the run that has reached `end`.
    pub open spec fn after_run(self, end: u32) -> SyncDataView
        decreases self.uncomplete_len(),
    {
        match self.lowest_gap_or_unlogged() {
            Some(next) if next.start == end => self.without_lowest().after_run(next.end),
            _ => self,
        }
    }
}

/// What `proceed` makes of a list: the milestone joins the last range if
/// `check` holds and that range starts right above it, else it gets a range of
/// its own at the end.
pub open spec fn proceeded(ranges: Seq<Range<u32>>, milestone_index: u32, check: bool) -> Seq<
    Range<u32>,
> {
    if ranges.len() > 0 && check && ranges.last().start == milestone_index + 1 {
        ranges.drop_last().push(Range { start: milestone_index, end: ranges.last().end })
    } else {
        ranges.push(Range { start: milestone_index, end: (milestone_index + 1) as u32 })
    }
}

/// No range of `ranges` starts below `bound`.
pub open spec fn starts_from(ranges: Seq<Range<u32>>, bound: int) -> bool {
    forall|i: int| 0 <= i < ranges.len() ==> (#[trigger] ranges[i]).start >= bound
}

/// A list with one more range holds what the list held and what the range holds.
proof fn lemma_covers_push(ranges: Seq<Range<u32>>, r: Range<u32>)
    ensures
        forall|x: int| #[trigger]
            covers(ranges.push(r), x) <==> covers(ranges, x) || r.start <= x < r.end,
{
    let pushed = ranges.push(r);
    assert forall|x: int| #[trigger]
        covers(pushed, x) <==> covers(ranges, x) || r.start <= x < r.end by {
        if covers(pushed, x) {
            let i = choose|i: int|
                0 <= i < pushed.len() && (#[trigger] pushed[i]).start <= x < pushed[i].end;
            if i < ranges.len() {
                assert(ranges[i] == pushed[i]);
            }
        }
        if covers(ranges, x) {
            let i = choose|i: int|
                0 <= i < ranges.len() && (#[trigger] ranges[i]).start <= x < ranges[i].end;
            assert(pushed[i] == ranges[i]);
        }
        if r.start <= x < r.end {
            assert(pushed[ranges.len() as int] == r);
        }
    }
}

/// A list holds what its last range holds and what the ranges before it hold.
proof fn lemma_covers_drop_last(ranges: Seq<Range<u32>>)
    requires
        ranges.len() > 0,
    ensures
        forall|x: int| #[trigger]
            covers(ranges, x) <==> covers(ranges.drop_last(), x) || ranges.last().start <= x
                < ranges.last().end,
{
    assert(ranges.drop_last().push(ranges.last()) =~= ranges);
    lemma_covers_push(ranges.drop_last(), ranges.last());
}

/// Filing a milestone that lies below every range of a well-kept list keeps the
/// list well kept and adds that one index to what it holds.
proof fn lemma_proceeded(ranges: Seq<Range<u32>>, milestone_index: u32, check: bool)
    requires
        milestone_index < u32::MAX,
        descending(ranges),
        separated(ranges),
        starts_from(ranges, milestone_index + 1),
        ranges.len() > 0 && ranges.last().start == milestone_index + 1 ==> check,
    ensures
        descending(proceeded(ranges, milestone_index, check)),
        separated(proceeded(ranges, milestone_index, check)),
        starts_from(proceeded(ranges, milestone_index, check), milestone_index as int),
        forall|x: int| #[trigger]
            covers(proceeded(ranges, milestone_index, check), x) <==> covers(ranges, x) || x
                == milestone_index,
{
    let filed = proceeded(ranges, milestone_index, check);
    if ranges.len() > 0 && check && ranges.last().start == milestone_index + 1 {
        let front = ranges.drop_last();
        let joined = Range { start: milestone_index, end: ranges.last().end };
        assert(filed == front.push(joined));
        lemma_covers_push(front, joined);
        lemma_covers_drop_last(ranges);
        assert forall|i: int| 0 <= i < filed.len() implies (#[trigger] filed[i]).start
            < filed[i].end && filed[i].start >= milestone_index by {
            if i < front.len() {
                assert(filed[i] == ranges[i]);
            }
        }
        assert forall|i: int, j: int| 0 <= i < j < filed.len() implies (#[trigger] filed[j]).end < (
        #[trigger] filed[i]).start by {
            assert(filed[i] == ranges[i]);
            if j < front.len() {
                assert(filed[j] == ranges[j]);
            } else {
                assert(filed[j].end == ranges[j].end);
            }
        }
    } else {
        let single = Range { start: milestone_index, end: (milestone_index + 1) as u32 };
        assert(filed == ranges.push(single));
        lemma_covers_push(ranges, single);
        assert forall|i: int| 0 <= i < ranges.len() implies (#[trigger] ranges[i]).start
            > milestone_index + 1 by {
            if i < ranges.len() - 1 {
                assert(ranges[ranges.len() - 1].end < ranges[i].start);
            }
        }
        assert forall|i: int| 0 <= i < filed.len() implies (#[trigger] filed[i]).start
            < filed[i].end && filed[i].start >= milestone_index by {
            if i < ranges.len() {
                assert(filed[i] == ranges[i]);
            }
        }
        assert forall|i: int, j: int| 0 <= i < j < filed.len() implies (#[trigger] filed[j]).end < (
        #[trigger] filed[i]).start by {
            assert(filed[i] == ranges[i]);
            if j < ranges.len() {
                assert(filed[j] == ranges[j]);
            }
        }
    }
}

/// Recording the range `gap`, which lies below every range of a well-kept
/// list and does not touch any, keeps the list well kept.
proof fn lemma_gap_pushed(ranges: Seq<Range<u32>>, gap: Range<u32>)
    requires
        descending(ranges),
        separated(ranges),
        gap.start < gap.end,
        starts_from(ranges, gap.end + 1),
    ensures
        descending(ranges.push(gap)),
        separated(ranges.push(gap)),
        starts_from(ranges.push(gap), gap.start as int),
{
    let pushed = ranges.push(gap);
    assert forall|i: int| 0 <= i < pushed.len() implies (#[trigger] pushed[i]).start
        < pushed[i].end && pushed[i].start >= gap.start by {
        if i < ranges.len() {
            assert(pushed[i] == ranges[i]);
        }
    }
    assert forall|i: int, j: int| 0 <= i < j < pushed.len() implies (#[trigger] pushed[j]).end < (
    #[trigger] pushed[i]).start by {
        assert(pushed[i] == ranges[i]);
        if j < ranges.len() {
            assert(pushed[j] == ranges[j]);
        }
    }
}

/// What one more record adds to what a stream says.
proof fn lemma_take_step(records: Seq<SyncRecord>, k: int)
    requires
        0 <= k < records.len(),
    ensures
        forall|x: int| #[trigger]
            recorded(records.take(k + 1), x) <==> recorded(records.take(k), x)
                || records[k].milestone_index == x,
        forall|x: int| #[trigger]
            logged(records.take(k + 1), x) <==> logged(records.take(k), x) || (
            records[k].milestone_index == x && records[k].logged_by is Some),
        forall|x: int| #[trigger]
            unlogged(records.take(k + 1), x) <==> unlogged(records.take(k), x) || (
            records[k].milestone_index == x && records[k].logged_by is None),
{
    let short = records.take(k);
    let long = records.take(k + 1);
    assert(long =~= short.push(records[k]));
    assert forall|x: int| #[trigger]
        recorded(long, x) <==> recorded(short, x) || records[k].milestone_index == x by {
        if recorded(long, x) {
            let i = choose|i: int| 0 <= i < long.len() && (#[trigger] long[i]).milestone_index == x;
            if i < k {
                assert(short[i] == long[i]);
            }
        }
        if recorded(short, x) {
            let i = choose|i: int|
                0 <= i < short.len() && (#[trigger] short[i]).milestone_index == x;
            assert(long[i] == short[i]);
        }
        if records[k].milestone_index == x {
            assert(long[k] == records[k]);
        }
    }
    assert forall|x: int| #[trigger]
        logged(long, x) <==> logged(short, x) || (records[k].milestone_index == x
            && records[k].logged_by is Some) by {
        if logged(long, x) {
            let i = choose|i: int|
                0 <= i < long.len() && (#[trigger] long[i]).milestone_index == x
                    && long[i].logged_by is Some;
            if i < k {
                assert(short[i] == long[i]);
            }
        }
        if logged(short, x) {
            let i = choose|i: int|
                0 <= i < short.len() && (#[trigger] short[i]).milestone_index == x
                    && short[i].logged_by is Some;
            assert(long[i] == short[i]);
        }
        if records[k].milestone_index == x && records[k].logged_by is Some {
            assert(long[k] == records[k]);
        }
    }
    assert forall|x: int| #[trigger]
        unlogged(long, x) <==> unlogged(short, x) || (records[k].milestone_index == x
            && records[k].logged_by is None) by {
        if unlogged(long, x) {
            let i = choose|i: int|
                0 <= i < long.len() && (#[trigger] long[i]).milestone_index == x
                    && long[i].logged_by is None;
            if i < k {
                assert(short[i] == long[i]);
            }
        }
        if unlogged(short, x) {
            let i = choose|i: int|
                0 <= i < short.len() && (#[trigger] short[i]).milestone_index == x
                    && short[i].logged_by is None;
            assert(long[i] == short[i]);
        }
        if records[k].milestone_index == x && records[k].logged_by is None {
            assert(long[k] == records[k]);
        }
    }
}

/// The first `k` rows of a descending stream all lie above the index that
/// comes after them, so the stream says nothing below it.
proof fn lemma_row_below(records: Seq<SyncRecord>, k: int)
    requires
        0 <= k <= records.len(),
        forall|i: int, j: int|
            0 <= i < j < records.len() ==> (#[trigger] records[j]).milestone_index < (
            #[trigger] records[i]).milestone_index,
    ensures
        forall|x: int|
            recorded(records.take(k), x) ==> k > 0 && x >= records[k - 1].milestone_index,
        k > 0 ==> recorded(records.take(k), records[k - 1].milestone_index as int),
{
    let short = records.take(k);
    assert forall|x: int| recorded(short, x) implies k > 0 && x >= records[k
        - 1].milestone_index by {
        let i = choose|i: int| 0 <= i < short.len() && (#[trigger] short[i]).milestone_index == x;
        assert(short[i] == records[i]);
        if i < k - 1 {
            assert(records[k - 1].milestone_index < records[i].milestone_index);
        }
    }
    if k > 0 {
        assert(short[k - 1] == records[k - 1]);
    }
}

/// In a descending stream only the row right before the `k`-th can hold the
/// index of that row: so whether that index is logged is what that row says.
proof fn lemma_row_unique(records: Seq<SyncRecord>, k: int, x: int)
    requires
        0 < k <= records.len(),
        x == records[k - 1].milestone_index,
        forall|i: int, j: int|
            0 <= i < j < records.len() ==> (#[trigger] records[j]).milestone_index < (
            #[trigger] records[i]).milestone_index,
    ensures
        logged(records.take(k), x) ==> records[k - 1].logged_by is Some,
        unlogged(records.take(k), x) ==> records[k - 1].logged_by is None,
{
    let short = records.take(k);
    if logged(short, x) {
        let i = choose|i: int|
            0 <= i < short.len() && (#[trigger] short[i]).milestone_index == x
                && short[i].logged_by is Some;
        assert(short[i] == records[i]);
        if i < k - 1 {
            assert(records[k - 1].milestone_index < records[i].milestone_index);
        }
    }
    if unlogged(short, x) {
        let i = choose|i: int|
            0 <= i < short.len() && (#[trigger] short[i]).milestone_index == x
                && short[i].logged_by is None;
        assert(short[i] == records[i]);
        if i < k - 1 {
            assert(records[k - 1].milestone_index < records[i].milestone_index);
        }
    }
}

/// Two ranges that share no index lie one wholly below the other.
proof fn lemma_apart_by_covers(a: Seq<Range<u32>>, b: Seq<Range<u32>>)
    requires
        descending(a),
        descending(b),
        forall|x: int| !(#[trigger] covers(a, x) && covers(b, x)),
    ensures
        apart(a, b),
{
    assert forall|i: int, j: int| 0 <= i < a.len() && 0 <= j < b.len() implies (#[trigger] a[i]).end
        <= (#[trigger] b[j]).start || b[j].end <= a[i].start by {
        if a[i].end > b[j].start && b[j].end > a[i].start {
            let x: int = if a[i].start >= b[j].start {
                a[i].start as int
            } else {
                b[j].start as int
            };
            assert(a[i].start <= x < a[i].end);
            assert(b[j].start <= x < b[j].end);
            assert(covers(a, x) && covers(b, x));
        }
    }
}

/// Sync data that says of each index of a range what a stream of its rows
/// says is well formed, and its three lists share the range out among them:
/// every index of the range lies in exactly one list, no other index in any.
pub proof fn lemma_reconciled_partitions(
    data: SyncDataView,
    records: Seq<SyncRecord>,
    range: SyncRange,
)
    requires
        descending_within(records, range),
        data.reconciles(records, range),
    ensures
        data.wf(),
        data.partitions(range),
{
    assert forall|x: int|
        #![trigger covers(data.completed, x)]
        #![trigger covers(data.synced_but_unlogged, x)]
        #![trigger covers(data.gaps, x)]
        {
            let c = covers(data.completed, x);
            let u = covers(data.synced_but_unlogged, x);
            let g = covers(data.gaps, x);
            if range.from <= x < range.to {
                (c && !u && !g) || (!c && u && !g) || (!c && !u && g)
            } else {
                !c && !u && !g
            }
        } by {
        if logged(records, x) {
            let i = choose|i: int|
                0 <= i < records.len() && (#[trigger] records[i]).milestone_index == x
                    && records[i].logged_by is Some;
            if unlogged(records, x) {
                let j = choose|j: int|
                    0 <= j < records.len() && (#[trigger] records[j]).milestone_index == x
                        && records[j].logged_by is None;
                if i < j {
                    assert(records[j].milestone_index < records[i].milestone_index);
                } else if j < i {
                    assert(records[i].milestone_index < records[j].milestone_index);
                }
            }
        }
        if recorded(records, x) {
            let i = choose|i: int|
                0 <= i < records.len() && (#[trigger] records[i]).milestone_index == x;
            assert(logged(records, x) || unlogged(records, x));
        }
    }
    lemma_apart_by_covers(data.completed, data.synced_but_unlogged);
    lemma_apart_by_covers(data.completed, data.gaps);
    lemma_apart_by_covers(data.synced_but_unlogged, data.gaps);
}

/// In a descending list every index that a range holds lies at or above the
/// start of the last range, and what the ranges before the last hold lies at
/// or above its end.
proof fn lemma_last_is_lowest(ranges: Seq<Range<u32>>)
    requires
        descending(ranges),
        ranges.len() > 0,
    ensures
        descending(ranges.drop_last()),
        forall|x: int| #[trigger] covers(ranges.drop_last(), x) ==> x >= ranges.last().end,
        forall|x: int| #[trigger]
            covers(ranges, x) <==> covers(ranges.drop_last(), x) || ranges.last().start <= x
                < ranges.last().end,
{
    let front = ranges.drop_last();
    lemma_covers_drop_last(ranges);
    assert forall|x: int| #[trigger] covers(front, x) implies x >= ranges.last().end by {
        let i = choose|i: int| 0 <= i < front.len() && (#[trigger] front[i]).start <= x < front[i].end;
        assert(front[i] == ranges[i]);
        assert(ranges[ranges.len() - 1].end <= ranges[i].start);
    }
    assert forall|i: int, j: int| 0 <= i < j < front.len() implies (#[trigger] front[j]).end <= (
    #[trigger] front[i]).start by {
        assert(front[i] == ranges[i] && front[j] == ranges[j]);
    }
    assert forall|i: int| 0 <= i < front.len() implies (#[trigger] front[i]).start
        < front[i].end by {
        assert(front[i] == ranges[i]);
    }
}

/// Dropping the last range of a list in which no two ranges touch leaves
/// such a list.
proof fn lemma_separated_drop_last(ranges: Seq<Range<u32>>)
    requires
        separated(ranges),
        ranges.len() > 0,
    ensures
        separated(ranges.drop_last()),
{
    let front = ranges.drop_last();
    assert forall|i: int, j: int| 0 <= i < j < front.len() implies (#[trigger] front[j]).end < (
    #[trigger] front[i]).start by {
        assert(front[i] == ranges[i] && front[j] == ranges[j]);
    }
}

/// The index at which the last range of a list ends lies in no range of the
/// list, if the list descends and no two of its ranges touch.
proof fn lemma_end_of_last_is_free(ranges: Seq<Range<u32>>)
    requires
        descending(ranges),
        separated(ranges),
        ranges.len() > 0,
    ensures
        !covers(ranges, ranges.last().end as int),
{
    let last = ranges.len() - 1;
    if covers(ranges, ranges.last().end as int) {
        let i = choose|i: int|
            0 <= i < ranges.len() && (#[trigger] ranges[i]).start <= ranges.last().end
                < ranges[i].end;
        if i < last {
            assert(ranges[last].end < ranges[i].start);
        }
    }
}

/// A list is what it holds: two lists that descend, in which no two ranges
/// touch, and that hold the same indexes are the same list.
pub proof fn lemma_same_indexes_same_list(a: Seq<Range<u32>>, b: Seq<Range<u32>>)
    requires
        descending(a) && separated(a),
        descending(b) && separated(b),
        forall|x: int| #[trigger] covers(a, x) <==> covers(b, x),
    ensures
        a == b,
    decreases a.len(),
{
    if a.len() == 0 {
        if b.len() > 0 {
            assert(b[0].start <= b[0].start < b[0].end);
            assert(covers(b, b[0].start as int));
            assert(covers(a, b[0].start as int));
        }
        assert(a =~= b);
    } else {
        let low_a = a.last();
        assert(a[a.len() - 1].start < a[a.len() - 1].end);
        assert(covers(a, low_a.start as int));
        assert(covers(b, low_a.start as int));
        let low_b = b.last();
        assert(b[b.len() - 1].start < b[b.len() - 1].end);
        assert(covers(b, low_b.start as int));
        assert(covers(a, low_b.start as int));
        lemma_last_is_lowest(a);
        lemma_last_is_lowest(b);
        lemma_end_of_last_is_free(a);
        lemma_end_of_last_is_free(b);
        assert(low_a.start == low_b.start);
        if low_a.end < low_b.end {
            assert(covers(b, low_a.end as int));
        }
        if low_b.end < low_a.end {
            assert(covers(a, low_b.end as int));
        }
        assert(low_a == low_b);
        lemma_separated_drop_last(a);
        lemma_separated_drop_last(b);
        assert forall|x: int| #[trigger]
            covers(a.drop_last(), x) <==> covers(b.drop_last(), x) by {
            assert(covers(a, x) <==> covers(b, x));
        }
        lemma_same_indexes_same_list(a.drop_last(), b.drop_last());
        assert(a =~= a.drop_last().push(low_a));
        assert(b =~= b.drop_last().push(low_b));
    }
}

/// What a stream says of a range leaves no choice: there is one sync data
/// that reconciles them.
pub proof fn lemma_reconciled_is_unique(
    first: SyncDataView,
    second: SyncDataView,
    records: Seq<SyncRecord>,
    range: SyncRange,
)
    requires
        first.reconciles(records, range),
        second.reconciles(records, range),
    ensures
        first == second,
{
    lemma_same_indexes_same_list(first.completed, second.completed);
    lemma_same_indexes_same_list(first.synced_but_unlogged, second.synced_but_unlogged);
    lemma_same_indexes_same_list(first.gaps, second.gaps);
}

/// Dropping the last range of one list keeps it apart from another.
proof fn lemma_apart_drop_last(a: Seq<Range<u32>>, b: Seq<Range<u32>>)
    requires
        apart(a, b),
    ensures
        a.len() > 0 ==> apart(a.drop_last(), b),
        b.len() > 0 ==> apart(a, b.drop_last()),
{
    if a.len() > 0 {
        let front = a.drop_last();
        assert forall|i: int, j: int| 0 <= i < front.len() && 0 <= j < b.len() implies (
        #[trigger] front[i]).end <= (#[trigger] b[j]).start || b[j].end <= front[i].start by {
            assert(front[i] == a[i]);
        }
    }
    if b.len() > 0 {
        let front = b.drop_last();
        assert forall|i: int, j: int| 0 <= i < a.len() && 0 <= j < front.len() implies (
        #[trigger] a[i]).end <= (#[trigger] front[j]).start || front[j].end <= a[i].start by {
            assert(front[j] == b[j]);
        }
    }
}

/// In a descending list that is apart from the range `low`, what lies at or
/// above the start of `low` lies at or above its end too.
proof fn lemma_other_list_above(ranges: Seq<Range<u32>>, low: Range<u32>)
    requires
        descending(ranges),
        low.start < low.end,
        forall|i: int|
            0 <= i < ranges.len() ==> low.end <= (#[trigger] ranges[i]).start || ranges[i].end
                <= low.start,
        ranges.len() > 0 ==> low.start <= ranges.last().start,
    ensures
        forall|x: int| #[trigger] covers(ranges, x) ==> x >= low.end,
{
    assert forall|x: int| #[trigger] covers(ranges, x) implies x >= low.end by {
        let i = choose|i: int|
            0 <= i < ranges.len() && (#[trigger] ranges[i]).start <= x < ranges[i].end;
        let last = ranges.len() - 1;
        assert(ranges[last].start < ranges[last].end);
        if i < last {
            assert(ranges[last].end <= ranges[i].start);
        }
    }
}

/// Where the gaps and the unlogged ranges are well formed, the lowest gap or
/// unlogged range holds the lowest indexes that are not completed: nothing
/// uncomplete lies below its start, and what is left without it lies at or
/// above its end. The completed ranges play no part.
pub proof fn lemma_lowest_gap_or_unlogged(data: SyncDataView)
    requires
        data.uncomplete_wf(),
        data.lowest_gap_or_unlogged() is Some,
    ensures
        ({
            let lowest = data.lowest_gap_or_unlogged()->0;
            let rest = data.without_lowest();
            &&& lowest.start < lowest.end
            &&& rest.uncomplete_wf()
            &&& data.wf() ==> rest.wf()
            &&& rest.completed == data.completed
            &&& rest.uncomplete_len() < data.uncomplete_len()
            &&& forall|x: int| lowest.start <= x < lowest.end ==> #[trigger] data.uncomplete(x)
            &&& forall|x: int| #[trigger] data.uncomplete(x) ==> lowest.start <= x
            &&& forall|x: int| #[trigger]
                rest.uncomplete(x) <==> data.uncomplete(x) && lowest.end <= x
        }),
{
    let lowest = data.lowest_gap_or_unlogged()->0;
    let rest = data.without_lowest();
    let gaps = data.gaps;
    let unlogged = data.synced_but_unlogged;
    if data.wf() {
        lemma_apart_drop_last(data.completed, gaps);
        lemma_apart_drop_last(data.completed, unlogged);
    }
    lemma_apart_drop_last(unlogged, gaps);
    if data.lowest_is_gap() {
        lemma_last_is_lowest(gaps);
        assert(gaps[gaps.len() - 1] == lowest);
        assert forall|i: int| 0 <= i < unlogged.len() implies lowest.end <= (
        #[trigger] unlogged[i]).start || unlogged[i].end <= lowest.start by {
            assert(gaps[gaps.len() - 1].start < gaps[gaps.len() - 1].end);
        }
        lemma_other_list_above(unlogged, lowest);
    } else {
        lemma_last_is_lowest(unlogged);
        assert(unlogged[unlogged.len() - 1] == lowest);
        assert forall|i: int| 0 <= i < gaps.len() implies lowest.end <= (#[trigger] gaps[i]).start
            || gaps[i].end <= lowest.start by {
            assert(unlogged[unlogged.len() - 1].start < unlogged[unlogged.len() - 1].end);
        }
        lemma_other_list_above(gaps, lowest);
    }
}

/// A run that has reached `end`, over well-formed gaps and unlogged ranges
/// of which nothing lies below `end`, goes on exactly as far as every index
/// is uncomplete, and takes exactly the indexes it passes.
proof fn lemma_run(data: SyncDataView, end: u32)
    requires
        data.uncomplete_wf(),
        forall|x: int| #[trigger] data.uncomplete(x) ==> end <= x,
    ensures
        ({
            let stop = data.run_end(end);
            let rest = data.after_run(end);
            &&& end <= stop
            &&& rest.uncomplete_wf()
            &&& data.wf() ==> rest.wf()
            &&& rest.completed == data.completed
            &&& forall|x: int| end <= x < stop ==> #[trigger] data.uncomplete(x)
            &&& !data.uncomplete(stop as int)
            &&& forall|x: int| #[trigger] rest.uncomplete(x) <==> data.uncomplete(x) && stop <= x
        }),
    decreases data.uncomplete_len(),
{
    match data.lowest_gap_or_unlogged() {
        Some(next) => {
            lemma_lowest_gap_or_unlogged(data);
            assert(data.uncomplete(next.start as int));
            if next.start == end {
                let less = data.without_lowest();
                lemma_run(less, next.end);
                let stop = less.run_end(next.end);
                assert(!data.uncomplete(stop as int)) by {
                    assert(!less.uncomplete(stop as int));
                }
                assert forall|x: int| end <= x < stop implies #[trigger] data.uncomplete(x) by {
                    if next.end <= x {
                        assert(less.uncomplete(x));
                    }
                }
            } else {
                assert(!data.uncomplete(end as int));
            }
        },
        None => {
            assert(data.gaps.len() == 0 && data.synced_but_unlogged.len() == 0);
            assert forall|x: int| !#[trigger] data.uncomplete(x) by {}
        },
    }
}

/// What `take_lowest_uncomplete` takes out of sync data with well-formed
/// gaps and unlogged ranges is the lowest run of uncomplete indexes: it
/// starts at the lowest index that is not completed, every index in it was
/// uncomplete, the index at which it ends was not, and what is left
/// uncomplete is what lies above it. The completed ranges play no part.
pub proof fn lemma_lowest_uncomplete(data: SyncDataView)
    requires
        data.uncomplete_wf(),
        data.lowest_gap_or_unlogged() is Some,
    ensures
        ({
            let first = data.lowest_gap_or_unlogged()->0;
            let stop = data.without_lowest().run_end(first.end);
            let rest = data.without_lowest().after_run(first.end);
            &&& first.start < stop
            &&& rest.uncomplete_wf()
            &&& data.wf() ==> rest.wf()
            &&& rest.completed == data.completed
            &&& forall|x: int| #[trigger] data.uncomplete(x) ==> first.start <= x
            &&& forall|x: int| first.start <= x < stop ==> #[trigger] data.uncomplete(x)
            &&& !data.uncomplete(stop as int)
            &&& forall|x: int| #[trigger] rest.uncomplete(x) <==> data.uncomplete(x) && stop <= x
        }),
{
    let first = data.lowest_gap_or_unlogged()->0;
    lemma_lowest_gap_or_unlogged(data);
    let less = data.without_lowest();
    lemma_run(less, first.end);
    let stop = less.run_end(first.end);
    assert(!data.uncomplete(stop as int)) by {
        assert(!less.uncomplete(stop as int));
    }
    assert forall|x: int| first.start <= x < stop implies #[trigger] data.uncomplete(x) by {
        if first.end <= x {
            assert(less.uncomplete(x));
        }
    }
}

impl Default for SyncData {
    fn default() -> (data: SyncData)
        ensures
            data@.completed.len() == 0,
            data@.synced_but_unlogged.len() == 0,
            data@.gaps.len() == 0,
            data@.wf(),
    {
        SyncData { completed: Vec::new(), synced_but_unlogged: Vec::new(), gaps: Vec::new() }
    }
}

impl SyncData {
    /// The completed ranges, highest first.
    pub fn completed(&self) -> (ranges: &Vec<Range<u32>>)
        ensures
            ranges@ == self@.completed,
    {
        &self.completed
    }

    /// The archived but unlogged ranges, highest first.
    pub fn synced_but_unlogged(&self) -> (ranges: &Vec<Range<u32>>)
        ensures
            ranges@ == self@.synced_but_unlogged,
    {
        &self.synced_but_unlogged
    }

    /// The missing ranges, highest first.
    pub fn gaps(&self) -> (ranges: &Vec<Range<u32>>)
        ensures
            ranges@ == self@.gaps,
    {
        &self.gaps
    }

    /// Makes the sync data of `sync_range` out of what the request for its
    /// sync records brought. A response that is no answer is an error. Every
    /// index of the range that has no row is a gap; the rows are filed as
    /// completed or unlogged, and neighbours of one kind share a range.
    pub fn try_fetch(response: SelectResponse, sync_range: &SyncRange) -> (fetched: Result<
        SyncData,
        FetchError,
    >)
        requires
            response matches SelectResponse::Rows(records) ==> descending_within(
                records@,
                *sync_range,
            ),
        ensures
            response is Closed ==> fetched == Err::<SyncData, FetchError>(
                FetchError::ChannelClosed,
            ),
            response is Exhausted ==> fetched == Err::<SyncData, FetchError>(
                FetchError::RetriesExhausted,
            ),
            response matches SelectResponse::Rows(records) ==> fetched is Ok
                && fetched->Ok_0@.reconciles(records@, *sync_range)
                && fetched->Ok_0@.partitions(*sync_range) && fetched->Ok_0@.wf(),
    {
        let records = match response {
            SelectResponse::Closed => {
                return Err(FetchError::ChannelClosed);
            },
            SelectResponse::Exhausted => {
                return Err(FetchError::RetriesExhausted);
            },
            SelectResponse::Rows(records) => records,
        };
        let ghost stream = records@;
        let mut sync_data = SyncData::default();
        // the index right above what is filed so far, and how it was filed
        let mut pre_ms: u32 = sync_range.to;
        let mut pre_lb: Option<u8> = None;
        let n: usize = records.len();
        let mut k: usize = 0;
        proof {
            assert(stream.take(0).len() == 0);
        }
        while k < n
            invariant
                k <= n,
                n == records.len(),
                stream == records@,
                descending_within(stream, *sync_range),
                pre_ms == (if k == 0 {
                    sync_range.to
                } else {
                    stream[k - 1].milestone_index
                }),
                k > 0 ==> pre_lb == stream[k - 1].logged_by,
                forall|x: int| #[trigger]
                    covers(sync_data@.completed, x) <==> logged(stream.take(k as int), x),
                forall|x: int| #[trigger]
                    covers(sync_data@.synced_but_unlogged, x) <==> unlogged(
                        stream.take(k as int),
                        x,
                    ),
                forall|x: int| #[trigger]
                    covers(sync_data@.gaps, x) <==> pre_ms < x < sync_range.to && !recorded(
                        stream.take(k as int),
                        x,
                    ),
                descending(sync_data@.completed) && separated(sync_data@.completed),
                descending(sync_data@.synced_but_unlogged) && separated(
                    sync_data@.synced_but_unlogged,
                ),
                descending(sync_data@.gaps) && separated(sync_data@.gaps),
                starts_from(sync_data@.completed, pre_ms as int),
                starts_from(sync_data@.synced_but_unlogged, pre_ms as int),
                starts_from(sync_data@.gaps, pre_ms + 1),
            decreases n - k,
        {
            let SyncRecord { milestone_index, logged_by } = records[k];
            let ghost before = sync_data@;
            proof {
                lemma_take_step(stream, k as int);
                if k > 0 {
                    assert(stream[k as int].milestone_index < stream[k - 1].milestone_index);
                }
                lemma_row_below(stream, k as int);
                let gap = Range { start: (milestone_index + 1) as u32, end: pre_ms };
                lemma_covers_push(before.gaps, gap);
                if milestone_index + 1 != pre_ms {
                    lemma_gap_pushed(before.gaps, gap);
                }
                // a range that starts right above this milestone was carried
                // there by the row before it, which was filed the same way
                if logged_by is Some {
                    if before.completed.len() > 0 && before.completed.last().start
                        == milestone_index + 1 {
                        assert(covers(before.completed, pre_ms as int));
                        lemma_row_unique(stream, k as int, pre_ms as int);
                    }
                    lemma_proceeded(before.completed, milestone_index, pre_lb is Some);
                } else {
                    if before.synced_but_unlogged.len() > 0 && before.synced_but_unlogged.last().start
                        == milestone_index + 1 {
                        assert(covers(before.synced_but_unlogged, pre_ms as int));
                        lemma_row_unique(stream, k as int, pre_ms as int);
                    }
                    lemma_proceeded(before.synced_but_unlogged, milestone_index, pre_lb is None);
                }
            }
            // what lies between this milestone and the one before it is missing
            sync_data.process_gaps(pre_ms, milestone_index);
            sync_data.process_rest(&logged_by, milestone_index, &pre_lb);
            pre_ms = milestone_index;
            pre_lb = logged_by;
            k += 1;
        }
        proof {
            assert(stream.take(n as int) =~= stream);
            lemma_row_below(stream, n as int);
            let gap = Range { start: sync_range.from, end: pre_ms };
            lemma_covers_push(sync_data@.gaps, gap);
            if sync_range.from != pre_ms {
                lemma_gap_pushed(sync_data@.gaps, gap);
            }
        }
        // the lowest row is filed: whatever the range holds below it is missing
        if sync_range.from != pre_ms {
            sync_data.gaps.push(Range { start: sync_range.from, end: pre_ms });
        }
        proof {
            lemma_reconciled_partitions(sync_data@, stream, *sync_range);
        }
        Ok(sync_data)
    }

    /// Takes the lowest gap out of the sync data.
    pub fn take_lowest_gap(&mut self) -> (taken: Option<Range<u32>>)
        ensures
            old(self)@.gaps.len() == 0 ==> taken is None && final(self)@ == old(self)@,
            old(self)@.gaps.len() > 0 ==> taken == Some(old(self)@.gaps.last()) && final(self)@ == (
            SyncDataView { gaps: old(self)@.gaps.drop_last(), ..old(self)@ }),
            old(self)@.wf() ==> final(self)@.wf(),
            old(self)@.uncomplete_wf() ==> final(self)@.uncomplete_wf(),
    {
        self.gaps.pop()
    }

    /// Takes the lowest unlogged range out of the sync data.
    pub fn take_lowest_unlogged(&mut self) -> (taken: Option<Range<u32>>)
        ensures
            old(self)@.synced_but_unlogged.len() == 0 ==> taken is None && final(self)@ == old(
                self,
            )@,
            old(self)@.synced_but_unlogged.len() > 0 ==> taken == Some(
                old(self)@.synced_but_unlogged.last(),
            ) && final(self)@ == (SyncDataView {
                synced_but_unlogged: old(self)@.synced_but_unlogged.drop_last(),
                ..old(self)@
            }),
            old(self)@.wf() ==> final(self)@.wf(),
            old(self)@.uncomplete_wf() ==> final(self)@.uncomplete_wf(),
    {
        self.synced_but_unlogged.pop()
    }

    /// Takes the lowest range that is a gap or unlogged out of the sync data.
    /// Where the lowest gap and the lowest unlogged range start at the same
    /// index, the gap is taken.
    pub fn take_lowest_gap_or_unlogged(&mut self) -> (taken: Option<Range<u32>>)
        ensures
            taken == old(self)@.lowest_gap_or_unlogged(),
            final(self)@ == old(self)@.without_lowest(),
            old(self)@.wf() ==> final(self)@.wf(),
            old(self)@.uncomplete_wf() ==> final(self)@.uncomplete_wf(),
    {
        let gap_start: Option<u32> = match self.gaps.last() {
            Some(gap) => Some(gap.start),
            None => None,
        };
        let unlogged_start: Option<u32> = match self.synced_but_unlogged.last() {
            Some(unlogged) => Some(unlogged.start),
            None => None,
        };
        match (gap_start, unlogged_start) {
            (Some(gap), Some(unlogged)) => {
                if gap <= unlogged {
                    self.gaps.pop()
                } else {
                    self.synced_but_unlogged.pop()
                }
            },
            (Some(_), None) => self.gaps.pop(),
            (None, Some(_)) => self.synced_but_unlogged.pop(),
            _ => None,
        }
    }

    /// The lowest range that is a gap or unlogged, left in place.
    pub fn get_lowest_gap_or_unlogged(&self) -> (lowest: Option<&Range<u32>>)
        ensures
            lowest is Some == self@.lowest_gap_or_unlogged() is Some,
            lowest is Some ==> *lowest->0 == self@.lowest_gap_or_unlogged()->0,
    {
        let lowest_gap = self.gaps.last();
        let lowest_unlogged = self.synced_but_unlogged.last();
        match (lowest_gap, lowest_unlogged) {
            (Some(gap), Some(unlogged)) => {
                if gap.start <= unlogged.start {
                    lowest_gap
                } else {
                    lowest_unlogged
                }
            },
            (Some(_), None) => lowest_gap,
            (None, Some(_)) => lowest_unlogged,
            _ => None,
        }
    }

    /// Takes the lowest run of touching ranges, gaps and unlogged ranges alike,
    /// out of the sync data and returns it as one range.
    pub fn take_lowest_uncomplete(&mut self) -> (taken: Option<Range<u32>>)
        ensures
            match old(self)@.lowest_gap_or_unlogged() {
                Some(first) => {
                    let rest = old(self)@.without_lowest();
                    &&& taken == Some(Range { start: first.start, end: rest.run_end(first.end) })
                    &&& final(self)@ == rest.after_run(first.end)
                },
                None => taken is None && final(self)@ == old(self)@,
            },
            old(self)@.wf() ==> final(self)@.wf(),
            old(self)@.uncomplete_wf() ==> final(self)@.uncomplete_wf(),
    {
        if let Some(first) = self.take_lowest_gap_or_unlogged() {
            let ghost rest = self@;
            let mut pre_range = first;
            loop
                invariant
                    old(self)@.lowest_gap_or_unlogged() == Some(first),
                    rest == old(self)@.without_lowest(),
                    pre_range.start == first.start,
                    self@.run_end(pre_range.end) == rest.run_end(first.end),
                    self@.after_run(pre_range.end) == rest.after_run(first.end),
                    old(self)@.wf() ==> self@.wf(),
                    old(self)@.uncomplete_wf() ==> self@.uncomplete_wf(),
                decreases self@.uncomplete_len(),
            {
                let next_end: Option<u32> = match self.get_lowest_gap_or_unlogged() {
                    Some(next_range) => {
                        if next_range.start == pre_range.end {
                            Some(next_range.end)
                        } else {
                            None
                        }
                    },
                    None => None,
                };
                match next_end {
                    Some(end) => {
                        pre_range.end = end;
                        let _ = self.take_lowest_gap_or_unlogged();
                    },
                    None => {
                        return Some(pre_range);
                    },
                }
            }
        } else {
            None
        }
    }

    /// Files one archived milestone under the completed ranges if it is logged,
    /// under the unlogged ranges if it is not. `pre_lb` tells how the milestone
    /// right before it in the stream was filed: a range is only carried on by
    /// a milestone that is filed the same way.
    pub fn process_rest(&mut self, logged_by: &Option<u8>, milestone_index: u32, pre_lb: &Option<u8>)
        requires
            milestone_index < u32::MAX,
        ensures
            final(self)@ == (if logged_by is Some {
                SyncDataView {
                    completed: proceeded(old(self)@.completed, milestone_index, pre_lb is Some),
                    ..old(self)@
                }
            } else {
                SyncDataView {
                    synced_but_unlogged: proceeded(
                        old(self)@.synced_but_unlogged,
                        milestone_index,
                        pre_lb is None,
                    ),
                    ..old(self)@
                }
            }),
    {
        if logged_by.is_some() {
            Self::proceed(&mut self.completed, milestone_index, pre_lb.is_some());
        } else {
            Self::proceed(&mut self.synced_but_unlogged, milestone_index, pre_lb.is_none());
        }
    }

    /// Records as a gap what lies between the milestone `milestone_index` and
    /// the index `pre_ms` above it, if anything does.
    pub fn process_gaps(&mut self, pre_ms: u32, milestone_index: u32)
        requires
            milestone_index < u32::MAX,
        ensures
            final(self)@ == (if milestone_index + 1 != pre_ms {
                SyncDataView {
                    gaps: old(self)@.gaps.push(
                        Range { start: (milestone_index + 1) as u32, end: pre_ms },
                    ),
                    ..old(self)@
                }
            } else {
                old(self)@
            }),
    {
        let gap_start: u32 = milestone_index + 1;
        if gap_start != pre_ms {
            self.gaps.push(Range { start: gap_start, end: pre_ms });
        }
    }

    /// Adds one milestone to a descending list of ranges: it carries the last
    /// range on downwards if `check` holds and that range starts right above
    /// it, and else opens a range of its own.
    pub fn proceed(ranges: &mut Vec<Range<u32>>, milestone_index: u32, check: bool)
        requires
            milestone_index < u32::MAX,
        ensures
            final(ranges)@ == proceeded(old(ranges)@, milestone_index, check),
    {
        let end_ms: u32 = milestone_index + 1;
        let len = ranges.len();
        if len > 0 && check && ranges[len - 1].start == end_ms {
            let last_end: u32 = ranges[len - 1].end;
            ranges.pop();
            ranges.push(Range { start: milestone_index, end: last_end });
        } else {
            ranges.push(Range { start: milestone_index, end: end_ms });
        }
    }
}

} // verus!
