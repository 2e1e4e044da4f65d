use vstd::prelude::*;
use crate::cost::{cost_spec, cost_bits, valid_counts, META_SIZE, lemma_cost_at_most};
use crate::error::PartitionError;

verus! {

/// One time bucket: `n` certificates whose date falls in it, `r` of them revoked.
#[derive(Debug, Clone, Copy, PartialEq, Eq, Structural)]
pub struct PartitionRecord {
    pub time: u64,
    pub n: u64,
    pub r: u64,
}

impl PartitionRecord {
    pub fn new(time: u64, n: u64, r: u64) -> (rec: Self)
        ensures
            rec.time == time,
            rec.n == n,
            rec.r == r,
    {
        PartitionRecord { time, n, r }
    }

    /// At least one certificate, and no more revoked than present.
    pub open spec fn valid(self) -> bool {
        valid_counts(self.r as nat, self.n as nat)
    }
}

/// Revoked certificates in records `lo..hi`.
pub open spec fn sum_r(s: Seq<PartitionRecord>, lo: int, hi: int) -> nat
    decreases hi - lo,
{
    if lo >= hi {
        0
    } else {
        (s[lo].r + sum_r(s, lo + 1, hi)) as nat
    }
}

/// Certificates in records `lo..hi`.
pub open spec fn sum_n(s: Seq<PartitionRecord>, lo: int, hi: int) -> nat
    decreases hi - lo,
{
    if lo >= hi {
        0
    } else {
        (s[lo].n + sum_n(s, lo + 1, hi)) as nat
    }
}

/// Cost in bits of encoding records `j..=i` as one segment.
pub open spec fn segment_cost(s: Seq<PartitionRecord>, j: int, i: int) -> nat {
    cost_spec(sum_r(s, j, i + 1), sum_n(s, j, i + 1))
}

/// Total cost of records `0..=i` when the last segment starts at `j` and
/// the records before it are split optimally.
pub open spec fn candidate_cost(s: Seq<PartitionRecord>, j: int, i: int) -> nat
    decreases i, 0int, 0int,
{
    if 0 < j <= i {
        (segment_cost(s, j, i) + opt_cost(s, j - 1)) as nat
    } else {
        segment_cost(s, j, i)
    }
}

/// The cheapest candidate among last-segment starts `j..=i`, with its start.
/// Starts are tried from `i` down to `j`, and a later one is replaced only
/// by a strictly cheaper one: on a tie the later start wins.
pub open spec fn best_split(s: Seq<PartitionRecord>, i: int, j: int) -> (nat, int)
    decreases i, 1int, i - j,
{
    if 0 <= j <= i {
        let c = candidate_cost(s, j, i);
        if j == i {
            (c, j)
        } else {
            let b = best_split(s, i, j + 1);
            if c < b.0 {
                (c, j)
            } else {
                b
            }
        }
    } else {
        (0, 0)
    }
}

/// Least total cost of records `0..=i`.
pub open spec fn opt_cost(s: Seq<PartitionRecord>, i: int) -> nat
    decreases i, 2int, 0int,
{
    if 0 <= i {
        best_split(s, i, 0).0
    } else {
        0
    }
}

/// Start of the last segment in the chosen partition of records `0..=i`.
pub open spec fn opt_split(s: Seq<PartitionRecord>, i: int) -> int {
    best_split(s, i, 0).1
}

/// Starts of the segments of the chosen partition of records `0..=i`, ascending.
pub open spec fn segment_starts(s: Seq<PartitionRecord>, i: int) -> Seq<int>
    decreases i,
{
    if i < 0 {
        seq![]
    } else {
        let k = opt_split(s, i);
        if 0 < k <= i {
            segment_starts(s, k - 1).push(k)
        } else {
            seq![0]
        }
    }
}

/// The boundary marker of a segment starting at record `k`: the sentinel `0`
/// for the first segment, else the record's time.
pub open spec fn start_time(s: Seq<PartitionRecord>, k: int) -> u64 {
    if k == 0 {
        0
    } else {
        s[k].time
    }
}

/// Boundary markers of the chosen partition of all of `s`.
pub open spec fn partition_spec(s: Seq<PartitionRecord>) -> Seq<u64> {
    segment_starts(s, s.len() - 1).map_values(|k: int| start_time(s, k))
}

pub open spec fn records_valid(s: Seq<PartitionRecord>) -> bool {
    forall|k: int| 0 <= k < s.len() ==> #[trigger] s[k].valid()
}

pub open spec fn times_increasing(s: Seq<PartitionRecord>) -> bool {
    forall|k: int| 0 < k < s.len() ==> s[k - 1].time < #[trigger] s[k].time
}

/// The error a record sequence is refused with, if any.
pub open spec fn input_error(s: Seq<PartitionRecord>) -> Option<PartitionError> {
    if s.len() == 0 {
        Some(PartitionError::EmptyInput)
    } else if !records_valid(s) {
        Some(PartitionError::InvalidRecord)
    } else if !times_increasing(s) {
        Some(PartitionError::UnorderedTimes)
    } else {
        None
    }
}

proof fn lemma_sums(s: Seq<PartitionRecord>, lo: int, hi: int)
    requires
        0 <= lo <= hi <= s.len(),
        records_valid(s),
    ensures
        sum_r(s, lo, hi) <= sum_n(s, lo, hi),
        sum_n(s, lo, hi) <= (hi - lo) * u64::MAX,
        lo < hi ==> sum_n(s, lo, hi) >= 1,
    decreases hi - lo,
{
    if lo < hi {
        assert(s[lo].valid());
        lemma_sums(s, lo + 1, hi);
    }
}

proof fn lemma_sum_n_split(s: Seq<PartitionRecord>, lo: int, mid: int, hi: int)
    requires
        lo <= mid <= hi,
    ensures
        sum_n(s, lo, mid) + sum_n(s, mid, hi) == sum_n(s, lo, hi),
    decreases mid - lo,
{
    if lo < mid {
        lemma_sum_n_split(s, lo + 1, mid, hi);
    }
}

proof fn lemma_best_split(s: Seq<PartitionRecord>, i: int, j: int)
    requires
        0 <= j <= i,
    ensures
        j <= best_split(s, i, j).1 <= i,
        best_split(s, i, j).0 == candidate_cost(s, best_split(s, i, j).1, i),
        forall|t: int| j <= t <= i ==> best_split(s, i, j).0 <= #[trigger] candidate_cost(s, t, i),
        forall|t: int|
            best_split(s, i, j).1 < t <= i ==> best_split(s, i, j).0 < #[trigger] candidate_cost(
                s,
                t,
                i,
            ),
    decreases i - j,
{
    if j < i {
        lemma_best_split(s, i, j + 1);
    }
}

/// The chosen last segment of records `0..=i` is a cheapest one, and every
/// later start costs strictly more: among equally cheap starts the latest wins.
pub proof fn lemma_optimal_choice(s: Seq<PartitionRecord>, i: int)
    requires
        0 <= i,
    ensures
        0 <= opt_split(s, i) <= i,
        opt_cost(s, i) == candidate_cost(s, opt_split(s, i), i),
        forall|t: int| 0 <= t <= i ==> opt_cost(s, i) <= #[trigger] candidate_cost(s, t, i),
        forall|t: int| opt_split(s, i) < t <= i ==> opt_cost(s, i) < #[trigger] candidate_cost(s, t, i),
{
    lemma_best_split(s, i, 0);
}

/// Splitting is never worse than encoding all records as one segment.
pub proof fn lemma_never_worse_than_one_segment(s: Seq<PartitionRecord>)
    requires
        s.len() >= 1,
    ensures
        opt_cost(s, s.len() - 1) <= segment_cost(s, 0, s.len() - 1),
{
    lemma_optimal_choice(s, s.len() - 1);
    assert(candidate_cost(s, 0, s.len() - 1) == segment_cost(s, 0, s.len() - 1));
}

/// A chosen partition: the first record of each segment, ascending and
/// starting with `0`; its total cost; and the cost of one single segment.
/// Costs are in bits.
pub struct Segmentation {
    pub starts: Vec<usize>,
    pub cost: u128,
    pub baseline: u128,
}

/// Finds the input error that `input_error` describes, if any.
fn check_records(records: &Vec<PartitionRecord>) -> (res: Option<PartitionError>)
    ensures
        res == input_error(records@),
{
    let len = records.len();
    if len == 0 {
        return Some(PartitionError::EmptyInput);
    }
    let mut k: usize = 0;
    while k < len
        invariant
            len == records@.len(),
            k <= len,
            forall|t: int| 0 <= t < k ==> #[trigger] records@[t].valid(),
        decreases len - k,
    {
        if records[k].n == 0 || records[k].r > records[k].n {
            assert(!records@[k as int].valid());
            return Some(PartitionError::InvalidRecord);
        }
        k = k + 1;
    }
    let mut k: usize = 1;
    while k < len
        invariant
            len == records@.len(),
            1 <= k <= len,
            records_valid(records@),
            forall|t: int| 0 < t < k ==> records@[t - 1].time < #[trigger] records@[t].time,
        decreases len - k,
    {
        if records[k - 1].time >= records[k].time {
            assert(!(records@[k - 1].time < records@[k as int].time));
            return Some(PartitionError::UnorderedTimes);
        }
        k = k + 1;
    }
    None
}

/// Bounds a candidate of the dynamic program: the last segment `j..=i` and
/// the best partition before it cost at most all elements plus two metadata blocks.
proof fn lemma_candidate_fits(s: Seq<PartitionRecord>, j: int, i: int)
    requires
        records_valid(s),
        0 <= j <= i < s.len(),
        s.len() <= u64::MAX,
    ensures
        valid_counts(sum_r(s, j, i + 1), sum_n(s, j, i + 1)),
        sum_n(s, j, i + 1) + META_SIZE <= u128::MAX,
        candidate_cost(s, j, i) + META_SIZE <= u128::MAX,
{
    lemma_sums(s, j, i + 1);
    lemma_sums(s, 0, i + 1);
    lemma_sum_n_split(s, 0, j, i + 1);
    lemma_cost_at_most(sum_r(s, j, i + 1), sum_n(s, j, i + 1));
    assert((i + 1) * u64::MAX <= u64::MAX * u64::MAX) by (nonlinear_arith)
        requires
            i + 1 <= u64::MAX,
    ;
    if j > 0 {
        lemma_optimal_choice(s, j - 1);
        lemma_sums(s, 0, j);
        lemma_cost_at_most(sum_r(s, 0, j), sum_n(s, 0, j));
        assert(candidate_cost(s, 0, j - 1) == segment_cost(s, 0, j - 1));
    }
}

/// Follows the chosen splits back from the last record and lists the
/// segment starts in ascending order.
fn backtrack(splits: &Vec<usize>, Ghost(s): Ghost<Seq<PartitionRecord>>) -> (starts: Vec<usize>)
    requires
        s.len() >= 1,
        splits@.len() == s.len(),
        forall|t: int| 0 <= t < s.len() ==> #[trigger] splits@[t] == opt_split(s, t),
    ensures
        starts@.map_values(|k: usize| k as int) == segment_starts(s, s.len() - 1),
{
    let len = splits.len();
    let ghost full = segment_starts(s, len - 1);
    let mut rev: Vec<usize> = Vec::new();
    let mut c: usize = len - 1;
    let mut p: usize = splits[c];
    proof {
        lemma_optimal_choice(s, c as int);
        assert(full == full.subrange(0, full.len() as int));
    }
    while p > 0
        invariant
            len == s.len(),
            splits@.len() == len,
            forall|t: int| 0 <= t < s.len() ==> #[trigger] splits@[t] == opt_split(s, t),
            c < len,
            p == opt_split(s, c as int),
            p <= c,
            full == segment_starts(s, len - 1),
            rev@.len() + segment_starts(s, c as int).len() == full.len(),
            segment_starts(s, c as int) == full.subrange(0, segment_starts(s, c as int).len() as int),
            forall|t: int| 0 <= t < rev@.len() ==> rev@[t] as int == full[full.len() - 1 - t],
        decreases p,
    {
        proof {
            let cur = segment_starts(s, c as int);
            let m = cur.len() as int;
            assert(cur == segment_starts(s, p - 1).push(p as int));
            assert(cur[m - 1] == full[m - 1]);
            assert(segment_starts(s, p - 1) =~= full.subrange(0, m - 1));
        }
        rev.push(p);
        c = p - 1;
        p = splits[c];
        proof {
            lemma_optimal_choice(s, c as int);
        }
    }
    proof {
        assert(segment_starts(s, c as int) == seq![0int]);
        assert(full[0] == segment_starts(s, c as int)[0]);
    }
    rev.push(0);
    let mut starts: Vec<usize> = Vec::new();
    let mut t: usize = rev.len();
    while t > 0
        invariant
            full.len() == rev@.len(),
            starts@.len() + t == rev@.len(),
            forall|u: int| 0 <= u < rev@.len() ==> rev@[u] as int == full[full.len() - 1 - u],
            forall|u: int| 0 <= u < starts@.len() ==> starts@[u] as int == full[u],
        decreases t,
    {
        t = t - 1;
        starts.push(rev[t]);
    }
    assert(starts@.map_values(|k: usize| k as int) =~= full);
    starts
}

/// Chooses the partition of the records into contiguous segments of least
/// total cost, preferring the later start of the last segment on ties.
pub fn optimal_segmentation(records: &Vec<PartitionRecord>) -> (res: Result<
    Segmentation,
    PartitionError,
>)
    ensures
        match res {
            Ok(seg) => {
                &&& input_error(records@) is None
                &&& seg.starts@.map_values(|k: usize| k as int) == segment_starts(
                    records@,
                    records@.len() - 1,
                )
                &&& seg.cost == opt_cost(records@, records@.len() - 1)
                &&& seg.baseline == segment_cost(records@, 0, records@.len() - 1)
                &&& seg.cost <= seg.baseline
            },
            Err(e) => input_error(records@) == Some(e),
        },
{
    if let Some(e) = check_records(records) {
        return Err(e);
    }
    let ghost s = records@;
    let len = records.len();
    assert(len <= u64::MAX);
    let mut costs: Vec<u128> = Vec::new();
    let mut splits: Vec<usize> = Vec::new();
    let mut baseline: u128 = 0;
    let mut i: usize = 0;
    while i < len
        invariant
            s == records@,
            len == s.len(),
            input_error(s) is None,
            i <= len,
            costs@.len() == i,
            splits@.len() == i,
            forall|t: int| 0 <= t < i ==> #[trigger] costs@[t] == opt_cost(s, t),
            forall|t: int| 0 <= t < i ==> #[trigger] splits@[t] == opt_split(s, t),
            i == len ==> baseline == segment_cost(s, 0, len - 1),
        decreases len - i,
    {
        let mut rs: u128 = records[i].r as u128;
        let mut ns: u128 = records[i].n as u128;
        proof {
            lemma_candidate_fits(s, i as int, i as int);
            assert(sum_r(s, i + 1, i + 1) == 0);
            assert(sum_n(s, i + 1, i + 1) == 0);
        }
        let seg = cost_bits(rs, ns);
        let mut best: u128 = if i > 0 {
            seg + costs[i - 1]
        } else {
            seg
        };
        let mut split: usize = i;
        let mut j: usize = i;
        while j > 0
            invariant
                s == records@,
                len == s.len(),
                input_error(s) is None,
                i < len,
                j <= i,
                costs@.len() == i,
                forall|t: int| 0 <= t < i ==> #[trigger] costs@[t] == opt_cost(s, t),
                rs == sum_r(s, j as int, i + 1),
                ns == sum_n(s, j as int, i + 1),
                best == best_split(s, i as int, j as int).0,
                split == best_split(s, i as int, j as int).1,
            decreases j,
        {
            j = j - 1;
            proof {
                lemma_candidate_fits(s, j as int, i as int);
                lemma_sums(s, j + 1, i + 1);
            }
            rs = rs + records[j].r as u128;
            ns = ns + records[j].n as u128;
            let c = if j > 0 {
                cost_bits(rs, ns) + costs[j - 1]
            } else {
                cost_bits(rs, ns)
            };
            if c < best {
                best = c;
                split = j;
            }
        }
        if i + 1 == len {
            proof {
                lemma_candidate_fits(s, 0, i as int);
            }
            baseline = cost_bits(rs, ns);
        }
        costs.push(best);
        splits.push(split);
        i = i + 1;
    }
    proof {
        lemma_never_worse_than_one_segment(s);
    }
    let starts = backtrack(&splits, Ghost(s));
    Ok(Segmentation { starts, cost: costs[len - 1], baseline })
}

/// The segment starts of records `0..=i` begin with `0`, end with the chosen
/// split of `i`, increase strictly, and stay within `0..=i`.
pub proof fn lemma_starts_shape(s: Seq<PartitionRecord>, i: int)
    requires
        0 <= i,
    ensures
        segment_starts(s, i).len() >= 1,
        segment_starts(s, i)[0] == 0,
        segment_starts(s, i).last() == opt_split(s, i),
        forall|a: int|
            0 <= a < segment_starts(s, i).len() ==> 0 <= #[trigger] segment_starts(s, i)[a] <= i,
        forall|a: int, b: int|
            0 <= a < b < segment_starts(s, i).len() ==> #[trigger] segment_starts(s, i)[a]
                < #[trigger] segment_starts(s, i)[b],
    decreases i,
{
    lemma_optimal_choice(s, i);
    let k = opt_split(s, i);
    if k > 0 {
        lemma_starts_shape(s, k - 1);
        let prev = segment_starts(s, k - 1);
        assert(segment_starts(s, i) == prev.push(k));
        assert forall|a: int| 0 <= a < prev.len() implies #[trigger] prev[a] < k by {}
    }
}

proof fn lemma_times_ordered(s: Seq<PartitionRecord>, a: int, b: int)
    requires
        times_increasing(s),
        0 <= a < b < s.len(),
    ensures
        s[a].time < s[b].time,
    decreases b - a,
{
    assert(s[b - 1].time < s[b].time);
    if a < b - 1 {
        lemma_times_ordered(s, a, b - 1);
    }
}

/// On accepted input the boundary markers start with the sentinel `0` and
/// increase strictly.
pub proof fn lemma_boundaries_ascending(s: Seq<PartitionRecord>)
    requires
        input_error(s) is None,
    ensures
        partition_spec(s).len() >= 1,
        partition_spec(s)[0] == 0,
        forall|a: int, b: int|
            0 <= a < b < partition_spec(s).len() ==> #[trigger] partition_spec(s)[a]
                < #[trigger] partition_spec(s)[b],
{
    let st = segment_starts(s, s.len() - 1);
    lemma_starts_shape(s, s.len() - 1);
    assert forall|a: int, b: int| 0 <= a < b < partition_spec(s).len() implies #[trigger] partition_spec(s)[a]
        < #[trigger] partition_spec(s)[b] by {
        assert(st[a] < st[b]);
        assert(0 <= st[a]);
        lemma_times_ordered(s, 0, st[b]);
        if st[a] > 0 {
            lemma_times_ordered(s, st[a], st[b]);
        }
    }
}

/// A single record is always encoded as one segment.
pub proof fn lemma_single_record(s: Seq<PartitionRecord>)
    requires
        s.len() == 1,
    ensures
        partition_spec(s) == seq![0u64],
{
    lemma_optimal_choice(s, 0);
    assert(segment_starts(s, 0) == seq![0int]);
    assert(partition_spec(s) =~= seq![0u64]);
}

/// The boundaries depend on the records alone: equal inputs give equal boundaries.
pub proof fn lemma_partition_deterministic(s1: Seq<PartitionRecord>, s2: Seq<PartitionRecord>)
    requires
        s1 == s2,
    ensures
        partition_spec(s1) == partition_spec(s2),
{
}

/// `starts` splits records `0..=i` into contiguous segments: it begins at `0`,
/// increases strictly and stays within `0..=i`.
pub open spec fn is_partition(starts: Seq<int>, i: int) -> bool {
    &&& starts.len() >= 1
    &&& starts[0] == 0
    &&& forall|a: int| 0 <= a < starts.len() ==> 0 <= #[trigger] starts[a] <= i
    &&& forall|a: int, b: int|
        0 <= a < b < starts.len() ==> #[trigger] starts[a] < #[trigger] starts[b]
}

/// Total cost of records `0..=i` split at `starts`.
pub open spec fn partition_cost(s: Seq<PartitionRecord>, starts: Seq<int>, i: int) -> nat
    decreases starts.len(),
{
    if starts.len() == 0 {
        0
    } else {
        let k = starts.last();
        (segment_cost(s, k, i) + partition_cost(s, starts.drop_last(), k - 1)) as nat
    }
}

/// The chosen partition of records `0..=i` costs `opt_cost`, and no
/// partition into contiguous segments costs less.
pub proof fn lemma_globally_optimal(s: Seq<PartitionRecord>, starts: Seq<int>, i: int)
    requires
        0 <= i,
        is_partition(starts, i),
    ensures
        partition_cost(s, segment_starts(s, i), i) == opt_cost(s, i),
        opt_cost(s, i) <= partition_cost(s, starts, i),
    decreases i,
{
    lemma_optimal_choice(s, i);
    let k = opt_split(s, i);
    if k > 0 {
        lemma_globally_optimal(s, seq![0int], k - 1);
        let st = segment_starts(s, i);
        assert(st == segment_starts(s, k - 1).push(k));
        assert(st.drop_last() =~= segment_starts(s, k - 1));
        assert(st.last() == k);
        assert(partition_cost(s, st, i) == segment_cost(s, k, i) + opt_cost(s, k - 1));
        assert(candidate_cost(s, k, i) == segment_cost(s, k, i) + opt_cost(s, k - 1));
    } else {
        let st = segment_starts(s, i);
        assert(st == seq![0int]);
        assert(st.drop_last() =~= Seq::<int>::empty());
        assert(partition_cost(s, st, i) == segment_cost(s, 0, i) + partition_cost(s, Seq::<int>::empty(), -1));
        assert(candidate_cost(s, 0, i) == segment_cost(s, 0, i));
    }
    let last = starts.last();
    let rest = starts.drop_last();
    if starts.len() > 1 {
        assert(starts[0] < starts[starts.len() - 1]);
        assert forall|a: int, b: int| 0 <= a < b < rest.len() implies #[trigger] rest[a]
            < #[trigger] rest[b] by {
            assert(starts[a] < starts[b]);
        }
        assert forall|a: int| 0 <= a < rest.len() implies 0 <= #[trigger] rest[a] <= last - 1 by {
            assert(starts[a] < starts[starts.len() - 1]);
        }
        lemma_globally_optimal(s, rest, last - 1);
        assert(0 < last <= i);
        assert(candidate_cost(s, last, i) == segment_cost(s, last, i) + opt_cost(s, last - 1));
        assert(opt_cost(s, i) <= candidate_cost(s, last, i));
    } else {
        assert(rest =~= Seq::<int>::empty());
        assert(last == 0);
        assert(partition_cost(s, rest, -1) == 0);
        assert(opt_cost(s, i) <= candidate_cost(s, 0, i));
    }
}

/// Splits the records into contiguous segments of least total estimated size
/// and returns the segment boundaries: `0` for the first segment, then the
/// time of each record that starts a segment.
pub fn partition(records: Vec<PartitionRecord>) -> (res: Result<Vec<u64>, PartitionError>)
    ensures
        match res {
            Ok(v) => input_error(records@) is None && v@ == partition_spec(records@),
            Err(e) => input_error(records@) == Some(e),
        },
{
    let seg = match optimal_segmentation(&records) {
        Ok(seg) => seg,
        Err(e) => return Err(e),
    };
    let ghost s = records@;
    let ghost st = segment_starts(s, s.len() - 1);
    proof {
        lemma_starts_shape(s, s.len() - 1);
    }
    let mut out: Vec<u64> = Vec::new();
    let mut t: usize = 0;
    while t < seg.starts.len()
        invariant
            s == records@,
            seg.starts@.map_values(|k: usize| k as int) == st,
            forall|a: int| 0 <= a < st.len() ==> 0 <= #[trigger] st[a] < s.len(),
            t <= seg.starts@.len(),
            out@.len() == t,
            forall|u: int| 0 <= u < t ==> out@[u] == start_time(s, st[u]),
        decreases seg.starts@.len() - t,
    {
        let k = seg.starts[t];
        assert(k as int == st[t as int]);
        let b = if k == 0 {
            0
        } else {
            records[k].time
        };
        out.push(b);
        t = t + 1;
    }
    assert(out@ =~= partition_spec(s));
    Ok(out)
}

/// Bytes from bits, rounding down: the one conversion between the two units.
pub fn bits_to_bytes(bits: u128) -> (bytes: u128)
    ensures
        bytes == bits / 8,
{
    bits / 8
}

} // verus!
