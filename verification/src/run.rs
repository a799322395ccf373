//! Run-length container: the values of one block as a sorted vector of runs
//! `(start, length - 1)`, none overlapping or touching another.

use vstd::prelude::*;
use crate::memory::{heap_bytes, heap_bytes_of, vec_capacity};
use crate::array::{
    ArrayContainer, strictly_increasing, sym_diff, lemma_u16_set_finite, lemma_push_increasing,
    lemma_take_push_set,
};

verus! {

/// Whether the run `r = (start, length - 1)` holds the value `v`.
pub open spec fn run_has(r: (u16, u16), v: u16) -> bool {
    r.0 <= v && v <= r.0 + r.1
}

/// Whether one of the runs holds `v`.
pub open spec fn runs_have(runs: Seq<(u16, u16)>, v: u16) -> bool {
    exists|i: int| 0 <= i < runs.len() && run_has(#[trigger] runs[i], v)
}

/// The values that a sequence of runs holds.
pub open spec fn cover_set(runs: Seq<(u16, u16)>) -> Set<u16> {
    Set::new(|v: u16| runs_have(runs, v))
}

/// The values from `lo` to `hi`, both included.
pub open spec fn span(lo: int, hi: int) -> Set<u16> {
    Set::new(|v: u16| lo <= v && v <= hi)
}

/// Every run ends within the block, and each starts at least two past the
/// end of the one before: sorted, not overlapping, not adjacent.
pub open spec fn runs_wf(runs: Seq<(u16, u16)>) -> bool {
    &&& forall|i: int| 0 <= i < runs.len() ==> (#[trigger] runs[i]).0 + runs[i].1 <= 65535
    &&& forall|i: int, j: int|
        0 <= i < j < runs.len() ==> (#[trigger] runs[i]).0 + runs[i].1 + 1 < (#[trigger] runs[j]).0
}

/// Number of values that the runs hold, each run counted by its length.
pub open spec fn total_len(runs: Seq<(u16, u16)>) -> nat
    decreases runs.len(),
{
    if runs.len() == 0 {
        0
    } else {
        total_len(runs.drop_last()) + runs.last().1 as nat + 1
    }
}

/// A span of `n` consecutive values has `n` members.
pub proof fn lemma_span_len(lo: int, hi: int)
    requires
        0 <= lo,
        lo <= hi + 1,
        hi <= 65535,
    ensures
        span(lo, hi).finite(),
        span(lo, hi).len() == hi - lo + 1,
    decreases hi - lo + 1,
{
    lemma_u16_set_finite(span(lo, hi));
    if hi < lo {
        assert(span(lo, hi) =~= Set::<u16>::empty());
    } else {
        lemma_span_len(lo, hi - 1);
        assert(span(lo, hi) =~= span(lo, hi - 1).insert(hi as u16));
    }
}

/// Adding a run at the end adds its span to the values held.
pub proof fn lemma_cover_push(runs: Seq<(u16, u16)>, r: (u16, u16))
    ensures
        cover_set(runs.push(r)) == cover_set(runs).union(span(r.0 as int, r.0 + r.1)),
{
    let after = runs.push(r);
    assert forall|v: u16| cover_set(after).contains(v) <==> cover_set(runs).union(
        span(r.0 as int, r.0 + r.1),
    ).contains(v) by {
        if runs_have(runs, v) {
            let i = choose|i: int| 0 <= i < runs.len() && run_has(runs[i], v);
            assert(run_has(after[i], v));
        }
        if run_has(r, v) {
            assert(run_has(after[runs.len() as int], v));
        }
        if runs_have(after, v) {
            let i = choose|i: int| 0 <= i < after.len() && run_has(after[i], v);
            if i < runs.len() {
                assert(run_has(runs[i], v));
            }
        }
    }
    assert(cover_set(after) =~= cover_set(runs).union(span(r.0 as int, r.0 + r.1)));
}

/// A prefix of well-formed runs is well formed.
pub proof fn lemma_wf_take(runs: Seq<(u16, u16)>, n: int)
    requires
        runs_wf(runs),
        0 <= n <= runs.len(),
    ensures
        runs_wf(runs.take(n)),
{
    let t = runs.take(n);
    assert forall|i: int| 0 <= i < t.len() implies (#[trigger] t[i]).0 + t[i].1 <= 65535 by {
        assert(t[i] == runs[i]);
    }
    assert forall|i: int, j: int| 0 <= i < j < t.len() implies (#[trigger] t[i]).0 + t[i].1 + 1 < (
    #[trigger] t[j]).0 by {
        assert(t[i] == runs[i]);
        assert(t[j] == runs[j]);
    }
}

/// Well-formed runs hold as many values as their lengths add up to.
pub proof fn lemma_cover_len(runs: Seq<(u16, u16)>)
    requires
        runs_wf(runs),
    ensures
        cover_set(runs).finite(),
        cover_set(runs).len() == total_len(runs),
        total_len(runs) <= 65536,
    decreases runs.len(),
{
    lemma_u16_set_finite(cover_set(runs));
    if runs.len() == 0 {
        assert(cover_set(runs) =~= Set::<u16>::empty());
    } else {
        let rest = runs.drop_last();
        let last = runs.last();
        assert(rest == runs.take(runs.len() - 1));
        lemma_wf_take(runs, runs.len() - 1);
        lemma_cover_len(rest);
        assert(runs =~= rest.push(last));
        lemma_cover_push(rest, last);
        lemma_span_len(last.0 as int, last.0 + last.1);
        let sp = span(last.0 as int, last.0 + last.1);
        assert(cover_set(rest).disjoint(sp)) by {
            assert forall|v: u16| cover_set(rest).contains(v) implies !sp.contains(v) by {
                let i = choose|i: int| 0 <= i < rest.len() && run_has(rest[i], v);
                assert(rest[i] == runs[i]);
                assert(runs[i].0 + runs[i].1 + 1 < runs[runs.len() - 1].0);
            }
        }
        vstd::set_lib::lemma_set_disjoint_lens(cover_set(rest), sp);
    }
    lemma_u16_set_bound(cover_set(runs));
}

/// No set of 16-bit values has more than 65,536 members.
pub proof fn lemma_u16_set_bound(s: Set<u16>)
    ensures
        s.finite(),
        s.len() <= 65536,
{
    lemma_u16_set_finite(s);
    lemma_span_len(0, 65535);
    assert(s.subset_of(span(0, 65535)));
    vstd::set_lib::lemma_len_subset(s, span(0, 65535));
}

/// Run container: the values of one block as runs of consecutive values.
pub struct RunContainer {
    /// The runs, each as its first value and its length less one.
    pub runs: Vec<(u16, u16)>,
}

impl View for RunContainer {
    type V = Set<u16>;

    open spec fn view(&self) -> Set<u16> {
        cover_set(self.runs@)
    }
}

impl Clone for RunContainer {
    fn clone(&self) -> (copy: Self)
        ensures
            copy.runs@ == self.runs@,
    {
        let mut runs: Vec<(u16, u16)> = Vec::with_capacity(self.runs.len());
        let mut i: usize = 0;
        while i < self.runs.len()
            invariant
                i <= self.runs@.len(),
                runs@ == self.runs@.take(i as int),
            decreases self.runs@.len() - i,
        {
            runs.push(self.runs[i]);
            i += 1;
            assert(runs@ =~= self.runs@.take(i as int));
        }
        assert(self.runs@.take(i as int) =~= self.runs@);
        RunContainer { runs }
    }
}

impl RunContainer {
    /// The runs are sorted, within the block, and no two overlap or touch.
    pub open spec fn wf(&self) -> bool {
        runs_wf(self.runs@)
    }

    /// Membership by a scan of the runs, which ends at the first run that
    /// starts past the value.
    pub fn contains(&self, value: u16) -> (found: bool)
        requires
            self.wf(),
        ensures
            found == self@.contains(value),
    {
        let mut i: usize = 0;
        while i < self.runs.len()
            invariant
                i <= self.runs@.len(),
                self.wf(),
                forall|k: int| 0 <= k < i ==> !run_has(self.runs@[k], value),
            decreases self.runs@.len() - i,
        {
            let (start, length) = self.runs[i];
            let end: u16 = start + length;
            if value >= start && value <= end {
                assert(run_has(self.runs@[i as int], value));
                return true;
            }
            if value < start {
                proof {
                    assert forall|k: int| 0 <= k < self.runs@.len() implies !run_has(
                        self.runs@[k],
                        value,
                    ) by {
                        if k > i {
                            assert(self.runs@[i as int].0 + self.runs@[i as int].1 + 1
                                < self.runs@[k].0);
                        }
                    }
                }
                return false;
            }
            i += 1;
        }
        false
    }

    /// Bytes on the heap: four for each run that the vector has room for.
    pub fn heap_memory(&self) -> (bytes: usize)
        ensures
            exists|capacity: usize|
                capacity >= self.runs@.len() && bytes == heap_bytes_of(capacity, 4),
    {
        heap_bytes(vec_capacity(&self.runs), 4)
    }

    /// Number of values held: the sum of the runs' lengths.
    pub fn len(&self) -> (n: u64)
        requires
            self.wf(),
        ensures
            n == self@.len(),
            n <= 65536,
    {
        let mut total: u64 = 0;
        let mut i: usize = 0;
        while i < self.runs.len()
            invariant
                i <= self.runs@.len(),
                self.wf(),
                total == total_len(self.runs@.take(i as int)),
                total <= 65536,
            decreases self.runs@.len() - i,
        {
            proof {
                lemma_wf_take(self.runs@, i + 1);
                lemma_cover_len(self.runs@.take(i + 1));
                assert(self.runs@.take(i + 1).drop_last() =~= self.runs@.take(i as int));
            }
            total += (self.runs[i].1 as u64) + 1;
            i += 1;
        }
        proof {
            assert(self.runs@.take(i as int) =~= self.runs@);
            lemma_cover_len(self.runs@);
        }
        total
    }

    /// Whether no run is stored.
    pub fn is_empty(&self) -> (empty: bool)
        ensures
            empty == (self.runs@.len() == 0),
            empty == (self@ == Set::<u16>::empty()),
    {
        proof {
            if self.runs@.len() == 0 {
                assert(self@ =~= Set::<u16>::empty());
            } else {
                assert(run_has(self.runs@[0], self.runs@[0].0));
                assert(self@.contains(self.runs@[0].0));
            }
        }
        self.runs.is_empty()
    }

    /// Expands every run into its values.
    pub fn to_array(&self) -> (result: ArrayContainer)
        requires
            self.wf(),
        ensures
            result.wf(),
            result@ == self@,
    {
        let n: u64 = self.len();
        proof {
            lemma_u16_set_bound(self@);
        }
        let mut values: Vec<u16> = Vec::with_capacity(n as usize);
        let mut k: usize = 0;
        assert(values@.to_set() =~= cover_set(self.runs@.take(0)));
        while k < self.runs.len()
            invariant
                k <= self.runs@.len(),
                self.wf(),
                strictly_increasing(values@),
                values@.to_set() == cover_set(self.runs@.take(k as int)),
                k < self.runs@.len() ==> forall|m: int|
                    0 <= m < values@.len() ==> values@[m] + 1 < self.runs@[k as int].0,
            decreases self.runs@.len() - k,
        {
            let (start, length) = self.runs[k];
            let mut offset: u16 = 0;
            let ghost base = values@.to_set();
            assert(values@.to_set() =~= base.union(span(start as int, start + offset - 1)));
            loop
                invariant_except_break
                    offset <= length,
                    strictly_increasing(values@),
                    values@.to_set() == base.union(span(start as int, start + offset - 1)),
                    forall|m: int| 0 <= m < values@.len() ==> values@[m] < start + offset,
                invariant
                    k < self.runs@.len(),
                    self.wf(),
                    (start, length) == self.runs@[k as int],
                    base == cover_set(self.runs@.take(k as int)),
                ensures
                    strictly_increasing(values@),
                    values@.to_set() == base.union(span(start as int, start + length)),
                    forall|m: int| 0 <= m < values@.len() ==> values@[m] <= start + length,
                decreases length - offset,
            {
                let x: u16 = start + offset;
                proof {
                    lemma_push_increasing(values@, x);
                    assert(base.union(span(start as int, start + offset - 1)).insert(x)
                        =~= base.union(span(start as int, start + offset)));
                }
                values.push(x);
                if offset == length {
                    break ;
                }
                offset += 1;
            }
            proof {
                lemma_cover_push(self.runs@.take(k as int), self.runs@[k as int]);
                assert(self.runs@.take(k + 1) =~= self.runs@.take(k as int).push(
                    self.runs@[k as int],
                ));
            }
            k += 1;
        }
        assert(self.runs@.take(k as int) =~= self.runs@);
        ArrayContainer { values }
    }

    /// Builds the runs of a sorted array by scanning for breaks in the
    /// succession of its values.
    pub fn from_array(array: &ArrayContainer) -> (result: RunContainer)
        requires
            array.wf(),
        ensures
            result.wf(),
            result@ == array@,
    {
        if array.values.len() == 0 {
            let empty = RunContainer { runs: Vec::new() };
            assert(empty@ =~= array@);
            return empty;
        }
        let mut runs: Vec<(u16, u16)> = Vec::new();
        let mut run_start: u16 = array.values[0];
        let mut run_more: u16 = 0;
        let ghost vals = array.values@;
        let mut i: usize = 1;
        proof {
            lemma_take_push_set(vals, 0);
            assert(vals.take(0).to_set() =~= Set::<u16>::empty());
            assert(cover_set(runs@) =~= Set::<u16>::empty());
            assert(vals.take(1).to_set() =~= cover_set(runs@).union(
                span(run_start as int, run_start + run_more),
            ));
        }
        while i < array.values.len()
            invariant
                1 <= i <= vals.len(),
                vals == array.values@,
                strictly_increasing(vals),
                runs_wf(runs@),
                run_start + run_more == vals[i - 1],
                forall|k: int| 0 <= k < runs@.len() ==> (#[trigger] runs@[k]).0 + runs@[k].1 + 1
                    < run_start,
                vals.take(i as int).to_set() == cover_set(runs@).union(
                    span(run_start as int, run_start + run_more),
                ),
            decreases vals.len() - i,
        {
            let ghost before = runs@;
            proof {
                lemma_take_push_set(vals, i as int);
                assert(vals[i - 1] < vals[i as int]);
            }
            if array.values[i] == array.values[i - 1] + 1 {
                run_more = run_more.saturating_add(1);
                assert(span(run_start as int, run_start + run_more) =~= span(
                    run_start as int,
                    run_start + run_more - 1,
                ).insert(vals[i as int]));
            } else {
                runs.push((run_start, run_more));
                proof {
                    lemma_cover_push(before, (run_start, run_more));
                    let after = runs@;
                    assert forall|a: int, b: int| 0 <= a < b < after.len() implies (
                    #[trigger] after[a]).0 + after[a].1 + 1 < (#[trigger] after[b]).0 by {
                        if b < before.len() {
                            assert(after[a] == before[a]);
                            assert(after[b] == before[b]);
                        } else {
                            assert(after[a] == before[a]);
                        }
                    }
                    assert forall|a: int| 0 <= a < after.len() implies (#[trigger] after[a]).0
                        + after[a].1 <= 65535 by {
                        if a < before.len() {
                            assert(after[a] == before[a]);
                        }
                    }
                }
                run_start = array.values[i];
                run_more = 0;
                proof {
                    let after = runs@;
                    assert forall|k: int| 0 <= k < after.len() implies (#[trigger] after[k]).0
                        + after[k].1 + 1 < run_start by {
                        if k < before.len() {
                            assert(after[k] == before[k]);
                        }
                    }
                    assert(span(run_start as int, run_start + run_more) =~= Set::<u16>::empty().insert(
                        vals[i as int],
                    ));
                }
            }
            i += 1;
            assert(vals.take(i as int).to_set() =~= cover_set(runs@).union(
                span(run_start as int, run_start + run_more),
            ));
        }
        let ghost before = runs@;
        runs.push((run_start, run_more));
        proof {
            lemma_cover_push(before, (run_start, run_more));
            let after = runs@;
            assert forall|a: int, b: int| 0 <= a < b < after.len() implies (#[trigger] after[a]).0
                + after[a].1 + 1 < (#[trigger] after[b]).0 by {
                if b < before.len() {
                    assert(after[a] == before[a]);
                    assert(after[b] == before[b]);
                } else {
                    assert(after[a] == before[a]);
                }
            }
            assert forall|a: int| 0 <= a < after.len() implies (#[trigger] after[a]).0 + after[a].1
                <= 65535 by {
                if a < before.len() {
                    assert(after[a] == before[a]);
                }
            }
            assert(vals.take(i as int) =~= vals);
        }
        RunContainer { runs }
    }

    /// Union, by way of the two containers' arrays.
    pub fn union(&self, other: &RunContainer) -> (result: RunContainer)
        requires
            self.wf(),
            other.wf(),
        ensures
            result.wf(),
            result@ == self@.union(other@),
    {
        let array_self = self.to_array();
        let array_other = other.to_array();
        let union_array = array_self.union(&array_other);
        RunContainer::from_array(&union_array)
    }

    /// Intersection, by way of the two containers' arrays; `None` when no
    /// value is shared.
    pub fn intersection(&self, other: &RunContainer) -> (result: Option<RunContainer>)
        requires
            self.wf(),
            other.wf(),
        ensures
            result is None <==> self@.intersect(other@) == Set::<u16>::empty(),
            result matches Some(c) ==> c.wf() && c@ == self@.intersect(other@),
    {
        let array_self = self.to_array();
        let array_other = other.to_array();
        match array_self.intersection(&array_other) {
            Some(arr) => Some(RunContainer::from_array(&arr)),
            None => None,
        }
    }

    /// Difference `self - other`, by way of the two containers' arrays;
    /// `None` when nothing is left.
    pub fn difference(&self, other: &RunContainer) -> (result: Option<RunContainer>)
        requires
            self.wf(),
            other.wf(),
        ensures
            result is None <==> self@.difference(other@) == Set::<u16>::empty(),
            result matches Some(c) ==> c.wf() && c@ == self@.difference(other@),
    {
        let array_self = self.to_array();
        let array_other = other.to_array();
        match array_self.difference(&array_other) {
            Some(arr) => Some(RunContainer::from_array(&arr)),
            None => None,
        }
    }

    /// Symmetric difference, by way of the two containers' arrays; `None`
    /// when the two hold the same values.
    pub fn symmetric_difference(&self, other: &RunContainer) -> (result: Option<RunContainer>)
        requires
            self.wf(),
            other.wf(),
        ensures
            result is None <==> sym_diff(self@, other@) == Set::<u16>::empty(),
            result matches Some(c) ==> c.wf() && c@ == sym_diff(self@, other@),
    {
        let array_self = self.to_array();
        let array_other = other.to_array();
        match array_self.symmetric_difference(&array_other) {
            Some(arr) => Some(RunContainer::from_array(&arr)),
            None => None,
        }
    }
}


/// Taking a run out takes its span out of the values held, as far as no
/// other run holds them.
pub proof fn lemma_cover_remove(runs: Seq<(u16, u16)>, k: int)
    requires
        0 <= k < runs.len(),
    ensures
        cover_set(runs) == cover_set(runs.remove(k)).union(
            span(runs[k].0 as int, runs[k].0 + runs[k].1),
        ),
{
    let rest = runs.remove(k);
    let sp = span(runs[k].0 as int, runs[k].0 + runs[k].1);
    assert forall|v: u16| cover_set(runs).contains(v) <==> cover_set(rest).union(sp).contains(
        v,
    ) by {
        if runs_have(runs, v) {
            let i = choose|i: int| 0 <= i < runs.len() && run_has(runs[i], v);
            if i < k {
                assert(run_has(rest[i], v));
            } else if i > k {
                assert(run_has(rest[i - 1], v));
            }
        }
        if runs_have(rest, v) {
            let i = choose|i: int| 0 <= i < rest.len() && run_has(rest[i], v);
            if i < k {
                assert(run_has(runs[i], v));
            } else {
                assert(run_has(runs[i + 1], v));
            }
        }
        if sp.contains(v) {
            assert(run_has(runs[k], v));
        }
    }
    assert(cover_set(runs) =~= cover_set(rest).union(sp));
}

/// Putting a run in adds its span to the values held.
pub proof fn lemma_cover_insert(runs: Seq<(u16, u16)>, k: int, r: (u16, u16))
    requires
        0 <= k <= runs.len(),
    ensures
        cover_set(runs.insert(k, r)) == cover_set(runs).union(span(r.0 as int, r.0 + r.1)),
{
    let after = runs.insert(k, r);
    assert(after.remove(k) =~= runs);
    lemma_cover_remove(after, k);
}

/// In well-formed runs, what the other runs hold keeps a gap of at least one
/// value on both sides of a given run.
pub proof fn lemma_run_isolated(runs: Seq<(u16, u16)>, k: int, v: u16)
    requires
        runs_wf(runs),
        0 <= k < runs.len(),
        cover_set(runs.remove(k)).contains(v),
    ensures
        v + 1 < runs[k].0 || runs[k].0 + runs[k].1 + 1 < v,
        k > 0 && v + 1 < runs[k].0 ==> v <= runs[k - 1].0 + runs[k - 1].1,
        k + 1 < runs.len() && runs[k].0 + runs[k].1 + 1 < v ==> runs[k + 1].0 <= v,
{
    let rest = runs.remove(k);
    let i = choose|i: int| 0 <= i < rest.len() && run_has(rest[i], v);
    if i < k {
        assert(rest[i] == runs[i]);
        assert(runs[i].0 + runs[i].1 + 1 < runs[k].0);
        if i < k - 1 {
            assert(runs[i].0 + runs[i].1 + 1 < runs[k - 1].0);
        }
    } else {
        assert(rest[i] == runs[i + 1]);
        assert(runs[k].0 + runs[k].1 + 1 < runs[i + 1].0);
        if i + 1 > k + 1 {
            assert(runs[k + 1].0 + runs[k + 1].1 + 1 < runs[i + 1].0);
        }
    }
}

/// Well-formed runs stay so when one run is replaced by a run that keeps
/// within the gaps to its neighbours.
pub proof fn lemma_wf_update(runs: Seq<(u16, u16)>, k: int, r: (u16, u16))
    requires
        runs_wf(runs),
        0 <= k < runs.len(),
        r.0 + r.1 <= 65535,
        k > 0 ==> runs[k - 1].0 + runs[k - 1].1 + 1 < r.0,
        k + 1 < runs.len() ==> r.0 + r.1 + 1 < runs[k + 1].0,
    ensures
        runs_wf(runs.update(k, r)),
{
    let after = runs.update(k, r);
    assert forall|i: int, j: int| 0 <= i < j < after.len() implies (#[trigger] after[i]).0
        + after[i].1 + 1 < (#[trigger] after[j]).0 by {
        if i == k {
            assert(j >= k + 1);
            assert(runs[k + 1].0 <= runs[j].0) by {
                if j > k + 1 {
                    assert(runs[k + 1].0 + runs[k + 1].1 + 1 < runs[j].0);
                }
            }
        } else if j == k {
            assert(runs[i].0 + runs[i].1 <= runs[k - 1].0 + runs[k - 1].1) by {
                if i < k - 1 {
                    assert(runs[i].0 + runs[i].1 + 1 < runs[k - 1].0);
                }
            }
        } else {
            assert(runs[i].0 + runs[i].1 + 1 < runs[j].0);
        }
    }
}

/// Well-formed runs stay so when one run is taken out.
pub proof fn lemma_wf_remove(runs: Seq<(u16, u16)>, k: int)
    requires
        runs_wf(runs),
        0 <= k < runs.len(),
    ensures
        runs_wf(runs.remove(k)),
{
    let after = runs.remove(k);
    assert forall|i: int| 0 <= i < after.len() implies (#[trigger] after[i]).0 + after[i].1
        <= 65535 by {
        if i < k {
            assert(after[i] == runs[i]);
        } else {
            assert(after[i] == runs[i + 1]);
        }
    }
    assert forall|i: int, j: int| 0 <= i < j < after.len() implies (#[trigger] after[i]).0
        + after[i].1 + 1 < (#[trigger] after[j]).0 by {
        let i0 = if i < k { i } else { i + 1 };
        let j0 = if j < k { j } else { j + 1 };
        assert(after[i] == runs[i0]);
        assert(after[j] == runs[j0]);
        assert(runs[i0].0 + runs[i0].1 + 1 < runs[j0].0);
    }
}

/// Well-formed runs stay so when a run is put into a gap wide enough for it.
pub proof fn lemma_wf_insert(runs: Seq<(u16, u16)>, k: int, r: (u16, u16))
    requires
        runs_wf(runs),
        0 <= k <= runs.len(),
        r.0 + r.1 <= 65535,
        k > 0 ==> runs[k - 1].0 + runs[k - 1].1 + 1 < r.0,
        k < runs.len() ==> r.0 + r.1 + 1 < runs[k].0,
    ensures
        runs_wf(runs.insert(k, r)),
{
    let after = runs.insert(k, r);
    assert forall|i: int| 0 <= i < after.len() implies (#[trigger] after[i]).0 + after[i].1
        <= 65535 by {
        if i < k {
            assert(after[i] == runs[i]);
        } else if i > k {
            assert(after[i] == runs[i - 1]);
        }
    }
    assert forall|i: int, j: int| 0 <= i < j < after.len() implies (#[trigger] after[i]).0
        + after[i].1 + 1 < (#[trigger] after[j]).0 by {
        if i == k {
            assert(after[j] == runs[j - 1]);
            if j - 1 > k {
                assert(runs[k].0 + runs[k].1 + 1 < runs[j - 1].0);
            }
        } else if j == k {
            assert(after[i] == runs[i]);
            if i < k - 1 {
                assert(runs[i].0 + runs[i].1 + 1 < runs[k - 1].0);
            }
        } else {
            let i0 = if i < k { i } else { i - 1 };
            let j0 = if j < k { j } else { j - 1 };
            assert(after[i] == runs[i0]);
            assert(after[j] == runs[j0]);
            assert(runs[i0].0 + runs[i0].1 + 1 < runs[j0].0);
        }
    }
}

/// Outcome of looking a value up among the starts of sorted runs: the index
/// of the run that starts with it, or the index of the first run that starts
/// past it.
pub open spec fn run_search_result(
    runs: Seq<(u16, u16)>,
    value: u16,
    r: Result<usize, usize>,
) -> bool {
    match r {
        Ok(i) => i < runs.len() && runs[i as int].0 == value,
        Err(i) => {
            &&& i <= runs.len()
            &&& forall|k: int| 0 <= k < i ==> (#[trigger] runs[k]).0 < value
            &&& forall|k: int| i <= k < runs.len() ==> (#[trigger] runs[k]).0 > value
        },
    }
}

/// Binary search for a value among the starts of well-formed runs.
pub fn search_runs(runs: &Vec<(u16, u16)>, value: u16) -> (r: Result<usize, usize>)
    requires
        runs_wf(runs@),
    ensures
        run_search_result(runs@, value, r),
{
    let mut lo: usize = 0;
    let mut hi: usize = runs.len();
    while lo < hi
        invariant
            lo <= hi <= runs@.len(),
            runs_wf(runs@),
            forall|k: int| 0 <= k < lo ==> (#[trigger] runs@[k]).0 < value,
            forall|k: int| hi <= k < runs@.len() ==> (#[trigger] runs@[k]).0 > value,
        decreases hi - lo,
    {
        let mid: usize = lo + (hi - lo) / 2;
        let probe: u16 = runs[mid].0;
        if probe == value {
            return Ok(mid);
        } else if probe < value {
            proof {
                assert forall|k: int| 0 <= k < mid + 1 implies (#[trigger] runs@[k]).0 < value by {
                    if k < mid {
                        assert(runs@[k].0 + runs@[k].1 + 1 < runs@[mid as int].0);
                    }
                }
            }
            lo = mid + 1;
        } else {
            proof {
                assert forall|k: int| mid <= k < runs@.len() implies (#[trigger] runs@[k]).0
                    > value by {
                    if k > mid {
                        assert(runs@[mid as int].0 + runs@[mid as int].1 + 1 < runs@[k].0);
                    }
                }
            }
            hi = mid;
        }
    }
    Err(lo)
}

impl RunContainer {
    /// Inserts a value: no change where a run holds it; else the run that
    /// ends just before it grows by one, and swallows the next run where the
    /// two now touch; else the run that starts just after it grows downwards;
    /// else a new run of one value is put in. `true` if the value was absent.
    #[verifier::rlimit(50)]
    pub fn insert(&mut self, value: u16) -> (added: bool)
        requires
            old(self).wf(),
        ensures
            final(self).wf(),
            final(self)@ == old(self)@.insert(value),
            added == !old(self)@.contains(value),
            final(self).runs@ == runs_after_insert(old(self).runs@, value),
    {
        let ghost before = self.runs@;
        match search_runs(&self.runs, value) {
            Ok(found) => {
                proof {
                    assert(run_has(before[found as int], value));
                    assert(self@ =~= self@.insert(value));
                    lemma_insert_slot(before, value, found as int);
                }
                false
            },
            Err(index) => {
                proof {
                    lemma_insert_slot(before, value, index as int);
                }
                if index > 0 {
                    let (start, length) = self.runs[index - 1];
                    let run_end: u16 = start + length;
                    if value <= run_end {
                        proof {
                            assert(run_has(before[index - 1], value));
                            assert(self@ =~= self@.insert(value));
                        }
                        return false;
                    } else if value == run_end + 1 {
                        let mut grown: u16 = length + 1;
                        let mut merged: bool = false;
                        if index < self.runs.len() {
                            let (next_start, next_length) = self.runs[index];
                            if value + 1 == next_start {
                                proof {
                                    lemma_grow_merge(before, index - 1, value);
                                }
                                grown = grown + (next_length + 1);
                                merged = true;
                            }
                        }
                        self.runs[index - 1] = (start, grown);
                        if merged {
                            self.runs.remove(index);
                        }
                        proof {
                            lemma_absent_in_gap(before, index as int, value);
                            if !merged {
                                lemma_grow_back(before, index - 1, value);
                            }
                        }
                        return true;
                    }
                }
                if index < self.runs.len() {
                    let (start, length) = self.runs[index];
                    if value + 1 == start {
                        self.runs[index] = (value, length + 1);
                        proof {
                            lemma_absent_in_gap(before, index as int, value);
                            lemma_grow_front(before, index as int, value);
                        }
                        return true;
                    }
                }
                self.runs.insert(index, (value, 0));
                proof {
                    lemma_absent_in_gap(before, index as int, value);
                    lemma_new_run(before, index as int, value);
                }
                true
            },
        }
    }
}

/// Putting a run of one value into a gap that leaves room on both sides.
pub proof fn lemma_new_run(runs: Seq<(u16, u16)>, k: int, value: u16)
    requires
        runs_wf(runs),
        0 <= k <= runs.len(),
        k > 0 ==> runs[k - 1].0 + runs[k - 1].1 + 1 < value,
        k < runs.len() ==> value + 1 < runs[k].0,
    ensures
        runs_wf(runs.insert(k, (value, 0u16))),
        cover_set(runs.insert(k, (value, 0u16))) == cover_set(runs).insert(value),
{
    lemma_wf_insert(runs, k, (value, 0u16));
    lemma_cover_insert(runs, k, (value, 0u16));
    assert(span(value as int, value + 0) =~= Set::<u16>::empty().insert(value));
    assert(cover_set(runs.insert(k, (value, 0u16))) =~= cover_set(runs).insert(value));
}

/// Growing a run by the value just past its end, where the next run does
/// not start right after that value.
pub proof fn lemma_grow_back(runs: Seq<(u16, u16)>, k: int, value: u16)
    requires
        runs_wf(runs),
        0 <= k < runs.len(),
        value == runs[k].0 + runs[k].1 + 1,
        !(k + 1 < runs.len() && value + 1 == runs[k + 1].0),
    ensures
        runs_wf(runs.update(k, (runs[k].0, (runs[k].1 + 1) as u16))),
        cover_set(runs.update(k, (runs[k].0, (runs[k].1 + 1) as u16))) == cover_set(runs).insert(
            value,
        ),
{
    let r = (runs[k].0, (runs[k].1 + 1) as u16);
    if k > 0 {
        assert(runs[k - 1].0 + runs[k - 1].1 + 1 < runs[k].0);
    }
    if k + 1 < runs.len() {
        assert(runs[k].0 + runs[k].1 + 1 < runs[k + 1].0);
    }
    lemma_wf_update(runs, k, r);
    lemma_cover_remove(runs, k);
    let after = runs.update(k, r);
    assert(after.remove(k) =~= runs.remove(k));
    lemma_cover_remove(after, k);
    assert(span(r.0 as int, r.0 + r.1) =~= span(runs[k].0 as int, runs[k].0 + runs[k].1).insert(
        value,
    ));
    assert(cover_set(after) =~= cover_set(runs).insert(value));
}

/// Growing a run by the value just past its end and merging the next run
/// into it, where the next run starts right after that value.
pub proof fn lemma_grow_merge(runs: Seq<(u16, u16)>, k: int, value: u16)
    requires
        runs_wf(runs),
        0 <= k,
        k + 1 < runs.len(),
        value == runs[k].0 + runs[k].1 + 1,
        value + 1 == runs[k + 1].0,
    ensures
        runs[k].1 + 1 + runs[k + 1].1 + 1 <= 65535,
        runs_wf(
            runs.update(k, (runs[k].0, (runs[k].1 + 1 + runs[k + 1].1 + 1) as u16)).remove(k + 1),
        ),
        cover_set(
            runs.update(k, (runs[k].0, (runs[k].1 + 1 + runs[k + 1].1 + 1) as u16)).remove(k + 1),
        ) == cover_set(runs).insert(value),
{
    let r = (runs[k].0, (runs[k].1 + 1 + runs[k + 1].1 + 1) as u16);
    let mid = runs.remove(k + 1);
    lemma_wf_remove(runs, k + 1);
    lemma_cover_remove(runs, k + 1);
    assert(mid[k] == runs[k]);
    lemma_cover_remove(mid, k);
    if k + 1 < mid.len() {
        assert(mid[k + 1] == runs[k + 2]);
        assert(runs[k + 1].0 + runs[k + 1].1 + 1 < runs[k + 2].0);
    }
    if k > 0 {
        assert(mid[k - 1] == runs[k - 1]);
        assert(runs[k - 1].0 + runs[k - 1].1 + 1 < runs[k].0);
    }
    lemma_wf_update(mid, k, r);
    let after = mid.update(k, r);
    assert(after =~= runs.update(k, r).remove(k + 1));
    assert(after.remove(k) =~= mid.remove(k));
    lemma_cover_remove(after, k);
    assert(span(r.0 as int, r.0 + r.1) =~= span(runs[k].0 as int, runs[k].0 + runs[k].1).insert(
        value,
    ).union(span(runs[k + 1].0 as int, runs[k + 1].0 + runs[k + 1].1)));
    assert(cover_set(after) =~= cover_set(runs).insert(value));
}

/// Growing a run downwards by the value just before its start, where the
/// run before ends at least two below that value.
pub proof fn lemma_grow_front(runs: Seq<(u16, u16)>, k: int, value: u16)
    requires
        runs_wf(runs),
        0 <= k < runs.len(),
        value + 1 == runs[k].0,
        k > 0 ==> runs[k - 1].0 + runs[k - 1].1 + 1 < value,
    ensures
        runs_wf(runs.update(k, (value, (runs[k].1 + 1) as u16))),
        cover_set(runs.update(k, (value, (runs[k].1 + 1) as u16))) == cover_set(runs).insert(value),
{
    let r = (value, (runs[k].1 + 1) as u16);
    if k + 1 < runs.len() {
        assert(runs[k].0 + runs[k].1 + 1 < runs[k + 1].0);
    }
    lemma_wf_update(runs, k, r);
    lemma_cover_remove(runs, k);
    let after = runs.update(k, r);
    assert(after.remove(k) =~= runs.remove(k));
    lemma_cover_remove(after, k);
    assert(span(r.0 as int, r.0 + r.1) =~= span(runs[k].0 as int, runs[k].0 + runs[k].1).insert(
        value,
    ));
    assert(cover_set(after) =~= cover_set(runs).insert(value));
}

impl RunContainer {
    /// Removes a value: the run that holds it is dropped where it has one
    /// value, shortened where the value is at one of its ends, and split in
    /// two where the value lies inside. `true` if the value was present.
    #[verifier::rlimit(50)]
    pub fn remove(&mut self, value: u16) -> (removed: bool)
        requires
            old(self).wf(),
        ensures
            final(self).wf(),
            final(self)@ == old(self)@.remove(value),
            removed == old(self)@.contains(value),
    {
        let ghost before = self.runs@;
        let mut i: usize = 0;
        while i < self.runs.len()
            invariant
                i <= before.len(),
                self.runs@ == before,
                old(self).runs@ == before,
                runs_wf(before),
                forall|k: int| 0 <= k < i ==> !run_has(before[k], value),
            decreases before.len() - i,
        {
            let (start, length) = self.runs[i];
            let end: u16 = start + length;
            if value >= start && value <= end {
                let ghost k = i as int;
                proof {
                    assert(run_has(before[k], value));
                    lemma_cover_remove(before, k);
                    if cover_set(before.remove(k)).contains(value) {
                        lemma_run_isolated(before, k, value);
                    }
                    if k > 0 {
                        assert(before[k - 1].0 + before[k - 1].1 + 1 < before[k].0);
                    }
                    if k + 1 < before.len() {
                        assert(before[k].0 + before[k].1 + 1 < before[k + 1].0);
                    }
                }
                if length == 0 {
                    self.runs.remove(i);
                    proof {
                        lemma_wf_remove(before, k);
                        assert(span(start as int, start + length) =~= Set::<u16>::empty().insert(
                            value,
                        ));
                    }
                } else if value == start {
                    self.runs[i] = (start + 1, length - 1);
                    proof {
                        let r = ((start + 1) as u16, (length - 1) as u16);
                        lemma_wf_update(before, k, r);
                        let after = before.update(k, r);
                        assert(self.runs@ =~= after);
                        assert(after.remove(k) =~= before.remove(k));
                        lemma_cover_remove(after, k);
                        assert(span(start as int, start + length) =~= span(
                            start + 1,
                            start + length,
                        ).insert(value));
                    }
                } else if value == end {
                    self.runs[i] = (start, length - 1);
                    proof {
                        let r = (start, (length - 1) as u16);
                        lemma_wf_update(before, k, r);
                        let after = before.update(k, r);
                        assert(self.runs@ =~= after);
                        assert(after.remove(k) =~= before.remove(k));
                        lemma_cover_remove(after, k);
                        assert(span(start as int, start + length) =~= span(
                            start as int,
                            start + length - 1,
                        ).insert(value));
                    }
                } else {
                    let first_length: u16 = value - start - 1;
                    let second_start: u16 = value + 1;
                    let second_length: u16 = end - value - 1;
                    self.runs[i] = (start, first_length);
                    self.runs.insert(i + 1, (second_start, second_length));
                    proof {
                        let r1 = (start, first_length);
                        let r2 = (second_start, second_length);
                        lemma_wf_update(before, k, r1);
                        let mid = before.update(k, r1);
                        assert(mid.remove(k) =~= before.remove(k));
                        lemma_cover_remove(mid, k);
                        if k + 1 < mid.len() {
                            assert(mid[k + 1] == before[k + 1]);
                        }
                        lemma_wf_insert(mid, k + 1, r2);
                        lemma_cover_insert(mid, k + 1, r2);
                        assert(self.runs@ =~= mid.insert(k + 1, r2));
                        assert(span(start as int, start + length) =~= span(
                            start as int,
                            start + first_length,
                        ).insert(value).union(
                            span(second_start as int, second_start + second_length),
                        ));
                    }
                }
                assert(self@ =~= old(self)@.remove(value));
                return true;
            }
            if value < start {
                proof {
                    lemma_absent_in_gap_scan(before, i as int, value);
                    assert(self@ =~= self@.remove(value));
                }
                return false;
            }
            i += 1;
        }
        proof {
            assert(!runs_have(before, value));
            assert(self@ =~= self@.remove(value));
        }
        false
    }
}

/// A value that none of the runs before an index holds, and that is smaller
/// than the start of the run at the index, is in no run.
pub proof fn lemma_absent_in_gap_scan(runs: Seq<(u16, u16)>, k: int, value: u16)
    requires
        runs_wf(runs),
        0 <= k < runs.len(),
        forall|m: int| 0 <= m < k ==> !run_has(runs[m], value),
        value < runs[k].0,
    ensures
        !cover_set(runs).contains(value),
{
    if runs_have(runs, value) {
        let i = choose|i: int| 0 <= i < runs.len() && run_has(runs[i], value);
        if i > k {
            assert(runs[k].0 + runs[k].1 + 1 < runs[i].0);
        }
    }
}

/// Index of the first run that starts past `value`: where a search for
/// `value` among the starts ends when no run starts with it.
pub open spec fn insert_slot(runs: Seq<(u16, u16)>, value: u16) -> int
    decreases runs.len(),
{
    if runs.len() == 0 || runs.last().0 <= value {
        runs.len() as int
    } else {
        insert_slot(runs.drop_last(), value)
    }
}

/// The runs after `value` has been inserted: unchanged where a run holds it;
/// else the run before the slot extended, merged with the next where they
/// touch; else the run at the slot extended downwards; else a new run.
pub open spec fn runs_after_insert(runs: Seq<(u16, u16)>, value: u16) -> Seq<(u16, u16)> {
    let k = insert_slot(runs, value);
    if k > 0 && value <= runs[k - 1].0 + runs[k - 1].1 {
        runs
    } else if k > 0 && value == runs[k - 1].0 + runs[k - 1].1 + 1 {
        if k < runs.len() && value + 1 == runs[k].0 {
            runs.update(
                k - 1,
                (runs[k - 1].0, (runs[k - 1].1 + 1 + runs[k].1 + 1) as u16),
            ).remove(k)
        } else {
            runs.update(k - 1, (runs[k - 1].0, (runs[k - 1].1 + 1) as u16))
        }
    } else if k < runs.len() && value + 1 == runs[k].0 {
        runs.update(k, (value, (runs[k].1 + 1) as u16))
    } else {
        runs.insert(k, (value, 0u16))
    }
}

/// The slot of a value is where the search among the starts ends: past every
/// run that starts at or below the value.
pub proof fn lemma_insert_slot(runs: Seq<(u16, u16)>, value: u16, found: int)
    requires
        runs_wf(runs),
        0 <= found <= runs.len(),
        forall|k: int| 0 <= k < found ==> (#[trigger] runs[k]).0 < value,
        forall|k: int| found < k < runs.len() ==> (#[trigger] runs[k]).0 > value,
        found < runs.len() ==> runs[found].0 >= value,
    ensures
        insert_slot(runs, value) == if found < runs.len() && runs[found].0 == value {
            found + 1
        } else {
            found
        },
    decreases runs.len(),
{
    if runs.len() == 0 {
    } else if runs.last().0 <= value {
        let n = runs.len() - 1;
        if found < n {
            assert(runs[n].0 > value);
        }
    } else {
        let n = runs.len() - 1;
        assert(found <= n) by {
            if found > n {
                assert(runs[n].0 < value);
            }
        }
        let rest = runs.drop_last();
        assert(rest == runs.take(n));
        lemma_wf_take(runs, n);
        assert forall|k: int| 0 <= k < found && k < rest.len() implies (#[trigger] rest[k]).0
            < value by {
            assert(rest[k] == runs[k]);
        }
        assert forall|k: int| found < k < rest.len() implies (#[trigger] rest[k]).0 > value by {
            assert(rest[k] == runs[k]);
        }
        if found < rest.len() {
            assert(rest[found] == runs[found]);
        }
        lemma_insert_slot(rest, value, found);
    }
}

/// A value that lies past the end of the run before a slot and before the
/// start of the run at the slot is in no run.
pub proof fn lemma_absent_in_gap(runs: Seq<(u16, u16)>, k: int, value: u16)
    requires
        runs_wf(runs),
        0 <= k <= runs.len(),
        k > 0 ==> runs[k - 1].0 + runs[k - 1].1 < value,
        k < runs.len() ==> value < runs[k].0,
    ensures
        !cover_set(runs).contains(value),
{
    if runs_have(runs, value) {
        let i = choose|i: int| 0 <= i < runs.len() && run_has(runs[i], value);
        if i < k {
            if i < k - 1 {
                assert(runs[i].0 + runs[i].1 + 1 < runs[k - 1].0);
            }
        } else {
            if i > k {
                assert(runs[k].0 + runs[k].1 + 1 < runs[i].0);
            }
        }
    }
}

} // verus!
