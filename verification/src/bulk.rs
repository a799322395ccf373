//! Bulk insertion and removal: whole ranges of consecutive values, and
//! collections of scattered values.

use vstd::prelude::*;
use crate::container::{Container};
use crate::entries::{
    block, entries_view, entries_wf, has_key, holder, key_of, lemma_entry_insert,
    lemma_entry_remove, lemma_entry_update, lemma_halves, lemma_key_absent, lemma_slot, lifted,
    low_of, search_keys, value_of,
};
use crate::roaring::RoaringBitmap;
use crate::run::{RunContainer, span};

verus! {

/// One end of a range of values.
#[derive(Clone, Copy, Debug)]
pub enum RangeLimit {
    /// The range reaches the value and holds it.
    Included(u32),
    /// The range reaches the value and does not hold it.
    Excluded(u32),
    /// The range has no limit on this side.
    Unbounded,
}

/// Whether a range between two limits holds the value `v`.
pub open spec fn in_limits(start: RangeLimit, end: RangeLimit, v: u32) -> bool {
    &&& match start {
        RangeLimit::Included(s) => s <= v,
        RangeLimit::Excluded(s) => s < v,
        RangeLimit::Unbounded => true,
    }
    &&& match end {
        RangeLimit::Included(e) => v <= e,
        RangeLimit::Excluded(e) => v < e,
        RangeLimit::Unbounded => true,
    }
}

/// The values of the range between two limits.
pub open spec fn limits_span(start: RangeLimit, end: RangeLimit) -> Set<u32> {
    Set::new(|v: u32| in_limits(start, end, v))
}

/// The smallest value that a range starting at the given limit may hold;
/// none where the start excludes the largest value.
pub open spec fn first_of(start: RangeLimit) -> Option<u32> {
    match start {
        RangeLimit::Included(s) => Some(s),
        RangeLimit::Excluded(s) => if s == u32::MAX {
            None
        } else {
            Some((s + 1) as u32)
        },
        RangeLimit::Unbounded => Some(0),
    }
}

/// The largest value that a range ending at the given limit may hold; none
/// where the end excludes zero.
pub open spec fn last_of(end: RangeLimit) -> Option<u32> {
    match end {
        RangeLimit::Included(e) => Some(e),
        RangeLimit::Excluded(e) => if e == 0 {
            None
        } else {
            Some((e - 1) as u32)
        },
        RangeLimit::Unbounded => Some(u32::MAX),
    }
}

/// The first and the last value of the range between two limits; none where
/// the range is empty.
pub open spec fn range_ends(start: RangeLimit, end: RangeLimit) -> Option<(u32, u32)> {
    match (first_of(start), last_of(end)) {
        (Some(first), Some(last)) => if first <= last {
            Some((first, last))
        } else {
            None
        },
        _ => None,
    }
}

/// The values from `lo` to `hi`, both included; none where `lo > hi`.
pub open spec fn span32(lo: int, hi: int) -> Set<u32> {
    Set::new(|v: u32| lo <= v && v <= hi)
}

/// The range between two limits is the span between its ends, or empty
/// where it has none.
pub proof fn lemma_limits_span(start: RangeLimit, end: RangeLimit)
    ensures
        limits_span(start, end) == match range_ends(start, end) {
            Some((first, last)) => span32(first as int, last as int),
            None => Set::<u32>::empty(),
        },
{
    match range_ends(start, end) {
        Some((first, last)) => {
            assert(limits_span(start, end) =~= span32(first as int, last as int));
        },
        None => {
            assert(limits_span(start, end) =~= Set::<u32>::empty());
        },
    }
}

/// `RangeBounds::start_bound` of std: the start of the range, as one of the
/// three kinds of limit. The value is copied out of the reference.
#[verifier::external_body]
fn start_limit<R: core::ops::RangeBounds<u32>>(range: &R) -> RangeLimit {
    match range.start_bound() {
        core::ops::Bound::Included(s) => RangeLimit::Included(*s),
        core::ops::Bound::Excluded(s) => RangeLimit::Excluded(*s),
        core::ops::Bound::Unbounded => RangeLimit::Unbounded,
    }
}

/// `RangeBounds::end_bound` of std: the end of the range, as one of the
/// three kinds of limit. The value is copied out of the reference.
#[verifier::external_body]
fn end_limit<R: core::ops::RangeBounds<u32>>(range: &R) -> RangeLimit {
    match range.end_bound() {
        core::ops::Bound::Included(e) => RangeLimit::Included(*e),
        core::ops::Bound::Excluded(e) => RangeLimit::Excluded(*e),
        core::ops::Bound::Unbounded => RangeLimit::Unbounded,
    }
}

/// `Vec::from_iter` of std: the items that the iterator yields, in a vector.
/// What they are is the iterator's business, so nothing is claimed of them.
#[verifier::external_body]
fn gather<I: Iterator<Item = u32>>(values: I) -> Vec<u32> {
    Vec::from_iter(values)
}

/// The block `key` with the low halves from `lo` to `hi` is the range of
/// values from `value_of(key, lo)` to `value_of(key, hi)`.
pub proof fn lemma_lifted_span(key: u16, lo: u16, hi: u16)
    ensures
        lifted(key, span(lo as int, hi as int)) == span32(
            value_of(key, lo) as int,
            value_of(key, hi) as int,
        ),
{
    assert forall|v: u32| lifted(key, span(lo as int, hi as int)).contains(v) <==> span32(
        value_of(key, lo) as int,
        value_of(key, hi) as int,
    ).contains(v) by {
        lemma_halves(v, key, lo);
        lemma_halves(v, key, hi);
    }
    assert(lifted(key, span(lo as int, hi as int)) =~= span32(
        value_of(key, lo) as int,
        value_of(key, hi) as int,
    ));
}

/// Where one block has gained low halves and no other block has changed,
/// the value set has gained the values of that block with those halves.
pub proof fn lemma_view_block_union(
    before: Seq<(u16, Container)>,
    after: Seq<(u16, Container)>,
    key: u16,
    lows: Set<u16>,
)
    requires
        forall|k: u16|
            #[trigger] block(after, k) == if k == key {
                block(before, k).union(lows)
            } else {
                block(before, k)
            },
    ensures
        entries_view(after) == entries_view(before).union(lifted(key, lows)),
{
    assert(entries_view(after) =~= entries_view(before).union(lifted(key, lows)));
}

/// Where one block has lost low halves and no other block has changed, the
/// value set has lost the values of that block with those halves.
pub proof fn lemma_view_block_difference(
    before: Seq<(u16, Container)>,
    after: Seq<(u16, Container)>,
    key: u16,
    lows: Set<u16>,
)
    requires
        forall|k: u16|
            #[trigger] block(after, k) == if k == key {
                block(before, k).difference(lows)
            } else {
                block(before, k)
            },
    ensures
        entries_view(after) == entries_view(before).difference(lifted(key, lows)),
{
    assert(entries_view(after) =~= entries_view(before).difference(lifted(key, lows)));
}

/// Every entry but that of `key` is in the second sequence what it is in
/// the first.
pub open spec fn others_kept(
    before: Seq<(u16, Container)>,
    after: Seq<(u16, Container)>,
    key: u16,
) -> bool {
    &&& forall|k: u16| k != key ==> #[trigger] has_key(after, k) == has_key(before, k)
    &&& forall|k: u16| k != key && has_key(before, k) ==> #[trigger] holder(after, k) == holder(before, k)
}

/// The first low half of the block `key` that a range starting at `first`
/// holds.
pub open spec fn block_lo(first: u32, key: u16) -> u16 {
    if key == key_of(first) {
        low_of(first)
    } else {
        0
    }
}

/// The last low half of the block `key` that a range ending at `last`
/// holds.
pub open spec fn block_hi(last: u32, key: u16) -> u16 {
    if key == key_of(last) {
        low_of(last)
    } else {
        65535
    }
}

/// How the entries stand after the range from `first` to `last` has been
/// inserted, as far as the blocks below `upto` go: a block of the range that
/// had no container has one that is a single run; the entries outside the
/// blocks done are as they were.
pub open spec fn extended(
    before: Seq<(u16, Container)>,
    after: Seq<(u16, Container)>,
    first: u32,
    last: u32,
    upto: int,
) -> bool {
    &&& forall|k: u16|
        key_of(first) <= k < upto && !has_key(before, k) ==> #[trigger] has_key(after, k)
            && single_run(holder(after, k), block_lo(first, k), block_hi(last, k))
    &&& forall|k: u16|
        !(key_of(first) <= k < upto) ==> #[trigger] has_key(after, k) == has_key(before, k)
    &&& forall|k: u16|
        !(key_of(first) <= k < upto) && has_key(before, k) ==> #[trigger] holder(after, k)
            == holder(before, k)
}

/// How the entries stand after a range of blocks has been worked on, as far
/// as the blocks below `upto` go: the entries outside the blocks done are as
/// they were.
pub open spec fn touched(
    before: Seq<(u16, Container)>,
    after: Seq<(u16, Container)>,
    first: u32,
    upto: int,
) -> bool {
    &&& forall|k: u16|
        !(key_of(first) <= k < upto) ==> #[trigger] has_key(after, k) == has_key(before, k)
    &&& forall|k: u16|
        !(key_of(first) <= k < upto) && has_key(before, k) ==> #[trigger] holder(after, k)
            == holder(before, k)
}

/// Inserts into a container the values from `lo` to `hi`, one by one.
pub fn insert_span(container: &mut Container, lo: u16, hi: u16)
    requires
        old(container).wf(),
        lo <= hi,
    ensures
        final(container).wf(),
        final(container)@ == old(container)@.union(span(lo as int, hi as int)),
{
    let mut low: u16 = lo;
    assert(container@ =~= old(container)@.union(span(lo as int, low - 1)));
    loop
        invariant_except_break
            lo <= low <= hi,
            container.wf(),
            container@ == old(container)@.union(span(lo as int, low - 1)),
        ensures
            container.wf(),
            container@ == old(container)@.union(span(lo as int, hi as int)),
        decreases hi - low,
    {
        container.insert(low);
        assert(container@ =~= old(container)@.union(span(lo as int, low as int)));
        if low == hi {
            break ;
        }
        low += 1;
    }
}

/// Removes from a container the values from `lo` to `hi`, one by one.
pub fn remove_span(container: &mut Container, lo: u16, hi: u16)
    requires
        old(container).wf(),
        lo <= hi,
    ensures
        final(container).wf(),
        final(container)@ == old(container)@.difference(span(lo as int, hi as int)),
{
    let mut low: u16 = lo;
    assert(container@ =~= old(container)@.difference(span(lo as int, low - 1)));
    loop
        invariant_except_break
            lo <= low <= hi,
            container.wf(),
            container@ == old(container)@.difference(span(lo as int, low - 1)),
        ensures
            container.wf(),
            container@ == old(container)@.difference(span(lo as int, hi as int)),
        decreases hi - low,
    {
        container.remove(low);
        assert(container@ =~= old(container)@.difference(span(lo as int, low as int)));
        if low == hi {
            break ;
        }
        low += 1;
    }
}

/// Adds the low halves from `lo` to `hi` under `key`: one by one into the
/// container of that key, or as a single run in a new container.
pub fn extend_block(containers: &mut Vec<(u16, Container)>, key: u16, lo: u16, hi: u16)
    requires
        entries_wf(old(containers)@),
        lo <= hi,
    ensures
        entries_wf(final(containers)@),
        forall|k: u16|
            #[trigger] block(final(containers)@, k) == if k == key {
                block(old(containers)@, k).union(span(lo as int, hi as int))
            } else {
                block(old(containers)@, k)
            },
        has_key(final(containers)@, key),
        !has_key(old(containers)@, key) ==> single_run(holder(final(containers)@, key), lo, hi),
        others_kept(old(containers)@, final(containers)@, key),
{
    let ghost before = containers@;
    match search_keys(containers, key) {
        Ok(index) => {
            proof {
                lemma_slot(before, index as int);
            }
            insert_span(&mut containers[index].1, lo, hi);
            proof {
                let c = containers@[index as int].1;
                assert(c@.contains(lo));
                assert(containers@ =~= before.update(index as int, (key, c)));
                lemma_entry_update(before, index as int, c);
            }
        },
        Err(index) => {
            let num_values: u32 = (hi as u32) - (lo as u32) + 1;
            let mut runs: Vec<(u16, u16)> = Vec::new();
            runs.push((lo, (num_values - 1) as u16));
            let container = Container::Run(RunContainer { runs });
            proof {
                assert(crate::run::run_has(runs@[0], lo));
                assert(container@.contains(lo));
                assert(container@ =~= span(lo as int, hi as int)) by {
                    assert forall|v: u16| container@.contains(v) <==> span(
                        lo as int,
                        hi as int,
                    ).contains(v) by {
                        if span(lo as int, hi as int).contains(v) {
                            assert(crate::run::run_has(runs@[0], v));
                        }
                    }
                }
                lemma_key_absent(before, index as int, key);
                lemma_entry_insert(before, index as int, key, container);
                assert(Set::<u16>::empty().union(span(lo as int, hi as int)) =~= span(
                    lo as int,
                    hi as int,
                ));
            }
            containers.insert(index, (key, container));
            proof {
                lemma_slot(containers@, index as int);
                assert(runs@ =~= seq![(lo, (hi - lo) as u16)]);
            }
        },
    }
}

/// Whether a container is the single run of the values from `lo` to `hi`.
pub open spec fn single_run(c: Container, lo: u16, hi: u16) -> bool {
    c is Run && c->Run_0.runs@ == seq![(lo, (hi - lo) as u16)]
}

/// Removes the low halves from `lo` to `hi` from under `key`, one by one,
/// and drops the container of that key where it becomes empty.
pub fn remove_block(containers: &mut Vec<(u16, Container)>, key: u16, lo: u16, hi: u16)
    requires
        entries_wf(old(containers)@),
        lo <= hi,
    ensures
        entries_wf(final(containers)@),
        forall|k: u16|
            #[trigger] block(final(containers)@, k) == if k == key {
                block(old(containers)@, k).difference(span(lo as int, hi as int))
            } else {
                block(old(containers)@, k)
            },
        others_kept(old(containers)@, final(containers)@, key),
{
    let ghost before = containers@;
    match search_keys(containers, key) {
        Ok(index) => {
            proof {
                lemma_slot(before, index as int);
            }
            remove_span(&mut containers[index].1, lo, hi);
            let ghost c = containers@[index as int].1;
            proof {
                assert(containers@ =~= before.update(index as int, (key, c)));
            }
            if containers[index].1.is_empty() {
                containers.remove(index);
                proof {
                    lemma_entry_remove(before, index as int);
                    assert(containers@ =~= before.remove(index as int));
                }
            } else {
                proof {
                    lemma_entry_update(before, index as int, c);
                }
            }
        },
        Err(index) => {
            proof {
                lemma_key_absent(before, index as int, key);
                assert(Set::<u16>::empty().difference(span(lo as int, hi as int))
                    =~= Set::<u16>::empty());
            }
        },
    }
}


/// Resolves two limits to the first and the last value of the range
/// between them; `None` where the range is empty.
pub fn resolve_limits(start: RangeLimit, end: RangeLimit) -> (ends: Option<(u32, u32)>)
    ensures
        ends == range_ends(start, end),
{
    let first: u32 = match start {
        RangeLimit::Included(s) => s,
        RangeLimit::Excluded(s) => match s.checked_add(1) {
            Some(f) => f,
            None => {
                return None;
            },
        },
        RangeLimit::Unbounded => 0,
    };
    let last: u32 = match end {
        RangeLimit::Included(e) => e,
        RangeLimit::Excluded(e) => match e.checked_sub(1) {
            Some(l) => l,
            None => {
                return None;
            },
        },
        RangeLimit::Unbounded => u32::MAX,
    };
    if first > last {
        None
    } else {
        Some((first, last))
    }
}

/// The first value of the block after `key`.
fn next_block(key: u16) -> (first: u32)
    requires
        key < 65535,
    ensures
        first == (key + 1) * 65536,
{
    let k: u32 = key as u32 + 1;
    assert(k << 16 == k * 65536) by (bit_vector)
        requires
            k <= 65535,
    ;
    k << 16
}

impl RoaringBitmap {
    /// Inserts every value between two limits. Block by block: where the
    /// block has a container, the values go into it one by one; where it has
    /// none, the block gets a container that is one run.
    pub fn extend_between(&mut self, start: RangeLimit, end: RangeLimit)
        ensures
            final(self).wf(),
            final(self)@ == old(self)@.union(limits_span(start, end)),
            match range_ends(start, end) {
                Some((first, last)) => extended(
                    old(self).entries(),
                    final(self).entries(),
                    first,
                    last,
                    key_of(last) + 1,
                ),
                None => final(self).entries() == old(self).entries(),
            },
    {
        proof {
            use_type_invariant(&*self);
            lemma_limits_span(start, end);
        }
        let (start, end): (u32, u32) = match resolve_limits(start, end) {
            Some(ends) => ends,
            None => {
                assert(self@ =~= self@.union(Set::<u32>::empty()));
                return ;
            },
        };
        let mut containers: Vec<(u16, Container)> = Vec::new();
        core::mem::swap(&mut self.containers, &mut containers);
        let ghost before = containers@;
        let mut current: u32 = start;
        assert(entries_view(containers@) =~= entries_view(before).union(
            span32(start as int, current - 1),
        ));
        while current <= end
            invariant_except_break
                start <= current <= end,
                current == start || low_of(current) == 0,
                entries_view(containers@) == entries_view(before).union(
                    span32(start as int, current - 1),
                ),
                extended(before, containers@, start, end, key_of(current) as int),
            invariant
                entries_wf(containers@),
            ensures
                entries_view(containers@) == entries_view(before).union(
                    span32(start as int, end as int),
                ),
                extended(before, containers@, start, end, key_of(end) + 1),
            decreases end - current,
        {
            let (key, low_start) = Self::split(current);
            let (end_key, low_end) = Self::split(end);
            let low_end_in_container: u16 = if key == end_key {
                low_end
            } else {
                u16::MAX
            };
            let ghost prior = containers@;
            proof {
                lemma_halves(current, 0, 0);
                lemma_halves(end, 0, 0);
            }
            extend_block(&mut containers, key, low_start, low_end_in_container);
            proof {
                lemma_view_block_union(
                    prior,
                    containers@,
                    key,
                    span(low_start as int, low_end_in_container as int),
                );
                lemma_lifted_span(key, low_start, low_end_in_container);
                assert(span32(start as int, current - 1).union(
                    span32(current as int, value_of(key, low_end_in_container) as int),
                ) =~= span32(start as int, value_of(key, low_end_in_container) as int));
                assert(extended(before, containers@, start, end, key + 1)) by {
                    assert(low_start == block_lo(start, key));
                    assert(low_end_in_container == block_hi(end, key));
                    assert forall|k: u16|
                        key_of(start) <= k < key + 1 && !has_key(before, k) implies #[trigger] has_key(
                            containers@,
                            k,
                        ) && single_run(
                            holder(containers@, k),
                            block_lo(start, k),
                            block_hi(end, k),
                        ) by {
                        if k != key {
                            assert(has_key(prior, k));
                            assert(holder(containers@, k) == holder(prior, k));
                        } else {
                            assert(has_key(prior, k) == has_key(before, k));
                        }
                    }
                    assert forall|k: u16| !(key_of(start) <= k < key + 1) implies #[trigger] has_key(
                        containers@,
                        k,
                    ) == has_key(before, k) by {
                        assert(has_key(prior, k) == has_key(before, k));
                    }
                    assert forall|k: u16|
                        !(key_of(start) <= k < key + 1) && has_key(
                            before,
                            k,
                        ) implies #[trigger] holder(containers@, k) == holder(before, k) by {
                        assert(has_key(prior, k) == has_key(before, k));
                        assert(holder(prior, k) == holder(before, k));
                    }
                }
            }
            if key == end_key {
                break ;
            }
            let next: u32 = next_block(key);
            current =
            if next > current + 1 {
                next
            } else {
                current + 1
            };
            proof {
                lemma_halves(current, 0, 0);
            }
        }
        self.containers = containers;
    }

    /// Removes every value between two limits, block by block, one value
    /// after the other; a container that becomes empty is dropped.
    pub fn remove_between(&mut self, start: RangeLimit, end: RangeLimit)
        ensures
            final(self).wf(),
            final(self)@ == old(self)@.difference(limits_span(start, end)),
            match range_ends(start, end) {
                Some((first, last)) => touched(
                    old(self).entries(),
                    final(self).entries(),
                    first,
                    key_of(last) + 1,
                ),
                None => final(self).entries() == old(self).entries(),
            },
    {
        proof {
            use_type_invariant(&*self);
            lemma_limits_span(start, end);
        }
        let (start, end): (u32, u32) = match resolve_limits(start, end) {
            Some(ends) => ends,
            None => {
                assert(self@ =~= self@.difference(Set::<u32>::empty()));
                return ;
            },
        };
        let mut containers: Vec<(u16, Container)> = Vec::new();
        core::mem::swap(&mut self.containers, &mut containers);
        let ghost before = containers@;
        let mut current: u32 = start;
        assert(entries_view(containers@) =~= entries_view(before).difference(
            span32(start as int, current - 1),
        ));
        while current <= end
            invariant_except_break
                start <= current <= end,
                current == start || low_of(current) == 0,
                entries_view(containers@) == entries_view(before).difference(
                    span32(start as int, current - 1),
                ),
                touched(before, containers@, start, key_of(current) as int),
            invariant
                entries_wf(containers@),
            ensures
                entries_view(containers@) == entries_view(before).difference(
                    span32(start as int, end as int),
                ),
                touched(before, containers@, start, key_of(end) + 1),
            decreases end - current,
        {
            let (key, low_start) = Self::split(current);
            let (end_key, low_end) = Self::split(end);
            let low_end_in_container: u16 = if key == end_key {
                low_end
            } else {
                u16::MAX
            };
            let ghost prior = containers@;
            proof {
                lemma_halves(current, 0, 0);
                lemma_halves(end, 0, 0);
            }
            remove_block(&mut containers, key, low_start, low_end_in_container);
            proof {
                lemma_view_block_difference(
                    prior,
                    containers@,
                    key,
                    span(low_start as int, low_end_in_container as int),
                );
                lemma_lifted_span(key, low_start, low_end_in_container);
                assert(span32(start as int, current - 1).union(
                    span32(current as int, value_of(key, low_end_in_container) as int),
                ) =~= span32(start as int, value_of(key, low_end_in_container) as int));
                assert(entries_view(containers@) =~= entries_view(before).difference(
                    span32(start as int, value_of(key, low_end_in_container) as int),
                ));
                assert(touched(before, containers@, start, key + 1)) by {
                    assert forall|k: u16| !(key_of(start) <= k < key + 1) implies #[trigger] has_key(
                        containers@,
                        k,
                    ) == has_key(before, k) by {
                        assert(has_key(prior, k) == has_key(before, k));
                    }
                    assert forall|k: u16|
                        !(key_of(start) <= k < key + 1) && has_key(
                            before,
                            k,
                        ) implies #[trigger] holder(containers@, k) == holder(before, k) by {
                        assert(has_key(prior, k) == has_key(before, k));
                        assert(holder(prior, k) == holder(before, k));
                    }
                }
            }
            if key == end_key {
                break ;
            }
            let next: u32 = next_block(key);
            current =
            if next > current + 1 {
                next
            } else {
                current + 1
            };
            proof {
                lemma_halves(current, 0, 0);
            }
        }
        self.containers = containers;
    }

    /// Inserts every value of a range. The range's two ends are what its
    /// `start_bound` and `end_bound` give; the rest is `extend_between`.
    pub fn extend_consecutive<R: core::ops::RangeBounds<u32>>(&mut self, range: R)
        ensures
            final(self).wf(),
            exists|start: RangeLimit, end: RangeLimit|
                final(self)@ == old(self)@.union(#[trigger] limits_span(start, end))
                    && match range_ends(start, end) {
                    Some((first, last)) => extended(
                        old(self).entries(),
                        final(self).entries(),
                        first,
                        last,
                        key_of(last) + 1,
                    ),
                    None => final(self).entries() == old(self).entries(),
                },
    {
        let start = start_limit(&range);
        let end = end_limit(&range);
        self.extend_between(start, end);
    }

    /// Removes every value of a range. The range's two ends are what its
    /// `start_bound` and `end_bound` give; the rest is `remove_between`.
    pub fn remove_range<R: core::ops::RangeBounds<u32>>(&mut self, range: R)
        ensures
            final(self).wf(),
            exists|start: RangeLimit, end: RangeLimit|
                final(self)@ == old(self)@.difference(#[trigger] limits_span(start, end)),
    {
        let start = start_limit(&range);
        let end = end_limit(&range);
        self.remove_between(start, end);
    }

    /// Inserts each of the given values.
    pub fn insert_each(&mut self, values: &Vec<u32>)
        ensures
            final(self).wf(),
            final(self)@ == old(self)@.union(values@.to_set()),
    {
        let mut i: usize = 0;
        assert(self@ =~= old(self)@.union(values@.take(0).to_set()));
        while i < values.len()
            invariant
                i <= values@.len(),
                self@ == old(self)@.union(values@.take(i as int).to_set()),
            decreases values@.len() - i,
        {
            self.insert(values[i]);
            proof {
                lemma_take_push_set32(values@, i as int);
            }
            i += 1;
            assert(self@ =~= old(self)@.union(values@.take(i as int).to_set()));
        }
        assert(values@.take(i as int) =~= values@);
        proof {
            use_type_invariant(&*self);
        }
    }

    /// Removes each of the given values.
    pub fn remove_each(&mut self, values: &Vec<u32>)
        ensures
            final(self).wf(),
            final(self)@ == old(self)@.difference(values@.to_set()),
    {
        let mut i: usize = 0;
        assert(self@ =~= old(self)@.difference(values@.take(0).to_set()));
        while i < values.len()
            invariant
                i <= values@.len(),
                self@ == old(self)@.difference(values@.take(i as int).to_set()),
            decreases values@.len() - i,
        {
            self.remove(values[i]);
            proof {
                lemma_take_push_set32(values@, i as int);
            }
            i += 1;
            assert(self@ =~= old(self)@.difference(values@.take(i as int).to_set()));
        }
        assert(values@.take(i as int) =~= values@);
        proof {
            use_type_invariant(&*self);
        }
    }

    /// Inserts the values that an iterator yields; meant for values that
    /// lie far apart.
    pub fn extend_sparse<I: Iterator<Item = u32>>(&mut self, values: I)
        ensures
            final(self).wf(),
            exists|yielded: Seq<u32>| final(self)@ == old(self)@.union(#[trigger] yielded.to_set()),
    {
        let yielded = gather(values);
        self.insert_each(&yielded);
    }

    /// Inserts the values that an iterator yields; meant for values that
    /// fill much of their range.
    pub fn extend_dense<I: Iterator<Item = u32>>(&mut self, values: I)
        ensures
            final(self).wf(),
            exists|yielded: Seq<u32>| final(self)@ == old(self)@.union(#[trigger] yielded.to_set()),
    {
        let yielded = gather(values);
        self.insert_each(&yielded);
    }

    /// Removes the values that an iterator yields.
    pub fn remove_sparse<I: Iterator<Item = u32>>(&mut self, values: I)
        ensures
            final(self).wf(),
            exists|yielded: Seq<u32>|
                final(self)@ == old(self)@.difference(#[trigger] yielded.to_set()),
    {
        let yielded = gather(values);
        self.remove_each(&yielded);
    }
}

/// Taking one more element adds that element to the prefix's set.
pub proof fn lemma_take_push_set32(s: Seq<u32>, i: int)
    requires
        0 <= i < s.len(),
    ensures
        s.take(i + 1).to_set() == s.take(i).to_set().insert(s[i]),
{
    let p = s.take(i);
    let q = s.take(i + 1);
    assert(q =~= p.push(s[i]));
    assert forall|v: u32| q.to_set().contains(v) <==> p.to_set().insert(s[i]).contains(v) by {
        if p.contains(v) {
            let k = choose|k: int| 0 <= k < p.len() && p[k] == v;
            assert(q[k] == v);
        }
        if v == s[i] {
            assert(q[i] == v);
        }
        if q.contains(v) {
            let k = choose|k: int| 0 <= k < q.len() && q[k] == v;
            if k < i {
                assert(p[k] == v);
            }
        }
    }
    assert(q.to_set() =~= p.to_set().insert(s[i]));
}

} // verus!
