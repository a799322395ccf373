//! The entries of a bitmap: a sequence of `(key, container)` pairs with
//! increasing keys. What such a sequence holds, and how it changes when an
//! entry is put in, replaced or taken out.

use vstd::prelude::*;
use crate::container::{Container, ContainerKind, kind_after_insert, kind_after_remove};

verus! {

/// High 16 bits of a value: the key of the block it belongs to.
pub open spec fn key_of(value: u32) -> u16 {
    (value / 65536) as u16
}

/// Low 16 bits of a value: its place inside its block.
pub open spec fn low_of(value: u32) -> u16 {
    (value % 65536) as u16
}

/// The value with the given high and low halves.
pub open spec fn value_of(key: u16, low: u16) -> u32 {
    (key * 65536 + low) as u32
}

/// Whether some entry has the key.
pub open spec fn has_key(cs: Seq<(u16, Container)>, key: u16) -> bool {
    exists|i: int| 0 <= i < cs.len() && (#[trigger] cs[i]).0 == key
}

/// Index of an entry with the key, where there is one.
pub open spec fn slot_of(cs: Seq<(u16, Container)>, key: u16) -> int {
    choose|i: int| 0 <= i < cs.len() && (#[trigger] cs[i]).0 == key
}

/// The container stored under a key, where the key is present.
pub open spec fn holder(cs: Seq<(u16, Container)>, key: u16) -> Container {
    cs[slot_of(cs, key)].1
}

/// The low halves stored under a key; none where the key is absent.
pub open spec fn block(cs: Seq<(u16, Container)>, key: u16) -> Set<u16> {
    if has_key(cs, key) {
        cs[slot_of(cs, key)].1@
    } else {
        Set::<u16>::empty()
    }
}

/// The values that a sequence of entries holds.
pub open spec fn entries_view(cs: Seq<(u16, Container)>) -> Set<u32> {
    Set::new(|v: u32| block(cs, key_of(v)).contains(low_of(v)))
}

/// Keys strictly increasing, every container well formed and not empty.
pub open spec fn entries_wf(cs: Seq<(u16, Container)>) -> bool {
    &&& forall|i: int, j: int| 0 <= i < j < cs.len() ==> (#[trigger] cs[i]).0 < (#[trigger] cs[j]).0
    &&& forall|i: int| 0 <= i < cs.len() ==> (#[trigger] cs[i]).1.wf()
    &&& forall|i: int| 0 <= i < cs.len() ==> (#[trigger] cs[i]).1@ != Set::<u16>::empty()
}

/// With increasing keys, the entry at an index is the one its key leads to.
pub proof fn lemma_slot(cs: Seq<(u16, Container)>, i: int)
    requires
        entries_wf(cs),
        0 <= i < cs.len(),
    ensures
        has_key(cs, cs[i].0),
        slot_of(cs, cs[i].0) == i,
        block(cs, cs[i].0) == cs[i].1@,
{
    let j = slot_of(cs, cs[i].0);
    if j < i {
        assert(cs[j].0 < cs[i].0);
    } else if j > i {
        assert(cs[i].0 < cs[j].0);
    }
}

/// A key that falls strictly between the keys of two neighbouring entries,
/// or before the first, or past the last, is absent.
pub proof fn lemma_key_absent(cs: Seq<(u16, Container)>, n: int, key: u16)
    requires
        entries_wf(cs),
        0 <= n <= cs.len(),
        forall|k: int| 0 <= k < n ==> (#[trigger] cs[k]).0 < key,
        n < cs.len() ==> key < cs[n].0,
    ensures
        !has_key(cs, key),
        block(cs, key) == Set::<u16>::empty(),
{
    if has_key(cs, key) {
        let i = slot_of(cs, key);
        if i >= n {
            if i > n {
                assert(cs[n].0 < cs[i].0);
            }
        }
    }
}

/// Splitting a value into halves and joining them gives the value back, and
/// the other way round.
pub proof fn lemma_halves(value: u32, key: u16, low: u16)
    ensures
        value_of(key_of(value), low_of(value)) == value,
        key_of(value_of(key, low)) == key,
        low_of(value_of(key, low)) == low,
{
}

/// Outcome of looking a key up among sorted entries: the index that holds
/// it, or the index at which it would have to be inserted.
pub open spec fn key_search_result(
    cs: Seq<(u16, Container)>,
    key: u16,
    r: Result<usize, usize>,
) -> bool {
    match r {
        Ok(i) => i < cs.len() && cs[i as int].0 == key,
        Err(i) => {
            &&& i <= cs.len()
            &&& forall|k: int| 0 <= k < i ==> (#[trigger] cs[k]).0 < key
            &&& forall|k: int| i <= k < cs.len() ==> (#[trigger] cs[k]).0 > key
        },
    }
}

/// Binary search for a key among entries with increasing keys.
pub fn search_keys(cs: &Vec<(u16, Container)>, key: u16) -> (r: Result<usize, usize>)
    requires
        entries_wf(cs@),
    ensures
        key_search_result(cs@, key, r),
{
    let mut lo: usize = 0;
    let mut hi: usize = cs.len();
    while lo < hi
        invariant
            lo <= hi <= cs@.len(),
            entries_wf(cs@),
            forall|k: int| 0 <= k < lo ==> (#[trigger] cs@[k]).0 < key,
            forall|k: int| hi <= k < cs@.len() ==> (#[trigger] cs@[k]).0 > key,
        decreases hi - lo,
    {
        let mid: usize = lo + (hi - lo) / 2;
        let probe: u16 = cs[mid].0;
        if probe == key {
            return Ok(mid);
        } else if probe < key {
            proof {
                assert forall|k: int| 0 <= k < mid + 1 implies (#[trigger] cs@[k]).0 < key by {
                    if k < mid {
                        assert(cs@[k].0 < cs@[mid as int].0);
                    }
                }
            }
            lo = mid + 1;
        } else {
            proof {
                assert forall|k: int| mid <= k < cs@.len() implies (#[trigger] cs@[k]).0 > key by {
                    if k > mid {
                        assert(cs@[mid as int].0 < cs@[k].0);
                    }
                }
            }
            hi = mid;
        }
    }
    Err(lo)
}

/// Entries stay well formed where a new entry is put in at its sorted
/// place.
pub proof fn lemma_insert_keeps_order(cs: Seq<(u16, Container)>, i: int, key: u16, c: Container)
    requires
        entries_wf(cs),
        0 <= i <= cs.len(),
        forall|k: int| 0 <= k < i ==> (#[trigger] cs[k]).0 < key,
        forall|k: int| i <= k < cs.len() ==> (#[trigger] cs[k]).0 > key,
        c.wf(),
        c@ != Set::<u16>::empty(),
    ensures
        entries_wf(cs.insert(i, (key, c))),
{
    let after = cs.insert(i, (key, c));
    assert forall|a: int, b: int| 0 <= a < b < after.len() implies (#[trigger] after[a]).0 < (
    #[trigger] after[b]).0 by {
        let a0 = if a < i { a } else { a - 1 };
        let b0 = if b < i { b } else { b - 1 };
        if a != i && b != i {
            assert(after[a] == cs[a0]);
            assert(after[b] == cs[b0]);
            assert(cs[a0].0 < cs[b0].0);
        } else if a == i {
            assert(after[b] == cs[b0]);
        } else {
            assert(after[a] == cs[a0]);
        }
    }
    assert forall|a: int| 0 <= a < after.len() implies (#[trigger] after[a]).1.wf() && after[a].1@
        != Set::<u16>::empty() by {
        if a < i {
            assert(after[a] == cs[a]);
        } else if a > i {
            assert(after[a] == cs[a - 1]);
        }
    }
}

/// Entries stay well formed where one is taken out.
pub proof fn lemma_remove_keeps_order(cs: Seq<(u16, Container)>, i: int)
    requires
        entries_wf(cs),
        0 <= i < cs.len(),
    ensures
        entries_wf(cs.remove(i)),
{
    let after = cs.remove(i);
    assert forall|a: int, b: int| 0 <= a < b < after.len() implies (#[trigger] after[a]).0 < (
    #[trigger] after[b]).0 by {
        let a0 = if a < i { a } else { a + 1 };
        let b0 = if b < i { b } else { b + 1 };
        assert(after[a] == cs[a0]);
        assert(after[b] == cs[b0]);
        assert(cs[a0].0 < cs[b0].0);
    }
    assert forall|a: int| 0 <= a < after.len() implies (#[trigger] after[a]).1.wf() && after[a].1@
        != Set::<u16>::empty() by {
        if a < i {
            assert(after[a] == cs[a]);
        } else {
            assert(after[a] == cs[a + 1]);
        }
    }
}

/// Replacing the container of an entry changes the block under its key and
/// no other.
pub proof fn lemma_entry_update(cs: Seq<(u16, Container)>, i: int, c: Container)
    requires
        entries_wf(cs),
        0 <= i < cs.len(),
        c.wf(),
        c@ != Set::<u16>::empty(),
    ensures
        entries_wf(cs.update(i, (cs[i].0, c))),
        forall|key: u16| has_key(cs.update(i, (cs[i].0, c)), key) == has_key(cs, key),
        forall|key: u16|
            #[trigger] block(cs.update(i, (cs[i].0, c)), key) == if key == cs[i].0 {
                c@
            } else {
                block(cs, key)
            },
        forall|key: u16|
            has_key(cs, key) ==> #[trigger] holder(cs.update(i, (cs[i].0, c)), key) == if key
                == cs[i].0 {
                c
            } else {
                holder(cs, key)
            },
{
    let after = cs.update(i, (cs[i].0, c));
    assert(entries_wf(after));
    assert forall|key: u16| has_key(cs, key) implies #[trigger] holder(after, key) == if key
        == cs[i].0 {
        c
    } else {
        holder(cs, key)
    } by {
        let j = slot_of(cs, key);
        lemma_slot(cs, j);
        assert(after[j].0 == key);
        lemma_slot(after, j);
    }
    assert forall|key: u16| has_key(after, key) == has_key(cs, key) by {
        if has_key(cs, key) {
            let j = slot_of(cs, key);
            assert(after[j].0 == key);
        }
        if has_key(after, key) {
            let j = slot_of(after, key);
            assert(cs[j].0 == key);
        }
    }
    assert forall|key: u16| #[trigger] block(after, key) == if key == cs[i].0 {
        c@
    } else {
        block(cs, key)
    } by {
        if has_key(cs, key) {
            let j = slot_of(cs, key);
            lemma_slot(cs, j);
            assert(after[j].0 == key);
            lemma_slot(after, j);
        }
    }
}

/// Putting a new entry in at its sorted place adds its key with its block
/// and changes no other.
pub proof fn lemma_entry_insert(cs: Seq<(u16, Container)>, i: int, key: u16, c: Container)
    requires
        entries_wf(cs),
        0 <= i <= cs.len(),
        forall|k: int| 0 <= k < i ==> (#[trigger] cs[k]).0 < key,
        forall|k: int| i <= k < cs.len() ==> (#[trigger] cs[k]).0 > key,
        c.wf(),
        c@ != Set::<u16>::empty(),
    ensures
        entries_wf(cs.insert(i, (key, c))),
        forall|k: u16| has_key(cs.insert(i, (key, c)), k) == (has_key(cs, k) || k == key),
        forall|k: u16|
            #[trigger] block(cs.insert(i, (key, c)), k) == if k == key {
                c@
            } else {
                block(cs, k)
            },
        forall|k: u16|
            has_key(cs, k) || k == key ==> #[trigger] holder(cs.insert(i, (key, c)), k) == if k
                == key {
                c
            } else {
                holder(cs, k)
            },
{
    let after = cs.insert(i, (key, c));
    assert forall|k: u16| has_key(cs, k) || k == key implies #[trigger] holder(after, k) == if k
        == key {
        c
    } else {
        holder(cs, k)
    } by {
        lemma_insert_keeps_order(cs, i, key, c);
        lemma_key_absent(cs, i, key);
        if k == key {
            lemma_slot(after, i);
        } else {
            let j = slot_of(cs, k);
            lemma_slot(cs, j);
            if j < i {
                assert(after[j] == cs[j]);
                lemma_slot(after, j);
            } else {
                assert(after[j + 1] == cs[j]);
                lemma_slot(after, j + 1);
            }
        }
    }
    assert forall|a: int, b: int| 0 <= a < b < after.len() implies (#[trigger] after[a]).0 < (
    #[trigger] after[b]).0 by {
        let a0 = if a < i { a } else { a - 1 };
        let b0 = if b < i { b } else { b - 1 };
        if a != i && b != i {
            assert(after[a] == cs[a0]);
            assert(after[b] == cs[b0]);
            assert(cs[a0].0 < cs[b0].0);
        } else if a == i {
            assert(after[b] == cs[b0]);
        } else {
            assert(after[a] == cs[a0]);
        }
    }
    assert forall|a: int| 0 <= a < after.len() implies (#[trigger] after[a]).1.wf() && after[a].1@
        != Set::<u16>::empty() by {
        if a < i {
            assert(after[a] == cs[a]);
        } else if a > i {
            assert(after[a] == cs[a - 1]);
        }
    }
    assert(entries_wf(after));
    lemma_key_absent(cs, i, key);
    assert forall|k: u16| has_key(after, k) == (has_key(cs, k) || k == key) by {
        if has_key(cs, k) {
            let j = slot_of(cs, k);
            if j < i {
                assert(after[j].0 == k);
            } else {
                assert(after[j + 1].0 == k);
            }
        }
        if k == key {
            assert(after[i].0 == k);
        }
        if has_key(after, k) {
            let j = slot_of(after, k);
            if j < i {
                assert(cs[j].0 == k);
            } else if j > i {
                assert(cs[j - 1].0 == k);
            }
        }
    }
    assert forall|k: u16| #[trigger] block(after, k) == if k == key {
        c@
    } else {
        block(cs, k)
    } by {
        if k == key {
            lemma_slot(after, i);
        } else if has_key(cs, k) {
            let j = slot_of(cs, k);
            lemma_slot(cs, j);
            if j < i {
                assert(after[j] == cs[j]);
                lemma_slot(after, j);
            } else {
                assert(after[j + 1] == cs[j]);
                lemma_slot(after, j + 1);
            }
        }
    }
}

/// Taking an entry out removes its key and changes no other block.
pub proof fn lemma_entry_remove(cs: Seq<(u16, Container)>, i: int)
    requires
        entries_wf(cs),
        0 <= i < cs.len(),
    ensures
        entries_wf(cs.remove(i)),
        forall|k: u16| has_key(cs.remove(i), k) == (has_key(cs, k) && k != cs[i].0),
        forall|k: u16|
            #[trigger] block(cs.remove(i), k) == if k == cs[i].0 {
                Set::<u16>::empty()
            } else {
                block(cs, k)
            },
        forall|k: u16|
            has_key(cs, k) && k != cs[i].0 ==> #[trigger] holder(cs.remove(i), k) == holder(cs, k),
{
    let after = cs.remove(i);
    assert forall|k: u16| has_key(cs, k) && k != cs[i].0 implies #[trigger] holder(after, k)
        == holder(cs, k) by {
        lemma_remove_keeps_order(cs, i);
        let j = slot_of(cs, k);
        lemma_slot(cs, j);
        if j < i {
            assert(after[j] == cs[j]);
            lemma_slot(after, j);
        } else {
            assert(after[j - 1] == cs[j]);
            lemma_slot(after, j - 1);
        }
    }
    assert forall|a: int, b: int| 0 <= a < b < after.len() implies (#[trigger] after[a]).0 < (
    #[trigger] after[b]).0 by {
        let a0 = if a < i { a } else { a + 1 };
        let b0 = if b < i { b } else { b + 1 };
        assert(after[a] == cs[a0]);
        assert(after[b] == cs[b0]);
        assert(cs[a0].0 < cs[b0].0);
    }
    assert forall|a: int| 0 <= a < after.len() implies (#[trigger] after[a]).1.wf() && after[a].1@
        != Set::<u16>::empty() by {
        if a < i {
            assert(after[a] == cs[a]);
        } else {
            assert(after[a] == cs[a + 1]);
        }
    }
    assert(entries_wf(after));
    lemma_slot(cs, i);
    assert forall|k: u16| has_key(after, k) == (has_key(cs, k) && k != cs[i].0) by {
        if has_key(cs, k) && k != cs[i].0 {
            let j = slot_of(cs, k);
            if j < i {
                assert(after[j].0 == k);
            } else {
                assert(after[j - 1].0 == k);
            }
        }
        if has_key(after, k) {
            let j = slot_of(after, k);
            if j < i {
                assert(cs[j].0 == k);
                assert(cs[j].0 < cs[i].0);
            } else {
                assert(cs[j + 1].0 == k);
                assert(cs[i].0 < cs[j + 1].0);
            }
        }
    }
    assert forall|k: u16| #[trigger] block(after, k) == if k == cs[i].0 {
        Set::<u16>::empty()
    } else {
        block(cs, k)
    } by {
        if k != cs[i].0 && has_key(cs, k) {
            let j = slot_of(cs, k);
            lemma_slot(cs, j);
            if j < i {
                assert(after[j] == cs[j]);
                lemma_slot(after, j);
            } else {
                assert(after[j - 1] == cs[j]);
                lemma_slot(after, j - 1);
            }
        }
    }
}

/// How the entries stand after the low half `low` has been added under
/// `key`: the key is present; its container has the representation that the
/// insertion gives it, or is an array where the key is new; every other
/// entry is as it was.
pub open spec fn inserted_into(
    before: Seq<(u16, Container)>,
    after: Seq<(u16, Container)>,
    key: u16,
    low: u16,
) -> bool {
    &&& has_key(after, key)
    &&& holder(after, key).kind() == if has_key(before, key) {
        kind_after_insert(holder(before, key).kind(), block(before, key), low)
    } else {
        ContainerKind::Array
    }
    &&& forall|k: u16| k != key ==> #[trigger] has_key(after, k) == has_key(before, k)
    &&& forall|k: u16| k != key && has_key(before, k) ==> #[trigger] holder(after, k) == holder(before, k)
}

/// How the entries stand after the low half `low` has been removed from
/// under `key`: the key is present exactly if it was and values are left
/// under it; its container then has the representation that the removal
/// gives it; every other entry is as it was.
pub open spec fn removed_from(
    before: Seq<(u16, Container)>,
    after: Seq<(u16, Container)>,
    key: u16,
    low: u16,
) -> bool {
    &&& has_key(after, key) <==> has_key(before, key) && block(before, key).remove(low)
        != Set::<u16>::empty()
    &&& has_key(after, key) ==> holder(after, key).kind() == kind_after_remove(
        holder(before, key).kind(),
        block(before, key),
        low,
    )
    &&& forall|k: u16| k != key ==> #[trigger] has_key(after, k) == has_key(before, k)
    &&& forall|k: u16| k != key && has_key(before, k) ==> #[trigger] holder(after, k) == holder(before, k)
}

/// Adds the low half `low` under `key`: into the container of that key, or
/// into a new array container put in at the key's sorted place.
pub fn insert_value(containers: &mut Vec<(u16, Container)>, key: u16, low: u16) -> (added: bool)
    requires
        entries_wf(old(containers)@),
    ensures
        entries_wf(final(containers)@),
        added == !block(old(containers)@, key).contains(low),
        forall|k: u16|
            #[trigger] block(final(containers)@, k) == if k == key {
                block(old(containers)@, k).insert(low)
            } else {
                block(old(containers)@, k)
            },
        inserted_into(old(containers)@, final(containers)@, key, low),
{
    let ghost before = containers@;
    match search_keys(containers, key) {
        Ok(index) => {
            proof {
                lemma_slot(before, index as int);
            }
            let added = containers[index].1.insert(low);
            proof {
                let c = containers@[index as int].1;
                assert(c@.contains(low));
                assert(containers@ =~= before.update(index as int, (key, c)));
                lemma_entry_update(before, index as int, c);
            }
            added
        },
        Err(index) => {
            let mut container = Container::Array(
                crate::array::ArrayContainer { values: Vec::new() },
            );
            container.insert(low);
            proof {
                assert(container@.contains(low));
                lemma_key_absent(before, index as int, key);
                lemma_entry_insert(before, index as int, key, container);
                assert(container@ =~= Set::<u16>::empty().insert(low));
            }
            containers.insert(index, (key, container));
            true
        },
    }
}

/// Removes the low half `low` from under `key`, and drops the container of
/// that key where it becomes empty.
pub fn remove_value(containers: &mut Vec<(u16, Container)>, key: u16, low: u16) -> (removed: bool)
    requires
        entries_wf(old(containers)@),
    ensures
        entries_wf(final(containers)@),
        removed == block(old(containers)@, key).contains(low),
        forall|k: u16|
            #[trigger] block(final(containers)@, k) == if k == key {
                block(old(containers)@, k).remove(low)
            } else {
                block(old(containers)@, k)
            },
        removed_from(old(containers)@, final(containers)@, key, low),
{
    let ghost before = containers@;
    match search_keys(containers, key) {
        Ok(index) => {
            proof {
                lemma_slot(before, index as int);
            }
            let removed = containers[index].1.remove(low);
            let ghost c = containers@[index as int].1;
            proof {
                assert(containers@ =~= before.update(index as int, (key, c)));
            }
            if removed && containers[index].1.is_empty() {
                containers.remove(index);
                proof {
                    lemma_entry_remove(before, index as int);
                    assert(containers@ =~= before.remove(index as int));
                    assert(before[index as int].1@.remove(low) =~= Set::<u16>::empty());
                }
            } else {
                proof {
                    if !removed {
                        assert(c@ =~= before[index as int].1@);
                    }
                    lemma_entry_update(before, index as int, c);
                }
            }
            removed
        },
        Err(index) => {
            proof {
                lemma_key_absent(before, index as int, key);
                assert(Set::<u16>::empty().remove(low) =~= Set::<u16>::empty());
            }
            false
        },
    }
}

/// Number of values that a sequence of entries holds, container by
/// container.
pub open spec fn entries_count(cs: Seq<(u16, Container)>) -> nat
    decreases cs.len(),
{
    if cs.len() == 0 {
        0
    } else {
        entries_count(cs.drop_last()) + cs.last().1@.len()
    }
}

/// The values of the block `key` whose low halves are in `lows`.
pub open spec fn lifted(key: u16, lows: Set<u16>) -> Set<u32> {
    Set::new(|v: u32| key_of(v) == key && lows.contains(low_of(v)))
}

/// Every set of 32-bit values is finite.
pub proof fn lemma_u32_set_finite(s: Set<u32>)
    ensures
        s.finite(),
{
    <u32 as vstd::set_lib::FiniteFull>::full_properties();
    vstd::set_lib::lemma_set_subset_finite(Set::<u32>::full(), s);
}

/// A block holds as many values as it has low halves.
pub proof fn lemma_lifted_len(key: u16, lows: Set<u16>)
    ensures
        lifted(key, lows).finite(),
        lifted(key, lows).len() == lows.len(),
{
    crate::array::lemma_u16_set_finite(lows);
    let f = |low: u16| value_of(key, low);
    assert(vstd::relations::injective_on(f, lows)) by {
        assert forall|x: u16, y: u16| lows.contains(x) && lows.contains(y) && f(x) == f(
            y,
        ) implies x == y by {
            lemma_halves(0, key, x);
            lemma_halves(0, key, y);
        }
    }
    assert forall|v: u32| lows.map(f).contains(v) <==> lifted(key, lows).contains(v) by {
        if lows.map(f).contains(v) {
            let low = choose|low: u16| lows.contains(low) && f(low) == v;
            lemma_halves(0, key, low);
        }
        if lifted(key, lows).contains(v) {
            lemma_halves(v, 0, 0);
            assert(lows.contains(low_of(v)) && f(low_of(v)) == v);
        }
    }
    assert(lows.map(f) =~= lifted(key, lows));
    vstd::set_lib::lemma_map_size(lows, lifted(key, lows), f);
}

/// A prefix of well-formed entries is well formed.
pub proof fn lemma_entries_take(cs: Seq<(u16, Container)>, n: int)
    requires
        entries_wf(cs),
        0 <= n <= cs.len(),
    ensures
        entries_wf(cs.take(n)),
{
    let t = cs.take(n);
    assert forall|i: int, j: int| 0 <= i < j < t.len() implies (#[trigger] t[i]).0 < (
    #[trigger] t[j]).0 by {
        assert(t[i] == cs[i]);
        assert(t[j] == cs[j]);
    }
    assert forall|i: int| 0 <= i < t.len() implies (#[trigger] t[i]).1.wf() && t[i].1@
        != Set::<u16>::empty() by {
        assert(t[i] == cs[i]);
    }
}

/// Well-formed entries hold as many values as their containers hold low
/// halves, and at most 65,536 for each entry.
pub proof fn lemma_entries_count(cs: Seq<(u16, Container)>)
    requires
        entries_wf(cs),
    ensures
        entries_view(cs).finite(),
        entries_view(cs).len() == entries_count(cs),
        entries_count(cs) <= 65536 * cs.len(),
    decreases cs.len(),
{
    lemma_u32_set_finite(entries_view(cs));
    if cs.len() == 0 {
        assert(entries_view(cs) =~= Set::<u32>::empty());
    } else {
        let n = cs.len() - 1;
        let rest = cs.drop_last();
        let last = cs.last();
        assert(rest == cs.take(n));
        lemma_entries_take(cs, n);
        lemma_entries_count(rest);
        assert(cs =~= rest.push(last));
        assert forall|k: int| 0 <= k < rest.len() implies (#[trigger] rest[k]).0 < last.0 by {
            assert(rest[k] == cs[k]);
            assert(cs[k].0 < cs[n].0);
        }
        lemma_entry_insert(rest, n, last.0, last.1);
        assert(rest.push(last) =~= rest.insert(n, last));
        lemma_key_absent(rest, n, last.0);
        let part = lifted(last.0, last.1@);
        assert(entries_view(cs) =~= entries_view(rest).union(part));
        assert(entries_view(rest).disjoint(part));
        lemma_lifted_len(last.0, last.1@);
        vstd::set_lib::lemma_set_disjoint_lens(entries_view(rest), part);
        crate::run::lemma_u16_set_bound(last.1@);
    }
}

/// Entries with increasing keys are at most 65,536.
pub proof fn lemma_entries_bound(cs: Seq<(u16, Container)>)
    requires
        entries_wf(cs),
    ensures
        cs.len() <= 65536,
    decreases cs.len(),
{
    if cs.len() > 0 {
        let n = cs.len() - 1;
        lemma_entries_take(cs, n);
        lemma_keys_climb(cs, n);
    }
}

/// With strictly increasing keys, the key at an index is at least the index.
pub proof fn lemma_keys_climb(cs: Seq<(u16, Container)>, i: int)
    requires
        entries_wf(cs),
        0 <= i < cs.len(),
    ensures
        cs[i].0 >= i,
    decreases i,
{
    if i > 0 {
        lemma_keys_climb(cs, i - 1);
        assert(cs[i - 1].0 < cs[i].0);
    }
}

/// Entries that hold, key by key, the same values as others.
pub open spec fn same_blocks(a: Seq<(u16, Container)>, b: Seq<(u16, Container)>) -> bool {
    &&& a.len() == b.len()
    &&& forall|i: int| 0 <= i < a.len() ==> (#[trigger] a[i]).0 == b[i].0
    &&& forall|i: int| 0 <= i < a.len() ==> (#[trigger] a[i]).1@ == b[i].1@
}

/// Entries that hold key by key the same values hold the same values.
pub proof fn lemma_same_blocks(a: Seq<(u16, Container)>, b: Seq<(u16, Container)>)
    requires
        same_blocks(a, b),
        entries_wf(a),
        forall|i: int| 0 <= i < b.len() ==> (#[trigger] b[i]).1.wf(),
    ensures
        entries_wf(b),
        entries_view(a) == entries_view(b),
{
    assert forall|i: int, j: int| 0 <= i < j < b.len() implies (#[trigger] b[i]).0 < (
    #[trigger] b[j]).0 by {
        assert(a[i].0 < a[j].0);
    }
    assert forall|i: int| 0 <= i < b.len() implies (#[trigger] b[i]).1@ != Set::<u16>::empty() by {
        assert(a[i].1@ != Set::<u16>::empty());
    }
    assert forall|key: u16| block(a, key) == block(b, key) by {
        if has_key(a, key) {
            let i = slot_of(a, key);
            lemma_slot(a, i);
            assert(b[i].0 == key);
            lemma_slot(b, i);
        }
        if has_key(b, key) {
            let i = slot_of(b, key);
            lemma_slot(b, i);
            assert(a[i].0 == key);
            lemma_slot(a, i);
        }
    }
    assert(entries_view(a) =~= entries_view(b));
}

/// Where the block under the key of `value` has gained the low half of
/// `value` and no other block has changed, the value set has gained `value`.
pub proof fn lemma_view_insert(
    before: Seq<(u16, Container)>,
    after: Seq<(u16, Container)>,
    value: u32,
)
    requires
        forall|k: u16|
            #[trigger] block(after, k) == if k == key_of(value) {
                block(before, k).insert(low_of(value))
            } else {
                block(before, k)
            },
    ensures
        entries_view(after) == entries_view(before).insert(value),
{
    assert forall|v: u32| entries_view(after).contains(v) <==> entries_view(before).insert(
        value,
    ).contains(v) by {
        lemma_halves(v, 0, 0);
        lemma_halves(value, 0, 0);
    }
    assert(entries_view(after) =~= entries_view(before).insert(value));
}

/// Where the block under the key of `value` has lost the low half of `value`
/// and no other block has changed, the value set has lost `value`.
pub proof fn lemma_view_remove(
    before: Seq<(u16, Container)>,
    after: Seq<(u16, Container)>,
    value: u32,
)
    requires
        forall|k: u16|
            #[trigger] block(after, k) == if k == key_of(value) {
                block(before, k).remove(low_of(value))
            } else {
                block(before, k)
            },
    ensures
        entries_view(after) == entries_view(before).remove(value),
{
    assert forall|v: u32| entries_view(after).contains(v) <==> entries_view(before).remove(
        value,
    ).contains(v) by {
        lemma_halves(v, 0, 0);
        lemma_halves(value, 0, 0);
    }
    assert(entries_view(after) =~= entries_view(before).remove(value));
}

} // verus!
