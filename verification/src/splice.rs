//! Linking a new element into the levels of an ordered list.

use vstd::prelude::*;
use crate::entry::SkipListEntry;
use crate::links::SkipListNode;
use crate::order::{key_lt, total_order};
use crate::levels::{
    ascending, brackets, chain_ok, kept, key_at, lemma_chain_distinct, lemma_chain_frame,
    lemma_insert_contains, lemma_insert_position, lemma_kept_same_at, link_after, linked, links_at,
    occupied, place_at, same_at, set_link_at, within,
};

verus! {

/// The links of a level are in order after a new element has been linked in
/// behind position `p` of its chain.
pub proof fn lemma_spliced_linked<K: Ord, E: SkipListEntry<Key = K>>(
    head: Seq<Option<usize>>,
    slots: Seq<Option<Box<E>>>,
    c: Seq<usize>,
    head2: Seq<Option<usize>>,
    slots2: Seq<Option<Box<E>>>,
    l: int,
    p: int,
    idx: usize,
)
    requires
        linked(head, slots, c, l),
        -1 <= p < c.len(),
        head2.len() == head.len(),
        occupied(slots2, idx as int),
        l < links_at(slots2, idx as int).len(),
        links_at(slots2, idx as int)[l] == link_after(c, p),
        p == -1 ==> head2[l] == Some(idx),
        p >= 0 ==> head2[l] == head[l] && links_at(slots2, c[p] as int)[l] == Some(idx),
        same_at(slots, slots2, c, l, p),
    ensures
        linked(head2, slots2, c.insert(p + 1, idx), l),
{
    let d = c.insert(p + 1, idx);
    assert(d.len() == c.len() + 1);
    assert forall|r: int| 0 <= r < d.len() implies {
        &&& occupied(slots2, (#[trigger] d[r]) as int)
        &&& l < links_at(slots2, d[r] as int).len()
        &&& links_at(slots2, d[r] as int)[l] == link_after(d, r)
    } by {
        if r <= p {
            assert(d[r] == c[r]);
            assert(occupied(slots, c[r] as int));
            if r < p {
                assert(d[r + 1] == c[r + 1]);
            } else {
                assert(d[r + 1] == idx);
            }
        } else if r == p + 1 {
            assert(d[r] == idx);
            if r + 1 < d.len() {
                assert(d[r + 1] == c[r]);
            }
        } else {
            assert(d[r] == c[r - 1]);
            assert(occupied(slots, c[r - 1] as int));
            if r + 1 < d.len() {
                assert(d[r + 1] == c[r]);
            }
        }
    }
    if p == -1 {
        assert(d[0] == idx);
    } else {
        assert(d[0] == c[0]);
    }
}

/// The keys of a chain still increase after a new element has been put in
/// where its key belongs.
pub proof fn lemma_spliced_ascending<K: Ord, E: SkipListEntry<Key = K>>(
    slots: Seq<Option<Box<E>>>,
    c: Seq<usize>,
    slots2: Seq<Option<Box<E>>>,
    l: int,
    p: int,
    idx: usize,
    k: K,
)
    requires
        ascending(slots, c),
        brackets(slots, c, p, k),
        key_at(slots2, idx as int) == k,
        same_at(slots, slots2, c, l, p),
    ensures
        ascending(slots2, c.insert(p + 1, idx)),
{
    let d = c.insert(p + 1, idx);
    assert forall|r: int, t: int| 0 <= r < t < d.len() implies key_lt(
        key_at(slots2, (#[trigger] d[r]) as int),
        key_at(slots2, (#[trigger] d[t]) as int),
    ) by {
        let r0 = if r <= p { r } else { r - 1 };
        let t0 = if t <= p { t } else { t - 1 };
        if r != p + 1 && t != p + 1 {
            assert(d[r] == c[r0]);
            assert(d[t] == c[t0]);
            assert(key_lt(key_at(slots, c[r0] as int), key_at(slots, c[t0] as int)));
        } else if r == p + 1 {
            assert(d[r] == idx);
            assert(d[t] == c[t0]);
            assert(key_lt(k, key_at(slots, c[t0] as int)));
        } else {
            assert(d[t] == idx);
            assert(d[r] == c[r0]);
            assert(key_lt(key_at(slots, c[r0] as int), k));
        }
    }
}

/// A level is in order after a new element has been linked in behind
/// position `p` of its chain, where the key of the new element belongs.
#[verifier::rlimit(50)]
pub proof fn lemma_chain_spliced<K: Ord, E: SkipListEntry<Key = K>>(
    head: Seq<Option<usize>>,
    slots: Seq<Option<Box<E>>>,
    chains: Seq<Seq<usize>>,
    head2: Seq<Option<usize>>,
    slots2: Seq<Option<Box<E>>>,
    chains2: Seq<Seq<usize>>,
    l: int,
    p: int,
    idx: usize,
    k: K,
)
    requires
        chain_ok(head, slots, chains, l),
        brackets(slots, chains[l], p, k),
        chains2[l] == chains[l].insert(p + 1, idx),
        head2.len() == head.len(),
        occupied(slots2, idx as int),
        key_at(slots2, idx as int) == k,
        l < links_at(slots2, idx as int).len(),
        links_at(slots2, idx as int)[l] == link_after(chains[l], p),
        p == -1 ==> head2[l] == Some(idx),
        p >= 0 ==> head2[l] == head[l] && links_at(slots2, chains[l][p] as int)[l] == Some(idx),
        same_at(slots, slots2, chains[l], l, p),
        l > 0 ==> chains2[l - 1].contains(idx),
        l > 0 ==> within(chains[l - 1], chains2[l - 1]),
    ensures
        chain_ok(head2, slots2, chains2, l),
{
    lemma_spliced_linked(head, slots, chains[l], head2, slots2, l, p, idx);
    lemma_spliced_ascending(slots, chains[l], slots2, l, p, idx, k);
    lemma_insert_contains(chains[l], p + 1, idx);
    if l > 0 {
        assert forall|x: usize| #[trigger] chains2[l].contains(x) implies chains2[l - 1].contains(
            x,
        ) by {
            if x != idx {
                assert(chains[l].contains(x));
                assert(chains[l - 1].contains(x));
            }
        }
    }
}

/// A second store is a first with one more element, in a place that held
/// none: every other place is as it was.
pub open spec fn grown<E>(s0: Seq<Option<Box<E>>>, s1: Seq<Option<Box<E>>>, idx: usize) -> bool {
    &&& !occupied(s0, idx as int)
    &&& occupied(s1, idx as int)
    &&& s1.len() >= s0.len()
    &&& forall|i: int| 0 <= i < s1.len() && i != idx ==> i < s0.len() && (#[trigger] s1[i]) == s0[i]
}

/// The free places are places of the store that hold nothing, each listed
/// once.
pub open spec fn free_ok<E>(slots: Seq<Option<Box<E>>>, free: Seq<usize>) -> bool {
    &&& forall|j: int|
        0 <= j < free.len() ==> (#[trigger] free[j]) < slots.len() && slots[free[j] as int] is None
    &&& free.no_duplicates()
}

/// Puts an element into the store: into a free place where there is one,
/// else into a new place at the end. Returns the place.
pub(crate) fn place_entry<E>(slots: &mut Vec<Option<Box<E>>>, free: &mut Vec<usize>, entry: Box<E>) -> (idx:
    usize)
    requires
        free_ok(old(slots)@, old(free)@),
    ensures
        free_ok(final(slots)@, final(free)@),
        idx < final(slots)@.len(),
        final(slots)@[idx as int] == Some(entry),
        grown(old(slots)@, final(slots)@, idx),
        final(slots)@.len() - final(free)@.len() == old(slots)@.len() - old(free)@.len() + 1,
{
    match free.pop() {
        Some(i) => {
            proof {
                let f = old(free)@;
                assert(f[f.len() - 1] == i);
                assert forall|j: int| 0 <= j < free@.len() implies (#[trigger] free@[j]) != i by {
                    assert(f[j] == free@[j]);
                }
            }
            slots[i] = Some(entry);
            i
        },
        None => {
            slots.push(Some(entry));
            slots.len() - 1
        },
    }
}

/// What linking a new element in at level `l` does to the store and the
/// head: the new element takes `next` as its link at that level, the element
/// it follows, or else the head, takes the new element, and all else stays.
pub open spec fn step_effect<K: Ord, E: SkipListEntry<Key = K>>(
    h0: Seq<Option<usize>>,
    s0: Seq<Option<Box<E>>>,
    h2: Seq<Option<usize>>,
    s2: Seq<Option<Box<E>>>,
    l: int,
    pred: Option<usize>,
    idx: usize,
    next: Option<usize>,
) -> bool {
    &&& s2.len() == s0.len()
    &&& forall|i: int|
        0 <= i < s0.len() && i != idx && (pred matches Some(u) ==> i != u) ==> #[trigger] s2[i]
            == s0[i]
    &&& 0 <= l < links_at(s0, idx as int).len()
    &&& pred matches Some(u) ==> l < links_at(s0, u as int).len()
    &&& pred is None ==> l < h0.len()
    &&& occupied(s0, idx as int)
    &&& occupied(s2, idx as int)
    &&& key_at(s2, idx as int) == key_at(s0, idx as int)
    &&& links_at(s2, idx as int) == links_at(s0, idx as int).update(l, next)
    &&& pred matches Some(u) ==> {
        &&& u != idx
        &&& occupied(s0, u as int)
        &&& occupied(s2, u as int)
        &&& key_at(s2, u as int) == key_at(s0, u as int)
        &&& links_at(s2, u as int) == links_at(s0, u as int).update(l, Some(idx))
        &&& h2 == h0
    }
    &&& pred is None ==> h2 == h0.update(l, Some(idx))
}

/// Linking a new element in at one level keeps every element as it was but
/// for its link at that level.
#[verifier::rlimit(50)]
pub proof fn lemma_effect_kept<K: Ord, E: SkipListEntry<Key = K>>(
    h0: Seq<Option<usize>>,
    s0: Seq<Option<Box<E>>>,
    h2: Seq<Option<usize>>,
    s2: Seq<Option<Box<E>>>,
    l: int,
    pred: Option<usize>,
    idx: usize,
    next: Option<usize>,
)
    requires
        step_effect(h0, s0, h2, s2, l, pred, idx, next),
    ensures
        kept(s0, s2, l),
{
    assert forall|i: int| 0 <= i < s0.len() implies ((#[trigger] s2[i]) is Some) == (s0[i]
        is Some) by {
        if i != idx && (pred matches Some(u) ==> i != u) {
            assert(s2[i] == s0[i]);
        }
    }
    assert forall|i: int| occupied(s0, i) implies #[trigger] key_at(s2, i) == key_at(s0, i)
        && links_at(s2, i).len() == links_at(s0, i).len() by {
        if i != idx && (pred matches Some(u) ==> i != u) {
            assert(s2[i] == s0[i]);
        }
    }
    assert forall|i: int, j: int|
        occupied(s0, i) && 0 <= j < links_at(s0, i).len() && j != l implies #[trigger] links_at(
            s2,
            i,
        )[j] == links_at(s0, i)[j] by {
        if i != idx && (pred matches Some(u) ==> i != u) {
            assert(s2[i] == s0[i]);
        }
    }
}

/// Where a new element is linked in at level `l` behind position `p` of the
/// chain, the other elements of that chain keep their links at that level.
pub proof fn lemma_effect_same_at<K: Ord, E: SkipListEntry<Key = K>>(
    h0: Seq<Option<usize>>,
    s0: Seq<Option<Box<E>>>,
    h2: Seq<Option<usize>>,
    s2: Seq<Option<Box<E>>>,
    c: Seq<usize>,
    l: int,
    p: int,
    idx: usize,
    next: Option<usize>,
)
    requires
        total_order::<K>(),
        step_effect(h0, s0, h2, s2, l, place_at(c, p), idx, next),
        linked(h0, s0, c, l),
        ascending(s0, c),
        -1 <= p < c.len(),
        !c.contains(idx),
    ensures
        same_at(s0, s2, c, l, p),
{
    lemma_effect_kept(h0, s0, h2, s2, l, place_at(c, p), idx, next);
    assert forall|q: int| 0 <= q < c.len() implies {
        let i = (#[trigger] c[q]) as int;
        &&& occupied(s2, i)
        &&& key_at(s2, i) == key_at(s0, i)
        &&& links_at(s2, i).len() == links_at(s0, i).len()
        &&& q != p ==> links_at(s2, i)[l] == links_at(s0, i)[l]
    } by {
        let i = c[q] as int;
        assert(occupied(s0, i));
        assert(s2[i] is Some);
        assert(key_at(s2, i) == key_at(s0, i));
        assert(c.contains(c[q]));
        if q != p {
            if p >= 0 {
                lemma_chain_distinct(s0, c, p, q);
            }
            assert(s2[i] == s0[i]);
        }
    }
}

/// The state of the levels while a new element is being linked in: every
/// level is in order, and the levels below `l` hold the new element.
pub open spec fn splicing<K: Ord, E: SkipListEntry<Key = K>>(
    head: Seq<Option<usize>>,
    slots: Seq<Option<Box<E>>>,
    chains: Seq<Seq<usize>>,
    now: Seq<Seq<usize>>,
    pos: Seq<int>,
    idx: usize,
    k: K,
    l: int,
) -> bool {
    &&& now.len() == chains.len()
    &&& pos.len() == chains.len()
    &&& head.len() == chains.len()
    &&& forall|j: int| 0 <= j < chains.len() ==> -1 <= #[trigger] pos[j] < chains[j].len()
    &&& forall|j: int| 0 <= j < chains.len() ==> #[trigger] chain_ok(head, slots, now, j)
    &&& forall|j: int| l <= j < chains.len() ==> #[trigger] brackets(slots, chains[j], pos[j], k)
    &&& forall|j: int| l <= j < chains.len() ==> !(#[trigger] chains[j]).contains(idx)
    &&& forall|j: int|
        0 <= j < chains.len() ==> #[trigger] now[j] == if j < l {
            chains[j].insert(pos[j] + 1, idx)
        } else {
            chains[j]
        }
    &&& occupied(slots, idx as int)
    &&& key_at(slots, idx as int) == k
}

/// Linking the new element in at level `l` puts that level in order with
/// the new element in its chain.
pub proof fn lemma_step_at<K: Ord, E: SkipListEntry<Key = K>>(
    h0: Seq<Option<usize>>,
    s0: Seq<Option<Box<E>>>,
    h2: Seq<Option<usize>>,
    s2: Seq<Option<Box<E>>>,
    now: Seq<Seq<usize>>,
    after: Seq<Seq<usize>>,
    l: int,
    p: int,
    idx: usize,
    k: K,
)
    requires
        total_order::<K>(),
        0 <= l < now.len(),
        -1 <= p < now[l].len(),
        l < links_at(s0, idx as int).len(),
        h0.len() == now.len(),
        chain_ok(h0, s0, now, l),
        brackets(s0, now[l], p, k),
        !now[l].contains(idx),
        key_at(s0, idx as int) == k,
        step_effect(h0, s0, h2, s2, l, place_at(now[l], p), idx, link_after(now[l], p)),
        after == now.update(l, now[l].insert(p + 1, idx)),
        l > 0 ==> now[l - 1].contains(idx),
    ensures
        chain_ok(h2, s2, after, l),
{
    let c = now[l];
    lemma_effect_same_at(h0, s0, h2, s2, c, l, p, idx, link_after(c, p));
    if p >= 0 {
        assert(occupied(s0, c[p] as int));
    }
    lemma_chain_spliced(h0, s0, now, h2, s2, after, l, p, idx, k);
}

/// Linking the new element in at level `l` leaves another level `j` in
/// order.
pub proof fn lemma_step_off<K: Ord, E: SkipListEntry<Key = K>>(
    h0: Seq<Option<usize>>,
    s0: Seq<Option<Box<E>>>,
    h2: Seq<Option<usize>>,
    s2: Seq<Option<Box<E>>>,
    now: Seq<Seq<usize>>,
    after: Seq<Seq<usize>>,
    l: int,
    j: int,
    pred: Option<usize>,
    idx: usize,
    next: Option<usize>,
    d: Seq<usize>,
)
    requires
        0 <= l < now.len(),
        0 <= j < now.len(),
        j != l,
        h0.len() == now.len(),
        chain_ok(h0, s0, now, j),
        step_effect(h0, s0, h2, s2, l, pred, idx, next),
        after == now.update(l, d),
        within(now[l], d),
    ensures
        chain_ok(h2, s2, after, j),
{
    lemma_effect_kept(h0, s0, h2, s2, l, pred, idx, next);
    lemma_kept_same_at(h0, s0, s2, now[j], l, j);
    lemma_chain_frame(h0, s0, now, h2, s2, after, j);
}

/// Linking the new element in at level `l` leaves the key where it belongs
/// at another level `j`.
pub proof fn lemma_step_brackets<K: Ord, E: SkipListEntry<Key = K>>(
    h0: Seq<Option<usize>>,
    s0: Seq<Option<Box<E>>>,
    h2: Seq<Option<usize>>,
    s2: Seq<Option<Box<E>>>,
    c: Seq<usize>,
    l: int,
    j: int,
    p: int,
    pred: Option<usize>,
    idx: usize,
    next: Option<usize>,
    k: K,
)
    requires
        j != l,
        linked(h0, s0, c, j),
        brackets(s0, c, p, k),
        step_effect(h0, s0, h2, s2, l, pred, idx, next),
    ensures
        brackets(s2, c, p, k),
{
    lemma_effect_kept(h0, s0, h2, s2, l, pred, idx, next);
    lemma_kept_same_at(h0, s0, s2, c, l, j);
    assert forall|q: int| 0 <= q <= p implies key_lt(key_at(s2, (#[trigger] c[q]) as int), k) by {
        assert(key_lt(key_at(s0, c[q] as int), k));
    }
    assert forall|q: int| p < q < c.len() implies key_lt(
        k,
        key_at(s2, (#[trigger] c[q]) as int),
    ) by {
        assert(key_lt(k, key_at(s0, c[q] as int)));
    }
}

/// Linking the new element in at level `l` carries the state of the levels
/// from `l` to `l + 1`.
#[verifier::rlimit(50)]
pub proof fn lemma_splice_step<K: Ord, E: SkipListEntry<Key = K>>(
    h0: Seq<Option<usize>>,
    s0: Seq<Option<Box<E>>>,
    h2: Seq<Option<usize>>,
    s2: Seq<Option<Box<E>>>,
    chains: Seq<Seq<usize>>,
    now: Seq<Seq<usize>>,
    pos: Seq<int>,
    idx: usize,
    k: K,
    l: int,
)
    requires
        total_order::<K>(),
        0 <= l < chains.len(),
        l < links_at(s0, idx as int).len(),
        splicing(h0, s0, chains, now, pos, idx, k, l),
        step_effect(
            h0,
            s0,
            h2,
            s2,
            l,
            place_at(chains[l], pos[l]),
            idx,
            link_after(chains[l], pos[l]),
        ),
    ensures
        splicing(
            h2,
            s2,
            chains,
            now.update(l, chains[l].insert(pos[l] + 1, idx)),
            pos,
            idx,
            k,
            l + 1,
        ),
{
    let c = chains[l];
    let p = pos[l];
    let pred = place_at(c, p);
    let next = link_after(c, p);
    let d = c.insert(p + 1, idx);
    let after = now.update(l, d);
    assert(chain_ok(h0, s0, now, l));
    assert(brackets(s0, chains[l], pos[l], k));
    assert(now[l] == c);
    assert(!chains[l].contains(idx));
    lemma_insert_position(c, p + 1, idx);
    assert forall|j: int| 0 <= j < chains.len() implies #[trigger] chain_ok(h2, s2, after, j) by {
        assert(chain_ok(h0, s0, now, j));
        if j == l {
            if l > 0 {
                assert(now[l - 1] == chains[l - 1].insert(pos[l - 1] + 1, idx));
                assert(chain_ok(h0, s0, now, l - 1));
                assert(linked(h0, s0, now[l - 1], l - 1));
                lemma_insert_position(chains[l - 1], pos[l - 1] + 1, idx);
            }
            lemma_step_at(h0, s0, h2, s2, now, after, l, p, idx, k);
        } else {
            lemma_step_off(h0, s0, h2, s2, now, after, l, j, pred, idx, next, d);
        }
    }
    assert forall|j: int| l + 1 <= j < chains.len() implies #[trigger] brackets(
        s2,
        chains[j],
        pos[j],
        k,
    ) by {
        assert(brackets(s0, chains[j], pos[j], k));
        assert(chain_ok(h0, s0, now, j));
        assert(now[j] == chains[j]);
        lemma_step_brackets(h0, s0, h2, s2, chains[j], l, j, pos[j], pred, idx, next, k);
    }
}

/// Links a new element into the levels `0..=new_level`: at each level it
/// takes over the link of the element it follows, and that element is
/// linked to it.
#[verifier::rlimit(50)]
pub(crate) fn splice_levels<K: Ord, E: SkipListEntry<Key = K>>(
    head: &mut SkipListNode,
    slots: &mut Vec<Option<Box<E>>>,
    update: &Vec<Option<usize>>,
    idx: usize,
    new_level: usize,
    Ghost(chains): Ghost<Seq<Seq<usize>>>,
    Ghost(pos): Ghost<Seq<int>>,
    Ghost(k): Ghost<K>,
) -> (r: Ghost<Seq<Seq<usize>>>)
    requires
        total_order::<K>(),
        new_level < chains.len(),
        chains.len() < usize::MAX,
        update@.len() == chains.len(),
        splicing(old(head)@, old(slots)@, chains, chains, pos, idx, k, 0),
        forall|j: int|
            0 <= j < chains.len() ==> #[trigger] update@[j] == place_at(chains[j], pos[j]),
        links_at(old(slots)@, idx as int).len() == new_level + 1,
    ensures
        splicing(final(head)@, final(slots)@, chains, r@, pos, idx, k, new_level + 1),
        final(slots)@.len() == old(slots)@.len(),
        forall|i: int|
            0 <= i < old(slots)@.len() ==> ((#[trigger] final(slots)@[i]) is Some) == (old(slots)@[i] is Some),
        forall|i: int|
            occupied(old(slots)@, i) ==> #[trigger] key_at(final(slots)@, i) == key_at(
                old(slots)@,
                i,
            ),
{
    let ghost mut now: Seq<Seq<usize>> = chains;
    let mut l: usize = 0;
    while l <= new_level
        invariant
            total_order::<K>(),
            l <= new_level + 1,
            new_level < chains.len(),
            chains.len() < usize::MAX,
            update@.len() == chains.len(),
            splicing(head@, slots@, chains, now, pos, idx, k, l as int),
            forall|j: int|
                0 <= j < chains.len() ==> #[trigger] update@[j] == place_at(chains[j], pos[j]),
            links_at(slots@, idx as int).len() == new_level + 1,
            slots@.len() == old(slots)@.len(),
            forall|i: int|
                0 <= i < old(slots)@.len() ==> ((#[trigger] slots@[i]) is Some) == (old(slots)@[i]
                    is Some),
            forall|i: int|
                occupied(old(slots)@, i) ==> #[trigger] key_at(slots@, i) == key_at(
                    old(slots)@,
                    i,
                ),
        decreases new_level + 1 - l,
    {
        let ghost h0 = head@;
        let ghost s0 = slots@;
        let ghost c = chains[l as int];
        let ghost p = pos[l as int];
        let pred: Option<usize> = update[l];
        proof {
            assert(chain_ok(h0, s0, now, l as int));
            assert(brackets(s0, chains[l as int], pos[l as int], k));
            assert(now[l as int] == c);
            assert(pred == place_at(c, p));
            assert(!chains[l as int].contains(idx));
            if p >= 0 {
                assert(occupied(s0, c[p] as int));
                assert(c.contains(c[p]));
            }
        }
        let next: Option<usize> = match pred {
            None => head.link(l),
            Some(u) => {
                let b: &Box<E> = slots[u].as_ref().unwrap();
                b.skiplist_node().link(l)
            },
        };
        assert(next == link_after(c, p));
        set_link_at(head, slots, Some(idx), l, next);
        set_link_at(head, slots, pred, l, Some(idx));
        proof {
            assert(step_effect(h0, s0, head@, slots@, l as int, pred, idx, next));
            lemma_splice_step(h0, s0, head@, slots@, chains, now, pos, idx, k, l as int);
            lemma_effect_kept(h0, s0, head@, slots@, l as int, pred, idx, next);
            now = now.update(l as int, c.insert(p + 1, idx));
        }
        l += 1;
    }
    Ghost(now)
}

/// A level stays in order, and a key stays where it belongs, where a store
/// gains an element in a place that no chain holds.
pub proof fn lemma_placed<K: Ord, E: SkipListEntry<Key = K>>(
    head: Seq<Option<usize>>,
    s0: Seq<Option<Box<E>>>,
    s1: Seq<Option<Box<E>>>,
    chains: Seq<Seq<usize>>,
    j: int,
    p: int,
    k: K,
    idx: usize,
)
    requires
        chain_ok(head, s0, chains, j),
        brackets(s0, chains[j], p, k),
        grown(s0, s1, idx),
    ensures
        chain_ok(head, s1, chains, j),
        brackets(s1, chains[j], p, k),
        !chains[j].contains(idx),
{
    let c = chains[j];
    assert forall|q: int| 0 <= q < c.len() implies (#[trigger] c[q]) != idx && s1[c[q] as int]
        == s0[c[q] as int] by {
        assert(occupied(s0, c[q] as int));
    }
    assert forall|q: int| 0 <= q < c.len() implies {
        let i = (#[trigger] c[q]) as int;
        &&& occupied(s1, i)
        &&& key_at(s1, i) == key_at(s0, i)
        &&& links_at(s1, i).len() == links_at(s0, i).len()
        &&& q != -1 ==> links_at(s1, i)[j] == links_at(s0, i)[j]
    } by {
        assert(occupied(s0, c[q] as int));
    }
    lemma_chain_frame(head, s0, chains, head, s1, chains, j);
    assert forall|q: int| 0 <= q <= p implies key_lt(key_at(s1, (#[trigger] c[q]) as int), k) by {
        assert(key_lt(key_at(s0, c[q] as int), k));
    }
    assert forall|q: int| p < q < c.len() implies key_lt(
        k,
        key_at(s1, (#[trigger] c[q]) as int),
    ) by {
        assert(key_lt(k, key_at(s0, c[q] as int)));
    }
}

/// The keys along the lowest level after a new element has been linked in:
/// the keys before, with the new key put in.
pub proof fn lemma_keys_inserted<K: Ord, E: SkipListEntry<Key = K>>(
    s0: Seq<Option<Box<E>>>,
    s1: Seq<Option<Box<E>>>,
    s2: Seq<Option<Box<E>>>,
    c: Seq<usize>,
    p: int,
    idx: usize,
    k: K,
)
    requires
        0 <= p <= c.len(),
        forall|q: int| 0 <= q < c.len() ==> occupied(s0, (#[trigger] c[q]) as int),
        grown(s0, s1, idx),
        forall|i: int| occupied(s1, i) ==> #[trigger] key_at(s2, i) == key_at(s1, i),
        key_at(s2, idx as int) == k,
    ensures
        Seq::new(c.len() + 1, |r: int| key_at(s2, c.insert(p, idx)[r] as int)) == Seq::new(
            c.len(),
            |r: int| key_at(s0, c[r] as int),
        ).insert(p, k),
{
    let d = c.insert(p, idx);
    let a = Seq::new(c.len() + 1, |r: int| key_at(s2, d[r] as int));
    let b = Seq::new(c.len(), |r: int| key_at(s0, c[r] as int)).insert(p, k);
    assert forall|r: int| 0 <= r < a.len() implies a[r] == b[r] by {
        if r < p {
            assert(d[r] == c[r]);
            assert(occupied(s0, c[r] as int));
            assert(s1[c[r] as int] == s0[c[r] as int]);
            assert(key_at(s2, c[r] as int) == key_at(s1, c[r] as int));
        } else if r > p {
            assert(d[r] == c[r - 1]);
            assert(occupied(s0, c[r - 1] as int));
            assert(s1[c[r - 1] as int] == s0[c[r - 1] as int]);
            assert(key_at(s2, c[r - 1] as int) == key_at(s1, c[r - 1] as int));
        } else {
            assert(d[r] == idx);
        }
    }
    assert(a =~= b);
}

/// The places of the lowest level after a new element has been linked in
/// are the places of the store that hold an element.
pub proof fn lemma_places_inserted<E>(
    s0: Seq<Option<Box<E>>>,
    s1: Seq<Option<Box<E>>>,
    s2: Seq<Option<Box<E>>>,
    c: Seq<usize>,
    p: int,
    idx: usize,
)
    requires
        0 <= p <= c.len(),
        forall|x: usize| x < s0.len() ==> ((#[trigger] s0[x as int]) is Some <==> c.contains(x)),
        grown(s0, s1, idx),
        s2.len() == s1.len(),
        forall|i: int| 0 <= i < s1.len() ==> ((#[trigger] s2[i]) is Some) == (s1[i] is Some),
    ensures
        forall|x: usize|
            x < s2.len() ==> ((#[trigger] s2[x as int]) is Some <==> c.insert(p, idx).contains(x)),
{
    lemma_insert_contains(c, p, idx);
    assert forall|x: usize| x < s2.len() implies ((#[trigger] s2[x as int]) is Some <==> c.insert(
        p,
        idx,
    ).contains(x)) by {
        assert((s2[x as int] is Some) == (s1[x as int] is Some));
        assert(c.insert(p, idx).contains(x) <==> (c.contains(x) || x == idx));
        if x != idx {
            assert(s1[x as int] == s0[x as int]);
            assert(x < s0.len());
            assert(s0[x as int] is Some <==> c.contains(x));
        }
    }
}

} // verus!
