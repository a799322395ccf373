//! Unlinking an element from the levels of an ordered list.

use vstd::prelude::*;
use crate::entry::SkipListEntry;
use crate::links::SkipListNode;
use crate::order::{key_lt, lemma_trichotomy, total_order};
use crate::levels::{
    ascending, chain_ok, kept, key_at, lemma_chain_distinct, lemma_chain_injective,
    lemma_kept_same_at, lemma_remove_contains, link_after, linked, links_at, occupied, passes,
    place_at, set_link_at, stops_at, within,
};

verus! {

/// Every place of one chain but `t` is a place of another.
pub open spec fn within_but(a: Seq<usize>, b: Seq<usize>, t: usize) -> bool {
    forall|x: usize| #[trigger] a.contains(x) && x != t ==> b.contains(x)
}

/// Level `l` is in order while the element at place `t` is being taken out:
/// as `chain_ok`, but `t` may be missing from the chain below.
pub open spec fn level_ok<K: Ord, E: SkipListEntry<Key = K>>(
    head: Seq<Option<usize>>,
    slots: Seq<Option<Box<E>>>,
    chains: Seq<Seq<usize>>,
    l: int,
    t: usize,
) -> bool {
    &&& linked(head, slots, chains[l], l)
    &&& ascending(slots, chains[l])
    &&& l > 0 ==> within_but(chains[l], chains[l - 1], t)
}

/// What unlinking at level `l` does to the store and the head: the element
/// at `pred`, or else the head, takes `link` as its link at that level, and
/// all else stays.
pub open spec fn unlink_effect<K: Ord, E: SkipListEntry<Key = K>>(
    h0: Seq<Option<usize>>,
    s0: Seq<Option<Box<E>>>,
    h2: Seq<Option<usize>>,
    s2: Seq<Option<Box<E>>>,
    l: int,
    pred: Option<usize>,
    link: Option<usize>,
) -> bool {
    &&& s2.len() == s0.len()
    &&& forall|i: int|
        0 <= i < s0.len() && (pred matches Some(u) ==> i != u) ==> #[trigger] s2[i] == s0[i]
    &&& pred matches Some(u) ==> {
        &&& 0 <= l < links_at(s0, u as int).len()
        &&& occupied(s0, u as int)
        &&& occupied(s2, u as int)
        &&& key_at(s2, u as int) == key_at(s0, u as int)
        &&& links_at(s2, u as int) == links_at(s0, u as int).update(l, link)
        &&& h2 == h0
    }
    &&& pred is None ==> 0 <= l < h0.len() && h2 == h0.update(l, link)
}

/// Unlinking at one level keeps every element as it was but for its link at
/// that level.
#[verifier::rlimit(50)]
pub proof fn lemma_unlink_kept<K: Ord, E: SkipListEntry<Key = K>>(
    h0: Seq<Option<usize>>,
    s0: Seq<Option<Box<E>>>,
    h2: Seq<Option<usize>>,
    s2: Seq<Option<Box<E>>>,
    l: int,
    pred: Option<usize>,
    link: Option<usize>,
)
    requires
        unlink_effect(h0, s0, h2, s2, l, pred, link),
    ensures
        kept(s0, s2, l),
        h2.len() == h0.len(),
        forall|j: int| 0 <= j < h0.len() && j != l ==> h2[j] == h0[j],
{
    assert forall|i: int| 0 <= i < s0.len() implies ((#[trigger] s2[i]) is Some) == (s0[i]
        is Some) by {
        if pred matches Some(u) ==> i != u {
            assert(s2[i] == s0[i]);
        }
    }
    assert forall|i: int| occupied(s0, i) implies #[trigger] key_at(s2, i) == key_at(s0, i)
        && links_at(s2, i).len() == links_at(s0, i).len() by {
        if pred matches Some(u) ==> i != u {
            assert(s2[i] == s0[i]);
        }
    }
    assert forall|i: int, j: int|
        occupied(s0, i) && 0 <= j < links_at(s0, i).len() && j != l implies #[trigger] links_at(
            s2,
            i,
        )[j] == links_at(s0, i)[j] by {
        if pred matches Some(u) ==> i != u {
            assert(s2[i] == s0[i]);
        }
    }
}

/// The elements of a chain but the one at position `skip` are, in a second
/// store, what they were in a first, and the element at position `p` keeps
/// all but its link at level `l`.
pub open spec fn same_around<K: Ord, E: SkipListEntry<Key = K>>(
    s0: Seq<Option<Box<E>>>,
    s2: Seq<Option<Box<E>>>,
    c: Seq<usize>,
    p: int,
) -> bool {
    forall|q: int|
        0 <= q < c.len() ==> {
            let i = (#[trigger] c[q]) as int;
            &&& occupied(s2, i)
            &&& key_at(s2, i) == key_at(s0, i)
            &&& links_at(s2, i).len() == links_at(s0, i).len()
            &&& q != p ==> s2[i] == s0[i]
        }
}

/// Unlinking behind position `p` of a chain leaves the elements of the
/// chain as they were, but for the link of the element at `p`.
pub proof fn lemma_unlink_around<K: Ord, E: SkipListEntry<Key = K>>(
    h0: Seq<Option<usize>>,
    s0: Seq<Option<Box<E>>>,
    h2: Seq<Option<usize>>,
    s2: Seq<Option<Box<E>>>,
    c: Seq<usize>,
    l: int,
    p: int,
    link: Option<usize>,
)
    requires
        total_order::<K>(),
        linked(h0, s0, c, l),
        ascending(s0, c),
        -1 <= p < c.len(),
        unlink_effect(h0, s0, h2, s2, l, place_at(c, p), link),
    ensures
        same_around(s0, s2, c, p),
{
    lemma_unlink_kept(h0, s0, h2, s2, l, place_at(c, p), link);
    assert forall|q: int| 0 <= q < c.len() implies {
        let i = (#[trigger] c[q]) as int;
        &&& occupied(s2, i)
        &&& key_at(s2, i) == key_at(s0, i)
        &&& links_at(s2, i).len() == links_at(s0, i).len()
        &&& q != p ==> s2[i] == s0[i]
    } by {
        let i = c[q] as int;
        assert(occupied(s0, i));
        assert(s2[i] is Some);
        assert(key_at(s2, i) == key_at(s0, i));
        if q != p {
            if p >= 0 {
                lemma_chain_distinct(s0, c, p, q);
            }
            assert(s2[i] == s0[i]);
        }
    }
}

/// The links of a level are in order after the element behind position `p`
/// has been unlinked from its chain.
pub proof fn lemma_unlinked_linked<K: Ord, E: SkipListEntry<Key = K>>(
    h0: Seq<Option<usize>>,
    s0: Seq<Option<Box<E>>>,
    h2: Seq<Option<usize>>,
    s2: Seq<Option<Box<E>>>,
    c: Seq<usize>,
    l: int,
    p: int,
)
    requires
        linked(h0, s0, c, l),
        -1 <= p,
        p + 1 < c.len(),
        h2.len() == h0.len(),
        same_around(s0, s2, c, p),
        p == -1 ==> h2[l] == link_after(c, 0),
        p >= 0 ==> h2[l] == h0[l] && links_at(s2, c[p] as int)[l] == link_after(c, p + 1),
    ensures
        linked(h2, s2, c.remove(p + 1), l),
{
    let d = c.remove(p + 1);
    assert forall|r: int| 0 <= r < d.len() implies {
        &&& occupied(s2, (#[trigger] d[r]) as int)
        &&& l < links_at(s2, d[r] as int).len()
        &&& links_at(s2, d[r] as int)[l] == link_after(d, r)
    } by {
        let r0 = if r <= p { r } else { r + 1 };
        assert(d[r] == c[r0]);
        assert(occupied(s0, c[r0] as int));
        assert(occupied(s2, c[r0] as int));
        if r0 == p {
            if r + 1 < d.len() {
                assert(d[r + 1] == c[p + 2]);
            }
        } else {
            assert(s2[c[r0] as int] == s0[c[r0] as int]);
            if r + 1 < d.len() {
                assert(d[r + 1] == c[r0 + 1]);
            }
        }
    }
    if p == -1 {
        if d.len() > 0 {
            assert(d[0] == c[1]);
        }
    } else {
        assert(d[0] == c[0]);
    }
}

/// The keys of a chain still increase after a position has been taken out.
pub proof fn lemma_unlinked_ascending<K: Ord, E: SkipListEntry<Key = K>>(
    s0: Seq<Option<Box<E>>>,
    s2: Seq<Option<Box<E>>>,
    c: Seq<usize>,
    p: int,
)
    requires
        ascending(s0, c),
        -1 <= p,
        p + 1 < c.len(),
        same_around(s0, s2, c, p),
    ensures
        ascending(s2, c.remove(p + 1)),
{
    let d = c.remove(p + 1);
    assert forall|r: int, u: int| 0 <= r < u < d.len() implies key_lt(
        key_at(s2, (#[trigger] d[r]) as int),
        key_at(s2, (#[trigger] d[u]) as int),
    ) by {
        let r0 = if r <= p { r } else { r + 1 };
        let u0 = if u <= p { u } else { u + 1 };
        assert(d[r] == c[r0]);
        assert(d[u] == c[u0]);
        assert(key_at(s2, c[r0] as int) == key_at(s0, c[r0] as int));
        assert(key_at(s2, c[u0] as int) == key_at(s0, c[u0] as int));
        assert(key_lt(key_at(s0, c[r0] as int), key_at(s0, c[u0] as int)));
    }
}

/// Level `l` is in order after the element behind position `p` has been
/// unlinked from its chain.
#[verifier::rlimit(50)]
pub proof fn lemma_unlinked_at<K: Ord, E: SkipListEntry<Key = K>>(
    h0: Seq<Option<usize>>,
    s0: Seq<Option<Box<E>>>,
    h2: Seq<Option<usize>>,
    s2: Seq<Option<Box<E>>>,
    now: Seq<Seq<usize>>,
    after: Seq<Seq<usize>>,
    l: int,
    p: int,
    t: usize,
)
    requires
        total_order::<K>(),
        0 <= l < now.len(),
        h0.len() == now.len(),
        level_ok(h0, s0, now, l, t),
        -1 <= p,
        p + 1 < now[l].len(),
        now[l][p + 1] == t,
        unlink_effect(h0, s0, h2, s2, l, place_at(now[l], p), link_after(now[l], p + 1)),
        after == now.update(l, now[l].remove(p + 1)),
    ensures
        level_ok(h2, s2, after, l, t),
        !after[l].contains(t),
{
    let c = now[l];
    lemma_unlink_around(h0, s0, h2, s2, c, l, p, link_after(c, p + 1));
    if p >= 0 {
        assert(occupied(s0, c[p] as int));
    }
    lemma_unlinked_linked(h0, s0, h2, s2, c, l, p);
    lemma_unlinked_ascending(s0, s2, c, p);
    lemma_chain_injective(s0, c);
    lemma_remove_contains(c, p + 1);
    if l > 0 {
        assert forall|x: usize| #[trigger] after[l].contains(x) && x != t implies after[l
            - 1].contains(x) by {
            assert(c.contains(x));
        }
    }
}

/// Unlinking at level `l` leaves another level `j` in order.
pub proof fn lemma_unlinked_off<K: Ord, E: SkipListEntry<Key = K>>(
    h0: Seq<Option<usize>>,
    s0: Seq<Option<Box<E>>>,
    h2: Seq<Option<usize>>,
    s2: Seq<Option<Box<E>>>,
    now: Seq<Seq<usize>>,
    after: Seq<Seq<usize>>,
    l: int,
    j: int,
    pred: Option<usize>,
    link: Option<usize>,
    t: usize,
    d: Seq<usize>,
)
    requires
        0 <= l < now.len(),
        0 <= j < now.len(),
        j != l,
        h0.len() == now.len(),
        level_ok(h0, s0, now, j, t),
        unlink_effect(h0, s0, h2, s2, l, pred, link),
        after == now.update(l, d),
        within_but(now[l], d, t),
    ensures
        level_ok(h2, s2, after, j, t),
{
    lemma_unlink_kept(h0, s0, h2, s2, l, pred, link);
    let c = now[j];
    lemma_kept_same_at(h0, s0, s2, c, l, j);
    assert forall|p: int| 0 <= p < c.len() implies {
        &&& occupied(s2, (#[trigger] c[p]) as int)
        &&& j < links_at(s2, c[p] as int).len()
        &&& links_at(s2, c[p] as int)[j] == link_after(c, p)
    } by {
        assert(occupied(s0, c[p] as int));
    }
    assert forall|p: int, q: int| 0 <= p < q < c.len() implies key_lt(
        key_at(s2, (#[trigger] c[p]) as int),
        key_at(s2, (#[trigger] c[q]) as int),
    ) by {
        assert(key_lt(key_at(s0, c[p] as int), key_at(s0, c[q] as int)));
    }
    if j > 0 {
        assert forall|x: usize| #[trigger] after[j].contains(x) && x != t implies after[j
            - 1].contains(x) by {
            assert(now[j - 1].contains(x));
        }
    }
}

/// Where the search for a key stops before an element of another key at a
/// level, or at the end, the element with the key is not in that level.
pub proof fn lemma_not_in_level<K: Ord, E: SkipListEntry<Key = K>>(
    slots: Seq<Option<Box<E>>>,
    c: Seq<usize>,
    p: int,
    key: K,
    t: usize,
)
    requires
        total_order::<K>(),
        ascending(slots, c),
        stops_at(slots, c, p, key, false),
        key_at(slots, t as int) == key,
        p + 1 < c.len() ==> c[p + 1] != t,
    ensures
        !c.contains(t),
{
    if c.contains(t) {
        let q = choose|q: int| 0 <= q < c.len() && c[q] == t;
        lemma_trichotomy(key, key);
        if q <= p {
            assert(passes(key_at(slots, c[q] as int), key, false));
        } else {
            assert(q > p + 1);
            let a = key_at(slots, c[p + 1] as int);
            assert(key_lt(a, key_at(slots, c[q] as int)));
            assert(!passes(key_at(slots, c[p + 1] as int), key, false));
        }
    }
}

/// The state of the levels while the element at place `t` is being
/// unlinked: every level is in order, and the levels below `l` no longer
/// hold `t`.
pub open spec fn unsplicing<K: Ord, E: SkipListEntry<Key = K>>(
    head: Seq<Option<usize>>,
    slots: Seq<Option<Box<E>>>,
    chains: Seq<Seq<usize>>,
    now: Seq<Seq<usize>>,
    pos: Seq<int>,
    t: usize,
    key: K,
    l: int,
    level: int,
) -> bool {
    &&& now.len() == chains.len()
    &&& pos.len() == chains.len()
    &&& head.len() == chains.len()
    &&& 0 <= level < chains.len()
    &&& forall|j: int| 0 <= j < chains.len() ==> #[trigger] level_ok(head, slots, now, j, t)
    &&& forall|j: int|
        l <= j <= level ==> #[trigger] stops_at(slots, chains[j], pos[j], key, false)
    &&& forall|j: int| l <= j < chains.len() ==> #[trigger] now[j] == chains[j]
    &&& forall|j: int| 0 <= j < l ==> !(#[trigger] now[j]).contains(t)
    &&& forall|j: int| 0 <= j < chains.len() ==> within(#[trigger] now[j], chains[j])
    &&& occupied(slots, t as int)
    &&& key_at(slots, t as int) == key
}

/// Where every element is kept but for its link at one level, a search
/// stops in a chain where it stopped before.
pub proof fn lemma_stops_kept<K: Ord, E: SkipListEntry<Key = K>>(
    h: Seq<Option<usize>>,
    s0: Seq<Option<Box<E>>>,
    s2: Seq<Option<Box<E>>>,
    c: Seq<usize>,
    l: int,
    j: int,
    p: int,
    key: K,
)
    requires
        kept(s0, s2, l),
        linked(h, s0, c, j),
        stops_at(s0, c, p, key, false),
    ensures
        stops_at(s2, c, p, key, false),
{
    assert forall|q: int| 0 <= q <= p implies passes(
        key_at(s2, (#[trigger] c[q]) as int),
        key,
        false,
    ) by {
        assert(occupied(s0, c[q] as int));
        assert(passes(key_at(s0, c[q] as int), key, false));
    }
    assert forall|q: int| p < q < c.len() implies !passes(
        key_at(s2, (#[trigger] c[q]) as int),
        key,
        false,
    ) by {
        assert(occupied(s0, c[q] as int));
        assert(!passes(key_at(s0, c[q] as int), key, false));
    }
}

/// Unlinking the element at level `l` carries the state of the levels from
/// `l` to `l + 1`.
#[verifier::rlimit(50)]
pub proof fn lemma_unsplice_step<K: Ord, E: SkipListEntry<Key = K>>(
    h0: Seq<Option<usize>>,
    s0: Seq<Option<Box<E>>>,
    h2: Seq<Option<usize>>,
    s2: Seq<Option<Box<E>>>,
    chains: Seq<Seq<usize>>,
    now: Seq<Seq<usize>>,
    pos: Seq<int>,
    t: usize,
    key: K,
    l: int,
    level: int,
)
    requires
        total_order::<K>(),
        0 <= l <= level,
        unsplicing(h0, s0, chains, now, pos, t, key, l, level),
        pos[l] + 1 < chains[l].len(),
        chains[l][pos[l] + 1] == t,
        unlink_effect(
            h0,
            s0,
            h2,
            s2,
            l,
            place_at(chains[l], pos[l]),
            link_after(chains[l], pos[l] + 1),
        ),
        s2[t as int] == s0[t as int],
    ensures
        unsplicing(
            h2,
            s2,
            chains,
            now.update(l, chains[l].remove(pos[l] + 1)),
            pos,
            t,
            key,
            l + 1,
            level,
        ),
{
    let c = chains[l];
    let p = pos[l];
    let pred = place_at(c, p);
    let link = link_after(c, p + 1);
    let d = c.remove(p + 1);
    let after = now.update(l, d);
    assert(level_ok(h0, s0, now, l, t));
    assert(stops_at(s0, chains[l], pos[l], key, false));
    assert(now[l] == c);
    lemma_chain_injective(s0, c);
    lemma_remove_contains(c, p + 1);
    lemma_unlink_kept(h0, s0, h2, s2, l, pred, link);
    assert forall|j: int| 0 <= j < chains.len() implies #[trigger] level_ok(h2, s2, after, j, t) by {
        assert(level_ok(h0, s0, now, j, t));
        if j == l {
            lemma_unlinked_at(h0, s0, h2, s2, now, after, l, p, t);
        } else {
            lemma_unlinked_off(h0, s0, h2, s2, now, after, l, j, pred, link, t, d);
        }
    }
    assert forall|j: int| l + 1 <= j <= level implies #[trigger] stops_at(
        s2,
        chains[j],
        pos[j],
        key,
        false,
    ) by {
        assert(stops_at(s0, chains[j], pos[j], key, false));
        assert(level_ok(h0, s0, now, j, t));
        assert(now[j] == chains[j]);
        lemma_stops_kept(h0, s0, s2, chains[j], l, j, pos[j], key);
    }
    assert forall|j: int| 0 <= j < l + 1 implies !(#[trigger] after[j]).contains(t) by {
        if j < l {
            assert(!now[j].contains(t));
        }
    }
    assert forall|j: int| 0 <= j < chains.len() implies within(#[trigger] after[j], chains[j]) by {
        assert(within(now[j], chains[j]));
    }
}

/// Where the element is not in level `l`, the state of the levels carries
/// over from `l` to `l + 1` as it is.
pub proof fn lemma_unsplice_skip<K: Ord, E: SkipListEntry<Key = K>>(
    h0: Seq<Option<usize>>,
    s0: Seq<Option<Box<E>>>,
    chains: Seq<Seq<usize>>,
    now: Seq<Seq<usize>>,
    pos: Seq<int>,
    t: usize,
    key: K,
    l: int,
    level: int,
)
    requires
        total_order::<K>(),
        0 <= l <= level,
        unsplicing(h0, s0, chains, now, pos, t, key, l, level),
        pos[l] + 1 < chains[l].len() ==> chains[l][pos[l] + 1] != t,
    ensures
        unsplicing(h0, s0, chains, now, pos, t, key, l + 1, level),
{
    assert(level_ok(h0, s0, now, l, t));
    assert(stops_at(s0, chains[l], pos[l], key, false));
    assert(now[l] == chains[l]);
    lemma_not_in_level(s0, chains[l], pos[l], key, t);
    assert forall|j: int| 0 <= j < l + 1 implies !(#[trigger] now[j]).contains(t) by {}
}

/// Unlinks the element at place `t` from the levels `0..=level`: wherever
/// the element that the search stopped at links to it, that link is set to
/// what the element itself links to.
#[verifier::rlimit(50)]
pub(crate) fn unlink_levels<K: Ord, E: SkipListEntry<Key = K>>(
    head: &mut SkipListNode,
    slots: &mut Vec<Option<Box<E>>>,
    update: &Vec<Option<usize>>,
    t: usize,
    level: usize,
    Ghost(chains): Ghost<Seq<Seq<usize>>>,
    Ghost(pos): Ghost<Seq<int>>,
    Ghost(key): Ghost<K>,
) -> (r: Ghost<Seq<Seq<usize>>>)
    requires
        total_order::<K>(),
        chains.len() < usize::MAX,
        update@.len() == chains.len(),
        unsplicing(old(head)@, old(slots)@, chains, chains, pos, t, key, 0, level as int),
        forall|j: int|
            0 <= j < chains.len() ==> #[trigger] update@[j] == place_at(chains[j], pos[j]),
        forall|j: int| 0 <= j < chains.len() ==> -1 <= #[trigger] pos[j] < chains[j].len(),
        pos[0] + 1 < chains[0].len(),
        chains[0][pos[0] + 1] == t,
    ensures
        unsplicing(final(head)@, final(slots)@, chains, r@, pos, t, key, level + 1, level as int),
        r@[0] == chains[0].remove(pos[0] + 1),
        final(slots)@.len() == old(slots)@.len(),
        final(slots)@[t as int] == old(slots)@[t as int],
        forall|i: int|
            0 <= i < old(slots)@.len() ==> ((#[trigger] final(slots)@[i]) is Some) == (old(slots)@[i] is Some),
        forall|i: int|
            occupied(old(slots)@, i) ==> #[trigger] key_at(final(slots)@, i) == key_at(
                old(slots)@,
                i,
            ),
{
    let ghost mut now: Seq<Seq<usize>> = chains;
    let mut l: usize = 0;
    while l <= level
        invariant
            total_order::<K>(),
            l <= level + 1,
            level < chains.len(),
            chains.len() < usize::MAX,
            update@.len() == chains.len(),
            unsplicing(head@, slots@, chains, now, pos, t, key, l as int, level as int),
            forall|j: int|
                0 <= j < chains.len() ==> #[trigger] update@[j] == place_at(chains[j], pos[j]),
            forall|j: int| 0 <= j < chains.len() ==> -1 <= #[trigger] pos[j] < chains[j].len(),
            pos[0] + 1 < chains[0].len(),
            chains[0][pos[0] + 1] == t,
            l > 0 ==> now[0] == chains[0].remove(pos[0] + 1),
            slots@.len() == old(slots)@.len(),
            slots@[t as int] == old(slots)@[t as int],
            forall|i: int|
                0 <= i < old(slots)@.len() ==> ((#[trigger] slots@[i]) is Some) == (old(slots)@[i]
                    is Some),
            forall|i: int|
                occupied(old(slots)@, i) ==> #[trigger] key_at(slots@, i) == key_at(
                    old(slots)@,
                    i,
                ),
        decreases level + 1 - l,
    {
        let ghost h0 = head@;
        let ghost s0 = slots@;
        let ghost c = chains[l as int];
        let ghost p = pos[l as int];
        let pred: Option<usize> = update[l];
        proof {
            assert(level_ok(h0, s0, now, l as int, t));
            assert(now[l as int] == c);
            assert(pred == place_at(c, p));
            assert(-1 <= pos[l as int] < chains[l as int].len());
            if p >= 0 {
                assert(occupied(s0, c[p] as int));
            }
        }
        let next: Option<usize> = match pred {
            None => head.link(l),
            Some(u) => {
                let b: &Box<E> = slots[u].as_ref().unwrap();
                b.skiplist_node().link(l)
            },
        };
        assert(next == link_after(c, p));
        let points_at_target: bool = match next {
            Some(n) => n == t,
            None => false,
        };
        if points_at_target {
            proof {
                assert(c[p + 1] == t);
                assert(occupied(s0, c[p + 1] as int));
                if p >= 0 {
                    lemma_chain_distinct(s0, c, p, p + 1);
                }
            }
            let target: &Box<E> = slots[t].as_ref().unwrap();
            let after: Option<usize> = target.skiplist_node().link(l);
            set_link_at(head, slots, pred, l, after);
            proof {
                assert(unlink_effect(h0, s0, head@, slots@, l as int, pred, after));
                lemma_unsplice_step(
                    h0,
                    s0,
                    head@,
                    slots@,
                    chains,
                    now,
                    pos,
                    t,
                    key,
                    l as int,
                    level as int,
                );
                lemma_unlink_kept(h0, s0, head@, slots@, l as int, pred, after);
                now = now.update(l as int, c.remove(p + 1));
            }
        } else {
            proof {
                lemma_unsplice_skip(h0, s0, chains, now, pos, t, key, l as int, level as int);
            }
        }
        l += 1;
    }
    Ghost(now)
}

/// A second store is a first with the element at place `t` taken out: every
/// other place is as it was.
pub open spec fn shrunk<E>(s0: Seq<Option<Box<E>>>, s1: Seq<Option<Box<E>>>, t: usize) -> bool {
    &&& occupied(s0, t as int)
    &&& s1.len() == s0.len()
    &&& s1[t as int] is None
    &&& forall|i: int| 0 <= i < s0.len() && i != t ==> (#[trigger] s1[i]) == s0[i]
}

/// A level stays in order where the store loses an element that the level's
/// chain does not hold.
pub proof fn lemma_taken<K: Ord, E: SkipListEntry<Key = K>>(
    head: Seq<Option<usize>>,
    s0: Seq<Option<Box<E>>>,
    s1: Seq<Option<Box<E>>>,
    chains: Seq<Seq<usize>>,
    j: int,
    t: usize,
)
    requires
        0 <= j < chains.len(),
        level_ok(head, s0, chains, j, t),
        !chains[j].contains(t),
        shrunk(s0, s1, t),
    ensures
        chain_ok(head, s1, chains, j),
{
    let c = chains[j];
    assert forall|q: int| 0 <= q < c.len() implies (#[trigger] c[q]) != t && s1[c[q] as int]
        == s0[c[q] as int] by {
        assert(c.contains(c[q]));
        assert(occupied(s0, c[q] as int));
    }
    assert forall|p: int| 0 <= p < c.len() implies {
        &&& occupied(s1, (#[trigger] c[p]) as int)
        &&& j < links_at(s1, c[p] as int).len()
        &&& links_at(s1, c[p] as int)[j] == link_after(c, p)
    } by {
        assert(occupied(s0, c[p] as int));
    }
    assert forall|p: int, q: int| 0 <= p < q < c.len() implies key_lt(
        key_at(s1, (#[trigger] c[p]) as int),
        key_at(s1, (#[trigger] c[q]) as int),
    ) by {
        assert(key_lt(key_at(s0, c[p] as int), key_at(s0, c[q] as int)));
    }
    if j > 0 {
        assert forall|x: usize| #[trigger] chains[j].contains(x) implies chains[j - 1].contains(
            x,
        ) by {}
    }
}

/// The keys along the lowest level after an element has been unlinked: the
/// keys before, with the key at its position taken out.
pub proof fn lemma_keys_removed<K: Ord, E: SkipListEntry<Key = K>>(
    s0: Seq<Option<Box<E>>>,
    s2: Seq<Option<Box<E>>>,
    c: Seq<usize>,
    p: int,
)
    requires
        0 <= p < c.len(),
        forall|q: int| 0 <= q < c.len() ==> occupied(s0, (#[trigger] c[q]) as int),
        forall|a: int, b: int| 0 <= a < b < c.len() ==> c[a] != c[b],
        forall|i: int| occupied(s0, i) && i != c[p] ==> #[trigger] key_at(s2, i) == key_at(s0, i),
    ensures
        Seq::new((c.len() - 1) as nat, |r: int| key_at(s2, c.remove(p)[r] as int)) == Seq::new(
            c.len(),
            |r: int| key_at(s0, c[r] as int),
        ).remove(p),
{
    let d = c.remove(p);
    let a = Seq::new((c.len() - 1) as nat, |r: int| key_at(s2, d[r] as int));
    let b = Seq::new(c.len(), |r: int| key_at(s0, c[r] as int)).remove(p);
    assert forall|r: int| 0 <= r < a.len() implies a[r] == b[r] by {
        let r0 = if r < p { r } else { r + 1 };
        assert(d[r] == c[r0]);
        assert(occupied(s0, c[r0] as int));
        assert(c[r0] != c[p]);
    }
    assert(a =~= b);
}

/// The places of the lowest level after an element has been taken out are
/// the places of the store that hold an element.
pub proof fn lemma_places_removed<E>(
    s0: Seq<Option<Box<E>>>,
    s2: Seq<Option<Box<E>>>,
    c: Seq<usize>,
    p: int,
)
    requires
        0 <= p < c.len(),
        forall|a: int, b: int| 0 <= a < b < c.len() ==> c[a] != c[b],
        forall|x: usize| x < s0.len() ==> ((#[trigger] s0[x as int]) is Some <==> c.contains(x)),
        s2.len() == s0.len(),
        s2[c[p] as int] is None,
        forall|i: int|
            0 <= i < s0.len() && i != c[p] ==> ((#[trigger] s2[i]) is Some) == (s0[i] is Some),
    ensures
        forall|x: usize|
            x < s2.len() ==> ((#[trigger] s2[x as int]) is Some <==> c.remove(p).contains(x)),
{
    lemma_remove_contains(c, p);
    assert forall|x: usize| x < s2.len() implies ((#[trigger] s2[x as int]) is Some <==> c.remove(
        p,
    ).contains(x)) by {
        assert(c.remove(p).contains(x) <==> (c.contains(x) && x != c[p]));
        if x != c[p] {
            assert((s2[x as int] is Some) == (s0[x as int] is Some));
            assert(s0[x as int] is Some <==> c.contains(x));
        }
    }
}

} // verus!
