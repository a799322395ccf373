//! The levels of an ordered list as chains of places: what it means for a
//! level to be in order, and what keeps it so.

use vstd::prelude::*;
use crate::entry::SkipListEntry;
use crate::links::SkipListNode;
use crate::order::{key_lt, lemma_lt_transitive, lemma_trichotomy, total_order};

verus! {

/// Whether place `i` of the store holds an element.
pub open spec fn occupied<E>(slots: Seq<Option<Box<E>>>, i: int) -> bool {
    0 <= i < slots.len() && slots[i] is Some
}

/// The element at place `i` of the store.
pub open spec fn elem<E>(slots: Seq<Option<Box<E>>>, i: int) -> E {
    *slots[i]->Some_0
}

/// The key of the element at place `i`.
pub open spec fn key_at<K: Ord, E: SkipListEntry<Key = K>>(
    slots: Seq<Option<Box<E>>>,
    i: int,
) -> K {
    elem(slots, i).key_view()
}

/// The links of the element at place `i`.
pub open spec fn links_at<K: Ord, E: SkipListEntry<Key = K>>(
    slots: Seq<Option<Box<E>>>,
    i: int,
) -> Seq<Option<usize>> {
    elem(slots, i).node_view()@
}

/// The link that follows position `p` of a chain: the place at `p + 1`, or
/// none at the end. Position `-1` stands for the head.
pub open spec fn link_after(chain: Seq<usize>, p: int) -> Option<usize> {
    if 0 <= p + 1 < chain.len() {
        Some(chain[p + 1])
    } else {
        None
    }
}

/// The place at position `p` of a chain, or none for the head at `-1`.
pub open spec fn place_at(chain: Seq<usize>, p: int) -> Option<usize> {
    if 0 <= p < chain.len() {
        Some(chain[p])
    } else {
        None
    }
}

/// Whether every place of one chain is a place of another.
pub open spec fn within(a: Seq<usize>, b: Seq<usize>) -> bool {
    forall|x: usize| #[trigger] a.contains(x) ==> b.contains(x)
}

/// The head and the elements of a chain link each to the next at level `l`.
pub open spec fn linked<K: Ord, E: SkipListEntry<Key = K>>(
    head: Seq<Option<usize>>,
    slots: Seq<Option<Box<E>>>,
    c: Seq<usize>,
    l: int,
) -> bool {
    &&& 0 <= l < head.len()
    &&& head[l] == link_after(c, -1)
    &&& forall|p: int|
        0 <= p < c.len() ==> {
            &&& occupied(slots, (#[trigger] c[p]) as int)
            &&& l < links_at(slots, c[p] as int).len()
            &&& links_at(slots, c[p] as int)[l] == link_after(c, p)
        }
}

/// The keys along a chain increase.
pub open spec fn ascending<K: Ord, E: SkipListEntry<Key = K>>(
    slots: Seq<Option<Box<E>>>,
    c: Seq<usize>,
) -> bool {
    forall|p: int, q: int|
        0 <= p < q < c.len() ==> key_lt(
            key_at(slots, (#[trigger] c[p]) as int),
            key_at(slots, (#[trigger] c[q]) as int),
        )
}

/// Level `l` is in order: the head and the elements of the chain link each
/// to the next, the keys along the chain increase, and every element of the
/// chain is also in the chain below.
pub open spec fn chain_ok<K: Ord, E: SkipListEntry<Key = K>>(
    head: Seq<Option<usize>>,
    slots: Seq<Option<Box<E>>>,
    chains: Seq<Seq<usize>>,
    l: int,
) -> bool {
    &&& linked(head, slots, chains[l], l)
    &&& ascending(slots, chains[l])
    &&& l > 0 ==> within(chains[l], chains[l - 1])
}

/// Whether a key lies before the key sought: smaller, or equal where the
/// search passes over equal keys.
pub open spec fn passes<K: Ord>(a: K, key: K, through_equal: bool) -> bool {
    key_lt(a, key) || (through_equal && a == key)
}

/// Position `p` is where a search for `key` stops in a chain: every element
/// up to `p` lies before the key, none after `p` does.
pub open spec fn stops_at<K: Ord, E: SkipListEntry<Key = K>>(
    slots: Seq<Option<Box<E>>>,
    chain: Seq<usize>,
    p: int,
    key: K,
    through_equal: bool,
) -> bool {
    &&& -1 <= p < chain.len()
    &&& forall|q: int|
        0 <= q <= p ==> passes(key_at(slots, (#[trigger] chain[q]) as int), key, through_equal)
    &&& forall|q: int|
        p < q < chain.len() ==> !passes(
            key_at(slots, (#[trigger] chain[q]) as int),
            key,
            through_equal,
        )
}

/// In a chain that is in order, an element that lies before the key has
/// only elements before it that lie before the key too.
pub proof fn lemma_passes_before<K: Ord, E: SkipListEntry<Key = K>>(
    head: Seq<Option<usize>>,
    slots: Seq<Option<Box<E>>>,
    chains: Seq<Seq<usize>>,
    l: int,
    p: int,
    key: K,
    through_equal: bool,
)
    requires
        total_order::<K>(),
        chain_ok(head, slots, chains, l),
        0 <= p < chains[l].len(),
        passes(key_at(slots, chains[l][p] as int), key, through_equal),
    ensures
        forall|q: int|
            0 <= q <= p ==> passes(key_at(slots, (#[trigger] chains[l][q]) as int), key, through_equal),
{
    let c = chains[l];
    assert forall|q: int| 0 <= q <= p implies passes(
        key_at(slots, (#[trigger] c[q]) as int),
        key,
        through_equal,
    ) by {
        if q < p {
            let a = key_at(slots, c[q] as int);
            let b = key_at(slots, c[p] as int);
            assert(key_lt(a, b));
            if key_lt(b, key) {
                lemma_lt_transitive(a, b, key);
            }
        }
    }
}

/// In a chain that is in order, an element that does not lie before the key
/// has only elements after it that do not lie before the key either.
pub proof fn lemma_stops_after<K: Ord, E: SkipListEntry<Key = K>>(
    head: Seq<Option<usize>>,
    slots: Seq<Option<Box<E>>>,
    chains: Seq<Seq<usize>>,
    l: int,
    p: int,
    key: K,
    through_equal: bool,
)
    requires
        total_order::<K>(),
        chain_ok(head, slots, chains, l),
        0 <= p < chains[l].len(),
        !passes(key_at(slots, chains[l][p] as int), key, through_equal),
    ensures
        forall|q: int|
            p <= q < chains[l].len() ==> !passes(
                key_at(slots, (#[trigger] chains[l][q]) as int),
                key,
                through_equal,
            ),
{
    let c = chains[l];
    assert forall|q: int| p <= q < c.len() implies !passes(
        key_at(slots, (#[trigger] c[q]) as int),
        key,
        through_equal,
    ) by {
        if p < q {
            let a = key_at(slots, c[p] as int);
            let b = key_at(slots, c[q] as int);
            assert(key_lt(a, b));
            lemma_trichotomy(a, key);
            lemma_trichotomy(b, key);
            lemma_trichotomy(a, b);
            if key_lt(b, key) {
                lemma_lt_transitive(a, b, key);
            }
        }
    }
}

/// Stores a link at level `l` of the head, or of the element at a place.
/// Nothing else changes: the other links, the keys and the other elements
/// stay as they are.
pub(crate) fn set_link_at<K: Ord, E: SkipListEntry<Key = K>>(
    head: &mut SkipListNode,
    slots: &mut Vec<Option<Box<E>>>,
    at: Option<usize>,
    l: usize,
    link: Option<usize>,
)
    requires
        at is None ==> l < old(head)@.len(),
        at matches Some(u) ==> occupied(old(slots)@, u as int) && l < links_at(
            old(slots)@,
            u as int,
        ).len(),
    ensures
        final(slots)@.len() == old(slots)@.len(),
        at is None ==> final(head)@ == old(head)@.update(l as int, link) && final(slots)@ == old(slots)@,
        at matches Some(u) ==> {
            &&& final(head)@ == old(head)@
            &&& occupied(final(slots)@, u as int)
            &&& key_at(final(slots)@, u as int) == key_at(old(slots)@, u as int)
            &&& links_at(final(slots)@, u as int) == links_at(old(slots)@, u as int).update(
                l as int,
                link,
            )
            &&& forall|i: int|
                0 <= i < old(slots)@.len() && i != u ==> final(slots)@[i] == old(slots)@[i]
        },
{
    match at {
        None => {
            head.set_link(l, link);
        },
        Some(u) => {
            let mut taken: Option<Box<E>> = None;
            core::mem::swap(&mut slots[u], &mut taken);
            let mut element: Box<E> = taken.unwrap();
            let node = element.skiplist_node_mut();
            node.set_link(l, link);
            slots[u] = Some(element);
        },
    }
}

/// Position `p` of a chain is where the key `k`, which the chain lacks,
/// belongs: the keys up to `p` are smaller, the keys after it greater.
pub open spec fn brackets<K: Ord, E: SkipListEntry<Key = K>>(
    slots: Seq<Option<Box<E>>>,
    chain: Seq<usize>,
    p: int,
    k: K,
) -> bool {
    &&& -1 <= p < chain.len()
    &&& forall|q: int| 0 <= q <= p ==> key_lt(key_at(slots, (#[trigger] chain[q]) as int), k)
    &&& forall|q: int|
        p < q < chain.len() ==> key_lt(k, key_at(slots, (#[trigger] chain[q]) as int))
}

/// The elements of a chain are, in a second store, what they were in a
/// first: in place, with the same key, as many links, and the same link at
/// level `l`, save for the element at position `except`.
pub open spec fn same_at<K: Ord, E: SkipListEntry<Key = K>>(
    slots: Seq<Option<Box<E>>>,
    slots2: Seq<Option<Box<E>>>,
    c: Seq<usize>,
    l: int,
    except: int,
) -> bool {
    forall|q: int|
        0 <= q < c.len() ==> {
            let i = (#[trigger] c[q]) as int;
            &&& occupied(slots2, i)
            &&& key_at(slots2, i) == key_at(slots, i)
            &&& links_at(slots2, i).len() == links_at(slots, i).len()
            &&& q != except ==> links_at(slots2, i)[l] == links_at(slots, i)[l]
        }
}

/// A level stays in order where its chain, its head link, and the keys and
/// links at this level of its elements stay as they are, and the chain below
/// loses nothing.
pub proof fn lemma_chain_frame<K: Ord, E: SkipListEntry<Key = K>>(
    head: Seq<Option<usize>>,
    slots: Seq<Option<Box<E>>>,
    chains: Seq<Seq<usize>>,
    head2: Seq<Option<usize>>,
    slots2: Seq<Option<Box<E>>>,
    chains2: Seq<Seq<usize>>,
    j: int,
)
    requires
        chain_ok(head, slots, chains, j),
        head2.len() == head.len(),
        head2[j] == head[j],
        chains2[j] == chains[j],
        j > 0 ==> within(chains[j - 1], chains2[j - 1]),
        same_at(slots, slots2, chains[j], j, -1),
    ensures
        chain_ok(head2, slots2, chains2, j),
{
    let c = chains[j];
    assert forall|p: int| 0 <= p < c.len() implies {
        &&& occupied(slots2, (#[trigger] c[p]) as int)
        &&& j < links_at(slots2, c[p] as int).len()
        &&& links_at(slots2, c[p] as int)[j] == link_after(c, p)
    } by {
        assert(occupied(slots, c[p] as int));
    }
    assert forall|p: int, q: int| 0 <= p < q < c.len() implies key_lt(
        key_at(slots2, (#[trigger] c[p]) as int),
        key_at(slots2, (#[trigger] c[q]) as int),
    ) by {
        assert(key_lt(key_at(slots, c[p] as int), key_at(slots, c[q] as int)));
    }
}

/// What a chain holds after a place has been put in.
pub proof fn lemma_insert_contains(c: Seq<usize>, p: int, idx: usize)
    requires
        0 <= p <= c.len(),
    ensures
        forall|x: usize| #[trigger] c.insert(p, idx).contains(x) <==> (c.contains(x) || x == idx),
{
    let d = c.insert(p, idx);
    assert forall|x: usize| #[trigger] d.contains(x) <==> (c.contains(x) || x == idx) by {
        if c.contains(x) {
            let q = choose|q: int| 0 <= q < c.len() && c[q] == x;
            if q < p {
                assert(d[q] == x);
            } else {
                assert(d[q + 1] == x);
            }
        }
        if x == idx {
            assert(d[p] == x);
        }
        if d.contains(x) {
            let q = choose|q: int| 0 <= q < d.len() && d[q] == x;
            if q < p {
                assert(c[q] == x);
            } else if q > p {
                assert(c[q - 1] == x);
            }
        }
    }
}

/// In a chain whose keys increase, no place occurs twice.
pub proof fn lemma_chain_distinct<K: Ord, E: SkipListEntry<Key = K>>(
    slots: Seq<Option<Box<E>>>,
    c: Seq<usize>,
    p: int,
    q: int,
)
    requires
        total_order::<K>(),
        ascending(slots, c),
        0 <= p < c.len(),
        0 <= q < c.len(),
        p != q,
    ensures
        c[p] != c[q],
{
    let a = key_at(slots, c[p] as int);
    let b = key_at(slots, c[q] as int);
    lemma_trichotomy(a, b);
    if p < q {
        assert(key_lt(a, b));
    } else {
        assert(key_lt(b, a));
    }
}

/// Every element is, in a second store, what it was in a first, but for its
/// link at level `l`: in place, with the same key and as many links, and
/// with the same link at every other level.
pub open spec fn kept<K: Ord, E: SkipListEntry<Key = K>>(
    s0: Seq<Option<Box<E>>>,
    s2: Seq<Option<Box<E>>>,
    l: int,
) -> bool {
    &&& s2.len() == s0.len()
    &&& forall|i: int| 0 <= i < s0.len() ==> ((#[trigger] s2[i]) is Some) == (s0[i] is Some)
    &&& forall|i: int|
        occupied(s0, i) ==> #[trigger] key_at(s2, i) == key_at(s0, i) && links_at(s2, i).len()
            == links_at(s0, i).len()
    &&& forall|i: int, j: int|
        occupied(s0, i) && 0 <= j < links_at(s0, i).len() && j != l ==> #[trigger] links_at(
            s2,
            i,
        )[j] == links_at(s0, i)[j]
}

/// Where every element is kept but for its link at level `l`, the elements
/// of a chain are the same at any other level.
pub proof fn lemma_kept_same_at<K: Ord, E: SkipListEntry<Key = K>>(
    h: Seq<Option<usize>>,
    s0: Seq<Option<Box<E>>>,
    s2: Seq<Option<Box<E>>>,
    c: Seq<usize>,
    l: int,
    j: int,
)
    requires
        kept(s0, s2, l),
        linked(h, s0, c, j),
        j != l,
    ensures
        same_at(s0, s2, c, j, -1),
{
    assert forall|q: int| 0 <= q < c.len() implies {
        let i = (#[trigger] c[q]) as int;
        &&& occupied(s2, i)
        &&& key_at(s2, i) == key_at(s0, i)
        &&& links_at(s2, i).len() == links_at(s0, i).len()
        &&& q != -1 ==> links_at(s2, i)[j] == links_at(s0, i)[j]
    } by {
        let i = c[q] as int;
        assert(occupied(s0, i));
        assert(s2[i] is Some);
        assert(key_at(s2, i) == key_at(s0, i));
        assert(links_at(s2, i)[j] == links_at(s0, i)[j]);
    }
}

/// A chain holds a place that has been put into it.
pub proof fn lemma_insert_position(c: Seq<usize>, p: int, idx: usize)
    requires
        0 <= p <= c.len(),
    ensures
        c.insert(p, idx).contains(idx),
        within(c, c.insert(p, idx)),
{
    lemma_insert_contains(c, p, idx);
    assert(c.insert(p, idx)[p] == idx);
}

/// What a chain holds after a position has been taken out, where no place
/// occurs twice in it.
pub proof fn lemma_remove_contains(c: Seq<usize>, p: int)
    requires
        0 <= p < c.len(),
        forall|a: int, b: int| 0 <= a < b < c.len() ==> c[a] != c[b],
    ensures
        forall|x: usize| #[trigger] c.remove(p).contains(x) <==> (c.contains(x) && x != c[p]),
{
    let d = c.remove(p);
    assert forall|x: usize| #[trigger] d.contains(x) <==> (c.contains(x) && x != c[p]) by {
        if c.contains(x) && x != c[p] {
            let q = choose|q: int| 0 <= q < c.len() && c[q] == x;
            if q < p {
                assert(d[q] == x);
            } else {
                assert(d[q - 1] == x);
            }
        }
        if d.contains(x) {
            let q = choose|q: int| 0 <= q < d.len() && d[q] == x;
            if q < p {
                assert(c[q] == x);
            } else {
                assert(c[q + 1] == x);
            }
        }
    }
}

/// In a chain whose keys increase, no place occurs twice.
pub proof fn lemma_chain_injective<K: Ord, E: SkipListEntry<Key = K>>(
    slots: Seq<Option<Box<E>>>,
    c: Seq<usize>,
)
    requires
        total_order::<K>(),
        ascending(slots, c),
    ensures
        forall|a: int, b: int| 0 <= a < b < c.len() ==> c[a] != c[b],
{
    assert forall|a: int, b: int| 0 <= a < b < c.len() implies c[a] != c[b] by {
        lemma_chain_distinct(slots, c, a, b);
    }
}

} // verus!
