//! An ordered list with several levels of forward links: a sorted map from
//! keys to boxed elements that carry their own links.

use vstd::prelude::*;
use core::marker::PhantomData;
use crate::clock::time_seed;
use crate::entry::SkipListEntry;
use crate::links::{SkipListNode, LINK_LIMIT};
use crate::order::{Rank, compare, key_lt, lemma_trichotomy, total_order};
use crate::levels::{
    brackets, chain_ok, elem, key_at, lemma_chain_frame, lemma_chain_injective,
    lemma_passes_before, lemma_stops_after, link_after, linked, links_at, occupied, passes,
    place_at, stops_at, within,
};
use crate::splice::{
    free_ok, grown, lemma_keys_inserted, lemma_placed, lemma_places_inserted, place_entry,
    splice_levels, splicing,
};
use crate::unlink::{
    lemma_keys_removed, lemma_places_removed, lemma_taken, level_ok, shrunk, unlink_levels,
    unsplicing,
};

verus! {

/// Default for the highest level of a list.
pub const MAX_LEVEL: usize = 16;

/// Ordered list of boxed elements, sorted by key. The elements carry the
/// list's links; the list keeps the elements in a store and links them by
/// their places in it.
#[verifier::reject_recursive_types(K)]
#[verifier::reject_recursive_types(E)]
pub struct SkipList<K, E> where K: Ord, E: SkipListEntry<Key = K> {
    /// Links of the head, one per level up to the highest allowed.
    head: SkipListNode,
    /// The store: each element in a place of its own.
    slots: Vec<Option<Box<E>>>,
    /// The places of the store that are empty.
    free: Vec<usize>,
    /// Number of elements.
    len: usize,
    /// Highest level in use.
    level: usize,
    /// Highest level allowed.
    max_level: usize,
    /// State of the generator that draws the levels.
    rng_state: u64,
    /// For each level, the places of its elements in the order of the links.
    chains: Ghost<Seq<Seq<usize>>>,
    _marker: PhantomData<(K, E)>,
}

impl<K, E> SkipList<K, E> where K: Ord, E: SkipListEntry<Key = K> {
    /// The keys of the list, in the order of the lowest level.
    pub closed spec fn keys(&self) -> Seq<K> {
        Seq::new(self.chains@[0].len(), |p: int| key_at(self.slots@, self.chains@[0][p] as int))
    }

    /// The element with the given key, where there is one.
    pub closed spec fn entry_of(&self, key: K) -> E {
        let p = choose|p: int|
            0 <= p < self.chains@[0].len() && key_at(self.slots@, self.chains@[0][p] as int)
                == key;
        elem(self.slots@, self.chains@[0][p] as int)
    }

    /// Whether the list holds an element with the given key.
    pub open spec fn contains_key(&self, key: K) -> bool {
        self.keys().contains(key)
    }

    /// The highest level allowed.
    pub closed spec fn level_cap(&self) -> nat {
        self.max_level as nat
    }

    /// The invariant of the list: every level up to the highest allowed is
    /// in order; levels above the highest in use are empty; the lowest level
    /// holds exactly the elements of the store; the empty places are exactly
    /// the free ones.
    pub closed spec fn wf(&self) -> bool {
        &&& self.max_level < LINK_LIMIT
        &&& self.level <= self.max_level
        &&& self.head@.len() == self.max_level + 1
        &&& self.chains@.len() == self.max_level + 1
        &&& forall|l: int|
            0 <= l <= self.max_level ==> #[trigger] chain_ok(
                self.head@,
                self.slots@,
                self.chains@,
                l,
            )
        &&& forall|l: int| self.level < l <= self.max_level ==> (#[trigger] self.chains@[l]).len() == 0
        &&& self.len == self.chains@[0].len()
        &&& forall|x: usize|
            x < self.slots@.len() ==> ((#[trigger] self.slots@[x as int]) is Some
                <==> self.chains@[0].contains(x))
        &&& self.len + self.free@.len() == self.slots@.len()
        &&& forall|j: int|
            0 <= j < self.free@.len() ==> (#[trigger] self.free@[j]) < self.slots@.len()
                && self.slots@[self.free@[j] as int] is None
        &&& self.free@.no_duplicates()
    }

    /// The list is in order and its keys form a total order.
    spec fn ordered(&self) -> bool {
        total_order::<K>() && self.wf()
    }

    /// An empty list with the highest level allowed set to `max_level`, and
    /// with the given seed for drawing levels; a seed of zero is replaced
    /// by one.
    pub fn with_seed(max_level: usize, seed: u64) -> (list: Self)
        requires
            max_level < LINK_LIMIT,
        ensures
            list.wf(),
            list.keys() == Seq::<K>::empty(),
            list.level_cap() == max_level,
    {
        let list = SkipList {
            head: SkipListNode::with_level(max_level),
            slots: Vec::new(),
            free: Vec::new(),
            len: 0,
            level: 0,
            max_level,
            rng_state: if seed == 0 {
                1
            } else {
                seed
            },
            chains: Ghost(Seq::new((max_level + 1) as nat, |l: int| Seq::<usize>::empty())),
            _marker: PhantomData,
        };
        assert(list.keys() =~= Seq::<K>::empty());
        list
    }

    /// Number of elements.
    pub fn len(&self) -> (n: usize)
        requires
            self.wf(),
            total_order::<K>(),
        ensures
            n == self.keys().len(),
    {
        self.len
    }

    /// Whether the list holds no element.
    pub fn is_empty(&self) -> (empty: bool)
        requires
            self.wf(),
            total_order::<K>(),
        ensures
            empty == (self.keys().len() == 0),
    {
        self.len == 0
    }

    /// The element at a place of the store that is occupied.
    fn slot(&self, i: usize) -> (e: &E)
        requires
            occupied(self.slots@, i as int),
        ensures
            *e == elem(self.slots@, i as int),
    {
        let b: &Box<E> = self.slots[i].as_ref().unwrap();
        &**b
    }

    /// The link at level `l` of the head, or of the element at a place.
    fn next_of(&self, current: Option<usize>, l: usize) -> (next: Option<usize>)
        requires
            l < self.head@.len(),
            current matches Some(i) ==> occupied(self.slots@, i as int) && l < links_at(
                self.slots@,
                i as int,
            ).len(),
        ensures
            next == match current {
                None => self.head@[l as int],
                Some(i) => links_at(self.slots@, i as int)[l as int],
            },
    {
        match current {
            None => self.head.link(l),
            Some(i) => self.slot(i).skiplist_node().link(l),
        }
    }

    /// The element with the smallest key, or `None` in an empty list.
    pub fn first(&self) -> (e: Option<&E>)
        requires
            self.wf(),
            total_order::<K>(),
        ensures
            e is None <==> self.keys().len() == 0,
            e matches Some(x) ==> x.key_view() == self.keys()[0] && *x == self.entry_of(
                self.keys()[0],
            ),
    {
        proof {
            assert(chain_ok(self.head@, self.slots@, self.chains@, 0));
        }
        match self.head.link(0) {
            Some(i) => {
                proof {
                    self.lemma_entry_of(0);
                }
                Some(self.slot(i))
            },
            None => None,
        }
    }

    /// The element at a position of the lowest level is the element that
    /// its key leads to.
    proof fn lemma_entry_of(&self, p: int)
        requires
            self.ordered(),
            0 <= p < self.chains@[0].len(),
        ensures
            occupied(self.slots@, self.chains@[0][p] as int),
            self.keys()[p] == key_at(self.slots@, self.chains@[0][p] as int),
            self.contains_key(self.keys()[p]),
            self.entry_of(self.keys()[p]) == elem(self.slots@, self.chains@[0][p] as int),
    {
        let c = self.chains@[0];
        assert(chain_ok(self.head@, self.slots@, self.chains@, 0));
        let k = key_at(self.slots@, c[p] as int);
        let q = choose|q: int| 0 <= q < c.len() && key_at(self.slots@, c[q] as int) == k;
        if q < p {
            lemma_trichotomy(key_at(self.slots@, c[q] as int), key_at(self.slots@, c[p] as int));
        } else if q > p {
            lemma_trichotomy(key_at(self.slots@, c[p] as int), key_at(self.slots@, c[q] as int));
        }
        assert(self.keys()[p] == k);
    }
}

impl<K, E> SkipList<K, E> where K: Ord, E: SkipListEntry<Key = K> {
    /// Moves forward along level `l` from a place, while the next element
    /// lies before the key. Returns the place where it stops.
    fn walk(
        &self,
        from: Option<usize>,
        l: usize,
        key: &K,
        through_equal: bool,
        Ghost(start): Ghost<int>,
    ) -> (r: (Option<usize>, Ghost<int>))
        requires
            self.ordered(),
            l <= self.max_level,
            -1 <= start < self.chains@[l as int].len(),
            from == place_at(self.chains@[l as int], start),
            from matches Some(i) ==> passes(key_at(self.slots@, i as int), *key, through_equal),
        ensures
            stops_at(self.slots@, self.chains@[l as int], r.1@, *key, through_equal),
            r.0 == place_at(self.chains@[l as int], r.1@),
    {
        let ghost c = self.chains@[l as int];
        let ghost mut p: int = start;
        let mut current: Option<usize> = from;
        proof {
            assert(chain_ok(self.head@, self.slots@, self.chains@, l as int));
        }
        loop
            invariant_except_break
                -1 <= p < c.len(),
                current == place_at(c, p),
                current matches Some(i) ==> passes(key_at(self.slots@, i as int), *key, through_equal),
            invariant
                total_order::<K>(),
                l < self.head@.len(),
                c == self.chains@[l as int],
                chain_ok(self.head@, self.slots@, self.chains@, l as int),
            ensures
                -1 <= p < c.len(),
                current == place_at(c, p),
                current matches Some(i) ==> passes(key_at(self.slots@, i as int), *key, through_equal),
                p + 1 < c.len() ==> !passes(
                    key_at(self.slots@, c[p + 1] as int),
                    *key,
                    through_equal,
                ),
            decreases c.len() - p,
        {
            let next = self.next_of(current, l);
            assert(next == link_after(c, p));
            match next {
                Some(n) => {
                    let rank = compare(self.slot(n).key(), key);
                    proof {
                        lemma_trichotomy(key_at(self.slots@, n as int), *key);
                    }
                    let forward = match rank {
                        Rank::Less => true,
                        Rank::Equal => through_equal,
                        Rank::Greater => false,
                    };
                    if forward {
                        current = Some(n);
                        proof {
                            p = p + 1;
                        }
                    } else {
                        break ;
                    }
                },
                None => {
                    break ;
                },
            }
        }
        proof {
            if p >= 0 {
                lemma_passes_before(
                    self.head@,
                    self.slots@,
                    self.chains@,
                    l as int,
                    p,
                    *key,
                    through_equal,
                );
            }
            if p + 1 < c.len() {
                lemma_stops_after(
                    self.head@,
                    self.slots@,
                    self.chains@,
                    l as int,
                    p + 1,
                    *key,
                    through_equal,
                );
            }
        }
        (current, Ghost(p))
    }

    /// Where a place of level `l + 1` stands in level `l`.
    proof fn lemma_step_down(&self, l: int, p: int) -> (q: int)
        requires
            self.ordered(),
            0 <= l < self.max_level,
            0 <= p < self.chains@[l + 1].len(),
        ensures
            0 <= q < self.chains@[l].len(),
            self.chains@[l][q] == self.chains@[l + 1][p],
    {
        assert(chain_ok(self.head@, self.slots@, self.chains@, l + 1));
        assert(self.chains@[l + 1].contains(self.chains@[l + 1][p]));
        assert(self.chains@[l].contains(self.chains@[l + 1][p]));
        choose|q: int| 0 <= q < self.chains@[l].len() && self.chains@[l][q] == self.chains@[l + 1][p]
    }

    /// Walks down the levels from the highest in use. At each level it moves
    /// forward while the next element lies before the key, then notes where
    /// it stands and steps down. Returns the place where it stands at the
    /// end, and, where `record` is set, the places where it stood at every
    /// level.
    #[verifier::rlimit(50)]
    fn descend(&self, key: &K, through_equal: bool, record: bool) -> (r: (
        Vec<Option<usize>>,
        Option<usize>,
        Ghost<Seq<int>>,
    ))
        requires
            self.ordered(),
        ensures
            r.2@.len() == self.max_level + 1,
            forall|l: int|
                0 <= l <= self.level ==> #[trigger] stops_at(
                    self.slots@,
                    self.chains@[l],
                    r.2@[l],
                    *key,
                    through_equal,
                ),
            forall|l: int| self.level < l <= self.max_level ==> r.2@[l] == -1,
            r.1 == place_at(self.chains@[0], r.2@[0]),
            record ==> r.0@.len() == self.max_level + 1,
            record ==> forall|l: int|
                0 <= l <= self.max_level ==> #[trigger] r.0@[l] == place_at(
                    self.chains@[l],
                    r.2@[l],
                ),
    {
        let mut update: Vec<Option<usize>> = if record {
            vec![None; self.max_level + 1]
        } else {
            Vec::new()
        };
        let mut current: Option<usize> = None;
        let ghost mut p: int = -1;
        let ghost mut pos: Seq<int> = Seq::new((self.max_level + 1) as nat, |l: int| -1int);
        let mut l: usize = self.level + 1;
        let ghost chains = self.chains@;
        let ghost slots = self.slots@;
        let level = self.level;
        let max_level = self.max_level;
        while l > 0
            invariant
                self.ordered(),
                chains == self.chains@,
                slots == self.slots@,
                level == self.level,
                max_level == self.max_level,
                level <= max_level,
                l <= level + 1,
                pos.len() == max_level + 1,
                record ==> update@.len() == max_level + 1,
                l <= level ==> -1 <= p < chains[l as int].len() && current == place_at(
                    chains[l as int],
                    p,
                ) && p == pos[l as int],
                l > level ==> current is None,
                current matches Some(i) ==> passes(key_at(slots, i as int), *key, through_equal),
                forall|j: int|
                    l <= j <= level ==> #[trigger] stops_at(
                        slots,
                        chains[j],
                        pos[j],
                        *key,
                        through_equal,
                    ),
                forall|j: int| level < j <= max_level ==> pos[j] == -1,
                record ==> forall|j: int|
                    0 <= j <= max_level ==> #[trigger] update@[j] == if l <= j && j <= level {
                        place_at(chains[j], pos[j])
                    } else {
                        None
                    },
            decreases l,
        {
            l -= 1;
            proof {
                if current is Some {
                    p = self.lemma_step_down(l as int, p);
                } else {
                    p = -1;
                }
            }
            let (stop, Ghost(q)) = self.walk(current, l, key, through_equal, Ghost(p));
            current = stop;
            proof {
                p = q;
                pos = pos.update(l as int, p);
            }
            if record {
                update[l] = current;
            }
        }
        proof {
            assert forall|j: int| 0 <= j <= max_level implies #[trigger] pos[j] == -1 || j
                <= level by {}
        }
        (update, current, Ghost(pos))
    }

    /// Looks an element up by its key.
    pub fn get(&self, key: &K) -> (e: Option<&E>)
        requires
            self.wf(),
            total_order::<K>(),
        ensures
            e is Some <==> self.contains_key(*key),
            e matches Some(x) ==> x.key_view() == *key && *x == self.entry_of(*key),
    {
        let (_, current, Ghost(pos)) = self.descend(key, false, false);
        let ghost c = self.chains@[0];
        let ghost p = pos[0];
        proof {
            assert(chain_ok(self.head@, self.slots@, self.chains@, 0));
            assert(stops_at(self.slots@, self.chains@[0], pos[0], *key, false));
        }
        match self.next_of(current, 0) {
            Some(n) => {
                let candidate = self.slot(n);
                match compare(candidate.key(), key) {
                    Rank::Equal => {
                        proof {
                            self.lemma_entry_of(p + 1);
                        }
                        Some(candidate)
                    },
                    _ => {
                        proof {
                            self.lemma_absent(*key, p);
                        }
                        None
                    },
                }
            },
            None => {
                proof {
                    self.lemma_absent(*key, p);
                }
                None
            },
        }
    }

    /// A key is absent where the search for it stops at a position whose
    /// successor, if any, has another key.
    proof fn lemma_absent(&self, key: K, p: int)
        requires
            self.ordered(),
            stops_at(self.slots@, self.chains@[0], p, key, false),
            p + 1 < self.chains@[0].len() ==> key_at(self.slots@, self.chains@[0][p + 1] as int)
                != key,
        ensures
            !self.contains_key(key),
    {
        let c = self.chains@[0];
        assert(chain_ok(self.head@, self.slots@, self.chains@, 0));
        if self.keys().contains(key) {
            let q = choose|q: int| 0 <= q < self.keys().len() && self.keys()[q] == key;
            assert(key_at(self.slots@, c[q] as int) == key);
            lemma_trichotomy(key, key);
            if q <= p {
                assert(passes(key_at(self.slots@, c[q] as int), key, false));
            } else if q > p + 1 {
                let a = key_at(self.slots@, c[p + 1] as int);
                assert(key_lt(a, key));
                assert(!passes(key_at(self.slots@, c[p + 1] as int), key, false));
            }
        }
    }

    /// The element with the smallest key greater than `key`, or `None`
    /// where no key is greater.
    pub fn successor(&self, key: &K) -> (e: Option<&E>)
        requires
            self.wf(),
            total_order::<K>(),
        ensures
            comes_after(
                self.keys(),
                *key,
                match e {
                    Some(x) => Some(x.key_view()),
                    None => None,
                },
            ),
            e matches Some(x) ==> *x == self.entry_of(x.key_view()),
    {
        let (_, current, Ghost(pos)) = self.descend(key, true, false);
        let ghost c = self.chains@[0];
        let ghost p = pos[0];
        proof {
            assert(chain_ok(self.head@, self.slots@, self.chains@, 0));
            assert(stops_at(self.slots@, self.chains@[0], pos[0], *key, true));
            assert forall|q: int| 0 <= q < self.keys().len() implies (key_lt(
                *key,
                #[trigger] self.keys()[q],
            ) <==> q > p) by {
                let a = key_at(self.slots@, c[q] as int);
                lemma_trichotomy(a, *key);
                if q <= p {
                    assert(passes(key_at(self.slots@, c[q] as int), *key, true));
                } else {
                    assert(!passes(key_at(self.slots@, c[q] as int), *key, true));
                }
            }
        }
        match self.next_of(current, 0) {
            Some(n) => {
                proof {
                    self.lemma_entry_of(p + 1);
                    assert forall|q: int|
                        0 <= q < self.keys().len() && key_lt(
                            *key,
                            #[trigger] self.keys()[q],
                        ) implies !key_lt(self.keys()[q], key_at(self.slots@, n as int)) by {
                        let a = key_at(self.slots@, c[q] as int);
                        let b = key_at(self.slots@, c[p + 1] as int);
                        lemma_trichotomy(a, b);
                        if q > p + 1 {
                            assert(key_lt(b, a));
                        }
                    }
                }
                Some(self.slot(n))
            },
            None => None,
        }
    }
}

/// One step of the generator that draws the levels.
pub open spec fn xorshift(x: u64) -> u64 {
    let a = x ^ (x << 13);
    let b = a ^ (a >> 7);
    b ^ (b << 17)
}

/// The level that a drawn value stands for: the number of its low bits that
/// are zero, up to the cap.
pub open spec fn level_of(x: u64, cap: nat) -> nat
    decreases cap,
{
    if cap == 0 || x & 1 != 0 {
        0
    } else {
        1 + level_of(x >> 1, (cap - 1) as nat)
    }
}

/// Draws a level: advances the generator by one step and counts the low
/// zero bits of the new state, up to the cap.
pub fn draw_level(state: u64, max_level: usize) -> (r: (u64, usize))
    ensures
        r.0 == xorshift(state),
        r.1 == level_of(r.0, max_level as nat),
        r.1 <= max_level,
{
    let mut x: u64 = state;
    x ^= x << 13;
    x ^= x >> 7;
    x ^= x << 17;
    let mut level: usize = 0;
    let mut rng: u64 = x;
    while level < max_level && (rng & 1) == 0
        invariant
            level <= max_level,
            level_of(x, max_level as nat) == level + level_of(rng, (max_level - level) as nat),
        decreases max_level - level,
    {
        level += 1;
        rng >>= 1;
    }
    (x, level)
}

impl<K, E> SkipList<K, E> where K: Ord, E: SkipListEntry<Key = K> {
    /// Every element of a level is an element of the lowest level.
    proof fn lemma_in_base(&self, l: int, p: int) -> (q: int)
        requires
            self.ordered(),
            0 <= l <= self.max_level,
            0 <= p < self.chains@[l].len(),
        ensures
            0 <= q < self.chains@[0].len(),
            self.chains@[0][q] == self.chains@[l][p],
        decreases l,
    {
        if l == 0 {
            p
        } else {
            let m = self.lemma_step_down(l - 1, p);
            self.lemma_in_base(l - 1, m)
        }
    }

    /// Where a search for an absent key stops at a level, the key belongs.
    proof fn lemma_brackets(&self, l: int, p: int, k: K)
        requires
            self.ordered(),
            0 <= l <= self.max_level,
            stops_at(self.slots@, self.chains@[l], p, k, false),
            !self.contains_key(k),
        ensures
            brackets(self.slots@, self.chains@[l], p, k),
    {
        let c = self.chains@[l];
        assert forall|q: int| p < q < c.len() implies key_lt(
            k,
            key_at(self.slots@, (#[trigger] c[q]) as int),
        ) by {
            let a = key_at(self.slots@, c[q] as int);
            assert(!passes(a, k, false));
            lemma_trichotomy(a, k);
            let b = self.lemma_in_base(l, q);
            self.lemma_entry_of(b);
        }
        assert forall|q: int| 0 <= q <= p implies key_lt(
            key_at(self.slots@, (#[trigger] c[q]) as int),
            k,
        ) by {
            assert(passes(key_at(self.slots@, c[q] as int), k, false));
        }
    }
}

impl<K, E> SkipList<K, E> where K: Ord, E: SkipListEntry<Key = K> {
    /// Draws the level of a new element: advances the generator and counts
    /// the low zero bits of its state, up to the highest level allowed.
    fn random_level(&mut self) -> (level: usize)
        ensures
            level <= old(self).max_level,
            level == level_of(xorshift(old(self).rng_state), old(self).max_level as nat),
            final(self).rng_state == xorshift(old(self).rng_state),
            final(self).head == old(self).head,
            final(self).slots == old(self).slots,
            final(self).free == old(self).free,
            final(self).len == old(self).len,
            final(self).level == old(self).level,
            final(self).max_level == old(self).max_level,
            final(self).chains == old(self).chains,
    {
        let (state, level) = draw_level(self.rng_state, self.max_level);
        self.rng_state = state;
        level
    }

    /// Inserts an element at the place of its key. Where the list already
    /// holds an element with that key, nothing changes and the element is
    /// handed back.
    #[verifier::rlimit(50)]
    pub fn insert(&mut self, entry: Box<E>) -> (r: Result<(), Box<E>>)
        requires
            old(self).wf(),
            total_order::<K>(),
        ensures
            final(self).wf(),
            final(self).level_cap() == old(self).level_cap(),
            match r {
                Ok(_) => {
                    &&& !old(self).contains_key(entry.key_view())
                    &&& exists|p: int|
                        0 <= p <= old(self).keys().len() && final(self).keys() == #[trigger] old(self).keys().insert(p, entry.key_view())
                },
                Err(back) => {
                    &&& old(self).contains_key(entry.key_view())
                    &&& back == entry
                    &&& *final(self) == *old(self)
                },
            },
    {
        let mut entry = entry;
        let ghost k = entry.key_view();
        let (update, pred0, Ghost(pos)) = self.descend(entry.key(), false, true);
        proof {
            assert(chain_ok(self.head@, self.slots@, self.chains@, 0));
            assert(stops_at(self.slots@, self.chains@[0], pos[0], k, false));
        }
        let duplicate: bool = match self.next_of(pred0, 0) {
            Some(n) => match compare(self.slot(n).key(), entry.key()) {
                Rank::Equal => true,
                _ => false,
            },
            None => false,
        };
        if duplicate {
            proof {
                self.lemma_entry_of(pos[0] + 1);
            }
            return Err(entry);
        }
        proof {
            self.lemma_absent(k, pos[0]);
        }
        let new_level = self.random_level();
        if new_level > self.level {
            self.level = new_level;
        }
        let node = entry.skiplist_node_mut();
        node.resize(new_level + 1);
        let idx = place_entry(&mut self.slots, &mut self.free, entry);
        proof {
            old(self).lemma_ready(self.slots@, pos, k, idx);
        }
        let ghost s1 = self.slots@;
        assert(s1.len() == self.slots.len());
        let Ghost(now) = splice_levels(
            &mut self.head,
            &mut self.slots,
            &update,
            idx,
            new_level,
            Ghost(self.chains@),
            Ghost(pos),
            Ghost(k),
        );
        self.chains = Ghost(now);
        assert(self.len + 1 <= self.slots@.len());
        self.len += 1;
        proof {
            old(self).lemma_inserted(*self, s1, pos, k, idx, new_level as int);
            assert(0 <= pos[0] + 1 <= old(self).keys().len());
        }
        Ok(())
    }

    /// After a new element has been put into the store, the levels are
    /// ready for it to be linked in.
    proof fn lemma_ready(&self, s1: Seq<Option<Box<E>>>, pos: Seq<int>, k: K, idx: usize)
        requires
            self.ordered(),
            pos.len() == self.max_level + 1,
            !self.contains_key(k),
            forall|l: int|
                0 <= l <= self.level ==> #[trigger] stops_at(
                    self.slots@,
                    self.chains@[l],
                    pos[l],
                    k,
                    false,
                ),
            forall|l: int| self.level < l <= self.max_level ==> pos[l] == -1,
            grown(self.slots@, s1, idx),
            key_at(s1, idx as int) == k,
        ensures
            splicing(self.head@, s1, self.chains@, self.chains@, pos, idx, k, 0),
    {
        let chains = self.chains@;
        let s0 = self.slots@;
        assert forall|j: int| 0 <= j < chains.len() implies #[trigger] chain_ok(
            self.head@,
            s1,
            chains,
            j,
        ) by {
            self.lemma_ready_at(s1, pos, k, idx, j);
        }
        assert forall|j: int| 0 <= j < chains.len() implies #[trigger] brackets(
            s1,
            chains[j],
            pos[j],
            k,
        ) by {
            self.lemma_ready_at(s1, pos, k, idx, j);
        }
        assert forall|j: int| 0 <= j < chains.len() implies !(#[trigger] chains[j]).contains(
            idx,
        ) by {
            self.lemma_ready_at(s1, pos, k, idx, j);
        }
        assert forall|j: int| 0 <= j < chains.len() implies -1 <= #[trigger] pos[j]
            < chains[j].len() by {
            self.lemma_ready_at(s1, pos, k, idx, j);
        }
    }

    /// After a new element has been put into the store, level `j` is ready
    /// for it to be linked in.
    proof fn lemma_ready_at(
        &self,
        s1: Seq<Option<Box<E>>>,
        pos: Seq<int>,
        k: K,
        idx: usize,
        j: int,
    )
        requires
            self.ordered(),
            0 <= j <= self.max_level,
            pos.len() == self.max_level + 1,
            !self.contains_key(k),
            j <= self.level ==> stops_at(self.slots@, self.chains@[j], pos[j], k, false),
            j > self.level ==> pos[j] == -1,
            grown(self.slots@, s1, idx),
        ensures
            chain_ok(self.head@, s1, self.chains@, j),
            brackets(s1, self.chains@[j], pos[j], k),
            !self.chains@[j].contains(idx),
            -1 <= pos[j] < self.chains@[j].len(),
    {
        let chains = self.chains@;
        let s0 = self.slots@;
        assert(chain_ok(self.head@, s0, chains, j));
        if j > self.level {
            assert(chains[j].len() == 0);
        }
        self.lemma_brackets(j, pos[j], k);
        lemma_placed(self.head@, s0, s1, chains, j, pos[j], k, idx);
    }

    /// After a new element has been linked in, the list is in order and
    /// holds the keys it held and the new one.
    #[verifier::rlimit(50)]
    proof fn lemma_inserted(
        &self,
        after: Self,
        s1: Seq<Option<Box<E>>>,
        pos: Seq<int>,
        k: K,
        idx: usize,
        new_level: int,
    )
        requires
            self.ordered(),
            0 <= new_level <= self.max_level,
            after.max_level == self.max_level,
            after.level == if new_level > self.level {
                new_level
            } else {
                self.level as int
            },
            after.len == self.len + 1,
            splicing(after.head@, after.slots@, self.chains@, after.chains@, pos, idx, k, new_level + 1),
            grown(self.slots@, s1, idx),
            s1.len() <= usize::MAX,
            after.slots@.len() == s1.len(),
            forall|i: int|
                0 <= i < s1.len() ==> ((#[trigger] after.slots@[i]) is Some) == (s1[i] is Some),
            forall|i: int| occupied(s1, i) ==> #[trigger] key_at(after.slots@, i) == key_at(s1, i),
            free_ok(s1, after.free@),
            s1.len() - after.free@.len() == self.slots@.len() - self.free@.len() + 1,
        ensures
            after.ordered(),
            after.level_cap() == self.level_cap(),
            0 <= pos[0] + 1 <= self.keys().len(),
            after.keys() == self.keys().insert(pos[0] + 1, k),
    {
        let chains = self.chains@;
        let now = after.chains@;
        assert(-1 <= pos[0] < chains[0].len());
        assert(now[0] == chains[0].insert(pos[0] + 1, idx));
        assert(chain_ok(self.head@, self.slots@, chains, 0));
        assert(linked(self.head@, self.slots@, chains[0], 0));
        lemma_keys_inserted(self.slots@, s1, after.slots@, chains[0], pos[0] + 1, idx, k);
        assert(after.keys() =~= self.keys().insert(pos[0] + 1, k));
        assert forall|x: usize| x < self.slots@.len() implies ((#[trigger] self.slots@[x as int])
            is Some <==> chains[0].contains(x)) by {}
        lemma_places_inserted(self.slots@, s1, after.slots@, chains[0], pos[0] + 1, idx);
        assert forall|l: int| 0 <= l <= after.max_level implies #[trigger] chain_ok(
            after.head@,
            after.slots@,
            after.chains@,
            l,
        ) by {}
        assert forall|l: int| after.level < l <= after.max_level implies (
        #[trigger] after.chains@[l]).len() == 0 by {
            assert(now[l] == chains[l]);
            assert(self.chains@[l].len() == 0);
        }
        assert forall|j: int| 0 <= j < after.free@.len() implies (#[trigger] after.free@[j])
            < after.slots@.len() && after.slots@[after.free@[j] as int] is None by {
            let f = after.free@[j] as int;
            assert((after.slots@[f] is Some) == (s1[f] is Some));
        }
    }
}

impl<K, E> SkipList<K, E> where K: Ord, E: SkipListEntry<Key = K> {
    /// Before an element is unlinked, the levels are in the state from which
    /// the unlinking starts.
    proof fn lemma_unready(&self, pos: Seq<int>, key: K, t: usize)
        requires
            self.ordered(),
            pos.len() == self.max_level + 1,
            forall|l: int|
                0 <= l <= self.level ==> #[trigger] stops_at(
                    self.slots@,
                    self.chains@[l],
                    pos[l],
                    key,
                    false,
                ),
            forall|l: int| self.level < l <= self.max_level ==> pos[l] == -1,
            occupied(self.slots@, t as int),
            key_at(self.slots@, t as int) == key,
        ensures
            unsplicing(
                self.head@,
                self.slots@,
                self.chains@,
                self.chains@,
                pos,
                t,
                key,
                0,
                self.level as int,
            ),
            forall|j: int|
                0 <= j < self.chains@.len() ==> -1 <= #[trigger] pos[j] < self.chains@[j].len(),
    {
        let chains = self.chains@;
        assert forall|j: int| 0 <= j < chains.len() implies #[trigger] level_ok(
            self.head@,
            self.slots@,
            chains,
            j,
            t,
        ) by {
            assert(chain_ok(self.head@, self.slots@, chains, j));
            if j > 0 {
                assert forall|x: usize| #[trigger] chains[j].contains(x) && x != t implies chains[j
                    - 1].contains(x) by {}
            }
        }
        assert forall|j: int| 0 <= j < chains.len() implies -1 <= #[trigger] pos[j]
            < chains[j].len() by {
            if j <= self.level {
                assert(stops_at(self.slots@, chains[j], pos[j], key, false));
            }
        }
        assert forall|j: int| 0 <= j < chains.len() implies within(
            #[trigger] chains[j],
            chains[j],
        ) by {}
    }

    /// After an element has been unlinked and taken out of the store, the
    /// list is in order and holds the keys it held but that of the element.
    #[verifier::rlimit(50)]
    proof fn lemma_removed(&self, after: Self, s2: Seq<Option<Box<E>>>, pos: Seq<int>, key: K, t: usize)
        requires
            self.ordered(),
            after.max_level == self.max_level,
            after.level <= self.level,
            forall|l: int| after.level < l <= self.level ==> (#[trigger] after.chains@[l]).len() == 0,
            after.len + 1 == self.len,
            unsplicing(
                after.head@,
                s2,
                self.chains@,
                after.chains@,
                pos,
                t,
                key,
                self.level + 1,
                self.level as int,
            ),
            0 <= pos[0] + 1 < self.chains@[0].len(),
            self.chains@[0][pos[0] + 1] == t,
            after.chains@[0] == self.chains@[0].remove(pos[0] + 1),
            s2.len() == self.slots@.len(),
            forall|i: int|
                0 <= i < s2.len() ==> ((#[trigger] s2[i]) is Some) == (self.slots@[i] is Some),
            forall|i: int|
                occupied(self.slots@, i) ==> #[trigger] key_at(s2, i) == key_at(self.slots@, i),
            shrunk(s2, after.slots@, t),
            after.free@ == self.free@.push(t),
        ensures
            after.ordered(),
            after.level_cap() == self.level_cap(),
            after.keys() == self.keys().remove(pos[0] + 1),
    {
        let chains = self.chains@;
        let now = after.chains@;
        let s0 = self.slots@;
        let s3 = after.slots@;
        let p = pos[0] + 1;
        assert(chain_ok(self.head@, s0, chains, 0));
        assert(linked(self.head@, s0, chains[0], 0));
        lemma_chain_injective(s0, chains[0]);
        assert forall|i: int| occupied(s0, i) && i != chains[0][p] implies #[trigger] key_at(
            s3,
            i,
        ) == key_at(s0, i) by {
            assert(key_at(s2, i) == key_at(s0, i));
            assert(s3[i] == s2[i]);
        }
        lemma_keys_removed(s0, s3, chains[0], p);
        assert(after.keys() =~= self.keys().remove(p));
        assert forall|x: usize| x < s0.len() implies ((#[trigger] s0[x as int]) is Some
            <==> chains[0].contains(x)) by {}
        assert forall|i: int| 0 <= i < s0.len() && i != chains[0][p] implies ((#[trigger] s3[i])
            is Some) == (s0[i] is Some) by {
            assert(s3[i] == s2[i]);
            assert((s2[i] is Some) == (s0[i] is Some));
        }
        lemma_places_removed(s0, s3, chains[0], p);
        assert forall|l: int| 0 <= l <= after.max_level implies #[trigger] chain_ok(
            after.head@,
            after.slots@,
            after.chains@,
            l,
        ) by {
            assert(level_ok(after.head@, s2, now, l, t));
            if l > self.level {
                assert(now[l] == chains[l]);
                assert(chains[l].len() == 0);
            } else {
                assert(!now[l].contains(t));
            }
            lemma_taken(after.head@, s2, s3, now, l, t);
        }
        assert forall|l: int| after.level < l <= after.max_level implies (
        #[trigger] after.chains@[l]).len() == 0 by {
            if l > self.level {
                assert(now[l] == chains[l]);
                assert(chains[l].len() == 0);
            }
        }
        assert forall|j: int| 0 <= j < after.free@.len() implies (#[trigger] after.free@[j])
            < s3.len() && s3[after.free@[j] as int] is None by {
            if j < self.free@.len() {
                let f = self.free@[j];
                assert(after.free@[j] == f);
                assert(s0[f as int] is None);
                assert((s2[f as int] is Some) == (s0[f as int] is Some));
            }
        }
        assert(after.free@.no_duplicates()) by {
            assert forall|a: int, b: int|
                0 <= a < after.free@.len() && 0 <= b < after.free@.len() && a != b implies after.free@[a]
                != after.free@[b] by {
                if a < self.free@.len() && b < self.free@.len() {
                    assert(self.free@[a] != self.free@[b]);
                } else if a < self.free@.len() {
                    assert(s0[self.free@[a] as int] is None);
                } else if b < self.free@.len() {
                    assert(s0[self.free@[b] as int] is None);
                }
            }
        }
    }

    /// Removes the element with the given key and hands it back, or returns
    /// `None` where the list holds no such element.
    #[verifier::rlimit(50)]
    pub fn remove(&mut self, key: &K) -> (r: Option<Box<E>>)
        requires
            old(self).wf(),
            total_order::<K>(),
        ensures
            final(self).wf(),
            final(self).level_cap() == old(self).level_cap(),
            r is Some <==> old(self).contains_key(*key),
            match r {
                Some(taken) => {
                    &&& taken.key_view() == *key
                    &&& *taken == old(self).entry_of(*key)
                    &&& exists|p: int|
                        0 <= p < old(self).keys().len() && old(self).keys()[p] == *key && final(self).keys() == #[trigger] old(self).keys().remove(p)
                },
                None => final(self).keys() == old(self).keys(),
            },
    {
        let (update, pred0, Ghost(pos)) = self.descend(key, false, true);
        proof {
            assert(chain_ok(self.head@, self.slots@, self.chains@, 0));
            assert(stops_at(self.slots@, self.chains@[0], pos[0], *key, false));
        }
        let target: Option<usize> = match self.next_of(pred0, 0) {
            Some(n) => match compare(self.slot(n).key(), key) {
                Rank::Equal => Some(n),
                _ => None,
            },
            None => None,
        };
        match target {
            None => {
                proof {
                    self.lemma_absent(*key, pos[0]);
                }
                None
            },
            Some(t) => {
                proof {
                    self.lemma_entry_of(pos[0] + 1);
                    self.lemma_unready(pos, *key, t);
                }
                let level = self.level;
                let Ghost(now) = unlink_levels(
                    &mut self.head,
                    &mut self.slots,
                    &update,
                    t,
                    level,
                    Ghost(self.chains@),
                    Ghost(pos),
                    Ghost(*key),
                );
                self.chains = Ghost(now);
                let ghost mid = *self;
                while self.level > 0 && self.head.link(self.level).is_none()
                    invariant
                        self.head == mid.head,
                        self.slots == mid.slots,
                        self.free == mid.free,
                        self.len == mid.len,
                        self.max_level == mid.max_level,
                        self.level <= level,
                        level <= self.max_level,
                        self.head@.len() == self.max_level + 1,
                        self.chains@ == now,
                        forall|l: int|
                            0 <= l < now.len() ==> #[trigger] level_ok(
                                self.head@,
                                self.slots@,
                                now,
                                l,
                                t,
                            ),
                        now.len() == self.max_level + 1,
                        forall|l: int| self.level < l <= level ==> (#[trigger] now[l]).len() == 0,
                    decreases self.level,
                {
                    proof {
                        assert(level_ok(self.head@, self.slots@, now, self.level as int, t));
                    }
                    self.level -= 1;
                }
                self.len -= 1;
                let ghost s2 = self.slots@;
                let mut taken: Option<Box<E>> = None;
                core::mem::swap(&mut self.slots[t], &mut taken);
                self.free.push(t);
                proof {
                    old(self).lemma_removed(*self, s2, pos, *key, t);
                }
                taken
            },
        }
    }

    /// Removes the element with the given key; `true` if there was one.
    pub fn remove_by_key(&mut self, key: &K) -> (removed: bool)
        requires
            old(self).wf(),
            total_order::<K>(),
        ensures
            final(self).wf(),
            final(self).level_cap() == old(self).level_cap(),
            removed == old(self).contains_key(*key),
            removed ==> exists|p: int|
                0 <= p < old(self).keys().len() && old(self).keys()[p] == *key && final(self).keys() == #[trigger] old(self).keys().remove(p),
            !removed ==> final(self).keys() == old(self).keys(),
    {
        self.remove(key).is_some()
    }
}

impl<K, E> SkipList<K, E> where K: Ord, E: SkipListEntry<Key = K> {
    /// An empty list with the default highest level.
    pub fn new() -> (list: Self)
        ensures
            list.wf(),
            list.keys() == Seq::<K>::empty(),
            list.level_cap() == MAX_LEVEL,
    {
        Self::with_max_level(MAX_LEVEL)
    }

    /// An empty list with the highest level allowed set to `max_level`. The
    /// generator that draws the levels is seeded from the clock.
    pub fn with_max_level(max_level: usize) -> (list: Self)
        requires
            max_level < LINK_LIMIT,
        ensures
            list.wf(),
            list.keys() == Seq::<K>::empty(),
            list.level_cap() == max_level,
    {
        Self::with_seed(max_level, time_seed())
    }

    /// Looks an element up by its key, for changing it. The list stays in
    /// order, with the keys it has, as long as the element keeps its key and
    /// its node.
    pub fn get_mut(&mut self, key: &K) -> (e: Option<&mut E>)
        requires
            old(self).wf(),
            total_order::<K>(),
        ensures
            e is Some <==> old(self).contains_key(*key),
            match e {
                Some(x) => {
                    &&& x.key_view() == *key
                    &&& *x == old(self).entry_of(*key)
                    &&& final(x).key_view() == x.key_view() && final(x).node_view() == x.node_view()
                        ==> final(self).wf() && final(self).keys() == old(self).keys() && final(self).level_cap()
                        == old(self).level_cap() && final(self).entry_of(*key) == *final(x)
                },
                None => final(self).wf() && final(self).keys() == old(self).keys(),
            },
    {
        let (_, current, Ghost(pos)) = self.descend(key, false, false);
        proof {
            assert(chain_ok(self.head@, self.slots@, self.chains@, 0));
            assert(stops_at(self.slots@, self.chains@[0], pos[0], *key, false));
        }
        let found: Option<usize> = match self.next_of(current, 0) {
            Some(n) => match compare(self.slot(n).key(), key) {
                Rank::Equal => Some(n),
                _ => None,
            },
            None => None,
        };
        match found {
            Some(n) => {
                proof {
                    self.lemma_entry_of(pos[0] + 1);
                }
                let ghost before = *self;
                proof {
                    self.lemma_replaceable(n as int, pos[0] + 1);
                }
                let b: &mut Box<E> = self.slots[n].as_mut().unwrap();
                let element: &mut E = &mut **b;
                assert(final(element).key_view() == element.key_view() && final(element).node_view()
                    == element.node_view() ==> before.same_but(after_borrow(*self), n as int));
                Some(element)
            },
            None => {
                proof {
                    self.lemma_absent(*key, pos[0]);
                }
                None
            },
        }
    }

    /// A second list is a first but for the element at place `n`, which has
    /// the same key and the same node in both.
    spec fn same_but(&self, after: Self, n: int) -> bool {
        &&& after.head == self.head
        &&& after.free == self.free
        &&& after.len == self.len
        &&& after.level == self.level
        &&& after.max_level == self.max_level
        &&& after.chains == self.chains
        &&& after.slots@.len() == self.slots@.len()
        &&& occupied(after.slots@, n)
        &&& forall|i: int|
            0 <= i < self.slots@.len() && i != n ==> #[trigger] after.slots@[i] == self.slots@[i]
        &&& key_at(after.slots@, n) == key_at(self.slots@, n)
        &&& elem(after.slots@, n).node_view() == elem(self.slots@, n).node_view()
    }

    /// Whatever replaces the element at a place of the lowest level, with
    /// the same key and the same node, leaves the list in order with the
    /// keys it has.
    proof fn lemma_replaceable(&self, n: int, p: int)
        requires
            self.ordered(),
            occupied(self.slots@, n),
            0 <= p < self.chains@[0].len(),
            self.chains@[0][p] == n,
        ensures
            forall|after: Self| #[trigger]
                self.same_but(after, n) ==> after.wf() && after.keys() == self.keys()
                    && after.level_cap() == self.level_cap() && after.entry_of(
                    key_at(self.slots@, n),
                ) == elem(after.slots@, n),
    {
        assert forall|after: Self| #[trigger] self.same_but(after, n) implies after.wf()
            && after.keys() == self.keys() && after.level_cap() == self.level_cap()
            && after.entry_of(key_at(self.slots@, n)) == elem(after.slots@, n) by {
            self.lemma_replaced(after, n, p);
        }
    }

    /// The list stays in order, with the keys it has, where one element is
    /// replaced by one with the same key and the same node.
    proof fn lemma_replaced(&self, after: Self, n: int, p: int)
        requires
            self.ordered(),
            occupied(self.slots@, n),
            0 <= p < self.chains@[0].len(),
            self.chains@[0][p] == n,
            self.same_but(after, n),
        ensures
            after.wf(),
            after.keys() == self.keys(),
            after.level_cap() == self.level_cap(),
            after.entry_of(key_at(self.slots@, n)) == elem(after.slots@, n),
    {
        let s0 = self.slots@;
        let s2 = after.slots@;
        let chains = self.chains@;
        assert forall|i: int| occupied(s0, i) implies occupied(s2, i) && #[trigger] key_at(s2, i)
            == key_at(s0, i) && links_at(s2, i) == links_at(s0, i) by {
            if i != n {
                assert(s2[i] == s0[i]);
            }
        }
        assert forall|l: int| 0 <= l <= after.max_level implies #[trigger] chain_ok(
            after.head@,
            after.slots@,
            after.chains@,
            l,
        ) by {
            assert(chain_ok(self.head@, s0, chains, l));
            let c = chains[l];
            assert forall|q: int| 0 <= q < c.len() implies {
                let i = (#[trigger] c[q]) as int;
                &&& occupied(s2, i)
                &&& key_at(s2, i) == key_at(s0, i)
                &&& links_at(s2, i).len() == links_at(s0, i).len()
                &&& q != -1 ==> links_at(s2, i)[l] == links_at(s0, i)[l]
            } by {
                assert(occupied(s0, c[q] as int));
                assert(key_at(s2, c[q] as int) == key_at(s0, c[q] as int));
            }
            lemma_chain_frame(self.head@, s0, chains, after.head@, s2, chains, l);
        }
        assert forall|x: usize| x < s2.len() implies ((#[trigger] s2[x as int]) is Some
            <==> chains[0].contains(x)) by {
            if x != n {
                assert(s2[x as int] == s0[x as int]);
            }
            assert(s0[x as int] is Some <==> chains[0].contains(x));
        }
        assert forall|j: int| 0 <= j < after.free@.len() implies (#[trigger] after.free@[j])
            < s2.len() && s2[after.free@[j] as int] is None by {
            let f = self.free@[j] as int;
            assert(s0[f] is None);
            assert(s2[f] == s0[f]);
        }
        assert(chain_ok(self.head@, s0, chains, 0));
        assert forall|r: int| 0 <= r < chains[0].len() implies #[trigger] after.keys()[r]
            == self.keys()[r] by {
            assert(occupied(s0, chains[0][r] as int));
            assert(key_at(s2, chains[0][r] as int) == key_at(s0, chains[0][r] as int));
        }
        assert(after.keys() =~= self.keys());
        after.lemma_entry_of(p);
    }
}

impl<K, E> Default for SkipList<K, E> where K: Ord, E: SkipListEntry<Key = K> {
    fn default() -> (list: Self)
        ensures
            list.wf(),
            list.keys() == Seq::<K>::empty(),
    {
        Self::new()
    }
}

/// Whether the keys of a sequence strictly increase.
pub open spec fn keys_increase<K: Ord>(keys: Seq<K>) -> bool {
    forall|p: int, q: int| 0 <= p < q < keys.len() ==> key_lt(#[trigger] keys[p], #[trigger] keys[q])
}

/// Whether `next` is what comes after `key` among the keys: the smallest of
/// the keys greater than `key`, or nothing where no key is greater.
pub open spec fn comes_after<K: Ord>(keys: Seq<K>, key: K, next: Option<K>) -> bool {
    match next {
        Some(n) => {
            &&& keys.contains(n)
            &&& key_lt(key, n)
            &&& forall|q: int|
                0 <= q < keys.len() && key_lt(key, #[trigger] keys[q]) ==> !key_lt(keys[q], n)
        },
        None => forall|q: int| 0 <= q < keys.len() ==> !key_lt(key, #[trigger] keys[q]),
    }
}

impl<K, E> SkipList<K, E> where K: Ord, E: SkipListEntry<Key = K> {
    /// The keys of a list strictly increase: the list is sorted and holds
    /// no key twice.
    pub proof fn lemma_keys_increase(&self)
        requires
            self.wf(),
            total_order::<K>(),
        ensures
            keys_increase(self.keys()),
    {
        let c = self.chains@[0];
        assert(chain_ok(self.head@, self.slots@, self.chains@, 0));
        assert forall|p: int, q: int| 0 <= p < q < self.keys().len() implies key_lt(
            #[trigger] self.keys()[p],
            #[trigger] self.keys()[q],
        ) by {
            assert(key_lt(key_at(self.slots@, c[p] as int), key_at(self.slots@, c[q] as int)));
        }
    }

    /// The first key is the smallest: no key of the list comes before it.
    pub proof fn lemma_first_is_least(&self, q: int)
        requires
            self.wf(),
            total_order::<K>(),
            0 <= q < self.keys().len(),
        ensures
            !key_lt(self.keys()[q], self.keys()[0]),
    {
        self.lemma_keys_increase();
        lemma_trichotomy(self.keys()[q], self.keys()[0]);
        if q > 0 {
            assert(key_lt(self.keys()[0], self.keys()[q]));
        }
    }

    /// What comes after the key at a position is the key at the next
    /// position, and nothing comes after the last key: a walk from the first
    /// key by successors visits every key once, in increasing order.
    pub proof fn lemma_successor_walks(&self, p: int, next: Option<K>)
        requires
            self.wf(),
            total_order::<K>(),
            0 <= p < self.keys().len(),
            comes_after(self.keys(), self.keys()[p], next),
        ensures
            next == if p + 1 < self.keys().len() {
                Some(self.keys()[p + 1])
            } else {
                None
            },
    {
        self.lemma_keys_increase();
        let keys = self.keys();
        match next {
            Some(n) => {
                let q = choose|q: int| 0 <= q < keys.len() && keys[q] == n;
                lemma_trichotomy(keys[p], keys[q]);
                if q < p {
                    assert(key_lt(keys[q], keys[p]));
                } else if q > p + 1 {
                    assert(key_lt(keys[p], keys[p + 1]));
                    assert(key_lt(keys[p + 1], keys[q]));
                }
            },
            None => {
                if p + 1 < keys.len() {
                    assert(key_lt(keys[p], keys[p + 1]));
                }
            },
        }
    }
}

/// Inserting a key that a sorted sequence lacks and then removing that key
/// gives the sequence back, with the length it had.
pub proof fn lemma_insert_remove_round_trip<K: Ord>(keys: Seq<K>, key: K, p: int, q: int)
    requires
        total_order::<K>(),
        0 <= p <= keys.len(),
        !keys.contains(key),
        0 <= q <= keys.len(),
        keys.insert(p, key)[q] == key,
    ensures
        keys.insert(p, key).remove(q) == keys,
        keys.insert(p, key).remove(q).len() == keys.len(),
{
    let mid = keys.insert(p, key);
    if q < p {
        assert(mid[q] == keys[q]);
        assert(keys.contains(keys[q]));
    } else if q > p {
        assert(mid[q] == keys[q - 1]);
        assert(keys.contains(keys[q - 1]));
    }
    assert(mid.remove(q) =~= keys);
}

/// Removing a key and removing it without taking the element report the
/// same of whether the key was present: each reports what the list held.
pub proof fn lemma_removals_agree<K: Ord, E: SkipListEntry<Key = K>>(
    list: SkipList<K, E>,
    key: K,
    taken: Option<Box<E>>,
    removed: bool,
)
    requires
        taken is Some <==> list.contains_key(key),
        removed == list.contains_key(key),
    ensures
        taken is Some <==> removed,
{
}

} // verus!
