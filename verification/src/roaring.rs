//! The bitmap itself: a sorted vector of `(key, container)` pairs, the key
//! being the high 16 bits of the values that the container holds.

use vstd::prelude::*;
use crate::array::sym_diff;
use crate::container::{Container, SetOp, heap_share, kind_name, optimized_kind};
use crate::memory::{add_bytes, bytes_sum, heap_bytes, heap_bytes_of, vec_capacity};
use crate::entries::{
    block, entries_count, entries_view, entries_wf, has_key, insert_value, inserted_into, key_of,
    lemma_entries_bound, lemma_entries_count, lemma_entries_take, lemma_halves, lemma_key_absent,
    lemma_same_blocks, lemma_slot, lemma_view_insert, lemma_view_remove, low_of, remove_value,
    removed_from, same_blocks, search_keys, slot_of, value_of,
};
use crate::merge::{merge_entries, merged_at};

verus! {

/// Compressed ordered set of 32-bit unsigned integers.
pub struct RoaringBitmap {
    pub(crate) containers: Vec<(u16, Container)>,
}

impl View for RoaringBitmap {
    type V = Set<u32>;

    open spec fn view(&self) -> Set<u32> {
        entries_view(self.entries())
    }
}

impl RoaringBitmap {
    /// The `(key, container)` pairs, in the order in which they are stored.
    pub open(crate) spec fn entries(&self) -> Seq<(u16, Container)> {
        self.containers@
    }

    /// Keys strictly increasing; every container well formed and not empty.
    /// This holds of every bitmap at all times.
    #[verifier::type_invariant]
    pub open spec fn wf(&self) -> bool {
        entries_wf(self.entries())
    }

    /// Splits a value into its key and its place within the block.
    pub fn split(value: u32) -> (r: (u16, u16))
        ensures
            r.0 == key_of(value),
            r.1 == low_of(value),
    {
        let key: u16 = (value >> 16) as u16;
        let low: u16 = value as u16;
        assert(value >> 16 == value / 65536) by (bit_vector);
        assert(value as u16 == value % 65536) by (bit_vector);
        (key, low)
    }

    /// Joins a key and a place within the block into the value.
    pub fn combine(key: u16, low: u16) -> (value: u32)
        ensures
            value == value_of(key, low),
    {
        assert(((key as u32) << 16) | (low as u32) == key * 65536 + low) by (bit_vector);
        ((key as u32) << 16) | (low as u32)
    }

    /// An empty bitmap.
    pub fn new() -> (result: Self)
        ensures
            result.wf(),
            result@ == Set::<u32>::empty(),
            result.entries().len() == 0,
    {
        let result = RoaringBitmap { containers: Vec::new() };
        assert(result@ =~= Set::<u32>::empty());
        result
    }

    /// Adds a value; `true` if it was absent.
    pub fn insert(&mut self, value: u32) -> (added: bool)
        ensures
            final(self).wf(),
            final(self)@ == old(self)@.insert(value),
            added == !old(self)@.contains(value),
            inserted_into(old(self).entries(), final(self).entries(), key_of(value), low_of(value)),
    {
        proof {
            use_type_invariant(&*self);
        }
        let (key, low) = Self::split(value);
        let mut containers: Vec<(u16, Container)> = Vec::new();
        core::mem::swap(&mut self.containers, &mut containers);
        let added = insert_value(&mut containers, key, low);
        proof {
            lemma_view_insert(old(self).containers@, containers@, value);
        }
        self.containers = containers;
        added
    }

    /// Membership.
    pub fn contains(&self, value: u32) -> (found: bool)
        ensures
            found == self@.contains(value),
    {
        proof {
            use_type_invariant(self);
        }
        let (key, low) = Self::split(value);
        match search_keys(&self.containers, key) {
            Ok(index) => {
                proof {
                    lemma_slot(self.containers@, index as int);
                }
                self.containers[index].1.contains(low)
            },
            Err(index) => {
                proof {
                    lemma_key_absent(self.containers@, index as int, key);
                }
                false
            },
        }
    }

    /// Whether the bitmap holds no value.
    pub fn is_empty(&self) -> (empty: bool)
        ensures
            empty == (self@ == Set::<u32>::empty()),
            empty == (self.entries().len() == 0),
    {
        proof {
            use_type_invariant(self);
            let cs = self.containers@;
            if cs.len() == 0 {
                assert(self@ =~= Set::<u32>::empty());
            } else {
                lemma_slot(cs, 0);
                let low = choose|low: u16| cs[0].1@.contains(low);
                assert(cs[0].1@.contains(low)) by {
                    if forall|x: u16| !cs[0].1@.contains(x) {
                        assert(cs[0].1@ =~= Set::<u16>::empty());
                    }
                }
                lemma_halves(0, cs[0].0, low);
                assert(self@.contains(value_of(cs[0].0, low)));
            }
        }
        self.containers.is_empty()
    }

    /// Removes a value; `true` if it was present. A container that becomes
    /// empty by it is dropped.
    pub fn remove(&mut self, value: u32) -> (removed: bool)
        ensures
            final(self).wf(),
            final(self)@ == old(self)@.remove(value),
            removed == old(self)@.contains(value),
            removed_from(old(self).entries(), final(self).entries(), key_of(value), low_of(value)),
    {
        proof {
            use_type_invariant(&*self);
        }
        let (key, low) = Self::split(value);
        let mut containers: Vec<(u16, Container)> = Vec::new();
        core::mem::swap(&mut self.containers, &mut containers);
        let removed = remove_value(&mut containers, key, low);
        proof {
            lemma_view_remove(old(self).containers@, containers@, value);
        }
        self.containers = containers;
        removed
    }

    /// Removes every value.
    pub fn clear(&mut self)
        ensures
            final(self).wf(),
            final(self)@ == Set::<u32>::empty(),
    {
        let mut containers: Vec<(u16, Container)> = Vec::new();
        core::mem::swap(&mut self.containers, &mut containers);
        containers.clear();
        self.containers = containers;
        assert(self@ =~= Set::<u32>::empty());
    }
}

impl RoaringBitmap {
    /// Union of two bitmaps.
    pub fn union(&self, other: &RoaringBitmap) -> (result: RoaringBitmap)
        ensures
            result.wf(),
            result@ == self@.union(other@),
            forall|key: u16|
                merged_at(SetOp::Union, self.entries(), other.entries(), result.entries(), key),
    {
        proof {
            use_type_invariant(self);
            use_type_invariant(other);
        }
        RoaringBitmap { containers: merge_entries(&self.containers, &other.containers, SetOp::Union) }
    }

    /// Intersection of two bitmaps.
    pub fn intersection(&self, other: &RoaringBitmap) -> (result: RoaringBitmap)
        ensures
            result.wf(),
            result@ == self@.intersect(other@),
            forall|key: u16|
                merged_at(
                    SetOp::Intersection,
                    self.entries(),
                    other.entries(),
                    result.entries(),
                    key,
                ),
    {
        proof {
            use_type_invariant(self);
            use_type_invariant(other);
        }
        RoaringBitmap {
            containers: merge_entries(&self.containers, &other.containers, SetOp::Intersection),
        }
    }

    /// Difference of two bitmaps: the values of `self` that `other` lacks.
    pub fn difference(&self, other: &RoaringBitmap) -> (result: RoaringBitmap)
        ensures
            result.wf(),
            result@ == self@.difference(other@),
            forall|key: u16|
                merged_at(
                    SetOp::Difference,
                    self.entries(),
                    other.entries(),
                    result.entries(),
                    key,
                ),
    {
        proof {
            use_type_invariant(self);
            use_type_invariant(other);
        }
        RoaringBitmap {
            containers: merge_entries(&self.containers, &other.containers, SetOp::Difference),
        }
    }

    /// Symmetric difference of two bitmaps: the values that exactly one of
    /// them holds.
    pub fn symmetric_difference(&self, other: &RoaringBitmap) -> (result: RoaringBitmap)
        ensures
            result.wf(),
            result@ == sym_diff(self@, other@),
            forall|key: u16|
                merged_at(
                    SetOp::SymmetricDifference,
                    self.entries(),
                    other.entries(),
                    result.entries(),
                    key,
                ),
    {
        proof {
            use_type_invariant(self);
            use_type_invariant(other);
        }
        RoaringBitmap {
            containers: merge_entries(
                &self.containers,
                &other.containers,
                SetOp::SymmetricDifference,
            ),
        }
    }

    /// Union in place: `self` takes in every value of `other`.
    pub fn union_with(&mut self, other: &RoaringBitmap)
        ensures
            final(self).wf(),
            final(self)@ == old(self)@.union(other@),
            forall|key: u16|
                merged_at(
                    SetOp::Union,
                    old(self).entries(),
                    other.entries(),
                    final(self).entries(),
                    key,
                ),
    {
        proof {
            use_type_invariant(&*self);
            use_type_invariant(other);
        }
        self.containers = merge_entries(&self.containers, &other.containers, SetOp::Union);
    }

    /// Intersection in place: `self` keeps the values that `other` holds too.
    pub fn intersect_with(&mut self, other: &RoaringBitmap)
        ensures
            final(self).wf(),
            final(self)@ == old(self)@.intersect(other@),
            forall|key: u16|
                merged_at(
                    SetOp::Intersection,
                    old(self).entries(),
                    other.entries(),
                    final(self).entries(),
                    key,
                ),
    {
        proof {
            use_type_invariant(&*self);
            use_type_invariant(other);
        }
        self.containers = merge_entries(&self.containers, &other.containers, SetOp::Intersection);
    }

    /// Difference in place: `self` loses the values that `other` holds.
    pub fn difference_with(&mut self, other: &RoaringBitmap)
        ensures
            final(self).wf(),
            final(self)@ == old(self)@.difference(other@),
            forall|key: u16|
                merged_at(
                    SetOp::Difference,
                    old(self).entries(),
                    other.entries(),
                    final(self).entries(),
                    key,
                ),
    {
        proof {
            use_type_invariant(&*self);
            use_type_invariant(other);
        }
        self.containers = merge_entries(&self.containers, &other.containers, SetOp::Difference);
    }

    /// Symmetric difference in place: `self` keeps the values that exactly
    /// one of the two held.
    pub fn symmetric_difference_with(&mut self, other: &RoaringBitmap)
        ensures
            final(self).wf(),
            final(self)@ == sym_diff(old(self)@, other@),
            forall|key: u16|
                merged_at(
                    SetOp::SymmetricDifference,
                    old(self).entries(),
                    other.entries(),
                    final(self).entries(),
                    key,
                ),
    {
        proof {
            use_type_invariant(&*self);
            use_type_invariant(other);
        }
        self.containers = merge_entries(
            &self.containers,
            &other.containers,
            SetOp::SymmetricDifference,
        );
    }
}

impl RoaringBitmap {
    /// Number of values in the bitmap.
    pub fn len(&self) -> (n: u64)
        ensures
            n == self@.len(),
    {
        proof {
            use_type_invariant(self);
        }
        let mut total: u64 = 0;
        let mut i: usize = 0;
        proof {
            lemma_entries_count(self.containers@);
            lemma_entries_take(self.containers@, 0);
            lemma_entries_bound(self.containers@);
        }
        while i < self.containers.len()
            invariant
                i <= self.containers@.len(),
                entries_wf(self.containers@),
                self.containers@.len() <= 65536,
                total == entries_count(self.containers@.take(i as int)),
                total <= 65536 * i,
            decreases self.containers@.len() - i,
        {
            proof {
                lemma_entries_take(self.containers@, i + 1);
                lemma_entries_count(self.containers@.take(i + 1));
                assert(self.containers@.take(i + 1).drop_last() =~= self.containers@.take(i as int));
            }
            total += self.containers[i].1.len();
            i += 1;
        }
        proof {
            assert(self.containers@.take(i as int) =~= self.containers@);
        }
        total
    }
}

/// Memory that one container holds on the heap.
#[derive(Debug, Clone)]
pub struct ContainerStats {
    /// Key of the container: the high 16 bits of its values.
    pub key: u16,
    /// Representation: "Array", "Bitmap" or "Run".
    pub container_type: &'static str,
    /// Bytes that the container holds on the heap.
    pub memory_bytes: usize,
}

/// Memory that a bitmap takes, in bytes.
#[derive(Debug, Clone)]
pub struct MemoryUsage {
    /// Stack and heap together.
    pub total: usize,
    /// The bitmap's own fields.
    pub stack: usize,
    /// Everything on the heap.
    pub heap: usize,
    /// The share of each container, in the order of their keys.
    pub containers: Vec<ContainerStats>,
}

/// The bytes of the first `n` containers' shares, added up.
pub open spec fn stats_total(stats: Seq<ContainerStats>, n: nat) -> usize
    decreases n,
{
    if n == 0 {
        0
    } else {
        bytes_sum(stats_total(stats, (n - 1) as nat), stats[n - 1].memory_bytes)
    }
}

/// What a report says of each container: in the order of the entries, the
/// key and the name of the representation of each, and bytes that the
/// container may hold on the heap.
pub open spec fn stats_match(cs: Seq<(u16, Container)>, stats: Seq<ContainerStats>) -> bool {
    &&& stats.len() == cs.len()
    &&& forall|i: int|
        0 <= i < cs.len() ==> {
            &&& (#[trigger] stats[i]).key == cs[i].0
            &&& stats[i].container_type@ == kind_name(cs[i].1.kind())
            &&& heap_share(cs[i].1, stats[i].memory_bytes)
        }
}

impl Clone for RoaringBitmap {
    fn clone(&self) -> (copy: Self)
        ensures
            copy.wf(),
            copy@ == self@,
            same_blocks(self.entries(), copy.entries()),
            forall|i: int|
                0 <= i < self.entries().len() ==> (#[trigger] copy.entries()[i]).1.kind()
                    == self.entries()[i].1.kind(),
    {
        proof {
            use_type_invariant(self);
        }
        let mut containers: Vec<(u16, Container)> = Vec::with_capacity(self.containers.len());
        let mut i: usize = 0;
        while i < self.containers.len()
            invariant
                i <= self.containers@.len(),
                containers@.len() == i,
                forall|k: int| 0 <= k < i ==> (#[trigger] containers@[k]).0 == self.containers@[k].0,
                forall|k: int|
                    0 <= k < i ==> (#[trigger] containers@[k]).1@ == self.containers@[k].1@,
                forall|k: int|
                    0 <= k < i ==> (#[trigger] containers@[k]).1.wf() == self.containers@[k].1.wf(),
                forall|k: int|
                    0 <= k < i ==> (#[trigger] containers@[k]).1.kind()
                        == self.containers@[k].1.kind(),
            decreases self.containers@.len() - i,
        {
            containers.push((self.containers[i].0, self.containers[i].1.clone()));
            i += 1;
        }
        proof {
            lemma_same_blocks(self.containers@, containers@);
        }
        RoaringBitmap { containers }
    }
}

impl Default for RoaringBitmap {
    fn default() -> (result: Self)
        ensures
            result@ == Set::<u32>::empty(),
    {
        Self::new()
    }
}

impl RoaringBitmap {
    /// Gives every container the representation that suits its values. The
    /// values stay what they are.
    pub fn optimize(&mut self)
        ensures
            final(self).wf(),
            final(self)@ == old(self)@,
            same_blocks(old(self).entries(), final(self).entries()),
            forall|i: int|
                0 <= i < old(self).entries().len() ==> (#[trigger] final(self).entries()[i]).1.kind()
                    == optimized_kind(
                    old(self).entries()[i].1.kind(),
                    old(self).entries()[i].1@,
                ),
    {
        proof {
            use_type_invariant(&*self);
        }
        let mut containers: Vec<(u16, Container)> = Vec::new();
        core::mem::swap(&mut self.containers, &mut containers);
        let ghost before = containers@;
        let mut i: usize = 0;
        while i < containers.len()
            invariant
                i <= before.len(),
                containers@.len() == before.len(),
                entries_wf(before),
                forall|k: int| 0 <= k < before.len() ==> (#[trigger] containers@[k]).0 == before[k].0,
                forall|k: int| 0 <= k < before.len() ==> (#[trigger] containers@[k]).1@ == before[k].1@,
                forall|k: int| 0 <= k < before.len() ==> (#[trigger] containers@[k]).1.wf(),
                forall|k: int|
                    0 <= k < i ==> (#[trigger] containers@[k]).1.kind() == optimized_kind(
                        before[k].1.kind(),
                        before[k].1@,
                    ),
                forall|k: int| i <= k < before.len() ==> (#[trigger] containers@[k]) == before[k],
            decreases before.len() - i,
        {
            containers[i].1.optimize();
            i += 1;
        }
        proof {
            lemma_same_blocks(before, containers@);
        }
        self.containers = containers;
    }

    /// Bytes that the bitmap takes: its own fields, the vector of entries,
    /// and what each container holds on the heap, added up in that order.
    pub fn memory_usage(&self) -> (total: usize)
        ensures
            total >= core::mem::size_of::<RoaringBitmap>(),
            exists|capacity: usize, shares: Seq<usize>|
                {
                    &&& capacity >= self.entries().len()
                    &&& shares.len() == self.entries().len()
                    &&& forall|i: int|
                        0 <= i < shares.len() ==> heap_share(
                            self.entries()[i].1,
                            #[trigger] shares[i],
                        )
                    &&& total == #[trigger] bytes_total(
                        bytes_sum(
                            core::mem::size_of::<RoaringBitmap>(),
                            heap_bytes_of(capacity, core::mem::size_of::<(u16, Container)>()),
                        ),
                        shares,
                        shares.len(),
                    )
                },
    {
        let stack: usize = core::mem::size_of::<RoaringBitmap>();
        let capacity = vec_capacity(&self.containers);
        let base = add_bytes(
            stack,
            heap_bytes(capacity, core::mem::size_of::<(u16, Container)>()),
        );
        let mut total: usize = base;
        let ghost mut shares: Seq<usize> = Seq::empty();
        let mut i: usize = 0;
        while i < self.containers.len()
            invariant
                i <= self.containers@.len(),
                shares.len() == i,
                forall|k: int| 0 <= k < i ==> heap_share(self.containers@[k].1, #[trigger] shares[k]),
                total == bytes_total(base, shares, i as nat),
                total >= stack,
            decreases self.containers@.len() - i,
        {
            let share = self.containers[i].1.heap_memory();
            proof {
                lemma_bytes_total_prefix(base, shares.push(share), shares, i as nat);
                shares = shares.push(share);
            }
            total = add_bytes(total, share);
            i += 1;
        }
        proof {
            assert(total == bytes_total(
                bytes_sum(
                    core::mem::size_of::<RoaringBitmap>(),
                    heap_bytes_of(capacity, core::mem::size_of::<(u16, Container)>()),
                ),
                shares,
                shares.len(),
            ));
        }
        total
    }

    /// Bytes that the bitmap takes, broken down: its own fields, the heap,
    /// and the share of each container.
    pub fn memory_usage_detailed(&self) -> (usage: MemoryUsage)
        ensures
            usage.total == bytes_sum(usage.stack, usage.heap),
            usage.stack == core::mem::size_of::<RoaringBitmap>(),
            stats_match(self.entries(), usage.containers@),
            exists|capacity: usize|
                capacity >= self.entries().len() && usage.heap == bytes_sum(
                    #[trigger] heap_bytes_of(capacity, core::mem::size_of::<(u16, Container)>()),
                    stats_total(usage.containers@, usage.containers@.len()),
                ),
    {
        let stack_size: usize = core::mem::size_of::<RoaringBitmap>();
        let capacity = vec_capacity(&self.containers);
        let containers_vec_heap = heap_bytes(capacity, core::mem::size_of::<(u16, Container)>());
        let mut container_stats: Vec<ContainerStats> = Vec::new();
        let mut containers_heap: usize = 0;
        let mut i: usize = 0;
        while i < self.containers.len()
            invariant
                i <= self.containers@.len(),
                stats_match(self.containers@.take(i as int), container_stats@),
                containers_heap == stats_total(container_stats@, i as nat),
            decreases self.containers@.len() - i,
        {
            let key: u16 = self.containers[i].0;
            let container_type = self.containers[i].1.kind_label();
            let memory_bytes = self.containers[i].1.heap_memory();
            let ghost before = container_stats@;
            containers_heap = add_bytes(containers_heap, memory_bytes);
            container_stats.push(ContainerStats { key, container_type, memory_bytes });
            proof {
                assert(container_stats@.drop_last() =~= before);
                lemma_stats_total_prefix(container_stats@, before, i as nat);
            }
            i += 1;
        }
        assert(self.containers@.take(i as int) =~= self.containers@);
        let total_heap = add_bytes(containers_vec_heap, containers_heap);
        let total = add_bytes(stack_size, total_heap);
        proof {
            assert(container_stats@.len() == i);
            assert(total_heap == bytes_sum(
                heap_bytes_of(capacity, core::mem::size_of::<(u16, Container)>()),
                stats_total(container_stats@, container_stats@.len()),
            ));
        }
        MemoryUsage { total, stack: stack_size, heap: total_heap, containers: container_stats }
    }

    /// Name of the representation of the container under a key; `None`
    /// where the bitmap has no value with that key. Meant for tests and for
    /// debugging: it shows how the bitmap stores its values, not what they
    /// are.
    pub fn container_type(&self, key: u16) -> (name: Option<&'static str>)
        ensures
            name is Some <==> has_key(self.entries(), key),
            name matches Some(n) ==> n@ == kind_name(
                self.entries()[slot_of(self.entries(), key)].1.kind(),
            ),
    {
        proof {
            use_type_invariant(self);
        }
        match search_keys(&self.containers, key) {
            Ok(index) => {
                proof {
                    lemma_slot(self.containers@, index as int);
                }
                Some(self.containers[index].1.kind_label())
            },
            Err(index) => {
                proof {
                    lemma_key_absent(self.containers@, index as int, key);
                }
                None
            },
        }
    }

    /// Key, name of the representation and number of values of every
    /// container, in the order of the keys. Meant for tests and for
    /// debugging.
    pub fn container_stats(&self) -> (stats: Vec<(u16, &'static str, u64)>)
        ensures
            stats@.len() == self.entries().len(),
            forall|i: int|
                0 <= i < stats@.len() ==> {
                    &&& (#[trigger] stats@[i]).0 == self.entries()[i].0
                    &&& stats@[i].1@ == kind_name(self.entries()[i].1.kind())
                    &&& stats@[i].2 == self.entries()[i].1@.len()
                },
    {
        proof {
            use_type_invariant(self);
        }
        let mut stats: Vec<(u16, &'static str, u64)> = Vec::new();
        let mut i: usize = 0;
        while i < self.containers.len()
            invariant
                i <= self.containers@.len(),
                entries_wf(self.containers@),
                stats@.len() == i,
                forall|k: int|
                    0 <= k < i ==> {
                        &&& (#[trigger] stats@[k]).0 == self.containers@[k].0
                        &&& stats@[k].1@ == kind_name(self.containers@[k].1.kind())
                        &&& stats@[k].2 == self.containers@[k].1@.len()
                    },
            decreases self.containers@.len() - i,
        {
            let key: u16 = self.containers[i].0;
            let name = self.containers[i].1.kind_label();
            let len = self.containers[i].1.len();
            stats.push((key, name, len));
            i += 1;
        }
        stats
    }
}

/// A byte count with the first `n` of a sequence of shares added to it, one
/// after the other.
pub open spec fn bytes_total(base: usize, shares: Seq<usize>, n: nat) -> usize
    decreases n,
{
    if n == 0 {
        base
    } else {
        bytes_sum(bytes_total(base, shares, (n - 1) as nat), shares[n - 1])
    }
}

/// What the first `n` shares add up to does not depend on what follows
/// them.
pub proof fn lemma_bytes_total_prefix(base: usize, a: Seq<usize>, b: Seq<usize>, n: nat)
    requires
        n <= a.len(),
        n <= b.len(),
        forall|i: int| 0 <= i < n ==> a[i] == b[i],
    ensures
        bytes_total(base, a, n) == bytes_total(base, b, n),
    decreases n,
{
    if n > 0 {
        lemma_bytes_total_prefix(base, a, b, (n - 1) as nat);
    }
}

/// The sum of the first `n` shares of a report does not depend on what
/// follows them.
pub proof fn lemma_stats_total_prefix(a: Seq<ContainerStats>, b: Seq<ContainerStats>, n: nat)
    requires
        n <= a.len(),
        n <= b.len(),
        forall|i: int| 0 <= i < n ==> a[i] == b[i],
    ensures
        stats_total(a, n) == stats_total(b, n),
    decreases n,
{
    if n > 0 {
        lemma_stats_total_prefix(a, b, (n - 1) as nat);
    }
}

} // verus!
