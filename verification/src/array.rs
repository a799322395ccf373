//! Sorted-array container: the low 16 bits of the values of one block, kept
//! as a strictly increasing vector.

use vstd::prelude::*;
use crate::memory::{heap_bytes, heap_bytes_of, vec_capacity};

verus! {

/// A sequence whose every element is smaller than all that follow it.
pub open spec fn strictly_increasing(s: Seq<u16>) -> bool {
    forall|i: int, j: int| 0 <= i < j < s.len() ==> s[i] < s[j]
}

/// Every set of 16-bit values is finite.
pub proof fn lemma_u16_set_finite(s: Set<u16>)
    ensures
        s.finite(),
{
    <u16 as vstd::set_lib::FiniteFull>::full_properties();
    vstd::set_lib::lemma_set_subset_finite(Set::<u16>::full(), s);
}

/// A strictly increasing sequence has as many entries as its set has members.
pub proof fn lemma_increasing_len(s: Seq<u16>)
    requires
        strictly_increasing(s),
    ensures
        s.no_duplicates(),
        s.to_set().len() == s.len(),
{
    s.unique_seq_to_set();
}

/// Outcome of looking a value up in a sorted sequence: the index that holds
/// it, or the index at which it would have to be inserted.
pub open spec fn search_result(s: Seq<u16>, value: u16, r: Result<usize, usize>) -> bool {
    match r {
        Ok(i) => i < s.len() && s[i as int] == value,
        Err(i) => {
            &&& i <= s.len()
            &&& forall|k: int| 0 <= k < i ==> s[k] < value
            &&& forall|k: int| i <= k < s.len() ==> s[k] > value
        },
    }
}

/// Binary search in a strictly increasing vector.
pub fn search_sorted(values: &Vec<u16>, value: u16) -> (r: Result<usize, usize>)
    requires
        strictly_increasing(values@),
    ensures
        search_result(values@, value, r),
{
    let mut lo: usize = 0;
    let mut hi: usize = values.len();
    while lo < hi
        invariant
            lo <= hi <= values.len(),
            strictly_increasing(values@),
            forall|k: int| 0 <= k < lo ==> values@[k] < value,
            forall|k: int| hi <= k < values.len() ==> values@[k] > value,
        decreases hi - lo,
    {
        let mid: usize = lo + (hi - lo) / 2;
        let probe: u16 = values[mid];
        if probe == value {
            return Ok(mid);
        } else if probe < value {
            lo = mid + 1;
        } else {
            hi = mid;
        }
    }
    Err(lo)
}

/// Array container: the values of one block as a sorted vector.
pub struct ArrayContainer {
    /// The values, smallest first.
    pub values: Vec<u16>,
}

impl Clone for ArrayContainer {
    fn clone(&self) -> (copy: Self)
        ensures
            copy.values@ == self.values@,
    {
        ArrayContainer { values: self.values.clone() }
    }
}

impl View for ArrayContainer {
    type V = Set<u16>;

    open spec fn view(&self) -> Set<u16> {
        self.values@.to_set()
    }
}

impl ArrayContainer {
    /// The stored values are sorted and none occurs twice.
    pub open spec fn wf(&self) -> bool {
        strictly_increasing(self.values@)
    }

    /// Inserts a value at its sorted position; `true` if it was absent.
    pub fn insert(&mut self, value: u16) -> (added: bool)
        requires
            old(self).wf(),
        ensures
            final(self).wf(),
            final(self)@ == old(self)@.insert(value),
            added == !old(self)@.contains(value),
    {
        match search_sorted(&self.values, value) {
            Ok(_) => {
                assert(self.values@.contains(value));
                assert(self@ =~= self@.insert(value));
                false
            },
            Err(index) => {
                let ghost before = self.values@;
                self.values.insert(index, value);
                proof {
                    let after = self.values@;
                    assert(after =~= before.insert(index as int, value));
                    assert forall|x: u16| after.contains(x) <==> (before.contains(x) || x == value) by {
                        if before.contains(x) {
                            let k = choose|k: int| 0 <= k < before.len() && before[k] == x;
                            if k < index {
                                assert(after[k] == x);
                            } else {
                                assert(after[k + 1] == x);
                            }
                        }
                        if x == value {
                            assert(after[index as int] == x);
                        }
                        if after.contains(x) {
                            let k = choose|k: int| 0 <= k < after.len() && after[k] == x;
                            if k < index {
                                assert(before[k] == x);
                            } else if k > index {
                                assert(before[k - 1] == x);
                            }
                        }
                    }
                    assert(self@ =~= old(self)@.insert(value));
                    assert(!before.contains(value));
                }
                true
            },
        }
    }

    /// Membership by binary search.
    pub fn contains(&self, value: u16) -> (found: bool)
        requires
            self.wf(),
        ensures
            found == self@.contains(value),
    {
        match search_sorted(&self.values, value) {
            Ok(i) => {
                assert(self.values@[i as int] == value);
                true
            },
            Err(_) => false,
        }
    }

    /// Removes a value if present; `true` if it was.
    pub fn remove(&mut self, value: u16) -> (removed: bool)
        requires
            old(self).wf(),
        ensures
            final(self).wf(),
            final(self)@ == old(self)@.remove(value),
            removed == old(self)@.contains(value),
    {
        match search_sorted(&self.values, value) {
            Ok(index) => {
                let ghost before = self.values@;
                self.values.remove(index);
                proof {
                    let after = self.values@;
                    assert(after =~= before.remove(index as int));
                    assert(before.contains(value));
                    assert forall|x: u16| after.contains(x) <==> (before.contains(x) && x != value) by {
                        if before.contains(x) && x != value {
                            let k = choose|k: int| 0 <= k < before.len() && before[k] == x;
                            if k < index {
                                assert(after[k] == x);
                            } else {
                                assert(k > index);
                                assert(after[k - 1] == x);
                            }
                        }
                        if after.contains(x) {
                            let k = choose|k: int| 0 <= k < after.len() && after[k] == x;
                            if k < index {
                                assert(before[k] == x);
                            } else {
                                assert(before[k + 1] == x);
                            }
                        }
                    }
                    assert(self@ =~= old(self)@.remove(value));
                }
                true
            },
            Err(_) => {
                assert(self@ =~= self@.remove(value));
                false
            },
        }
    }

    /// Bytes on the heap: two for each value that the vector has room for.
    pub fn heap_memory(&self) -> (bytes: usize)
        ensures
            exists|capacity: usize|
                capacity >= self.values@.len() && bytes == heap_bytes_of(capacity, 2),
    {
        broadcast use vstd::layout::layout_of_primitives;

        heap_bytes(vec_capacity(&self.values), core::mem::size_of::<u16>())
    }

    /// Number of stored values.
    pub fn len(&self) -> (n: u64)
        requires
            self.wf(),
        ensures
            n == self@.len(),
            n == self.values@.len(),
            n <= 65536,
    {
        proof {
            lemma_increasing_len(self.values@);
            crate::run::lemma_u16_set_bound(self@);
        }
        self.values.len() as u64
    }

    /// Whether no value is stored.
    pub fn is_empty(&self) -> (empty: bool)
        ensures
            empty == (self.values@.len() == 0),
            empty == (self@ == Set::<u16>::empty()),
    {
        proof {
            if self.values@.len() == 0 {
                assert(self@ =~= Set::<u16>::empty());
            } else {
                assert(self.values@.contains(self.values@[0]));
                assert(self@.contains(self.values@[0]));
            }
        }
        self.values.is_empty()
    }
}


/// Appending a value larger than all present keeps a sequence increasing and
/// adds exactly that value to its set.
pub proof fn lemma_push_increasing(s: Seq<u16>, x: u16)
    requires
        strictly_increasing(s),
        forall|k: int| 0 <= k < s.len() ==> s[k] < x,
    ensures
        strictly_increasing(s.push(x)),
        s.push(x).to_set() == s.to_set().insert(x),
{
    let t = s.push(x);
    assert forall|v: u16| t.to_set().contains(v) <==> s.to_set().insert(x).contains(v) by {
        if s.contains(v) {
            let k = choose|k: int| 0 <= k < s.len() && s[k] == v;
            assert(t[k] == v);
        }
        if v == x {
            assert(t[s.len() as int] == v);
        }
        if t.contains(v) {
            let k = choose|k: int| 0 <= k < t.len() && t[k] == v;
            if k < s.len() {
                assert(s[k] == v);
            }
        }
    }
    assert(t.to_set() =~= s.to_set().insert(x));
}

/// In an increasing sequence, the values before an index are exactly the
/// members smaller than the value at that index.
pub proof fn lemma_increasing_prefix(s: Seq<u16>, i: int, v: u16)
    requires
        strictly_increasing(s),
        0 <= i < s.len(),
    ensures
        s.take(i).contains(v) <==> (s.contains(v) && v < s[i]),
{
    if s.take(i).contains(v) {
        let k = choose|k: int| 0 <= k < s.take(i).len() && s.take(i)[k] == v;
        assert(s[k] == v);
    }
    if s.contains(v) && v < s[i] {
        let k = choose|k: int| 0 <= k < s.len() && s[k] == v;
        assert(k < i);
        assert(s.take(i)[k] == v);
    }
}

impl ArrayContainer {
    /// Appends to `out` the values of `self` from index `from` on.
    fn append_tail(&self, from: usize, out: &mut Vec<u16>)
        requires
            self.wf(),
            from <= self.values@.len(),
            strictly_increasing(old(out)@),
            from < self.values@.len() ==> forall|k: int|
                0 <= k < old(out)@.len() ==> old(out)@[k] < self.values@[from as int],
        ensures
            strictly_increasing(final(out)@),
            final(out)@.to_set() == old(out)@.to_set().union(
                self.values@.skip(from as int).to_set(),
            ),
    {
        let mut i: usize = from;
        assert(self.values@.skip(from as int).take(0).to_set() =~= Set::<u16>::empty());
        assert(out@.to_set() =~= old(out)@.to_set().union(Set::<u16>::empty()));
        while i < self.values.len()
            invariant
                self.wf(),
                from <= i <= self.values@.len(),
                strictly_increasing(out@),
                i < self.values@.len() ==> forall|k: int|
                    0 <= k < out@.len() ==> out@[k] < self.values@[i as int],
                out@.to_set() == old(out)@.to_set().union(
                    self.values@.skip(from as int).take(i - from).to_set(),
                ),
            decreases self.values@.len() - i,
        {
            let x: u16 = self.values[i];
            proof {
                lemma_push_increasing(out@, x);
                let tail = self.values@.skip(from as int);
                assert(tail.take(i - from + 1) =~= tail.take(i - from).push(x));
                lemma_push_increasing_set_only(tail.take(i - from), x);
            }
            out.push(x);
            i += 1;
            assert(out@.to_set() =~= old(out)@.to_set().union(
                self.values@.skip(from as int).take(i - from).to_set(),
            ));
        }
        assert(self.values@.skip(from as int).take(i - from) =~= self.values@.skip(from as int));
    }

    /// Union by a two-pointer merge of the two sorted vectors.
    pub fn union(&self, other: &ArrayContainer) -> (result: ArrayContainer)
        requires
            self.wf(),
            other.wf(),
        ensures
            result.wf(),
            result@ == self@.union(other@),
    {
        let mut result: Vec<u16> = Vec::with_capacity(merged_capacity(self.values.len(), other.values.len()));
        let mut i: usize = 0;
        let mut j: usize = 0;
        let ghost a = self.values@;
        let ghost b = other.values@;
        assert(result@.to_set() =~= a.take(0).to_set().union(b.take(0).to_set()));
        while i < self.values.len() && j < other.values.len()
            invariant
                a == self.values@,
                b == other.values@,
                strictly_increasing(a),
                strictly_increasing(b),
                i <= a.len(),
                j <= b.len(),
                strictly_increasing(result@),
                i < a.len() ==> forall|k: int| 0 <= k < result@.len() ==> result@[k] < a[i as int],
                j < b.len() ==> forall|k: int| 0 <= k < result@.len() ==> result@[k] < b[j as int],
                result@.to_set() == a.take(i as int).to_set().union(b.take(j as int).to_set()),
            decreases a.len() - i + b.len() - j,
        {
            let x: u16 = self.values[i];
            let y: u16 = other.values[j];
            proof {
                assert(a.take(i + 1) =~= a.take(i as int).push(x));
                assert(b.take(j + 1) =~= b.take(j as int).push(y));
                lemma_take_push_set(a, i as int);
                lemma_take_push_set(b, j as int);
            }
            if x < y {
                proof {
                    lemma_push_increasing(result@, x);
                }
                result.push(x);
                i += 1;
            } else if x == y {
                proof {
                    lemma_push_increasing(result@, x);
                }
                result.push(x);
                i += 1;
                j += 1;
            } else {
                proof {
                    lemma_push_increasing(result@, y);
                }
                result.push(y);
                j += 1;
            }
            assert(result@.to_set() =~= a.take(i as int).to_set().union(b.take(j as int).to_set()));
        }
        let ghost mid = result@;
        self.append_tail(i, &mut result);
        let ghost mid2 = result@;
        proof {
            if j < b.len() {
                assert(i == a.len());
                assert(a.skip(i as int).to_set() =~= Set::<u16>::empty());
                assert(mid2.to_set() =~= mid.to_set());
                assert forall|k: int| 0 <= k < mid2.len() implies mid2[k] < b[j as int] by {
                    assert(mid2.to_set().contains(mid2[k]));
                    assert(mid.contains(mid2[k]));
                }
            }
        }
        other.append_tail(j, &mut result);
        proof {
            lemma_take_skip_set(a, i as int);
            lemma_take_skip_set(b, j as int);
            assert(result@.to_set() =~= a.to_set().union(b.to_set()));
        }
        ArrayContainer { values: result }
    }
}

/// A value that falls strictly between two neighbours of an increasing
/// sequence, or past its end, is not a member.
pub proof fn lemma_gap_not_member(s: Seq<u16>, i: int, v: u16)
    requires
        strictly_increasing(s),
        0 <= i <= s.len(),
        forall|k: int| 0 <= k < i ==> s[k] < v,
        i < s.len() ==> v < s[i],
    ensures
        !s.contains(v),
{
    if s.contains(v) {
        let k = choose|k: int| 0 <= k < s.len() && s[k] == v;
        if k >= i {
            assert(s[i] <= s[k]);
        }
    }
}

impl ArrayContainer {
    /// Intersection by a two-pointer scan; `None` when no value is shared.
    pub fn intersection(&self, other: &ArrayContainer) -> (result: Option<ArrayContainer>)
        requires
            self.wf(),
            other.wf(),
        ensures
            result is None <==> self@.intersect(other@) == Set::<u16>::empty(),
            result matches Some(c) ==> c.wf() && c@ == self@.intersect(other@),
    {
        let mut result: Vec<u16> = Vec::new();
        let mut i: usize = 0;
        let mut j: usize = 0;
        let ghost a = self.values@;
        let ghost b = other.values@;
        assert(result@.to_set() =~= a.take(0).to_set().intersect(b.take(0).to_set()));
        while i < self.values.len() && j < other.values.len()
            invariant
                a == self.values@,
                b == other.values@,
                strictly_increasing(a),
                strictly_increasing(b),
                i <= a.len(),
                j <= b.len(),
                strictly_increasing(result@),
                i < a.len() ==> forall|k: int| 0 <= k < result@.len() ==> result@[k] < a[i as int],
                i < a.len() ==> forall|k: int| 0 <= k < j ==> b[k] < a[i as int],
                j < b.len() ==> forall|k: int| 0 <= k < i ==> a[k] < b[j as int],
                result@.to_set() == a.take(i as int).to_set().intersect(b.take(j as int).to_set()),
            decreases a.len() - i + b.len() - j,
        {
            let x: u16 = self.values[i];
            let y: u16 = other.values[j];
            proof {
                lemma_take_push_set(a, i as int);
                lemma_take_push_set(b, j as int);
                if x < y {
                    lemma_gap_not_member(b.take(j as int), j as int, x);
                } else if x > y {
                    lemma_gap_not_member(a.take(i as int), i as int, y);
                }
            }
            if x < y {
                i += 1;
            } else if x == y {
                proof {
                    lemma_push_increasing(result@, x);
                }
                result.push(x);
                i += 1;
                j += 1;
            } else {
                j += 1;
            }
            assert(result@.to_set() =~= a.take(i as int).to_set().intersect(
                b.take(j as int).to_set(),
            ));
        }
        proof {
            assert forall|v: u16| a.to_set().intersect(b.to_set()).contains(v) implies a.take(
                i as int,
            ).to_set().intersect(b.take(j as int).to_set()).contains(v) by {
                if i < a.len() {
                    lemma_increasing_prefix(a, i as int, v);
                    assert(j == b.len());
                    assert(b.take(j as int) =~= b);
                    let k = choose|k: int| 0 <= k < b.len() && b[k] == v;
                    assert(b[k] < a[i as int]);
                } else {
                    assert(a.take(i as int) =~= a);
                    if j < b.len() {
                        lemma_increasing_prefix(b, j as int, v);
                        let k = choose|k: int| 0 <= k < a.len() && a[k] == v;
                        assert(a[k] < b[j as int]);
                    } else {
                        assert(b.take(j as int) =~= b);
                    }
                }
            }
            assert forall|v: u16|
                a.take(i as int).to_set().intersect(b.take(j as int).to_set()).contains(
                    v,
                ) implies a.to_set().intersect(b.to_set()).contains(v) by {
                lemma_take_skip_set(a, i as int);
                lemma_take_skip_set(b, j as int);
            }
            assert(result@.to_set() =~= self@.intersect(other@));
        }
        let out = ArrayContainer { values: result };
        if out.is_empty() {
            None
        } else {
            Some(out)
        }
    }

    /// Difference `self - other` by a two-pointer scan; `None` when nothing
    /// is left.
    pub fn difference(&self, other: &ArrayContainer) -> (result: Option<ArrayContainer>)
        requires
            self.wf(),
            other.wf(),
        ensures
            result is None <==> self@.difference(other@) == Set::<u16>::empty(),
            result matches Some(c) ==> c.wf() && c@ == self@.difference(other@),
    {
        let mut result: Vec<u16> = Vec::new();
        let mut i: usize = 0;
        let mut j: usize = 0;
        let ghost a = self.values@;
        let ghost b = other.values@;
        assert(result@.to_set() =~= a.take(0).to_set().difference(b.to_set()));
        while i < self.values.len() && j < other.values.len()
            invariant
                a == self.values@,
                b == other.values@,
                strictly_increasing(a),
                strictly_increasing(b),
                i <= a.len(),
                j <= b.len(),
                strictly_increasing(result@),
                i < a.len() ==> forall|k: int| 0 <= k < result@.len() ==> result@[k] < a[i as int],
                i < a.len() ==> forall|k: int| 0 <= k < j ==> b[k] < a[i as int],
                j < b.len() ==> forall|k: int| 0 <= k < i ==> a[k] < b[j as int],
                result@.to_set() == a.take(i as int).to_set().difference(b.to_set()),
            decreases a.len() - i + b.len() - j,
        {
            let x: u16 = self.values[i];
            let y: u16 = other.values[j];
            proof {
                lemma_take_push_set(a, i as int);
                if x < y {
                    lemma_gap_not_member(b, j as int, x);
                } else if x == y {
                    assert(b.contains(x));
                }
            }
            if x < y {
                proof {
                    lemma_push_increasing(result@, x);
                }
                result.push(x);
                i += 1;
            } else if x == y {
                i += 1;
                j += 1;
            } else {
                j += 1;
            }
            assert(result@.to_set() =~= a.take(i as int).to_set().difference(b.to_set()));
        }
        let ghost mid = result@;
        self.append_tail(i, &mut result);
        proof {
            lemma_take_skip_set(a, i as int);
            assert forall|v: u16| a.skip(i as int).to_set().contains(v) implies !b.contains(v) by {
                let k = choose|k: int| 0 <= k < a.skip(i as int).len() && a.skip(i as int)[k] == v;
                assert(a[k + i] == v);
                assert(j == b.len());
                assert(a[i as int] <= a[k + i]);
                lemma_gap_not_member(b, j as int, v);
            }
            assert(result@.to_set() =~= self@.difference(other@));
        }
        let out = ArrayContainer { values: result };
        if out.is_empty() {
            None
        } else {
            Some(out)
        }
    }

    /// Symmetric difference by a two-pointer merge; `None` when the two hold
    /// the same values.
    pub fn symmetric_difference(&self, other: &ArrayContainer) -> (result: Option<ArrayContainer>)
        requires
            self.wf(),
            other.wf(),
        ensures
            result is None <==> sym_diff(self@, other@) == Set::<u16>::empty(),
            result matches Some(c) ==> c.wf() && c@ == sym_diff(self@, other@),
    {
        let mut result: Vec<u16> = Vec::new();
        let mut i: usize = 0;
        let mut j: usize = 0;
        let ghost a = self.values@;
        let ghost b = other.values@;
        assert(result@.to_set() =~= a.take(0).to_set().difference(b.to_set()).union(
            b.take(0).to_set().difference(a.to_set()),
        ));
        while i < self.values.len() && j < other.values.len()
            invariant
                a == self.values@,
                b == other.values@,
                strictly_increasing(a),
                strictly_increasing(b),
                i <= a.len(),
                j <= b.len(),
                strictly_increasing(result@),
                i < a.len() ==> forall|k: int| 0 <= k < result@.len() ==> result@[k] < a[i as int],
                j < b.len() ==> forall|k: int| 0 <= k < result@.len() ==> result@[k] < b[j as int],
                i < a.len() ==> forall|k: int| 0 <= k < j ==> b[k] < a[i as int],
                j < b.len() ==> forall|k: int| 0 <= k < i ==> a[k] < b[j as int],
                result@.to_set() == a.take(i as int).to_set().difference(b.to_set()).union(
                    b.take(j as int).to_set().difference(a.to_set()),
                ),
            decreases a.len() - i + b.len() - j,
        {
            let x: u16 = self.values[i];
            let y: u16 = other.values[j];
            proof {
                lemma_take_push_set(a, i as int);
                lemma_take_push_set(b, j as int);
                if x < y {
                    lemma_gap_not_member(b, j as int, x);
                } else if x == y {
                    assert(b.contains(x));
                    assert(a.contains(y));
                } else {
                    lemma_gap_not_member(a, i as int, y);
                }
            }
            if x < y {
                proof {
                    lemma_push_increasing(result@, x);
                }
                result.push(x);
                i += 1;
            } else if x == y {
                i += 1;
                j += 1;
            } else {
                proof {
                    lemma_push_increasing(result@, y);
                }
                result.push(y);
                j += 1;
            }
            assert(result@.to_set() =~= a.take(i as int).to_set().difference(b.to_set()).union(
                b.take(j as int).to_set().difference(a.to_set()),
            ));
        }
        let ghost mid = result@;
        self.append_tail(i, &mut result);
        let ghost mid2 = result@;
        proof {
            if j < b.len() {
                assert(a.skip(i as int).to_set() =~= Set::<u16>::empty());
                assert(mid2.to_set() =~= mid.to_set());
                assert forall|k: int| 0 <= k < mid2.len() implies mid2[k] < b[j as int] by {
                    assert(mid2.to_set().contains(mid2[k]));
                    assert(mid.contains(mid2[k]));
                }
            }
        }
        other.append_tail(j, &mut result);
        proof {
            lemma_take_skip_set(a, i as int);
            lemma_take_skip_set(b, j as int);
            assert forall|v: u16| a.skip(i as int).to_set().contains(v) implies !b.contains(v) by {
                let k = choose|k: int| 0 <= k < a.skip(i as int).len() && a.skip(i as int)[k] == v;
                assert(a[k + i] == v);
                assert(j == b.len());
                assert(a[i as int] <= a[k + i]);
                lemma_gap_not_member(b, j as int, v);
            }
            assert forall|v: u16| b.skip(j as int).to_set().contains(v) implies !a.contains(v) by {
                let k = choose|k: int| 0 <= k < b.skip(j as int).len() && b.skip(j as int)[k] == v;
                assert(b[k + j] == v);
                assert(i == a.len());
                assert(b[j as int] <= b[k + j]);
                lemma_gap_not_member(a, i as int, v);
            }
            assert(result@.to_set() =~= sym_diff(self@, other@));
        }
        let out = ArrayContainer { values: result };
        if out.is_empty() {
            None
        } else {
            Some(out)
        }
    }
}

/// The values that lie in exactly one of two sets.
pub open spec fn sym_diff<T>(a: Set<T>, b: Set<T>) -> Set<T> {
    a.difference(b).union(b.difference(a))
}

/// The set of a pushed sequence is the old set with the new value.
pub proof fn lemma_push_increasing_set_only(s: Seq<u16>, x: u16)
    ensures
        s.push(x).to_set() == s.to_set().insert(x),
{
    let t = s.push(x);
    assert forall|v: u16| t.to_set().contains(v) <==> s.to_set().insert(x).contains(v) by {
        if s.contains(v) {
            let k = choose|k: int| 0 <= k < s.len() && s[k] == v;
            assert(t[k] == v);
        }
        if v == x {
            assert(t[s.len() as int] == v);
        }
        if t.contains(v) {
            let k = choose|k: int| 0 <= k < t.len() && t[k] == v;
            if k < s.len() {
                assert(s[k] == v);
            }
        }
    }
    assert(t.to_set() =~= s.to_set().insert(x));
}

/// Taking one more element adds that element to the prefix's set.
pub proof fn lemma_take_push_set(s: Seq<u16>, i: int)
    requires
        0 <= i < s.len(),
    ensures
        s.take(i + 1).to_set() == s.take(i).to_set().insert(s[i]),
{
    assert(s.take(i + 1) =~= s.take(i).push(s[i]));
    lemma_push_increasing_set_only(s.take(i), s[i]);
}

/// A sequence's set is the union of the sets of a prefix and the rest.
pub proof fn lemma_take_skip_set(s: Seq<u16>, i: int)
    requires
        0 <= i <= s.len(),
    ensures
        s.to_set() == s.take(i).to_set().union(s.skip(i).to_set()),
{
    assert forall|v: u16| s.to_set().contains(v) <==> s.take(i).to_set().union(
        s.skip(i).to_set(),
    ).contains(v) by {
        if s.contains(v) {
            let k = choose|k: int| 0 <= k < s.len() && s[k] == v;
            if k < i {
                assert(s.take(i)[k] == v);
            } else {
                assert(s.skip(i)[k - i] == v);
            }
        }
        if s.take(i).contains(v) {
            let k = choose|k: int| 0 <= k < s.take(i).len() && s.take(i)[k] == v;
            assert(s[k] == v);
        }
        if s.skip(i).contains(v) {
            let k = choose|k: int| 0 <= k < s.skip(i).len() && s.skip(i)[k] == v;
            assert(s[k + i] == v);
        }
    }
    assert(s.to_set() =~= s.take(i).to_set().union(s.skip(i).to_set()));
}

/// Room to reserve for a merge of two vectors; the sum of the lengths where
/// that fits, else the largest size.
fn merged_capacity(a: usize, b: usize) -> (n: usize)
    ensures
        n == if a + b <= usize::MAX { (a + b) as usize } else { usize::MAX },
{
    a.saturating_add(b)
}

} // verus!
