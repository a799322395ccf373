//! A container holds the low 16 bits of the values of one block in one of
//! three representations, and changes representation as its density changes.

use vstd::prelude::*;
use crate::array::{
    ArrayContainer, strictly_increasing, sym_diff, lemma_u16_set_finite, lemma_increasing_len,
    lemma_take_push_set, lemma_gap_not_member, lemma_push_increasing,
};
use crate::bitmap::BitmapContainer;
use crate::memory::heap_bytes_of;
use crate::run::{RunContainer, cover_set, runs_wf, run_has, runs_have, lemma_u16_set_bound};

verus! {

/// Number of values from which a sorted array gives way to a bitmap.
pub const ARRAY_TO_BITMAP_THRESHOLD: usize = 4096;

/// The three representations.
#[derive(Clone, Copy, Debug)]
pub enum ContainerKind {
    Array,
    Bitmap,
    Run,
}

/// Container for the values of one block.
pub enum Container {
    /// Sorted array of values, for sparse blocks.
    Array(ArrayContainer),
    /// Bitmap of 65,536 bits, for dense blocks.
    Bitmap(BitmapContainer),
    /// Runs of consecutive values.
    Run(RunContainer),
}

/// Whether `v` begins a run of consecutive members of `s`: it is a member
/// and its predecessor is not.
pub open spec fn is_run_start(s: Set<u16>, v: u16) -> bool {
    s.contains(v) && (v == 0 || !s.contains((v - 1) as u16))
}

/// The first values of the maximal runs of consecutive members of `s`.
pub open spec fn run_starts(s: Set<u16>) -> Set<u16> {
    Set::new(|v: u16| is_run_start(s, v))
}

/// Number of maximal runs of consecutive values in `s`.
pub open spec fn run_count(s: Set<u16>) -> nat {
    run_starts(s).len()
}

/// Whether runs would serve a set that has outgrown the array better than a
/// bitmap: the runs take less than half a bitmap's bytes, and there are
/// fewer than a quarter as many runs as values.
pub open spec fn run_beats_bitmap(s: Set<u16>) -> bool {
    run_count(s) * 4 < 4096 && run_count(s) < s.len() / 4
}

/// Representation after a value has been inserted: an array that reaches the
/// threshold becomes runs or a bitmap; nothing else changes.
pub open spec fn kind_after_insert(kind: ContainerKind, s: Set<u16>, value: u16) -> ContainerKind {
    match kind {
        ContainerKind::Array => if !s.contains(value) && s.len() + 1 >= 4096 {
            if run_beats_bitmap(s.insert(value)) {
                ContainerKind::Run
            } else {
                ContainerKind::Bitmap
            }
        } else {
            ContainerKind::Array
        },
        other => other,
    }
}

/// Representation after a value has been removed: a bitmap that falls below
/// the threshold becomes an array; nothing else changes.
pub open spec fn kind_after_remove(kind: ContainerKind, s: Set<u16>, value: u16) -> ContainerKind {
    match kind {
        ContainerKind::Bitmap => if s.contains(value) && s.len() - 1 < 4096 {
            ContainerKind::Array
        } else {
            ContainerKind::Bitmap
        },
        other => other,
    }
}

/// Representation that suits a set best, given the one it has.
pub open spec fn optimized_kind(kind: ContainerKind, s: Set<u16>) -> ContainerKind {
    let len = s.len();
    let runs = run_count(s);
    match kind {
        ContainerKind::Array => if runs < len / 2 && len >= 10 {
            ContainerKind::Run
        } else if len >= 4096 {
            ContainerKind::Bitmap
        } else {
            ContainerKind::Array
        },
        ContainerKind::Run => if runs > len / 2 || len < 10 {
            ContainerKind::Array
        } else {
            ContainerKind::Run
        },
        ContainerKind::Bitmap => if len < 4096 {
            if runs < len / 2 && runs > 10 {
                ContainerKind::Run
            } else {
                ContainerKind::Array
            }
        } else {
            ContainerKind::Bitmap
        },
    }
}

/// In an increasing sequence, the element at `n` begins a run of the first
/// `n + 1` elements exactly if it does not follow its predecessor directly,
/// and the run starts among the first `n` elements stay what they were.
pub proof fn lemma_run_starts_step(s: Seq<u16>, n: int)
    requires
        strictly_increasing(s),
        0 <= n < s.len(),
    ensures
        run_starts(s.take(n + 1).to_set()) == if n == 0 || s[n - 1] + 1 != s[n] {
            run_starts(s.take(n).to_set()).insert(s[n])
        } else {
            run_starts(s.take(n).to_set())
        },
        !run_starts(s.take(n).to_set()).contains(s[n]),
{
    let p = s.take(n);
    let q = s.take(n + 1);
    lemma_take_push_set(s, n);
    lemma_gap_not_member(p, n, s[n]);
    assert forall|v: u16| q.to_set().contains(v) && v != s[n] implies v < s[n] by {
        let k = choose|k: int| 0 <= k < p.len() && p[k] == v;
        assert(s[k] == v);
    }
    let target = if n == 0 || s[n - 1] + 1 != s[n] {
        run_starts(p.to_set()).insert(s[n])
    } else {
        run_starts(p.to_set())
    };
    assert forall|v: u16| run_starts(q.to_set()).contains(v) <==> target.contains(v) by {
        if v == s[n] {
            if n > 0 {
                assert(p[n - 1] == s[n - 1]);
                assert(p.to_set().contains(s[n - 1]));
                if s[n - 1] + 1 != s[n] {
                    let w = (v - 1) as u16;
                    if p.contains(w) {
                        let k = choose|k: int| 0 <= k < p.len() && p[k] == w;
                        assert(s[k] == w);
                        assert(k <= n - 1);
                        if k < n - 1 {
                            assert(s[k] < s[n - 1]);
                        }
                    }
                }
            } else {
                assert(p.to_set() =~= Set::<u16>::empty());
            }
        } else if p.to_set().contains(v) {
            assert(v < s[n]);
        }
    }
    assert(run_starts(q.to_set()) =~= target);
}

/// Well-formed runs are the maximal runs of the set they hold: there are as
/// many of them as the set has runs.
pub proof fn lemma_runs_count(runs: Seq<(u16, u16)>)
    requires
        runs_wf(runs),
    ensures
        run_count(cover_set(runs)) == runs.len(),
{
    let starts = runs.map_values(|r: (u16, u16)| r.0);
    assert(strictly_increasing(starts)) by {
        assert forall|i: int, j: int| 0 <= i < j < starts.len() implies starts[i] < starts[j] by {
            assert(runs[i].0 + runs[i].1 + 1 < runs[j].0);
        }
    }
    lemma_increasing_len(starts);
    let s = cover_set(runs);
    assert forall|v: u16| run_starts(s).contains(v) <==> starts.to_set().contains(v) by {
        if starts.contains(v) {
            let i = choose|i: int| 0 <= i < starts.len() && starts[i] == v;
            assert(run_has(runs[i], v));
            if v > 0 {
                let w = (v - 1) as u16;
                if runs_have(runs, w) {
                    let j = choose|j: int| 0 <= j < runs.len() && run_has(runs[j], w);
                    if j < i {
                        assert(runs[j].0 + runs[j].1 + 1 < runs[i].0);
                    } else if j > i {
                        assert(runs[i].0 + runs[i].1 + 1 < runs[j].0);
                    }
                }
            }
        }
        if run_starts(s).contains(v) {
            let i = choose|i: int| 0 <= i < runs.len() && run_has(runs[i], v);
            if runs[i].0 < v {
                assert(run_has(runs[i], (v - 1) as u16));
            }
            assert(starts[i] == v);
        }
    }
    assert(run_starts(s) =~= starts.to_set());
}

impl View for Container {
    type V = Set<u16>;

    open spec fn view(&self) -> Set<u16> {
        match self {
            Container::Array(a) => a@,
            Container::Bitmap(b) => b@,
            Container::Run(r) => r@,
        }
    }
}

impl Clone for Container {
    fn clone(&self) -> (copy: Self)
        ensures
            copy@ == self@,
            copy.wf() == self.wf(),
            copy.kind() == self.kind(),
    {
        match self {
            Container::Array(a) => Container::Array(a.clone()),
            Container::Bitmap(b) => Container::Bitmap(b.clone()),
            Container::Run(r) => Container::Run(r.clone()),
        }
    }
}

impl Container {
    /// The invariant of the representation in use.
    pub open spec fn wf(&self) -> bool {
        match self {
            Container::Array(a) => a.wf(),
            Container::Bitmap(b) => b.wf(),
            Container::Run(r) => r.wf(),
        }
    }

    /// The representation in use.
    pub open spec fn kind(&self) -> ContainerKind {
        match self {
            Container::Array(_) => ContainerKind::Array,
            Container::Bitmap(_) => ContainerKind::Bitmap,
            Container::Run(_) => ContainerKind::Run,
        }
    }

    /// Name of the representation in use.
    pub fn kind_label(&self) -> (name: &'static str)
        ensures
            name@ == kind_name(self.kind()),
    {
        match self {
            Container::Array(_) => "Array",
            Container::Bitmap(_) => "Bitmap",
            Container::Run(_) => "Run",
        }
    }

    /// Inserts a value; `true` if it was absent. An array that reaches the
    /// threshold by it is turned into runs, where those are much the
    /// smaller, or else into a bitmap.
    pub fn insert(&mut self, value: u16) -> (added: bool)
        requires
            old(self).wf(),
        ensures
            final(self).wf(),
            final(self)@ == old(self)@.insert(value),
            added == !old(self)@.contains(value),
            final(self).kind() == kind_after_insert(old(self).kind(), old(self)@, value),
    {
        let result = match self {
            Container::Array(array) => array.insert(value),
            Container::Bitmap(bitmap) => bitmap.insert(value),
            Container::Run(run) => run.insert(value),
        };
        proof {
            lemma_u16_set_finite(old(self)@);
        }
        if result {
            if let Container::Array(array) = self {
                if array.len() as usize >= ARRAY_TO_BITMAP_THRESHOLD {
                    if Self::run_better_than_bitmap_array(array) {
                        *self = Container::Run(RunContainer::from_array(array));
                    } else {
                        *self = Container::Bitmap(BitmapContainer::from_array(array));
                    }
                }
            }
        } else {
            assert(old(self)@.insert(value) =~= old(self)@);
        }
        result
    }

    /// Membership.
    pub fn contains(&self, value: u16) -> (found: bool)
        requires
            self.wf(),
        ensures
            found == self@.contains(value),
    {
        match self {
            Container::Array(array) => array.contains(value),
            Container::Bitmap(bitmap) => bitmap.contains(value),
            Container::Run(run) => run.contains(value),
        }
    }

    /// Removes a value; `true` if it was present. A bitmap that falls below
    /// the threshold by it is turned into an array; runs stay runs.
    pub fn remove(&mut self, value: u16) -> (removed: bool)
        requires
            old(self).wf(),
        ensures
            final(self).wf(),
            final(self)@ == old(self)@.remove(value),
            removed == old(self)@.contains(value),
            final(self).kind() == kind_after_remove(old(self).kind(), old(self)@, value),
    {
        let result = match self {
            Container::Array(array) => array.remove(value),
            Container::Bitmap(bitmap) => bitmap.remove(value),
            Container::Run(run) => run.remove(value),
        };
        proof {
            lemma_u16_set_finite(old(self)@);
        }
        if result {
            if let Container::Bitmap(bitmap) = self {
                if bitmap.len() < ARRAY_TO_BITMAP_THRESHOLD as u64 {
                    *self = Container::Array(bitmap.to_array());
                }
            }
        }
        result
    }

    /// Number of values held.
    pub fn len(&self) -> (n: u64)
        requires
            self.wf(),
        ensures
            n == self@.len(),
            n <= 65536,
    {
        proof {
            lemma_u16_set_bound(self@);
        }
        match self {
            Container::Array(array) => array.len(),
            Container::Bitmap(bitmap) => bitmap.len(),
            Container::Run(run) => run.len(),
        }
    }

    /// Whether no value is held.
    pub fn is_empty(&self) -> (empty: bool)
        requires
            self.wf(),
        ensures
            empty == (self@ == Set::<u16>::empty()),
    {
        match self {
            Container::Array(array) => array.is_empty(),
            Container::Bitmap(bitmap) => bitmap.is_empty(),
            Container::Run(run) => run.is_empty(),
        }
    }

    /// Bytes that the representation in use holds on the heap.
    pub fn heap_memory(&self) -> (bytes: usize)
        ensures
            heap_share(*self, bytes),
    {
        match self {
            Container::Array(array) => array.heap_memory(),
            Container::Bitmap(bitmap) => bitmap.heap_memory(),
            Container::Run(run) => run.heap_memory(),
        }
    }

    /// Turns the container into the representation that suits its values.
    pub fn optimize(&mut self)
        requires
            old(self).wf(),
        ensures
            final(self).wf(),
            final(self)@ == old(self)@,
            final(self).kind() == optimized_kind(old(self).kind(), old(self)@),
    {
        match self {
            Container::Array(array) => {
                let num_runs = Self::count_runs_array(array);
                let len = array.len() as usize;
                if num_runs < len / 2 && len >= 10 {
                    *self = Container::Run(RunContainer::from_array(array));
                } else if len >= ARRAY_TO_BITMAP_THRESHOLD {
                    *self = Container::Bitmap(BitmapContainer::from_array(array));
                }
            },
            Container::Run(run) => {
                let num_runs = run.runs.len();
                let len = run.len() as usize;
                proof {
                    lemma_runs_count(run.runs@);
                }
                if num_runs > len / 2 || len < 10 {
                    *self = Container::Array(run.to_array());
                }
            },
            Container::Bitmap(bitmap) => {
                let len = bitmap.len() as usize;
                proof {
                    lemma_u16_set_bound(bitmap@);
                }
                if len < ARRAY_TO_BITMAP_THRESHOLD {
                    let array = bitmap.to_array();
                    let num_runs = Self::count_runs_array(&array);
                    if num_runs < len / 2 && num_runs > 10 {
                        *self = Container::Run(RunContainer::from_array(&array));
                    } else {
                        *self = Container::Array(array);
                    }
                }
            },
        }
    }

    /// Counts the maximal runs of consecutive values in a sorted array.
    pub fn count_runs_array(array: &ArrayContainer) -> (runs: usize)
        requires
            array.wf(),
        ensures
            runs == run_count(array@),
            runs <= array.values@.len(),
    {
        if array.values.is_empty() {
            assert(run_starts(array@) =~= Set::<u16>::empty());
            return 0;
        }
        let mut runs: usize = 1;
        let mut i: usize = 1;
        proof {
            lemma_run_starts_step(array.values@, 0);
            assert(array.values@.take(0).to_set() =~= Set::<u16>::empty());
            assert(run_starts(Set::<u16>::empty()) =~= Set::<u16>::empty());
        }
        while i < array.values.len()
            invariant
                1 <= i <= array.values@.len(),
                array.wf(),
                runs == run_count(array.values@.take(i as int).to_set()),
                runs <= i,
            decreases array.values@.len() - i,
        {
            proof {
                lemma_run_starts_step(array.values@, i as int);
                lemma_u16_set_finite(run_starts(array.values@.take(i as int).to_set()));
                assert(array.values@[i - 1] < array.values@[i as int]);
            }
            if array.values[i] != array.values[i - 1] + 1 {
                runs += 1;
            }
            i += 1;
        }
        assert(array.values@.take(i as int) =~= array.values@);
        runs
    }

    /// Whether runs would serve an array that has reached the threshold
    /// better than a bitmap.
    pub fn run_better_than_bitmap_array(array: &ArrayContainer) -> (better: bool)
        requires
            array.wf(),
        ensures
            better == run_beats_bitmap(array@),
    {
        let num_runs = Self::count_runs_array(array);
        let len = array.len() as usize;
        proof {
            lemma_u16_set_bound(array@);
        }
        let run_bytes = num_runs * 4;
        let bitmap_bytes: usize = 8192;
        run_bytes < bitmap_bytes / 2 && num_runs < len / 4
    }
}

/// Representation of a result that was computed as a bitmap: an array
/// where it has fewer values than the threshold.
pub open spec fn settled_kind(result: Set<u16>) -> ContainerKind {
    if result.len() < 4096 {
        ContainerKind::Array
    } else {
        ContainerKind::Bitmap
    }
}

/// Representation of the union of two containers.
pub open spec fn union_kind(a: ContainerKind, b: ContainerKind, result: Set<u16>) -> ContainerKind {
    match (a, b) {
        (ContainerKind::Array, ContainerKind::Array) => if result.len() >= 4096 {
            ContainerKind::Bitmap
        } else {
            ContainerKind::Array
        },
        (ContainerKind::Run, ContainerKind::Run) => ContainerKind::Run,
        (ContainerKind::Run, ContainerKind::Array) => ContainerKind::Array,
        (ContainerKind::Array, ContainerKind::Run) => ContainerKind::Array,
        _ => ContainerKind::Bitmap,
    }
}

/// Representation of the intersection of two containers.
pub open spec fn intersection_kind(
    a: ContainerKind,
    b: ContainerKind,
    result: Set<u16>,
) -> ContainerKind {
    match (a, b) {
        (ContainerKind::Bitmap, ContainerKind::Bitmap) => settled_kind(result),
        (ContainerKind::Run, ContainerKind::Run) => ContainerKind::Run,
        _ => ContainerKind::Array,
    }
}

/// Representation of the difference of two containers.
pub open spec fn difference_kind(
    a: ContainerKind,
    b: ContainerKind,
    result: Set<u16>,
) -> ContainerKind {
    match (a, b) {
        (ContainerKind::Bitmap, _) => settled_kind(result),
        (ContainerKind::Run, ContainerKind::Run) => ContainerKind::Run,
        _ => ContainerKind::Array,
    }
}

/// Representation of the symmetric difference of two containers.
pub open spec fn symmetric_difference_kind(
    a: ContainerKind,
    b: ContainerKind,
    result: Set<u16>,
) -> ContainerKind {
    match (a, b) {
        (ContainerKind::Array, ContainerKind::Array) => ContainerKind::Array,
        (ContainerKind::Run, ContainerKind::Run) => ContainerKind::Run,
        (ContainerKind::Run, ContainerKind::Array) => ContainerKind::Array,
        (ContainerKind::Array, ContainerKind::Run) => ContainerKind::Array,
        _ => settled_kind(result),
    }
}

/// Sets in a bitmap the bit of every value of an array.
fn insert_all(bitmap: &mut BitmapContainer, array: &ArrayContainer)
    requires
        old(bitmap).wf(),
    ensures
        final(bitmap).wf(),
        final(bitmap)@ == old(bitmap)@.union(array@),
{
    let mut i: usize = 0;
    assert(bitmap@ =~= old(bitmap)@.union(array.values@.take(0).to_set()));
    while i < array.values.len()
        invariant
            i <= array.values@.len(),
            bitmap.wf(),
            bitmap@ == old(bitmap)@.union(array.values@.take(i as int).to_set()),
        decreases array.values@.len() - i,
    {
        proof {
            lemma_take_push_set(array.values@, i as int);
        }
        bitmap.insert(array.values[i]);
        i += 1;
        assert(bitmap@ =~= old(bitmap)@.union(array.values@.take(i as int).to_set()));
    }
    assert(array.values@.take(i as int) =~= array.values@);
}

/// Clears in a bitmap the bit of every value of an array.
fn remove_all(bitmap: &mut BitmapContainer, array: &ArrayContainer)
    requires
        old(bitmap).wf(),
    ensures
        final(bitmap).wf(),
        final(bitmap)@ == old(bitmap)@.difference(array@),
{
    let mut i: usize = 0;
    assert(bitmap@ =~= old(bitmap)@.difference(array.values@.take(0).to_set()));
    while i < array.values.len()
        invariant
            i <= array.values@.len(),
            bitmap.wf(),
            bitmap@ == old(bitmap)@.difference(array.values@.take(i as int).to_set()),
        decreases array.values@.len() - i,
    {
        proof {
            lemma_take_push_set(array.values@, i as int);
        }
        bitmap.remove(array.values[i]);
        i += 1;
        assert(bitmap@ =~= old(bitmap)@.difference(array.values@.take(i as int).to_set()));
    }
    assert(array.values@.take(i as int) =~= array.values@);
}

/// The values of an array whose presence in a bitmap is as asked: the shared
/// values where `present`, else those that the bitmap lacks. `None` when
/// there is none.
fn select(array: &ArrayContainer, bitmap: &BitmapContainer, present: bool) -> (result: Option<
    Container,
>)
    requires
        array.wf(),
    ensures
        result is None <==> selected(array@, bitmap@, present) == Set::<u16>::empty(),
        result matches Some(c) ==> c.wf() && c is Array && c@ == selected(
            array@,
            bitmap@,
            present,
        ),
{
    let mut values: Vec<u16> = Vec::new();
    let mut i: usize = 0;
    let ghost a = array.values@;
    assert(values@.to_set() =~= selected(a.take(0).to_set(), bitmap@, present));
    while i < array.values.len()
        invariant
            i <= a.len(),
            a == array.values@,
            strictly_increasing(a),
            strictly_increasing(values@),
            i < a.len() ==> forall|k: int| 0 <= k < values@.len() ==> values@[k] < a[i as int],
            values@.to_set() == selected(a.take(i as int).to_set(), bitmap@, present),
        decreases a.len() - i,
    {
        let value: u16 = array.values[i];
        proof {
            lemma_take_push_set(a, i as int);
        }
        if bitmap.contains(value) == present {
            proof {
                lemma_push_increasing(values@, value);
            }
            values.push(value);
        }
        i += 1;
        assert(values@.to_set() =~= selected(a.take(i as int).to_set(), bitmap@, present));
    }
    assert(a.take(i as int) =~= a);
    let out = ArrayContainer { values };
    if out.is_empty() {
        None
    } else {
        Some(Container::Array(out))
    }
}

/// The members of `a` that `b` holds, where `present`, else those it lacks.
pub open spec fn selected(a: Set<u16>, b: Set<u16>, present: bool) -> Set<u16> {
    if present {
        a.intersect(b)
    } else {
        a.difference(b)
    }
}

/// Gives a result that was computed as a bitmap its representation: an
/// array where it has fewer values than the threshold.
fn settle(bitmap: BitmapContainer) -> (result: Container)
    requires
        bitmap.wf(),
    ensures
        result.wf(),
        result@ == bitmap@,
        result.kind() == settled_kind(bitmap@),
{
    if bitmap.len() < ARRAY_TO_BITMAP_THRESHOLD as u64 {
        Container::Array(bitmap.to_array())
    } else {
        Container::Bitmap(bitmap)
    }
}

/// As `settle`, for a result that is absent when empty.
fn settle_some(bitmap: Option<BitmapContainer>) -> (result: Option<Container>)
    requires
        bitmap matches Some(b) ==> b.wf(),
    ensures
        result is None <==> bitmap is None,
        result matches Some(c) ==> c.wf() && c@ == bitmap->Some_0@ && c.kind() == settled_kind(
            c@,
        ),
{
    match bitmap {
        Some(b) => Some(settle(b)),
        None => None,
    }
}

/// Wraps an array result that is absent when empty.
fn array_some(array: Option<ArrayContainer>) -> (result: Option<Container>)
    ensures
        result is None <==> array is None,
        result matches Some(c) ==> c == Container::Array(array->Some_0),
{
    match array {
        Some(a) => Some(Container::Array(a)),
        None => None,
    }
}

/// Wraps a run result that is absent when empty.
fn run_some(run: Option<RunContainer>) -> (result: Option<Container>)
    ensures
        result is None <==> run is None,
        result matches Some(c) ==> c == Container::Run(run->Some_0),
{
    match run {
        Some(r) => Some(Container::Run(r)),
        None => None,
    }
}

impl Container {
    /// Union of two containers of any representations.
    pub fn union(&self, other: &Container) -> (result: Container)
        requires
            self.wf(),
            other.wf(),
        ensures
            result.wf(),
            result@ == self@.union(other@),
            result.kind() == union_kind(self.kind(), other.kind(), result@),
    {
        match (self, other) {
            (Container::Array(a), Container::Array(b)) => {
                let result = a.union(b);
                if result.len() as usize >= ARRAY_TO_BITMAP_THRESHOLD {
                    Container::Bitmap(BitmapContainer::from_array(&result))
                } else {
                    Container::Array(result)
                }
            },
            (Container::Bitmap(a), Container::Bitmap(b)) => Container::Bitmap(a.union(b)),
            (Container::Array(a), Container::Bitmap(b)) => {
                let mut result = b.clone();
                insert_all(&mut result, a);
                assert(result@ =~= self@.union(other@));
                Container::Bitmap(result)
            },
            (Container::Bitmap(a), Container::Array(b)) => {
                let mut result = a.clone();
                insert_all(&mut result, b);
                Container::Bitmap(result)
            },
            (Container::Run(a), Container::Run(b)) => Container::Run(a.union(b)),
            (Container::Run(r), Container::Array(a)) => {
                let run_array = r.to_array();
                Container::Array(run_array.union(a))
            },
            (Container::Array(a), Container::Run(r)) => {
                let run_array = r.to_array();
                let result = run_array.union(a);
                assert(result@ =~= self@.union(other@));
                Container::Array(result)
            },
            (Container::Run(r), Container::Bitmap(b)) => {
                let run_array = r.to_array();
                let mut result = b.clone();
                insert_all(&mut result, &run_array);
                assert(result@ =~= self@.union(other@));
                Container::Bitmap(result)
            },
            (Container::Bitmap(b), Container::Run(r)) => {
                let run_array = r.to_array();
                let mut result = b.clone();
                insert_all(&mut result, &run_array);
                Container::Bitmap(result)
            },
        }
    }

    /// Intersection of two containers of any representations; `None` when
    /// they share no value.
    pub fn intersection(&self, other: &Container) -> (result: Option<Container>)
        requires
            self.wf(),
            other.wf(),
        ensures
            result is None <==> self@.intersect(other@) == Set::<u16>::empty(),
            result matches Some(c) ==> c.wf() && c@ == self@.intersect(other@) && c.kind()
                == intersection_kind(self.kind(), other.kind(), c@),
    {
        match (self, other) {
            (Container::Array(a), Container::Array(b)) => array_some(a.intersection(b)),
            (Container::Bitmap(a), Container::Bitmap(b)) => settle_some(a.intersection(b)),
            (Container::Array(a), Container::Bitmap(b)) => select(a, b, true),
            (Container::Bitmap(a), Container::Array(b)) => {
                assert(b@.intersect(a@) =~= self@.intersect(other@));
                select(b, a, true)
            },
            (Container::Run(a), Container::Run(b)) => run_some(a.intersection(b)),
            (Container::Run(r), Container::Array(a)) => {
                let run_array = r.to_array();
                array_some(run_array.intersection(a))
            },
            (Container::Array(a), Container::Run(r)) => {
                let run_array = r.to_array();
                assert(run_array@.intersect(a@) =~= self@.intersect(other@));
                array_some(run_array.intersection(a))
            },
            (Container::Run(r), Container::Bitmap(b)) => {
                let run_array = r.to_array();
                select(&run_array, b, true)
            },
            (Container::Bitmap(b), Container::Run(r)) => {
                let run_array = r.to_array();
                assert(run_array@.intersect(b@) =~= self@.intersect(other@));
                select(&run_array, b, true)
            },
        }
    }

    /// Difference `self - other` of two containers of any representations;
    /// `None` when nothing is left.
    pub fn difference(&self, other: &Container) -> (result: Option<Container>)
        requires
            self.wf(),
            other.wf(),
        ensures
            result is None <==> self@.difference(other@) == Set::<u16>::empty(),
            result matches Some(c) ==> c.wf() && c@ == self@.difference(other@) && c.kind()
                == difference_kind(self.kind(), other.kind(), c@),
    {
        match (self, other) {
            (Container::Array(a), Container::Array(b)) => array_some(a.difference(b)),
            (Container::Bitmap(a), Container::Bitmap(b)) => settle_some(a.difference(b)),
            (Container::Array(a), Container::Bitmap(b)) => select(a, b, false),
            (Container::Bitmap(a), Container::Array(b)) => {
                let mut result = a.clone();
                remove_all(&mut result, b);
                if result.is_empty() {
                    None
                } else {
                    Some(settle(result))
                }
            },
            (Container::Run(a), Container::Run(b)) => run_some(a.difference(b)),
            (Container::Run(r), Container::Array(a)) => {
                let run_array = r.to_array();
                array_some(run_array.difference(a))
            },
            (Container::Array(a), Container::Run(r)) => {
                let run_array = r.to_array();
                array_some(a.difference(&run_array))
            },
            (Container::Run(r), Container::Bitmap(b)) => {
                let run_array = r.to_array();
                select(&run_array, b, false)
            },
            (Container::Bitmap(b), Container::Run(r)) => {
                let run_array = r.to_array();
                let mut result = b.clone();
                remove_all(&mut result, &run_array);
                if result.is_empty() {
                    None
                } else {
                    Some(settle(result))
                }
            },
        }
    }

    /// Symmetric difference of two containers of any representations;
    /// `None` when they hold the same values.
    pub fn symmetric_difference(&self, other: &Container) -> (result: Option<Container>)
        requires
            self.wf(),
            other.wf(),
        ensures
            result is None <==> sym_diff(self@, other@) == Set::<u16>::empty(),
            result matches Some(c) ==> c.wf() && c@ == sym_diff(self@, other@) && c.kind()
                == symmetric_difference_kind(self.kind(), other.kind(), c@),
    {
        match (self, other) {
            (Container::Array(a), Container::Array(b)) => array_some(a.symmetric_difference(b)),
            (Container::Bitmap(a), Container::Bitmap(b)) => settle_some(a.symmetric_difference(b)),
            (Container::Array(a), Container::Bitmap(b)) => {
                let a_bitmap = BitmapContainer::from_array(a);
                settle_some(a_bitmap.symmetric_difference(b))
            },
            (Container::Bitmap(b), Container::Array(a)) => {
                let a_bitmap = BitmapContainer::from_array(a);
                assert(sym_diff(a@, b@) =~= sym_diff(b@, a@));
                settle_some(a_bitmap.symmetric_difference(b))
            },
            (Container::Run(a), Container::Run(b)) => run_some(a.symmetric_difference(b)),
            (Container::Run(r), Container::Array(a)) => {
                let run_array = r.to_array();
                array_some(run_array.symmetric_difference(a))
            },
            (Container::Array(a), Container::Run(r)) => {
                let run_array = r.to_array();
                assert(sym_diff(a@, r@) =~= sym_diff(r@, a@));
                array_some(run_array.symmetric_difference(a))
            },
            (Container::Run(r), Container::Bitmap(b)) => {
                let run_array = r.to_array();
                let a_bitmap = BitmapContainer::from_array(&run_array);
                settle_some(a_bitmap.symmetric_difference(b))
            },
            (Container::Bitmap(b), Container::Run(r)) => {
                let run_array = r.to_array();
                let a_bitmap = BitmapContainer::from_array(&run_array);
                assert(sym_diff(r@, b@) =~= sym_diff(b@, r@));
                settle_some(a_bitmap.symmetric_difference(b))
            },
        }
    }
}

/// The four operations of set algebra.
#[derive(Clone, Copy, Debug)]
pub enum SetOp {
    Union,
    Intersection,
    Difference,
    SymmetricDifference,
}

/// What an operation makes of two sets.
pub open spec fn apply_op<T>(op: SetOp, a: Set<T>, b: Set<T>) -> Set<T> {
    match op {
        SetOp::Union => a.union(b),
        SetOp::Intersection => a.intersect(b),
        SetOp::Difference => a.difference(b),
        SetOp::SymmetricDifference => sym_diff(a, b),
    }
}

/// Representation of what an operation makes of two containers.
pub open spec fn combined_kind(
    op: SetOp,
    a: ContainerKind,
    b: ContainerKind,
    result: Set<u16>,
) -> ContainerKind {
    match op {
        SetOp::Union => union_kind(a, b, result),
        SetOp::Intersection => intersection_kind(a, b, result),
        SetOp::Difference => difference_kind(a, b, result),
        SetOp::SymmetricDifference => symmetric_difference_kind(a, b, result),
    }
}

impl SetOp {
    /// Whether the operation keeps what only its left operand holds.
    pub open spec fn keeps_left(self) -> bool {
        !(self is Intersection)
    }

    /// Whether the operation keeps what only its right operand holds.
    pub open spec fn keeps_right(self) -> bool {
        self is Union || self is SymmetricDifference
    }

    /// Whether a block that only the left operand has goes into the result.
    pub fn takes_left(self) -> (keep: bool)
        ensures
            keep == self.keeps_left(),
    {
        match self {
            SetOp::Intersection => false,
            _ => true,
        }
    }

    /// Whether a block that only the right operand has goes into the result.
    pub fn takes_right(self) -> (keep: bool)
        ensures
            keep == self.keeps_right(),
    {
        match self {
            SetOp::Union => true,
            SetOp::SymmetricDifference => true,
            _ => false,
        }
    }
}

impl Container {
    /// Applies an operation to two containers; `None` when the result is
    /// empty.
    pub fn combine(&self, other: &Container, op: SetOp) -> (result: Option<Container>)
        requires
            self.wf(),
            other.wf(),
        ensures
            result is None <==> apply_op(op, self@, other@) == Set::<u16>::empty(),
            result matches Some(c) ==> c.wf() && c@ == apply_op(op, self@, other@) && c.kind()
                == combined_kind(op, self.kind(), other.kind(), c@),
    {
        match op {
            SetOp::Union => {
                let c = self.union(other);
                if c.is_empty() {
                    None
                } else {
                    Some(c)
                }
            },
            SetOp::Intersection => self.intersection(other),
            SetOp::Difference => self.difference(other),
            SetOp::SymmetricDifference => self.symmetric_difference(other),
        }
    }
}

/// Whether `bytes` may be what a container holds on the heap: 8,192 for a
/// bitmap; for an array two bytes, and for runs four, for each item that the
/// vector has room for, which is at least as many as it holds.
pub open spec fn heap_share(c: Container, bytes: usize) -> bool {
    match c {
        Container::Array(a) => exists|capacity: usize|
            capacity >= a.values@.len() && bytes == #[trigger] heap_bytes_of(capacity, 2),
        Container::Bitmap(_) => bytes == 8192,
        Container::Run(r) => exists|capacity: usize|
            capacity >= r.runs@.len() && bytes == #[trigger] heap_bytes_of(capacity, 4),
    }
}

/// The name under which a representation is reported.
pub open spec fn kind_name(kind: ContainerKind) -> Seq<char> {
    match kind {
        ContainerKind::Array => "Array"@,
        ContainerKind::Bitmap => "Bitmap"@,
        ContainerKind::Run => "Run"@,
    }
}

} // verus!
