//! The values of a bitmap as one increasing sequence: what an iteration
//! yields, container by container.

use vstd::prelude::*;
use crate::array::{strictly_increasing, lemma_push_increasing};
use crate::bitmap::{bits_has, set_below};
use crate::container::Container;
use crate::entries::{
    block, entries_view, entries_wf, key_of, lemma_entries_take, lemma_entry_insert, lemma_halves,
    lemma_key_absent, low_of, value_of,
};
use crate::roaring::RoaringBitmap;
use crate::run::{cover_set, lemma_cover_push, lemma_wf_take, runs_wf, span, total_len};

verus! {

/// A sequence of 32-bit values each smaller than all that follow it.
pub open spec fn increasing32(s: Seq<u32>) -> bool {
    forall|i: int, j: int| 0 <= i < j < s.len() ==> s[i] < s[j]
}

/// The set bits below position `m`, in increasing order.
pub open spec fn bits_seq(bits: Seq<u64>, m: nat) -> Seq<u16>
    decreases m,
{
    if m == 0 {
        Seq::<u16>::empty()
    } else if bits_has(bits, (m - 1) as u16) {
        bits_seq(bits, (m - 1) as nat).push((m - 1) as u16)
    } else {
        bits_seq(bits, (m - 1) as nat)
    }
}

/// The values of one run, in increasing order.
pub open spec fn run_values(r: (u16, u16)) -> Seq<u16> {
    Seq::new((r.1 + 1) as nat, |i: int| (r.0 + i) as u16)
}

/// The values of a sequence of runs, run after run.
pub open spec fn runs_seq(runs: Seq<(u16, u16)>) -> Seq<u16>
    decreases runs.len(),
{
    if runs.len() == 0 {
        Seq::<u16>::empty()
    } else {
        runs_seq(runs.drop_last()) + run_values(runs.last())
    }
}

/// The values of a block: each low half joined with the key.
pub open spec fn block_seq(key: u16, lows: Seq<u16>) -> Seq<u32> {
    Seq::new(lows.len(), |i: int| value_of(key, lows[i]))
}

impl Container {
    /// The low halves held, in the order in which an iteration meets them.
    pub open spec fn elements(&self) -> Seq<u16> {
        match self {
            Container::Array(a) => a.values@,
            Container::Bitmap(b) => bits_seq(b.bits@, 65536),
            Container::Run(r) => runs_seq(r.runs@),
        }
    }
}

/// The values of a sequence of entries, entry after entry.
pub open spec fn entries_seq(cs: Seq<(u16, Container)>) -> Seq<u32>
    decreases cs.len(),
{
    if cs.len() == 0 {
        Seq::<u32>::empty()
    } else {
        entries_seq(cs.drop_last()) + block_seq(cs.last().0, cs.last().1.elements())
    }
}

/// The set bits below a position, in order: increasing, all below the
/// position, and exactly the set bits below it.
pub proof fn lemma_bits_seq(bits: Seq<u64>, m: nat)
    requires
        m <= 65536,
    ensures
        strictly_increasing(bits_seq(bits, m)),
        forall|k: int| 0 <= k < bits_seq(bits, m).len() ==> bits_seq(bits, m)[k] < m,
        bits_seq(bits, m).to_set() == set_below(bits, m),
        bits_seq(bits, m).len() <= m,
    decreases m,
{
    if m == 0 {
        assert(bits_seq(bits, 0).to_set() =~= set_below(bits, 0));
    } else {
        let p = (m - 1) as nat;
        lemma_bits_seq(bits, p);
        let v = p as u16;
        if bits_has(bits, v) {
            lemma_push_increasing(bits_seq(bits, p), v);
            assert(set_below(bits, m) =~= set_below(bits, p).insert(v));
        } else {
            assert(set_below(bits, m) =~= set_below(bits, p));
        }
    }
}

/// The set bits below a position begin the set bits below any later one.
pub proof fn lemma_bits_seq_prefix(bits: Seq<u64>, m1: nat, m2: nat)
    requires
        m1 <= m2,
    ensures
        bits_seq(bits, m1).len() <= bits_seq(bits, m2).len(),
        bits_seq(bits, m2).take(bits_seq(bits, m1).len() as int) == bits_seq(bits, m1),
    decreases m2 - m1,
{
    if m1 == m2 {
        assert(bits_seq(bits, m2).take(bits_seq(bits, m1).len() as int) =~= bits_seq(bits, m1));
    } else {
        lemma_bits_seq_prefix(bits, m1, (m2 - 1) as nat);
        let q = bits_seq(bits, (m2 - 1) as nat);
        assert(bits_seq(bits, m2).take(bits_seq(bits, m1).len() as int) =~= q.take(
            bits_seq(bits, m1).len() as int,
        ));
    }
}

/// A word without set bits adds nothing between its first position and the
/// first position of the next word.
pub proof fn lemma_bits_seq_zero_word(bits: Seq<u64>, w: nat, k: nat)
    requires
        w < 1024,
        k <= 64,
        bits[w as int] == 0,
    ensures
        bits_seq(bits, 64 * w + k) == bits_seq(bits, 64 * w),
    decreases k,
{
    if k > 0 {
        lemma_bits_seq_zero_word(bits, w, (k - 1) as nat);
        let p = (64 * w + k - 1) as nat;
        assert(p as int / 64 == w);
        assert(0u64 & (1u64 << ((p % 64) as u64)) == 0) by (bit_vector);
    }
}

/// The values of well-formed runs, in order: increasing, exactly what the
/// runs hold, as many as the runs' lengths add up to, and none beyond the
/// end of the last run.
pub proof fn lemma_runs_seq(runs: Seq<(u16, u16)>)
    requires
        runs_wf(runs),
    ensures
        strictly_increasing(runs_seq(runs)),
        runs_seq(runs).to_set() == cover_set(runs),
        runs_seq(runs).len() == total_len(runs),
        runs.len() > 0 ==> forall|k: int|
            0 <= k < runs_seq(runs).len() ==> runs_seq(runs)[k] <= runs.last().0 + runs.last().1,
    decreases runs.len(),
{
    if runs.len() == 0 {
        assert(runs_seq(runs).to_set() =~= cover_set(runs));
    } else {
        let n = runs.len() - 1;
        let rest = runs.drop_last();
        let last = runs.last();
        assert(rest == runs.take(n));
        lemma_wf_take(runs, n);
        lemma_runs_seq(rest);
        let a = runs_seq(rest);
        let b = run_values(last);
        let s = a + b;
        if n > 0 {
            assert(rest.last() == runs[n - 1]);
            assert(runs[n - 1].0 + runs[n - 1].1 + 1 < runs[n].0);
        }
        assert forall|i: int, j: int| 0 <= i < j < s.len() implies s[i] < s[j] by {
            if j < a.len() {
            } else if i >= a.len() {
                assert(s[i] == b[i - a.len()]);
                assert(s[j] == b[j - a.len()]);
            } else {
                assert(s[j] == b[j - a.len()]);
            }
        }
        assert(runs =~= rest.push(last));
        lemma_cover_push(rest, last);
        assert forall|v: u16| s.to_set().contains(v) <==> cover_set(rest).union(
            span(last.0 as int, last.0 + last.1),
        ).contains(v) by {
            if a.contains(v) {
                let k = choose|k: int| 0 <= k < a.len() && a[k] == v;
                assert(s[k] == v);
                assert(a.to_set().contains(v));
            }
            if span(last.0 as int, last.0 + last.1).contains(v) {
                let k = v - last.0;
                assert(b[k] == v);
                assert(s[a.len() + k] == v);
            }
            if s.contains(v) {
                let k = choose|k: int| 0 <= k < s.len() && s[k] == v;
                if k < a.len() {
                    assert(a[k] == v);
                    assert(a.to_set().contains(v));
                } else {
                    assert(b[k - a.len()] == v);
                }
            }
        }
        assert(s.to_set() =~= cover_set(runs));
        assert forall|k: int| 0 <= k < s.len() implies s[k] <= last.0 + last.1 by {
            if k >= a.len() {
                assert(s[k] == b[k - a.len()]);
            }
        }
    }
}

/// The values of the first `k` runs begin the values of all runs, and the
/// values of run `k` follow them.
pub proof fn lemma_runs_seq_at(runs: Seq<(u16, u16)>, k: int, offset: int)
    requires
        0 <= k < runs.len(),
        0 <= offset <= runs[k].1,
        runs_wf(runs),
    ensures
        runs_seq(runs.take(k)).len() + offset < runs_seq(runs).len(),
        runs_seq(runs)[runs_seq(runs.take(k)).len() + offset] == runs[k].0 + offset,
    decreases runs.len(),
{
    let n = runs.len() - 1;
    let rest = runs.drop_last();
    assert(rest == runs.take(n));
    if k == n {
        let b = run_values(runs.last());
        assert(b[offset] == runs[k].0 + offset);
    } else {
        lemma_wf_take(runs, n);
        lemma_runs_seq_at(rest, k, offset);
        assert(rest.take(k) =~= runs.take(k));
    }
}

/// A well-formed container's elements are increasing and are exactly the
/// values it holds.
pub proof fn lemma_elements(c: Container)
    requires
        c.wf(),
    ensures
        strictly_increasing(c.elements()),
        c.elements().to_set() == c@,
        c.elements().len() == c@.len(),
{
    match c {
        Container::Array(a) => {},
        Container::Bitmap(b) => {
            lemma_bits_seq(b.bits@, 65536);
            assert(set_below(b.bits@, 65536) =~= b@);
        },
        Container::Run(r) => {
            lemma_runs_seq(r.runs@);
        },
    }
    crate::array::lemma_increasing_len(c.elements());
}

/// The elements of well-formed entries are increasing, are exactly the
/// values the entries hold, and all lie in blocks up to the last key.
pub proof fn lemma_entries_seq(cs: Seq<(u16, Container)>)
    requires
        entries_wf(cs),
    ensures
        increasing32(entries_seq(cs)),
        entries_seq(cs).to_set() == entries_view(cs),
        cs.len() > 0 ==> forall|k: int|
            0 <= k < entries_seq(cs).len() ==> key_of(entries_seq(cs)[k]) <= cs.last().0,
    decreases cs.len(),
{
    if cs.len() == 0 {
        assert(entries_seq(cs).to_set() =~= entries_view(cs));
    } else {
        let n = cs.len() - 1;
        let rest = cs.drop_last();
        let last = cs.last();
        assert(rest == cs.take(n));
        lemma_entries_take(cs, n);
        lemma_entries_seq(rest);
        lemma_elements(last.1);
        let e = last.1.elements();
        let a = entries_seq(rest);
        let b = block_seq(last.0, e);
        let s = a + b;
        if n > 0 {
            assert(rest.last() == cs[n - 1]);
            assert(cs[n - 1].0 < cs[n].0);
        }
        assert forall|i: int| 0 <= i < b.len() implies key_of(#[trigger] b[i]) == last.0 && low_of(
            b[i],
        ) == e[i] by {
            lemma_halves(0, last.0, e[i]);
        }
        assert forall|i: int, j: int| 0 <= i < j < s.len() implies s[i] < s[j] by {
            if j < a.len() {
            } else if i >= a.len() {
                assert(s[i] == b[i - a.len()]);
                assert(s[j] == b[j - a.len()]);
                assert(e[i - a.len()] < e[j - a.len()]);
            } else {
                assert(s[j] == b[j - a.len()]);
                assert(key_of(s[i]) < key_of(s[j]));
            }
        }
        assert forall|k: int| 0 <= k < rest.len() implies (#[trigger] rest[k]).0 < last.0 by {
            assert(rest[k] == cs[k]);
            assert(cs[k].0 < cs[n].0);
        }
        assert(cs =~= rest.push(last));
        assert(rest.push(last) =~= rest.insert(n, last));
        lemma_entry_insert(rest, n, last.0, last.1);
        lemma_key_absent(rest, n, last.0);
        assert forall|v: u32| s.to_set().contains(v) <==> entries_view(cs).contains(v) by {
            lemma_halves(v, 0, 0);
            if a.contains(v) {
                let k = choose|k: int| 0 <= k < a.len() && a[k] == v;
                assert(s[k] == v);
                assert(a.to_set().contains(v));
            }
            if s.contains(v) {
                let k = choose|k: int| 0 <= k < s.len() && s[k] == v;
                if k < a.len() {
                    assert(a[k] == v);
                    assert(a.to_set().contains(v));
                } else {
                    assert(b[k - a.len()] == v);
                    assert(e.contains(e[k - a.len()]));
                }
            }
            if entries_view(cs).contains(v) && key_of(v) == last.0 {
                let low = low_of(v);
                assert(e.to_set().contains(low));
                let k = choose|k: int| 0 <= k < e.len() && e[k] == low;
                assert(b[k] == v);
                assert(s[a.len() + k] == v);
            }
            if entries_view(cs).contains(v) && key_of(v) != last.0 {
                assert(entries_view(rest).contains(v));
                assert(a.to_set().contains(v));
            }
        }
        assert(s.to_set() =~= entries_view(cs));
        assert forall|k: int| 0 <= k < s.len() implies key_of(s[k]) <= last.0 by {
            if k >= a.len() {
                assert(s[k] == b[k - a.len()]);
            }
        }
    }
}

/// The elements of the first `k` entries begin the elements of all entries,
/// and the elements of entry `k` follow them.
pub proof fn lemma_entries_seq_at(cs: Seq<(u16, Container)>, k: int, p: int)
    requires
        0 <= k < cs.len(),
        0 <= p < cs[k].1.elements().len(),
    ensures
        entries_seq(cs.take(k)).len() + p < entries_seq(cs).len(),
        entries_seq(cs)[entries_seq(cs.take(k)).len() + p] == value_of(
            cs[k].0,
            cs[k].1.elements()[p],
        ),
    decreases cs.len(),
{
    let n = cs.len() - 1;
    let rest = cs.drop_last();
    assert(rest == cs.take(n));
    if k == n {
    } else {
        lemma_entries_seq_at(rest, k, p);
        assert(rest.take(k) =~= cs.take(k));
    }
}

/// The elements of the first `k + 1` entries are those of the first `k`
/// followed by those of entry `k`.
pub proof fn lemma_entries_seq_step(cs: Seq<(u16, Container)>, k: int)
    requires
        0 <= k < cs.len(),
    ensures
        entries_seq(cs.take(k + 1)) == entries_seq(cs.take(k)) + block_seq(
            cs[k].0,
            cs[k].1.elements(),
        ),
{
    assert(cs.take(k + 1).drop_last() =~= cs.take(k));
}

impl RoaringBitmap {
    /// The values of the bitmap in increasing order: what an iteration
    /// yields.
    pub open spec fn elements(&self) -> Seq<u32> {
        entries_seq(self.entries())
    }
}

} // verus!
