//! The merge of two sequences of entries under one of the set operations.

use vstd::prelude::*;
use crate::container::{Container, SetOp, apply_op, combined_kind};
use crate::entries::{
    block, entries_view, entries_wf, has_key, key_of, lemma_entry_insert, lemma_key_absent,
    lemma_slot, slot_of,
};

verus! {

/// How the entry of the result under a key answers to the entries of the
/// two operands under that key: where both have the key, the containers
/// combined, absent if that is empty; where one has it, that container or
/// nothing, as the operation keeps or drops that side; else nothing.
pub open spec fn merged_at(
    op: SetOp,
    a: Seq<(u16, Container)>,
    b: Seq<(u16, Container)>,
    r: Seq<(u16, Container)>,
    key: u16,
) -> bool {
    let x = a[slot_of(a, key)].1;
    let y = b[slot_of(b, key)].1;
    let z = r[slot_of(r, key)].1;
    if has_key(a, key) && has_key(b, key) {
        if apply_op(op, x@, y@) == Set::<u16>::empty() {
            !has_key(r, key)
        } else {
            has_key(r, key) && z@ == apply_op(op, x@, y@) && z.kind() == combined_kind(
                op,
                x.kind(),
                y.kind(),
                z@,
            )
        }
    } else if has_key(a, key) {
        if op.keeps_left() {
            has_key(r, key) && z@ == x@ && z.kind() == x.kind()
        } else {
            !has_key(r, key)
        }
    } else if has_key(b, key) {
        if op.keeps_right() {
            has_key(r, key) && z@ == y@ && z.kind() == y.kind()
        } else {
            !has_key(r, key)
        }
    } else {
        !has_key(r, key)
    }
}

/// Entries that answer key by key to those of two operands hold what the
/// operation makes of the operands' values.
pub proof fn lemma_merged_view(
    op: SetOp,
    a: Seq<(u16, Container)>,
    b: Seq<(u16, Container)>,
    r: Seq<(u16, Container)>,
)
    requires
        forall|key: u16| merged_at(op, a, b, r, key),
    ensures
        entries_view(r) == apply_op(op, entries_view(a), entries_view(b)),
{
    assert forall|v: u32| entries_view(r).contains(v) <==> apply_op(
        op,
        entries_view(a),
        entries_view(b),
    ).contains(v) by {
        assert(merged_at(op, a, b, r, key_of(v)));
    }
    assert(entries_view(r) =~= apply_op(op, entries_view(a), entries_view(b)));
}

/// Appending an entry whose key is past all keys present adds its key with
/// its block and changes no other.
pub proof fn lemma_entry_push(cs: Seq<(u16, Container)>, key: u16, c: Container)
    requires
        entries_wf(cs),
        forall|k: int| 0 <= k < cs.len() ==> (#[trigger] cs[k]).0 < key,
        c.wf(),
        c@ != Set::<u16>::empty(),
    ensures
        entries_wf(cs.push((key, c))),
        forall|k: u16| has_key(cs.push((key, c)), k) == (has_key(cs, k) || k == key),
        forall|k: u16|
            has_key(cs, k) ==> #[trigger] slot_of(cs.push((key, c)), k) == slot_of(cs, k),
        slot_of(cs.push((key, c)), key) == cs.len(),
{
    assert(cs.push((key, c)) =~= cs.insert(cs.len() as int, (key, c)));
    lemma_entry_insert(cs, cs.len() as int, key, c);
    let after = cs.push((key, c));
    lemma_slot(after, cs.len() as int);
    assert forall|k: u16| has_key(cs, k) implies #[trigger] slot_of(after, k) == slot_of(cs, k) by {
        let j = slot_of(cs, k);
        assert(after[j] == cs[j]);
        lemma_slot(after, j);
    }
}

/// The key at an index of an operand, or 65,536 at its end: the least key
/// that the operand has from that index on.
pub open spec fn key_from(cs: Seq<(u16, Container)>, i: int) -> int {
    if i < cs.len() {
        cs[i].0 as int
    } else {
        65536
    }
}

/// The keys below the least key that an operand has from an index on are
/// the keys of the entries before that index.
pub proof fn lemma_keys_below(cs: Seq<(u16, Container)>, i: int, key: u16)
    requires
        entries_wf(cs),
        0 <= i <= cs.len(),
    ensures
        has_key(cs, key) && key < key_from(cs, i) ==> slot_of(cs, key) < i,
        has_key(cs, key) && key >= key_from(cs, i) ==> slot_of(cs, key) >= i,
        i < cs.len() && key == cs[i].0 ==> has_key(cs, key) && slot_of(cs, key) == i,
        i > 0 ==> cs[i - 1].0 < key_from(cs, i),
{
    if has_key(cs, key) {
        let j = slot_of(cs, key);
        if i < cs.len() {
            if j < i {
                assert(cs[j].0 < cs[i].0);
            } else if j > i {
                assert(cs[i].0 < cs[j].0);
            }
        }
    }
    if i < cs.len() {
        lemma_slot(cs, i);
        if i > 0 {
            assert(cs[i - 1].0 < cs[i].0);
        }
    }
}

/// Merges two sorted sequences of entries in one pass: where both have a
/// key, the two containers are combined and kept unless empty; an entry that
/// one side alone has is copied or dropped as the operation asks.
#[verifier::rlimit(50)]
pub fn merge_entries(a: &Vec<(u16, Container)>, b: &Vec<(u16, Container)>, op: SetOp) -> (result:
    Vec<(u16, Container)>)
    requires
        entries_wf(a@),
        entries_wf(b@),
    ensures
        entries_wf(result@),
        forall|key: u16| merged_at(op, a@, b@, result@, key),
        entries_view(result@) == apply_op(op, entries_view(a@), entries_view(b@)),
{
    let mut result: Vec<(u16, Container)> = Vec::new();
    let mut i: usize = 0;
    let mut j: usize = 0;
    let keep_left = op.takes_left();
    let keep_right = op.takes_right();
    proof {
        assert forall|key: u16| key < min_key(a@, 0, b@, 0) implies merged_at(
            op,
            a@,
            b@,
            result@,
            key,
        ) by {
            lemma_keys_below(a@, 0, key);
            lemma_keys_below(b@, 0, key);
        }
    }
    while (i < a.len() && j < b.len()) || (keep_left && i < a.len()) || (keep_right && j < b.len())
        invariant
            i <= a@.len(),
            j <= b@.len(),
            keep_left == op.keeps_left(),
            keep_right == op.keeps_right(),
            entries_wf(a@),
            entries_wf(b@),
            entries_wf(result@),
            forall|k: int|
                0 <= k < result@.len() ==> (#[trigger] result@[k]).0 < min_key(
                    a@,
                    i as int,
                    b@,
                    j as int,
                ),
            forall|k: int|
                0 <= k < i ==> (#[trigger] a@[k]).0 < min_key(a@, i as int, b@, j as int),
            forall|k: int|
                0 <= k < j ==> (#[trigger] b@[k]).0 < min_key(a@, i as int, b@, j as int),
            forall|key: u16|
                key < min_key(a@, i as int, b@, j as int) ==> merged_at(op, a@, b@, result@, key),
        decreases a@.len() - i + b@.len() - j,
    {
        let ghost before = result@;
        let ghost i0 = i as int;
        let ghost j0 = j as int;
        let ghost low = min_key(a@, i0, b@, j0);
        let take_a: bool = i < a.len() && (j >= b.len() || a[i].0 <= b[j].0);
        let take_b: bool = j < b.len() && (i >= a.len() || b[j].0 <= a[i].0);
        let key: u16 = if take_a {
            a[i].0
        } else {
            b[j].0
        };
        assert(key == low);
        if take_a && take_b {
            proof {
                lemma_slot(a@, i0);
                lemma_slot(b@, j0);
            }
            match a[i].1.combine(&b[j].1, op) {
                Some(c) => {
                    proof {
                        lemma_entry_push(before, key, c);
                    }
                    result.push((key, c));
                },
                None => {
                    proof {
                        lemma_key_absent(before, before.len() as int, key);
                    }
                },
            }
            i += 1;
            j += 1;
        } else if take_a {
            proof {
                lemma_slot(a@, i0);
                lemma_keys_below(b@, j0, key);
            }
            if keep_left {
                let c = a[i].1.clone();
                proof {
                    lemma_entry_push(before, key, c);
                }
                result.push((key, c));
            } else {
                proof {
                    lemma_key_absent(before, before.len() as int, key);
                }
            }
            i += 1;
        } else {
            proof {
                lemma_slot(b@, j0);
                lemma_keys_below(a@, i0, key);
            }
            if keep_right {
                let c = b[j].1.clone();
                proof {
                    lemma_entry_push(before, key, c);
                }
                result.push((key, c));
            } else {
                proof {
                    lemma_key_absent(before, before.len() as int, key);
                }
            }
            j += 1;
        }
        proof {
            let high = min_key(a@, i as int, b@, j as int);
            lemma_keys_below(a@, i as int, key);
            lemma_keys_below(b@, j as int, key);
            assert(low < high);
            assert forall|k: u16| k < high implies merged_at(op, a@, b@, result@, k) by {
                if k < low {
                    assert(merged_at(op, a@, b@, before, k));
                    if has_key(before, k) {
                        let m = slot_of(before, k);
                        assert(result@[m] == before[m]);
                        lemma_slot(result@, m);
                    } else {
                        if has_key(result@, k) {
                            let m = slot_of(result@, k);
                            if m < before.len() {
                                assert(before[m].0 == k);
                            }
                        }
                    }
                } else if k == low {
                    if has_key(result@, k) {
                        let m = slot_of(result@, k);
                        if m < before.len() {
                            assert(before[m].0 < low);
                        }
                        lemma_slot(result@, result@.len() - 1);
                    }
                } else {
                    lemma_key_absent(a@, i as int, k);
                    lemma_key_absent(b@, j as int, k);
                    lemma_key_absent(result@, result@.len() as int, k);
                }
            }
        }
    }
    proof {
        assert forall|key: u16| merged_at(op, a@, b@, result@, key) by {
            let high = min_key(a@, i as int, b@, j as int);
            if key >= high {
                lemma_key_absent(result@, result@.len() as int, key);
                if i < a@.len() {
                    lemma_key_absent(b@, b@.len() as int, key);
                } else {
                    lemma_key_absent(a@, a@.len() as int, key);
                }
            }
        }
        lemma_merged_view(op, a@, b@, result@);
    }
    result
}

/// The least key that either operand has from the given indices on.
pub open spec fn min_key(
    a: Seq<(u16, Container)>,
    i: int,
    b: Seq<(u16, Container)>,
    j: int,
) -> int {
    if key_from(a, i) <= key_from(b, j) {
        key_from(a, i)
    } else {
        key_from(b, j)
    }
}

} // verus!
