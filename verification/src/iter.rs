//! Iteration over a bitmap's values in increasing order.

use vstd::prelude::*;
use crate::bitmap::bits_has;
use crate::container::Container;
use crate::elements::{
    bits_seq, block_seq, entries_seq, lemma_bits_seq_prefix, lemma_bits_seq_zero_word,
    lemma_entries_seq_at, lemma_entries_seq_step, lemma_runs_seq_at, runs_seq,
};
use crate::entries::entries_wf;
use crate::roaring::RoaringBitmap;

verus! {

/// Iterator over the values of a bitmap, smallest first.
pub struct Iter<'a> {
    /// The bitmap that is walked.
    bitmap: &'a RoaringBitmap,
    /// Index of the container that is being walked.
    container_index: usize,
    /// Index within an array container, or index of the run in a run
    /// container.
    value_index: usize,
    /// In a bitmap container: index of the word that is being scanned.
    bitmap_word_index: usize,
    /// In a bitmap container: the word that is being scanned, or zero while
    /// none is loaded.
    bitmap_current_word: u64,
    /// In a bitmap container: position of the next bit to look at.
    bitmap_bit_position: u8,
    /// In a run container: offset of the next value within the run.
    run_offset: u16,
}

/// Taking one more run adds that run's values.
pub proof fn lemma_runs_seq_step(runs: Seq<(u16, u16)>, k: int)
    requires
        0 <= k < runs.len(),
    ensures
        runs_seq(runs.take(k + 1)).len() == runs_seq(runs.take(k)).len() + runs[k].1 + 1,
{
    assert(runs.take(k + 1).drop_last() =~= runs.take(k));
}

impl<'a> Iter<'a> {
    /// The bitmap that is walked.
    pub closed spec fn source(&self) -> RoaringBitmap {
        *self.bitmap
    }

    /// Position of the scan within a bitmap container.
    pub closed spec fn scan_position(&self) -> nat {
        (64 * self.bitmap_word_index + self.bitmap_bit_position) as nat
    }

    /// The fields that serve the scan of a bitmap container are at rest.
    pub closed spec fn scan_at_rest(&self) -> bool {
        self.bitmap_word_index == 0 && self.bitmap_bit_position == 0 && self.bitmap_current_word
            == 0
    }

    /// The state fits the container that is being walked.
    pub closed spec fn wf(&self) -> bool {
        let cs = self.bitmap.containers@;
        &&& entries_wf(cs)
        &&& self.container_index <= cs.len()
        &&& self.container_index < cs.len() ==> match cs[self.container_index as int].1 {
            Container::Array(a) => {
                &&& self.value_index <= a.values@.len()
                &&& self.run_offset == 0
                &&& self.scan_at_rest()
            },
            Container::Run(r) => {
                &&& self.value_index <= r.runs@.len()
                &&& self.value_index < r.runs@.len() ==> self.run_offset
                    <= r.runs@[self.value_index as int].1
                &&& self.value_index == r.runs@.len() ==> self.run_offset == 0
                &&& self.scan_at_rest()
            },
            Container::Bitmap(b) => {
                &&& self.value_index == 0
                &&& self.run_offset == 0
                &&& self.bitmap_word_index < 1024
                &&& self.bitmap_bit_position <= 64
                &&& (self.bitmap_current_word == 0 && self.bitmap_bit_position == 0)
                    || (self.bitmap_current_word != 0 && self.bitmap_current_word
                    == b.bits@[self.bitmap_word_index as int])
            },
        }
    }

    /// Number of values of the current container that have been yielded.
    pub closed spec fn local_done(&self) -> nat {
        let cs = self.bitmap.containers@;
        if self.container_index >= cs.len() {
            0
        } else {
            match cs[self.container_index as int].1 {
                Container::Array(_) => self.value_index as nat,
                Container::Run(r) => runs_seq(r.runs@.take(self.value_index as int)).len()
                    + self.run_offset as nat,
                Container::Bitmap(b) => bits_seq(b.bits@, self.scan_position()).len(),
            }
        }
    }

    /// Number of values that have been yielded.
    pub closed spec fn consumed(&self) -> nat {
        entries_seq(self.bitmap.containers@.take(self.container_index as int)).len()
            + self.local_done()
    }

    /// The values still to come, in the order in which they will come.
    pub open spec fn remaining(&self) -> Seq<u32> {
        self.source().elements().skip(self.consumed() as int)
    }

    /// A fresh iterator at the start of a bitmap.
    pub(crate) fn start(bitmap: &'a RoaringBitmap) -> (it: Iter<'a>)
        ensures
            it.wf(),
            it.source() == *bitmap,
            it.remaining() == bitmap.elements(),
    {
        proof {
            use_type_invariant(bitmap);
        }
        let mut first_word: u64 = 0;
        if !bitmap.containers.is_empty() {
            match &bitmap.containers[0].1 {
                Container::Bitmap(bm) => {
                    first_word = bm.bits[0];
                },
                _ => {},
            }
        }
        let it = Iter {
            bitmap,
            container_index: 0,
            value_index: 0,
            bitmap_word_index: 0,
            bitmap_current_word: first_word,
            bitmap_bit_position: 0,
            run_offset: 0,
        };
        proof {
            let cs = bitmap.containers@;
            assert(cs.take(0) =~= Seq::<(u16, Container)>::empty());
            if cs.len() > 0 {
                match cs[0].1 {
                    Container::Run(r) => {
                        assert(r.runs@.take(0) =~= Seq::<(u16, u16)>::empty());
                    },
                    _ => {},
                }
            }
            assert(it.consumed() == 0);
            assert(bitmap.elements().skip(0) =~= bitmap.elements());
        }
        it
    }

    /// Yields the next value, or `None` when all have been yielded.
    #[verifier::rlimit(60)]
    pub fn next(&mut self) -> (item: Option<u32>)
        requires
            old(self).wf(),
        ensures
            final(self).wf(),
            final(self).source() == old(self).source(),
            match item {
                Some(value) => {
                    &&& old(self).remaining().len() > 0
                    &&& value == old(self).remaining()[0]
                    &&& final(self).remaining() == old(self).remaining().skip(1)
                },
                None => {
                    &&& old(self).remaining().len() == 0
                    &&& final(self).remaining().len() == 0
                },
            },
    {
        let bitmap: &'a RoaringBitmap = self.bitmap;
        let ghost cs = bitmap.containers@;
        let ghost all = entries_seq(cs);
        let ghost done = self.consumed();
        loop
            invariant
                self.wf(),
                self.bitmap == bitmap,
                old(self).bitmap == bitmap,
                cs == bitmap.containers@,
                all == entries_seq(cs),
                done == self.consumed(),
                done == old(self).consumed(),
            decreases cs.len() - self.container_index,
        {
            if self.container_index >= bitmap.containers.len() {
                proof {
                    assert(cs.take(self.container_index as int) =~= cs);
                    assert(all.skip(done as int) =~= Seq::<u32>::empty());
                }
                return None;
            }
            let ghost ci = self.container_index as int;
            let key: u16 = bitmap.containers[self.container_index].0;
            proof {
                lemma_entries_seq_step(cs, ci);
            }
            match &bitmap.containers[self.container_index].1 {
                Container::Array(array) => {
                    if self.value_index < array.values.len() {
                        let low: u16 = array.values[self.value_index];
                        proof {
                            lemma_entries_seq_at(cs, ci, self.value_index as int);
                        }
                        self.value_index += 1;
                        proof {
                            assert(all.skip(done as int).skip(1) =~= all.skip(done as int + 1));
                        }
                        return Some(RoaringBitmap::combine(key, low));
                    } else {
                        self.container_index += 1;
                        self.value_index = 0;
                        proof {
                            self.lemma_fresh_container();
                        }
                        continue ;
                    }
                },
                Container::Bitmap(bm) => {
                    let ghost bits = bm.bits@;
                    loop
                        invariant_except_break
                            self.container_index == ci,
                            self.value_index == 0,
                            self.run_offset == 0,
                            self.bitmap_word_index < 1024,
                            self.bitmap_bit_position <= 64,
                            (self.bitmap_current_word == 0 && (self.bitmap_bit_position == 0
                                || self.bitmap_bit_position == 64)) || (self.bitmap_current_word
                                != 0 && self.bitmap_current_word
                                == bits[self.bitmap_word_index as int]),
                            done == entries_seq(cs.take(ci)).len() + bits_seq(
                                bits,
                                self.scan_position(),
                            ).len(),
                        invariant
                            0 <= ci < cs.len(),
                            cs.len() <= usize::MAX,
                            self.bitmap == bitmap,
                            old(self).bitmap == bitmap,
                            cs == bitmap.containers@,
                            entries_wf(cs),
                            all == entries_seq(cs),
                            cs[ci].1 == Container::Bitmap(*bm),
                            cs[ci].0 == key,
                            bits == bm.bits@,
                            done == old(self).consumed(),
                            entries_seq(cs.take(ci + 1)) == entries_seq(cs.take(ci)) + block_seq(
                                cs[ci].0,
                                cs[ci].1.elements(),
                            ),
                        ensures
                            self.wf(),
                            self.container_index == ci + 1,
                            done == self.consumed(),
                        decreases
                                3 * (1024 - self.bitmap_word_index) + (if self.bitmap_current_word
                                    != 0 {
                                    1int
                                } else if self.bitmap_bit_position == 0 {
                                    2int
                                } else {
                                    0int
                                }),
                    {
                        if self.bitmap_current_word == 0 {
                            if self.bitmap_bit_position == 0 && self.bitmap_word_index < 1024 {
                                self.bitmap_current_word = bm.bits[self.bitmap_word_index];
                                if self.bitmap_current_word != 0 {
                                    continue ;
                                }
                                proof {
                                    lemma_bits_seq_zero_word(
                                        bits,
                                        self.bitmap_word_index as nat,
                                        64,
                                    );
                                }
                            }
                            self.bitmap_word_index += 1;
                            if self.bitmap_word_index >= 1024 {
                                self.container_index += 1;
                                self.value_index = 0;
                                self.bitmap_word_index = 0;
                                self.bitmap_bit_position = 0;
                                self.bitmap_current_word = 0;
                                if self.container_index < bitmap.containers.len() {
                                    match &bitmap.containers[self.container_index].1 {
                                        Container::Bitmap(next_bm) => {
                                            self.bitmap_current_word = next_bm.bits[0];
                                        },
                                        _ => {},
                                    }
                                }
                                proof {
                                    self.lemma_fresh_container();
                                }
                                break ;
                            }
                            self.bitmap_current_word = bm.bits[self.bitmap_word_index];
                            self.bitmap_bit_position = 0;
                            continue ;
                        }
                        let ghost w0 = self.bitmap_word_index;
                        while self.bitmap_bit_position < 64
                            invariant
                                self.bitmap_word_index == w0,
                                self.container_index == ci,
                                self.value_index == 0,
                                self.run_offset == 0,
                                self.bitmap_word_index < 1024,
                                self.bitmap_bit_position <= 64,
                                self.bitmap_current_word != 0,
                                self.bitmap_current_word == bits[self.bitmap_word_index as int],
                                done == entries_seq(cs.take(ci)).len() + bits_seq(
                                    bits,
                                    self.scan_position(),
                                ).len(),
                                0 <= ci < cs.len(),
                                self.bitmap == bitmap,
                                old(self).bitmap == bitmap,
                                cs == bitmap.containers@,
                                entries_wf(cs),
                                all == entries_seq(cs),
                                cs[ci].1 == Container::Bitmap(*bm),
                                cs[ci].0 == key,
                                bits == bm.bits@,
                                done == old(self).consumed(),
                            decreases 64 - self.bitmap_bit_position,
                        {
                            let ghost m = self.scan_position();
                            proof {
                                assert(m as int / 64 == self.bitmap_word_index);
                                assert(m % 64 == self.bitmap_bit_position);
                            }
                            if (self.bitmap_current_word & (1u64 << self.bitmap_bit_position))
                                != 0 {
                                let low: u16 = (self.bitmap_word_index * 64
                                    + self.bitmap_bit_position as usize) as u16;
                                proof {
                                    assert(bits_has(bits, low));
                                    lemma_bits_seq_prefix(bits, m + 1, 65536);
                                    let p = bits_seq(bits, m).len() as int;
                                    assert(bits_seq(bits, 65536).take(p + 1)[p] == low);
                                    lemma_entries_seq_at(cs, ci, p);
                                    assert(all.skip(done as int).skip(1) =~= all.skip(done as int + 1));
                                }
                                self.bitmap_bit_position += 1;
                                return Some(RoaringBitmap::combine(key, low));
                            }
                            proof {
                                assert(!bits_has(bits, m as u16));
                            }
                            self.bitmap_bit_position += 1;
                        }
                        self.bitmap_current_word = 0;
                    }
                },
                Container::Run(run) => {
                    if self.value_index < run.runs.len() {
                        let (start, length) = run.runs[self.value_index];
                        if self.run_offset <= length {
                            let low: u16 = start + self.run_offset;
                            proof {
                                lemma_runs_seq_at(
                                    run.runs@,
                                    self.value_index as int,
                                    self.run_offset as int,
                                );
                                lemma_runs_seq_step(run.runs@, self.value_index as int);
                                let p = self.local_done() as int;
                                lemma_entries_seq_at(cs, ci, p);
                                assert(all.skip(done as int).skip(1) =~= all.skip(done as int + 1));
                            }
                            if self.run_offset == length {
                                self.value_index += 1;
                                self.run_offset = 0;
                            } else {
                                self.run_offset += 1;
                            }
                            return Some(RoaringBitmap::combine(key, low));
                        } else {
                            self.value_index += 1;
                            self.run_offset = 0;
                            continue ;
                        }
                    } else {
                        proof {
                            assert(run.runs@.take(self.value_index as int) =~= run.runs@);
                        }
                        self.container_index += 1;
                        self.value_index = 0;
                        self.run_offset = 0;
                        proof {
                            self.lemma_fresh_container();
                        }
                        continue ;
                    }
                },
            }
        }
    }

    /// At the start of a container nothing of it has been yielded.
    proof fn lemma_fresh_container(&self)
        requires
            entries_wf(self.bitmap.containers@),
            self.container_index <= self.bitmap.containers@.len(),
            self.value_index == 0,
            self.run_offset == 0,
            self.bitmap_word_index == 0,
            self.bitmap_bit_position == 0,
            self.container_index < self.bitmap.containers@.len() ==> match self.bitmap.containers@[self.container_index as int].1 {
                Container::Bitmap(b) => self.bitmap_current_word == 0 || self.bitmap_current_word
                    == b.bits@[0],
                _ => self.bitmap_current_word == 0,
            },
        ensures
            self.wf(),
            self.local_done() == 0,
    {
        let cs = self.bitmap.containers@;
        if self.container_index < cs.len() {
            match cs[self.container_index as int].1 {
                Container::Run(r) => {
                    assert(r.runs@.take(0) =~= Seq::<(u16, u16)>::empty());
                },
                _ => {},
            }
        }
    }
}

impl RoaringBitmap {
    /// An iterator over the values, smallest first.
    pub fn iter(&self) -> (it: Iter<'_>)
        ensures
            it.wf(),
            it.source() == *self,
            it.remaining() == self.elements(),
    {
        Iter::start(self)
    }
}

} // verus!
