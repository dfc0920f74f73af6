//! The linked row index: a free-list-like arena mapping each row to a chain
//! of slot positions in parallel column/value arrays kept by the owning
//! matrix.
//!
//! `pos_start[row]` holds the first slot of the row's chain and
//! `index_list[slot]` the next slot in the same chain; both are terminated
//! by the index type's sentinel.  The mathematical model is one sequence of
//! slot positions per row (`chain`), in insertion order.  A cached tail slot
//! per row makes appending O(1) instead of a walk of the whole chain; the
//! observable iteration order (insertion order within a row) is unchanged.

use vstd::prelude::*;
use crate::types::IndexType;

verus! {

/// Some chain contains slot `s`.
pub open spec fn slot_in_chains(ch: Seq<Seq<int>>, s: int) -> bool {
    exists|r: int, k: int| 0 <= r < ch.len() && 0 <= k < ch[r].len() && (#[trigger] ch[r][k]) == s
}

/// Sum of the lengths of all chains.
pub open spec fn sum_lens(ch: Seq<Seq<int>>) -> int
    decreases ch.len(),
{
    if ch.len() == 0 {
        0
    } else {
        sum_lens(ch.drop_last()) + ch.last().len()
    }
}

proof fn lemma_sum_lens_push_empty(ch: Seq<Seq<int>>)
    ensures
        sum_lens(ch.push(Seq::empty())) == sum_lens(ch),
{
    let ch2 = ch.push(Seq::<int>::empty());
    assert(ch2.drop_last() =~= ch);
}

proof fn lemma_sum_lens_update(ch: Seq<Seq<int>>, r: int, s: Seq<int>)
    requires
        0 <= r < ch.len(),
    ensures
        sum_lens(ch.update(r, s)) == sum_lens(ch) - ch[r].len() + s.len(),
    decreases ch.len(),
{
    let ch2 = ch.update(r, s);
    if r == ch.len() - 1 {
        assert(ch2.drop_last() =~= ch.drop_last());
        assert(ch2.last() == s);
    } else {
        assert(ch2.drop_last() =~= ch.drop_last().update(r, s));
        lemma_sum_lens_update(ch.drop_last(), r, s);
        assert(ch2.last() == ch.last());
    }
}

/// Every chain element is a valid slot, so each chain is no longer than the
/// number of slots; in particular an empty arena has only empty chains.
#[derive(Clone)]
pub struct IndexList<I> {
    pub pos_start: Vec<I>,
    pub index_list: Vec<I>,
    pub tail: Vec<I>,
    pub chains: Ghost<Seq<Seq<int>>>,
}

impl<I> IndexList<I>
    where I: IndexType
{
    /// Number of rows in the model.
    pub open spec fn spec_n_rows(&self) -> int {
        self.pos_start.len() as int
    }

    /// Number of slots (entries) in the model.
    pub open spec fn spec_n_entries(&self) -> int {
        self.index_list.len() as int
    }

    /// The chain of slot positions of row `r`, in insertion order.
    /// Rows outside the current range have an empty chain.
    pub open spec fn chain(&self, r: int) -> Seq<int> {
        if 0 <= r < self.chains@.len() {
            self.chains@[r]
        } else {
            Seq::empty()
        }
    }

    /// Well-formedness: the concrete arrays realize the ghost chains.
    pub open spec fn wf(&self) -> bool {
        let ch = self.chains@;
        &&& self.pos_start.len() == ch.len()
        &&& self.tail.len() == ch.len()
        &&& self.index_list.len() as int <= I::max_spec()
        &&& forall|r: int, k: int|
                0 <= r < ch.len() && 0 <= k < ch[r].len()
                    ==> 0 <= #[trigger] ch[r][k] < self.index_list.len()
        &&& forall|r: int|
                0 <= r < ch.len()
                    ==> (#[trigger] self.pos_start@[r].as_int())
                        == if ch[r].len() == 0 { I::max_spec() } else { ch[r][0] }
        &&& forall|r: int|
                0 <= r < ch.len()
                    ==> (#[trigger] self.tail@[r].as_int())
                        == if ch[r].len() == 0 { I::max_spec() } else { ch[r].last() }
        &&& forall|r: int, k: int|
                0 <= r < ch.len() && 0 <= k < ch[r].len() - 1
                    ==> (#[trigger] self.index_list@[ch[r][k]].as_int()) == ch[r][k + 1]
        &&& forall|r: int|
                0 <= r < ch.len() && ch[r].len() > 0
                    ==> (#[trigger] self.index_list@[ch[r].last()].as_int()) == I::max_spec()
        &&& forall|r1: int, k1: int, r2: int, k2: int|
                0 <= r1 < ch.len() && 0 <= k1 < ch[r1].len()
                && 0 <= r2 < ch.len() && 0 <= k2 < ch[r2].len()
                && (#[trigger] ch[r1][k1]) == (#[trigger] ch[r2][k2])
                    ==> r1 == r2 && k1 == k2
        &&& sum_lens(ch) == self.index_list.len()
        &&& forall|s: int|
                0 <= s < self.index_list.len() ==> #[trigger] slot_in_chains(ch, s)
    }

    /// Creates an empty index list.
    pub fn new() -> (r: Self)
        ensures
            r.wf(),
            r.spec_n_rows() == 0,
            r.spec_n_entries() == 0,
            forall|i: int| r.chain(i) == Seq::<int>::empty(),
    {
        proof {
            I::lemma_max_fits();
        }
        Self {
            pos_start: Vec::new(),
            index_list: Vec::new(),
            tail: Vec::new(),
            chains: Ghost(Seq::empty()),
        }
    }

    /// Creates an empty index list with reserved space.
    pub fn with_capacity(cap: usize) -> (r: Self)
        ensures
            r.wf(),
            r.spec_n_rows() == 0,
            r.spec_n_entries() == 0,
            forall|i: int| r.chain(i) == Seq::<int>::empty(),
    {
        proof {
            I::lemma_max_fits();
        }
        Self {
            pos_start: Vec::with_capacity(cap),
            index_list: Vec::with_capacity(cap),
            tail: Vec::with_capacity(cap),
            chains: Ghost(Seq::empty()),
        }
    }

    /// Returns the number of entries (slots) in the index list.
    pub fn n_entries(&self) -> (r: usize)
        ensures
            r as int == self.spec_n_entries(),
    {
        self.index_list.len()
    }

    /// Returns the number of rows.
    pub fn n_rows(&self) -> (r: usize)
        ensures
            r as int == self.spec_n_rows(),
    {
        self.pos_start.len()
    }

    /// Appends a new slot for `row` and returns its position.  The position
    /// equals the previous entry count, so the caller can keep column and
    /// value arrays in lock-step by pushing to them.  The capacity guard in
    /// the precondition keeps the new position strictly below the sentinel.
    pub fn push(&mut self, row: usize) -> (r: usize)
        requires
            old(self).wf(),
            old(self).spec_n_entries() + 1 <= I::max_spec(),
            row < usize::MAX,
        ensures
            final(self).wf(),
            final(self).spec_n_rows() == if row + 1 > old(self).spec_n_rows() {
                row + 1
            } else {
                old(self).spec_n_rows()
            },
            final(self).spec_n_entries() == old(self).spec_n_entries() + 1,
            r as int == old(self).spec_n_entries(),
            final(self).chain(row as int) == old(self).chain(row as int).push(
                old(self).spec_n_entries(),
            ),
            forall|r2: int| r2 != row as int ==> final(self).chain(r2) == old(self).chain(r2),
    {
        proof {
            I::lemma_max_fits();
        }
        // Grow the row table so that `row` exists, with empty chains.
        while self.pos_start.len() <= row
            invariant
                self.wf(),
                row < usize::MAX,
                self.index_list@ == old(self).index_list@,
                self.spec_n_rows() >= old(self).spec_n_rows(),
                self.spec_n_rows() == old(self).spec_n_rows() || (old(self).spec_n_rows() <= row
                    && self.spec_n_rows() <= row + 1),
                forall|r2: int| self.chain(r2) == old(self).chain(r2),
            decreases row + 1 - self.pos_start.len(),
        {
            let u = I::unset();
            self.pos_start.push(u);
            self.tail.push(u);
            proof {
                let chp = self.chains@;
                lemma_sum_lens_push_empty(chp);
                self.chains@ = chp.push(Seq::empty());
                assert forall|s: int| 0 <= s < self.index_list.len()
                    implies #[trigger] slot_in_chains(self.chains@, s) by {
                    assert(slot_in_chains(chp, s));
                    let (r0, k0) = choose|r0: int, k0: int|
                        0 <= r0 < chp.len() && 0 <= k0 < chp[r0].len()
                        && (#[trigger] chp[r0][k0]) == s;
                    assert(self.chains@[r0][k0] == s);
                };
                assert(self.wf());
            }
        }
        let ghost mid = *self;
        let slot: usize = self.index_list.len();
        let index = I::from_usize(slot);
        let u = I::unset();
        self.index_list.push(u);
        let start = self.pos_start[row];
        if start.eq_ix(u) {
            proof {
                // A nonempty chain's head is a valid slot, strictly below
                // the sentinel, so the row's chain must be empty here.
                if mid.chains@[row as int].len() > 0 {
                    assert(mid.pos_start@[row as int].as_int() == mid.chains@[row as int][0]);
                    assert(false);
                }
            }
            self.pos_start[row] = index;
            self.tail[row] = index;
        } else {
            proof {
                if mid.chains@[row as int].len() == 0 {
                    assert(mid.pos_start@[row as int].as_int() == I::max_spec());
                    assert(false);
                }
                assert(mid.tail@[row as int].as_int() == mid.chains@[row as int].last());
                assert(0 <= mid.tail@[row as int].as_int() < mid.index_list@.len());
            }
            let t = self.tail[row];
            let ti = t.as_usize();
            self.index_list[ti] = index;
            self.tail[row] = index;
        }
        proof {
            let r_int = row as int;
            let ch0 = mid.chains@;
            let oldc = ch0[r_int];
            let newc = oldc.push(slot as int);
            let ch1 = ch0.update(r_int, newc);
            lemma_sum_lens_update(ch0, r_int, newc);
            self.chains@ = ch1;

            // Where the concrete arrays were written, relative to `mid`.
            assert(self.index_list@ == if oldc.len() == 0 {
                mid.index_list@.push(u)
            } else {
                mid.index_list@.push(u).update(oldc.last(), index)
            });
            assert(self.pos_start@ == if oldc.len() == 0 {
                mid.pos_start@.update(r_int, index)
            } else {
                mid.pos_start@
            });
            assert(self.tail@ == mid.tail@.update(r_int, index));

            // Bounds of chain elements.
            assert forall|r: int, k: int|
                0 <= r < ch1.len() && 0 <= k < ch1[r].len()
                    implies 0 <= #[trigger] ch1[r][k] < self.index_list@.len() by {
                if !(r == r_int && k == newc.len() - 1) {
                    assert(ch1[r][k] == ch0[r][k]);
                }
            };

            // Chain heads.
            assert forall|r: int| 0 <= r < ch1.len()
                implies (#[trigger] self.pos_start@[r].as_int())
                    == if ch1[r].len() == 0 { I::max_spec() } else { ch1[r][0] } by {
                if r == r_int {
                    if oldc.len() == 0 {
                        assert(self.pos_start@[r] == index);
                        assert(ch1[r][0] == slot as int);
                    } else {
                        assert(self.pos_start@[r].as_int() == oldc[0]);
                        assert(ch1[r][0] == oldc[0]);
                    }
                }
            };

            // Chain tails.
            assert forall|r: int| 0 <= r < ch1.len()
                implies (#[trigger] self.tail@[r].as_int())
                    == if ch1[r].len() == 0 { I::max_spec() } else { ch1[r].last() } by {
                if r == r_int {
                    assert(self.tail@[r] == index);
                    assert(ch1[r].last() == slot as int);
                }
            };

            // Links within each chain.
            assert forall|r: int, k: int|
                0 <= r < ch1.len() && 0 <= k < ch1[r].len() - 1
                    implies (#[trigger] self.index_list@[ch1[r][k]].as_int()) == ch1[r][k + 1] by {
                if r == r_int && k == oldc.len() - 1 {
                    assert(ch1[r][k] == oldc.last());
                    assert(self.index_list@[oldc.last()] == index);
                    assert(ch1[r][k + 1] == slot as int);
                } else {
                    assert(ch1[r][k] == ch0[r][k]);
                    assert(ch1[r][k + 1] == ch0[r][k + 1]);
                    assert(mid.index_list@[ch0[r][k]].as_int() == ch0[r][k + 1]);
                    assert(0 <= ch0[r][k] < mid.index_list@.len());
                    if oldc.len() > 0 {
                        // The one overwritten cell is the old tail of row
                        // `row`, which is distinct from this chain position.
                        assert(ch0[r_int][oldc.len() - 1] == oldc.last());
                        assert(ch0[r][k] != oldc.last());
                    }
                    assert(self.index_list@[ch0[r][k]] == mid.index_list@[ch0[r][k]]);
                }
            };

            // Each chain's last slot carries the sentinel.
            assert forall|r: int| 0 <= r < ch1.len() && ch1[r].len() > 0
                implies (#[trigger] self.index_list@[ch1[r].last()].as_int())
                    == I::max_spec() by {
                if r == r_int {
                    assert(ch1[r].last() == slot as int);
                    assert(self.index_list@[slot as int] == u);
                } else {
                    assert(ch1[r].last() == ch0[r].last());
                    assert(0 <= ch0[r].last() < mid.index_list@.len());
                    assert(mid.index_list@[ch0[r].last()].as_int() == I::max_spec());
                    if oldc.len() > 0 {
                        assert(ch0[r_int][oldc.len() - 1] == oldc.last());
                        assert(ch0[r][ch0[r].len() - 1] == ch0[r].last());
                        assert(ch0[r].last() != oldc.last());
                    }
                    assert(self.index_list@[ch0[r].last()] == mid.index_list@[ch0[r].last()]);
                }
            };

            // Disjointness of chain positions.
            assert forall|r1: int, k1: int, r2: int, k2: int|
                0 <= r1 < ch1.len() && 0 <= k1 < ch1[r1].len()
                && 0 <= r2 < ch1.len() && 0 <= k2 < ch1[r2].len()
                && (#[trigger] ch1[r1][k1]) == (#[trigger] ch1[r2][k2])
                    implies r1 == r2 && k1 == k2 by {
                let new1 = r1 == r_int && k1 == newc.len() - 1;
                let new2 = r2 == r_int && k2 == newc.len() - 1;
                if new1 && !new2 {
                    assert(ch1[r2][k2] == ch0[r2][k2]);
                    assert(ch0[r2][k2] < mid.index_list@.len());
                    assert(false);
                } else if !new1 && new2 {
                    assert(ch1[r1][k1] == ch0[r1][k1]);
                    assert(ch0[r1][k1] < mid.index_list@.len());
                    assert(false);
                } else if !new1 && !new2 {
                    assert(ch1[r1][k1] == ch0[r1][k1]);
                    assert(ch1[r2][k2] == ch0[r2][k2]);
                }
            };

            // Completeness: every slot is on some chain.
            assert forall|s: int| 0 <= s < self.index_list.len()
                implies #[trigger] slot_in_chains(ch1, s) by {
                if s == slot as int {
                    assert(ch1[r_int][oldc.len() as int] == s);
                } else {
                    assert(slot_in_chains(ch0, s));
                    let (r0, k0) = choose|r0: int, k0: int|
                        0 <= r0 < ch0.len() && 0 <= k0 < ch0[r0].len()
                        && (#[trigger] ch0[r0][k0]) == s;
                    assert(ch1[r0][k0] == s);
                }
            };

            assert(self.wf());
            assert(final(self).chain(r_int) =~= old(self).chain(r_int).push(
                old(self).spec_n_entries(),
            ));
        }
        slot
    }

    /// Every chain element is a valid slot position.
    pub proof fn lemma_chain_elem_bound(&self, r: int, k: int)
        requires
            self.wf(),
            0 <= k < self.chain(r).len(),
        ensures
            0 <= self.chain(r)[k] < self.spec_n_entries(),
    {
    }

    /// Chain positions are pairwise disjoint: two distinct positions, in
    /// the same chain or in different chains, hold different slots.
    pub proof fn lemma_chain_disjoint(&self, r1: int, k1: int, r2: int, k2: int)
        requires
            self.wf(),
            0 <= k1 < self.chain(r1).len(),
            0 <= k2 < self.chain(r2).len(),
            !(r1 == r2 && k1 == k2),
        ensures
            self.chain(r1)[k1] != self.chain(r2)[k2],
    {
    }



    /// Materializes every entry as a `(row, slot)` pair, advancing across
    /// empty rows: the concatenation of `chain_slots` for every row in
    /// order.
    pub fn iter(&self) -> (r: Vec<(usize, usize)>)
        requires
            self.wf(),
        ensures
            r@ == all_slots_upto(self, self.spec_n_rows()),
    {
        let n = self.pos_start.len();
        let mut out: Vec<(usize, usize)> = Vec::new();
        let mut row: usize = 0;
        while row < n
            invariant
                self.wf(),
                n as int == self.spec_n_rows(),
                0 <= row <= n,
                out@ == all_slots_upto(self, row as int),
            decreases n - row,
        {
            let slots = self.chain_slots(row);
            let m = slots.len();
            let ghost base = out@;
            let mut k: usize = 0;
            while k < m
                invariant
                    self.wf(),
                    0 <= row < n,
                    m == slots@.len(),
                    m == self.chain(row as int).len(),
                    forall|k2: int| 0 <= k2 < m
                        ==> (#[trigger] slots@[k2]) as int == self.chain(row as int)[k2],
                    0 <= k <= m,
                    out@ == base + self.chain(row as int).take(k as int).map_values(
                        |s: int| (row, s as usize),
                    ),
                decreases m - k,
            {
                let slot = slots[k];
                out.push((row, slot));
                proof {
                    self.lemma_chain_elem_bound(row as int, k as int);
                    assert(out@ =~= base + self.chain(row as int).take(k as int + 1).map_values(
                        |s: int| (row, s as usize),
                    ));
                }
                k = k + 1;
            }
            proof {
                assert(self.chain(row as int).take(m as int) =~= self.chain(row as int));
                assert(out@ =~= all_slots_upto(self, row as int + 1));
            }
            row = row + 1;
        }
        out
    }

    /// Materializes the slot positions of `row`'s chain, in order.
    pub fn chain_slots(&self, row: usize) -> (r: Vec<usize>)
        requires
            self.wf(),
        ensures
            r@.len() == self.chain(row as int).len(),
            forall|k: int| 0 <= k < r@.len()
                ==> (#[trigger] r@[k]) as int == self.chain(row as int)[k],
    {
        let mut out: Vec<usize> = Vec::new();
        let mut it = self.iter_row(row);
        loop
            invariant_except_break
                it.wf(),
                it.list() == self,
                it.full_chain() == self.chain(row as int),
                0 <= it.k@ <= it.full_chain().len(),
                it.remaining() == it.full_chain().skip(it.k@),
                out@.len() == it.k@,
                forall|k: int| 0 <= k < out@.len()
                    ==> (#[trigger] out@[k]) as int == self.chain(row as int)[k],
            ensures
                out@.len() == self.chain(row as int).len(),
                forall|k: int| 0 <= k < out@.len()
                    ==> (#[trigger] out@[k]) as int == self.chain(row as int)[k],
            decreases it.full_chain().len() - it.k@,
        {
            let ghost k0 = it.k@;
            match it.next() {
                Some(slot) => {
                    proof {
                        assert(it.full_chain().skip(k0)[0] == it.full_chain()[k0]);
                    }
                    out.push(slot);
                },
                None => {
                    proof {
                        assert(it.full_chain().skip(k0).len() == 0);
                        assert(k0 == it.full_chain().len());
                    }
                    break;
                },
            }
        }
        out
    }

    /// Returns an iterator over the slot positions of `row`, in insertion
    /// order.  A row outside the current range yields nothing.
    pub fn iter_row(&self, row: usize) -> (r: IterRow<'_, I>)
        requires
            self.wf(),
        ensures
            r.wf(),
            r.list() == self,
            r.k@ == 0,
            r.full_chain() == self.chain(row as int),
            r.remaining() == self.chain(row as int),
    {
        let start = if row < self.pos_start.len() {
            self.pos_start[row]
        } else {
            I::unset()
        };
        IterRow::<I> {
            list: self,
            pos: start,
            row: Ghost(row as int),
            k: Ghost(0),
        }
    }
}

/// Iterator over the slot positions of one row's chain.
pub struct IterRow<'a, I> {
    pub list: &'a IndexList<I>,
    pub pos: I,
    pub row: Ghost<int>,
    pub k: Ghost<int>,
}

impl<'a, I> IterRow<'a, I>
    where I: IndexType
{
    /// The index list this iterator walks.
    pub open spec fn list(&self) -> &'a IndexList<I> {
        self.list
    }

    /// The whole chain this iterator walks.
    pub open spec fn full_chain(&self) -> Seq<int> {
        self.list.chain(self.row@)
    }

    /// The slot positions not yet yielded.
    pub open spec fn remaining(&self) -> Seq<int> {
        self.full_chain().skip(self.k@)
    }

    /// Well-formedness: the cursor sits at position `k` of the chain.
    pub open spec fn wf(&self) -> bool {
        &&& self.list.wf()
        &&& 0 <= self.k@ <= self.full_chain().len()
        &&& self.pos.as_int() == if self.k@ < self.full_chain().len() {
                self.full_chain()[self.k@]
            } else {
                I::max_spec()
            }
    }

    /// Yields the next slot position of the row, or `None` at the end of
    /// the chain.
    pub fn next(&mut self) -> (r: Option<usize>)
        requires
            old(self).wf(),
        ensures
            final(self).wf(),
            final(self).list() == old(self).list(),
            final(self).full_chain() == old(self).full_chain(),
            old(self).remaining().len() > 0 ==> {
                &&& r == Some(old(self).remaining()[0] as usize)
                &&& final(self).k@ == old(self).k@ + 1
                &&& final(self).remaining() == old(self).remaining().skip(1)
            },
            old(self).remaining().len() == 0 ==> {
                &&& r is None
                &&& final(self).k@ == old(self).k@
                &&& final(self).remaining() == old(self).remaining()
            },
    {
        proof {
            I::lemma_max_fits();
        }
        let u = I::unset();
        if self.pos.eq_ix(u) {
            proof {
                if self.k@ < self.full_chain().len() {
                    // A chain element is a valid slot, strictly below the
                    // sentinel, so the cursor cannot equal the sentinel here.
                    assert(self.full_chain()[self.k@] < self.list.index_list@.len());
                    assert(false);
                }
                assert(old(self).remaining().len() == 0);
            }
            None
        } else {
            proof {
                assert(self.k@ < self.full_chain().len());
            }
            let index = self.pos.as_usize();
            let next = self.list.index_list[index];
            self.pos = next;
            proof {
                let ch = self.full_chain();
                let kk = self.k@;
                assert(ch[kk] == index as int);
                if kk < ch.len() - 1 {
                    assert(self.list.index_list@[ch[kk]].as_int() == ch[kk + 1]);
                } else {
                    assert(self.list.index_list@[ch.last()].as_int() == I::max_spec());
                }
                self.k@ = kk + 1;
                assert(final(self).remaining() =~= old(self).remaining().skip(1));
            }
            Some(index)
        }
    }
}


/// The `(row, slot)` pairs of rows `0 .. upto`, row by row in chain
/// order: the concatenation of every row's chain.
pub open spec fn all_slots_upto<I: IndexType>(list: &IndexList<I>, upto: int) -> Seq<
    (usize, usize),
>
    decreases upto,
{
    if upto <= 0 {
        Seq::empty()
    } else {
        all_slots_upto(list, upto - 1) + list.chain(upto - 1).map_values(
            |s: int| (((upto - 1) as usize), s as usize),
        )
    }
}

/// Builds a linked index whose chains are keyed by the given column of
/// each slot, pushing the slots in order.  Chain `j` then lists, in slot
/// order, exactly the slots whose column is `j`.
pub fn build_col_chains<I>(columns: &Vec<I>, cols: usize) -> (r: IndexList<I>)
    where I: IndexType
    requires
        columns@.len() as int <= I::max_spec(),
        cols as int <= I::max_spec(),
        forall|s: int| 0 <= s < columns@.len()
            ==> 0 <= (#[trigger] columns@[s]).as_int() < cols as int,
    ensures
        r.wf(),
        r.spec_n_entries() == columns@.len(),
        r.spec_n_rows() <= cols as int,
        forall|j: int, k: int|
            0 <= k < r.chain(j).len()
                ==> (#[trigger] columns@[r.chain(j)[k]]).as_int() == j,
        forall|s: int|
            0 <= s < columns@.len() ==> #[trigger] r.chain(columns@[s].as_int()).contains(s),
{
    proof {
        I::lemma_max_fits();
    }
    let nslots = columns.len();
    let mut ilc = IndexList::<I>::new();
    let mut s: usize = 0;
    while s < nslots
        invariant
            nslots == columns@.len(),
            nslots as int <= I::max_spec(),
            cols as int <= I::max_spec(),
            I::max_spec() <= usize::MAX as int,
            forall|s2: int| 0 <= s2 < columns@.len()
                ==> 0 <= (#[trigger] columns@[s2]).as_int() < cols as int,
            ilc.wf(),
            0 <= s <= nslots,
            ilc.spec_n_entries() == s,
            ilc.spec_n_rows() <= cols as int,
            forall|j: int, k: int|
                0 <= k < ilc.chain(j).len()
                    ==> (#[trigger] columns@[ilc.chain(j)[k]]).as_int() == j,
            forall|s2: int|
                0 <= s2 < s ==> #[trigger] ilc.chain(columns@[s2].as_int()).contains(s2),
        decreases nslots - s,
    {
        let ghost pre = ilc;
        let col = columns[s];
        let cu = col.as_usize();
        let _pushed: usize = ilc.push(cu);
        proof {
            assert(ilc.chain(cu as int) == pre.chain(cu as int).push(s as int));
            assert forall|j: int, k: int| 0 <= k < ilc.chain(j).len()
                implies (#[trigger] columns@[ilc.chain(j)[k]]).as_int() == j by {
                if j == cu as int && k == ilc.chain(j).len() - 1 {
                    assert(ilc.chain(j)[k] == s as int);
                } else {
                    assert(ilc.chain(j)[k] == pre.chain(j)[k]);
                }
            }
            assert forall|s2: int| 0 <= s2 < s + 1
                implies #[trigger] ilc.chain(columns@[s2].as_int()).contains(s2) by {
                let j2 = columns@[s2].as_int();
                if s2 == s as int {
                    assert(ilc.chain(j2).last() == s as int);
                    assert(ilc.chain(j2).contains(s2));
                } else {
                    assert(pre.chain(j2).contains(s2));
                    let k2 = choose|k2: int|
                        0 <= k2 < pre.chain(j2).len() && pre.chain(j2)[k2] == s2;
                    if j2 == cu as int {
                        assert(ilc.chain(j2)[k2] == s2);
                    } else {
                        assert(ilc.chain(j2) == pre.chain(j2));
                    }
                    assert(ilc.chain(j2).contains(s2));
                }
            }
        }
        s = s + 1;
    }
    ilc
}

} // verus!
