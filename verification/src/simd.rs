//! The vector-shaped backend: the bit-set contract on a vector of
//! fixed-size lane arrays whose total width matches a hardware vector
//! register.  Multi-element operations walk the container block by
//! block and touch every lane of a block between one read and one
//! write, which leaves the compiler free to map the per-block work onto
//! vector instructions; single-bit operations address just the one
//! lane.  The bit layout is the same as the flat-array backend's over
//! the lanes taken in order, so bit `i` lives in block `i / (L * w)`,
//! lane `(i / w) % L`, in-lane bit `i % w`.

use vstd::prelude::*;

use crate::slice::{
    bits_of_words, lemma_bit_index, lemma_count_word_step, lemma_update_one_bit, lemma_word_index,
    lemma_words_len_eq,
};
use crate::uint::BitWord;
use crate::{count_set, BitSet};
use vstd::array::ArrayAdditionalExecFns;

verus! {

broadcast use vstd::array::group_array_axioms;

/// The lane words of a block sequence, taken block by block, lane by
/// lane.
pub open spec fn words_flat<W: BitWord, const L: usize>(blocks: Seq<[W; L]>) -> Seq<W> {
    Seq::new(blocks.len() * (L as nat), |m: int| blocks[m / (L as int)]@[m % (L as int)])
}

/// Replacing one lane of one block replaces exactly one flat word.
pub proof fn lemma_flat_update<W: BitWord, const L: usize>(
    nb: Seq<[W; L]>,
    ob: Seq<[W; L]>,
    bk: int,
    ln: int,
    m: int,
    w: W,
)
    requires
        L >= 1,
        nb.len() == ob.len(),
        0 <= bk < ob.len(),
        0 <= ln < L,
        m == bk * L + ln,
        forall|x: int| 0 <= x < ob.len() && x != bk ==> nb[x] == ob[x],
        nb[bk]@ == ob[bk]@.update(ln, w),
    ensures
        words_flat(nb) =~= words_flat(ob).update(m, w),
{
    lemma_word_index(bk, ln, L as int, ob.len() as int);
    assert forall|x: int|
        0 <= x < nb.len() * L implies words_flat(nb)[x] == words_flat(ob).update(m, w)[x] by {
        lemma_bit_index(x, L as int, ob.len() as int);
        if x / (L as int) == bk {
            if x % (L as int) == ln {
                assert(x == m);
            } else {
                assert(x != m);
            }
        } else {
            assert(x != m);
        }
    }
}

/// Replacing one whole block changes exactly its own flat words.
pub proof fn lemma_flat_block_replace<W: BitWord, const L: usize>(
    nb: Seq<[W; L]>,
    ob: Seq<[W; L]>,
    bk: int,
)
    requires
        L >= 1,
        nb.len() == ob.len(),
        0 <= bk < ob.len(),
        forall|x: int| 0 <= x < ob.len() && x != bk ==> nb[x] == ob[x],
    ensures
        forall|m: int|
            0 <= m < nb.len() * L ==> #[trigger] words_flat(nb)[m] == (if m / (L as int) == bk {
                nb[bk]@[m % (L as int)]
            } else {
                words_flat(ob)[m]
            }),
{
    assert forall|m: int|
        0 <= m < nb.len() * L implies #[trigger] words_flat(nb)[m] == (if m / (L as int) == bk {
        nb[bk]@[m % (L as int)]
    } else {
        words_flat(ob)[m]
    }) by {
        lemma_bit_index(m, L as int, ob.len() as int);
    }
}

/// A position below the next block boundary and outside block `bk` lies
/// below block `bk` itself.
proof fn lemma_below_next_block(x: int, bk: int, l: int)
    requires
        l >= 1,
        0 <= bk,
        0 <= x < (bk + 1) * l,
        x / l != bk,
    ensures
        0 <= x < bk * l,
{
    lemma_bit_index(x, l, bk + 1);
    assert((x / l + 1) * l == x / l * l + l) by (nonlinear_arith);
    vstd::arithmetic::mul::lemma_mul_inequality(x / l + 1, bk, l);
}

/// A position at or beyond the next block boundary lies beyond block
/// `bk`.
proof fn lemma_above_block(x: int, bk: int, l: int)
    requires
        l >= 1,
        0 <= bk,
        (bk + 1) * l <= x,
    ensures
        x / l >= bk + 1,
{
    vstd::arithmetic::div_mod::lemma_fundamental_div_mod_converse((bk + 1) * l, l, bk + 1, 0);
    vstd::arithmetic::div_mod::lemma_div_is_ordered((bk + 1) * l, x, l);
}

/// The vector-shaped backend: a vector of `L`-lane word arrays.
impl<W: BitWord, const L: usize> BitSet for Vec<[W; L]> {
    open spec fn inv(&self) -> bool {
        L >= 1 && self@.len() * (L as nat) * W::word_bits() <= usize::MAX
    }

    open spec fn bits(&self) -> Seq<bool> {
        bits_of_words(words_flat(self@))
    }

    open spec fn is_bounded() -> bool {
        true
    }

    open spec fn and_bits(&self, rhs: &Self) -> Seq<bool> {
        Seq::new(self.bits().len(), |i: int| self.bits()[i] && rhs.bits()[i])
    }

    open spec fn xor_bits(&self, rhs: &Self) -> Seq<bool> {
        Seq::new(self.bits().len(), |i: int| self.bits()[i] != rhs.bits()[i])
    }

    fn bit_len(&self) -> (r: usize) {
        proof {
            W::word_bits_facts();
            assert(self@.len() * (L as nat) * W::word_bits() == (self@.len() * (L as nat))
                * W::word_bits()) by (nonlinear_arith);
            assert(self@.len() * (L as nat) <= self@.len() * (L as nat) * W::word_bits())
                by (nonlinear_arith)
                requires
                    W::word_bits() >= 1,
            ;
        }
        let nw = self.len() * L;
        proof {
            assert(words_flat(self@).len() == nw);
        }
        nw * W::word_size()
    }

    fn bit_test(&self, bit: usize) -> (r: bool) {
        proof {
            W::word_bits_facts();
            lemma_nw_bound::<W>(self@.len() as int, L as int);
            lemma_bit_index(bit as int, W::word_bits() as int, self@.len() as int * L);
            lemma_bit_index(bit as int / (W::word_bits() as int), L as int, self@.len() as int);
        }
        let ws = W::word_size();
        let wi = bit / ws;
        let bi = bit % ws;
        self[wi / L][wi % L].word_test(bi)
    }

    fn bit_set(&mut self, bit: usize) {
        let ghost fw0 = words_flat(old(self)@);
        proof {
            W::word_bits_facts();
            lemma_nw_bound::<W>(self@.len() as int, L as int);
            lemma_bit_index(bit as int, W::word_bits() as int, self@.len() as int * L);
            lemma_bit_index(bit as int / (W::word_bits() as int), L as int, self@.len() as int);
        }
        let ws = W::word_size();
        let wi = bit / ws;
        let bi = bit % ws;
        let bk = wi / L;
        let ln = wi % L;
        let mut blk = self[bk];
        let w = blk[ln].word_set(bi);
        blk.set(ln, w);
        self.set(bk, blk);
        proof {
            lemma_flat_update::<W, L>(self@, old(self)@, bk as int, ln as int, wi as int, w);
            lemma_update_one_bit::<W>(
                words_flat(self@),
                fw0,
                wi as int,
                bi as int,
                bit as int,
                true,
            );
            assert(self.bits() =~= old(self).bits().update(bit as int, true));
        }
    }

    fn bit_reset(&mut self, bit: usize) {
        let ghost fw0 = words_flat(old(self)@);
        proof {
            W::word_bits_facts();
            lemma_nw_bound::<W>(self@.len() as int, L as int);
            lemma_bit_index(bit as int, W::word_bits() as int, self@.len() as int * L);
            lemma_bit_index(bit as int / (W::word_bits() as int), L as int, self@.len() as int);
        }
        let ws = W::word_size();
        let wi = bit / ws;
        let bi = bit % ws;
        let bk = wi / L;
        let ln = wi % L;
        let mut blk = self[bk];
        let w = blk[ln].word_reset(bi);
        blk.set(ln, w);
        self.set(bk, blk);
        proof {
            lemma_flat_update::<W, L>(self@, old(self)@, bk as int, ln as int, wi as int, w);
            lemma_update_one_bit::<W>(
                words_flat(self@),
                fw0,
                wi as int,
                bi as int,
                bit as int,
                false,
            );
            assert(self.bits() =~= old(self).bits().update(bit as int, false));
        }
    }

    fn bit_flip(&mut self, bit: usize) {
        let ghost fw0 = words_flat(old(self)@);
        proof {
            W::word_bits_facts();
            lemma_nw_bound::<W>(self@.len() as int, L as int);
            lemma_bit_index(bit as int, W::word_bits() as int, self@.len() as int * L);
            lemma_bit_index(bit as int / (W::word_bits() as int), L as int, self@.len() as int);
        }
        let ws = W::word_size();
        let wi = bit / ws;
        let bi = bit % ws;
        let bk = wi / L;
        let ln = wi % L;
        let mut blk = self[bk];
        let w = blk[ln].word_flip(bi);
        blk.set(ln, w);
        self.set(bk, blk);
        proof {
            lemma_flat_update::<W, L>(self@, old(self)@, bk as int, ln as int, wi as int, w);
            lemma_update_one_bit::<W>(
                words_flat(self@),
                fw0,
                wi as int,
                bi as int,
                bit as int,
                !old(self).bits()[bit as int],
            );
            assert(self.bits() =~= old(self).bits().update(
                bit as int,
                !old(self).bits()[bit as int],
            ));
        }
    }

    fn bit_cond(&mut self, bit: usize, value: bool) {
        if value {
            self.bit_set(bit);
        } else {
            self.bit_reset(bit);
        }
        proof {
            assert(self.bits() =~= old(self).bits().update(bit as int, value));
        }
    }

    fn bit_init(&mut self, value: bool) {
        proof {
            W::word_bits_facts();
            lemma_nw_bound::<W>(self@.len() as int, L as int);
        }
        let ghost wb = W::word_bits() as int;
        let n = self.len();
        let w = W::word_fill(value);
        let filled: [W; L] = vstd::array::array_fill_for_copy_types::<W, L>(w);
        proof {
            assert(forall|t: int| 0 <= t < L ==> filled@[t] == w);
        }
        let mut bk: usize = 0;
        while bk < n
            invariant
                bk <= n,
                L >= 1,
                n == self@.len(),
                self.inv(),
                wb == W::word_bits() as int,
                forall|i: int| 0 <= i < W::word_bits() ==> #[trigger] w.bit_at(i) == value,
                forall|t: int| 0 <= t < L ==> filled@[t] == w,
                forall|x: int| 0 <= x < bk * L ==> #[trigger] words_flat(self@)[x] == w,
            decreases n - bk,
        {
            let ghost prev = self@;
            self.set(bk, filled);
            proof {
                W::word_bits_facts();
                lemma_flat_block_replace::<W, L>(self@, prev, bk as int);
                assert((bk as int + 1) * L == bk as int * L + L) by (nonlinear_arith);
                assert((bk as int + 1) * L <= n as int * L) by (nonlinear_arith)
                    requires
                        bk as int + 1 <= n as int,
                        L >= 1,
                ;
                assert forall|x: int|
                    0 <= x < (bk as int + 1) * L implies #[trigger] words_flat(self@)[x] == w by {
                    lemma_bit_index(x, L as int, n as int);
                    if x / (L as int) == bk as int {
                        assert(words_flat(self@)[x] == filled@[x % (L as int)]);
                        assert(filled@[x % (L as int)] == w);
                    } else {
                        lemma_below_next_block(x, bk as int, L as int);
                        assert(words_flat(self@)[x] == words_flat(prev)[x]);
                    }
                }
            }
            bk += 1;
        }
        proof {
            assert forall|i: int|
                0 <= i < self.bits().len() implies self.bits()[i] == value by {
                lemma_bit_index(i, wb, n as int * L);
            }
        }
    }

    fn bit_all(&self) -> (r: bool) {
        proof {
            W::word_bits_facts();
            lemma_nw_bound::<W>(self@.len() as int, L as int);
        }
        let ghost wb = W::word_bits() as int;
        let n = self.len();
        let mut bk: usize = 0;
        while bk < n
            invariant
                bk <= n,
                L >= 1,
                n == self@.len(),
                self.inv(),
                wb == W::word_bits() as int,
                forall|x: int, j: int|
                    0 <= x < bk * L && 0 <= j < W::word_bits() ==> #[trigger] words_flat(
                        self@,
                    )[x].bit_at(j),
            decreases n - bk,
        {
            let blk = self[bk];
            let mut ln: usize = 0;
            while ln < L
                invariant
                    ln <= L,
                    bk < n,
                    L >= 1,
                    n == self@.len(),
                    self.inv(),
                    wb == W::word_bits() as int,
                    blk == self@[bk as int],
                    forall|t: int, j: int|
                        0 <= t < ln && 0 <= j < W::word_bits() ==> #[trigger] blk@[t].bit_at(j),
                decreases L - ln,
            {
                if !blk[ln].word_full() {
                    proof {
                        W::word_bits_facts();
                        assert(exists|j: int|
                            0 <= j < W::word_bits() && !(#[trigger] blk@[ln as int].bit_at(j)));
                        let j = choose|j: int|
                            0 <= j < W::word_bits() && !(#[trigger] blk@[ln as int].bit_at(j));
                        lemma_word_index(bk as int, ln as int, L as int, n as int);
                        let m: int = bk as int * (L as int) + ln as int;
                        assert(words_flat(self@)[m] == blk@[ln as int]);
                        lemma_word_index(m, j, wb, n as int * L);
                        assert(!self.bits()[m * wb + j]);
                    }
                    return false;
                }
                ln += 1;
            }
            proof {
                W::word_bits_facts();
                assert((bk as int + 1) * L == bk as int * L + L) by (nonlinear_arith);
                assert((bk as int + 1) * L <= n as int * L) by (nonlinear_arith)
                    requires
                        bk as int + 1 <= n as int,
                        L >= 1,
                ;
                assert forall|x: int, j: int|
                    0 <= x < (bk as int + 1) * L && 0 <= j < W::word_bits() implies (
                #[trigger] words_flat(self@)[x].bit_at(j)) by {
                    lemma_bit_index(x, L as int, n as int);
                    if x / (L as int) == bk as int {
                        assert(words_flat(self@)[x] == blk@[x % (L as int)]);
                        assert(blk@[x % (L as int)].bit_at(j));
                    } else {
                        lemma_below_next_block(x, bk as int, L as int);
                    }
                }
            }
            bk += 1;
        }
        proof {
            assert forall|i: int| 0 <= i < self.bits().len() implies self.bits()[i] by {
                lemma_bit_index(i, wb, n as int * L);
            }
        }
        true
    }

    fn bit_any(&self) -> (r: bool) {
        proof {
            W::word_bits_facts();
            lemma_nw_bound::<W>(self@.len() as int, L as int);
        }
        let ghost wb = W::word_bits() as int;
        let n = self.len();
        let mut bk: usize = 0;
        while bk < n
            invariant
                bk <= n,
                L >= 1,
                n == self@.len(),
                self.inv(),
                wb == W::word_bits() as int,
                forall|x: int, j: int|
                    0 <= x < bk * L && 0 <= j < W::word_bits() ==> !(#[trigger] words_flat(
                        self@,
                    )[x].bit_at(j)),
            decreases n - bk,
        {
            let blk = self[bk];
            let mut ln: usize = 0;
            while ln < L
                invariant
                    ln <= L,
                    bk < n,
                    L >= 1,
                    n == self@.len(),
                    self.inv(),
                    wb == W::word_bits() as int,
                    blk == self@[bk as int],
                    forall|t: int, j: int|
                        0 <= t < ln && 0 <= j < W::word_bits() ==> !(#[trigger] blk@[t].bit_at(j)),
                decreases L - ln,
            {
                if blk[ln].word_any() {
                    proof {
                        W::word_bits_facts();
                        let j = choose|j: int|
                            0 <= j < W::word_bits() && #[trigger] blk@[ln as int].bit_at(j);
                        lemma_word_index(bk as int, ln as int, L as int, n as int);
                        let m: int = bk as int * (L as int) + ln as int;
                        assert(words_flat(self@)[m] == blk@[ln as int]);
                        lemma_word_index(m, j, wb, n as int * L);
                        assert(self.bits()[m * wb + j]);
                    }
                    return true;
                }
                ln += 1;
            }
            proof {
                W::word_bits_facts();
                assert((bk as int + 1) * L == bk as int * L + L) by (nonlinear_arith);
                assert((bk as int + 1) * L <= n as int * L) by (nonlinear_arith)
                    requires
                        bk as int + 1 <= n as int,
                        L >= 1,
                ;
                assert forall|x: int, j: int|
                    0 <= x < (bk as int + 1) * L && 0 <= j < W::word_bits() implies !(
                #[trigger] words_flat(self@)[x].bit_at(j)) by {
                    lemma_bit_index(x, L as int, n as int);
                    if x / (L as int) == bk as int {
                        assert(words_flat(self@)[x] == blk@[x % (L as int)]);
                        assert(!blk@[x % (L as int)].bit_at(j));
                    } else {
                        lemma_below_next_block(x, bk as int, L as int);
                    }
                }
            }
            bk += 1;
        }
        proof {
            assert forall|i: int| 0 <= i < self.bits().len() implies !self.bits()[i] by {
                lemma_bit_index(i, wb, n as int * L);
            }
        }
        false
    }

    fn bit_eq(&self, rhs: &Self) -> (r: bool) {
        proof {
            W::word_bits_facts();
            lemma_nw_bound::<W>(self@.len() as int, L as int);
            lemma_words_len_eq(
                self@.len() as int * L,
                rhs@.len() as int * L,
                W::word_bits() as int,
            );
            lemma_words_len_eq(self@.len() as int, rhs@.len() as int, L as int);
        }
        let ghost wb = W::word_bits() as int;
        let n = self.len();
        let mut bk: usize = 0;
        while bk < n
            invariant
                bk <= n,
                L >= 1,
                n == self@.len(),
                n == rhs@.len(),
                self.inv(),
                wb == W::word_bits() as int,
                forall|x: int, j: int|
                    0 <= x < bk * L && 0 <= j < W::word_bits() ==> (#[trigger] words_flat(self@)[x].bit_at(j)) == words_flat(rhs@)[x].bit_at(j),
            decreases n - bk,
        {
            let blk = self[bk];
            let rblk = rhs[bk];
            let mut ln: usize = 0;
            while ln < L
                invariant
                    ln <= L,
                    bk < n,
                    L >= 1,
                    n == self@.len(),
                    n == rhs@.len(),
                    self.inv(),
                    wb == W::word_bits() as int,
                    blk == self@[bk as int],
                    rblk == rhs@[bk as int],
                    forall|t: int, j: int|
                        0 <= t < ln && 0 <= j < W::word_bits() ==> (#[trigger] blk@[t].bit_at(j)) == rblk@[t].bit_at(j),
                decreases L - ln,
            {
                if !blk[ln].word_eq(rblk[ln]) {
                    proof {
                        W::word_bits_facts();
                        assert(exists|j: int|
                            0 <= j < W::word_bits() && (#[trigger] blk@[ln as int].bit_at(j))
                                != rblk@[ln as int].bit_at(j));
                        let j = choose|j: int|
                            0 <= j < W::word_bits() && (#[trigger] blk@[ln as int].bit_at(j))
                                != rblk@[ln as int].bit_at(j);
                        lemma_word_index(bk as int, ln as int, L as int, n as int);
                        let m: int = bk as int * (L as int) + ln as int;
                        assert(words_flat(self@)[m] == blk@[ln as int]);
                        assert(words_flat(rhs@)[m] == rblk@[ln as int]);
                        lemma_word_index(m, j, wb, n as int * L);
                        assert(self.bits()[m * wb + j] != rhs.bits()[m * wb + j]);
                    }
                    return false;
                }
                ln += 1;
            }
            proof {
                W::word_bits_facts();
                assert((bk as int + 1) * L == bk as int * L + L) by (nonlinear_arith);
                assert((bk as int + 1) * L <= n as int * L) by (nonlinear_arith)
                    requires
                        bk as int + 1 <= n as int,
                        L >= 1,
                ;
                assert forall|x: int, j: int|
                    0 <= x < (bk as int + 1) * L && 0 <= j < W::word_bits() implies (#[trigger] words_flat(self@)[x].bit_at(j)) == words_flat(rhs@)[x].bit_at(j) by {
                    lemma_bit_index(x, L as int, n as int);
                    if x / (L as int) == bk as int {
                        assert(words_flat(self@)[x] == blk@[x % (L as int)]);
                        assert(words_flat(rhs@)[x] == rblk@[x % (L as int)]);
                    } else {
                        lemma_below_next_block(x, bk as int, L as int);
                    }
                }
            }
            bk += 1;
        }
        proof {
            assert forall|i: int|
                0 <= i < self.bits().len() implies self.bits()[i] == rhs.bits()[i] by {
                lemma_bit_index(i, wb, n as int * L);
            }
        }
        true
    }

    fn bit_disjoint(&self, rhs: &Self) -> (r: bool) {
        proof {
            W::word_bits_facts();
            lemma_nw_bound::<W>(self@.len() as int, L as int);
            lemma_words_len_eq(
                self@.len() as int * L,
                rhs@.len() as int * L,
                W::word_bits() as int,
            );
            lemma_words_len_eq(self@.len() as int, rhs@.len() as int, L as int);
        }
        let ghost wb = W::word_bits() as int;
        let n = self.len();
        let mut bk: usize = 0;
        while bk < n
            invariant
                bk <= n,
                L >= 1,
                n == self@.len(),
                n == rhs@.len(),
                self.inv(),
                wb == W::word_bits() as int,
                forall|x: int, j: int|
                    0 <= x < bk * L && 0 <= j < W::word_bits() ==> !((#[trigger] words_flat(self@)[x].bit_at(j)) && words_flat(rhs@)[x].bit_at(j)),
            decreases n - bk,
        {
            let blk = self[bk];
            let rblk = rhs[bk];
            let mut ln: usize = 0;
            while ln < L
                invariant
                    ln <= L,
                    bk < n,
                    L >= 1,
                    n == self@.len(),
                    n == rhs@.len(),
                    self.inv(),
                    wb == W::word_bits() as int,
                    blk == self@[bk as int],
                    rblk == rhs@[bk as int],
                    forall|t: int, j: int|
                        0 <= t < ln && 0 <= j < W::word_bits() ==> !((#[trigger] blk@[t].bit_at(j)) && rblk@[t].bit_at(j)),
                decreases L - ln,
            {
                let d = blk[ln].word_and(rblk[ln]);
                if d.word_any() {
                    proof {
                        W::word_bits_facts();
                        let j = choose|j: int|
                            0 <= j < W::word_bits() && #[trigger] d.bit_at(j);
                        lemma_word_index(bk as int, ln as int, L as int, n as int);
                        let m: int = bk as int * (L as int) + ln as int;
                        assert(words_flat(self@)[m] == blk@[ln as int]);
                        assert(words_flat(rhs@)[m] == rblk@[ln as int]);
                        lemma_word_index(m, j, wb, n as int * L);
                        assert(self.bits()[m * wb + j] && rhs.bits()[m * wb + j]);
                    }
                    return false;
                }
                ln += 1;
            }
            proof {
                W::word_bits_facts();
                assert((bk as int + 1) * L == bk as int * L + L) by (nonlinear_arith);
                assert((bk as int + 1) * L <= n as int * L) by (nonlinear_arith)
                    requires
                        bk as int + 1 <= n as int,
                        L >= 1,
                ;
                assert forall|x: int, j: int|
                    0 <= x < (bk as int + 1) * L && 0 <= j < W::word_bits() implies !((#[trigger] words_flat(self@)[x].bit_at(j)) && words_flat(rhs@)[x].bit_at(j)) by {
                    lemma_bit_index(x, L as int, n as int);
                    if x / (L as int) == bk as int {
                        assert(words_flat(self@)[x] == blk@[x % (L as int)]);
                        assert(words_flat(rhs@)[x] == rblk@[x % (L as int)]);
                    } else {
                        lemma_below_next_block(x, bk as int, L as int);
                    }
                }
            }
            bk += 1;
        }
        proof {
            assert forall|i: int|
                0 <= i < self.bits().len() implies !(self.bits()[i] && rhs.bits()[i]) by {
                lemma_bit_index(i, wb, n as int * L);
            }
        }
        true
    }

    fn bit_subset(&self, rhs: &Self) -> (r: bool) {
        proof {
            W::word_bits_facts();
            lemma_nw_bound::<W>(self@.len() as int, L as int);
            lemma_words_len_eq(
                self@.len() as int * L,
                rhs@.len() as int * L,
                W::word_bits() as int,
            );
            lemma_words_len_eq(self@.len() as int, rhs@.len() as int, L as int);
        }
        let ghost wb = W::word_bits() as int;
        let n = self.len();
        let mut bk: usize = 0;
        while bk < n
            invariant
                bk <= n,
                L >= 1,
                n == self@.len(),
                n == rhs@.len(),
                self.inv(),
                wb == W::word_bits() as int,
                forall|x: int, j: int|
                    0 <= x < bk * L && 0 <= j < W::word_bits() ==> ((#[trigger] words_flat(self@)[x].bit_at(j)) ==> words_flat(rhs@)[x].bit_at(j)),
            decreases n - bk,
        {
            let blk = self[bk];
            let rblk = rhs[bk];
            let mut ln: usize = 0;
            while ln < L
                invariant
                    ln <= L,
                    bk < n,
                    L >= 1,
                    n == self@.len(),
                    n == rhs@.len(),
                    self.inv(),
                    wb == W::word_bits() as int,
                    blk == self@[bk as int],
                    rblk == rhs@[bk as int],
                    forall|t: int, j: int|
                        0 <= t < ln && 0 <= j < W::word_bits() ==> ((#[trigger] blk@[t].bit_at(j)) ==> rblk@[t].bit_at(j)),
                decreases L - ln,
            {
                let u = blk[ln].word_andnot(rblk[ln]);
                if u.word_any() {
                    proof {
                        W::word_bits_facts();
                        let j = choose|j: int|
                            0 <= j < W::word_bits() && #[trigger] u.bit_at(j);
                        lemma_word_index(bk as int, ln as int, L as int, n as int);
                        let m: int = bk as int * (L as int) + ln as int;
                        assert(words_flat(self@)[m] == blk@[ln as int]);
                        assert(words_flat(rhs@)[m] == rblk@[ln as int]);
                        lemma_word_index(m, j, wb, n as int * L);
                        assert(self.bits()[m * wb + j] && !rhs.bits()[m * wb + j]);
                    }
                    return false;
                }
                ln += 1;
            }
            proof {
                W::word_bits_facts();
                assert((bk as int + 1) * L == bk as int * L + L) by (nonlinear_arith);
                assert((bk as int + 1) * L <= n as int * L) by (nonlinear_arith)
                    requires
                        bk as int + 1 <= n as int,
                        L >= 1,
                ;
                assert forall|x: int, j: int|
                    0 <= x < (bk as int + 1) * L && 0 <= j < W::word_bits() implies ((#[trigger] words_flat(self@)[x].bit_at(j)) ==> words_flat(rhs@)[x].bit_at(j)) by {
                    lemma_bit_index(x, L as int, n as int);
                    if x / (L as int) == bk as int {
                        assert(words_flat(self@)[x] == blk@[x % (L as int)]);
                        assert(words_flat(rhs@)[x] == rblk@[x % (L as int)]);
                    } else {
                        lemma_below_next_block(x, bk as int, L as int);
                    }
                }
            }
            bk += 1;
        }
        proof {
            assert forall|i: int|
                0 <= i < self.bits().len() implies (self.bits()[i] ==> rhs.bits()[i]) by {
                lemma_bit_index(i, wb, n as int * L);
            }
        }
        true
    }

    fn bit_or(&mut self, rhs: &Self) {
        proof {
            W::word_bits_facts();
            lemma_nw_bound::<W>(self@.len() as int, L as int);
            lemma_words_len_eq(
                self@.len() as int * L,
                rhs@.len() as int * L,
                W::word_bits() as int,
            );
            lemma_words_len_eq(self@.len() as int, rhs@.len() as int, L as int);
        }
        let ghost wb = W::word_bits() as int;
        let ghost fw0 = words_flat(old(self)@);
        let ghost rfw = words_flat(rhs@);
        let n = self.len();
        let mut bk: usize = 0;
        while bk < n
            invariant
                bk <= n,
                L >= 1,
                n == self@.len(),
                n == rhs@.len(),
                n == old(self)@.len(),
                self.inv(),
                wb == W::word_bits() as int,
                fw0 == words_flat(old(self)@),
                rfw == words_flat(rhs@),
                forall|x: int| bk * L <= x < n * L ==> #[trigger] words_flat(self@)[x] == fw0[x],
                forall|x: int, j: int|
                    0 <= x < bk * L && 0 <= j < W::word_bits() ==> (#[trigger] words_flat(
                        self@,
                    )[x].bit_at(j)) == (fw0[x].bit_at(j) || rfw[x].bit_at(j)),
            decreases n - bk,
        {
            let ghost prev = self@;
            let mut blk = self[bk];
            let rblk = rhs[bk];
            let ghost oblk = blk;
            let mut ln: usize = 0;
            while ln < L
                invariant
                    ln <= L,
                    forall|t: int| ln <= t < L ==> blk@[t] == oblk@[t],
                    forall|t: int, j: int|
                        0 <= t < ln && 0 <= j < W::word_bits() ==> (#[trigger] blk@[t].bit_at(j))
                            == (oblk@[t].bit_at(j) || rblk@[t].bit_at(j)),
                decreases L - ln,
            {
                let w = blk[ln].word_or(rblk[ln]);
                blk.set(ln, w);
                ln += 1;
            }
            self.set(bk, blk);
            proof {
                W::word_bits_facts();
                lemma_flat_block_replace::<W, L>(self@, prev, bk as int);
                assert((bk as int + 1) * L == bk as int * L + L) by (nonlinear_arith);
                assert((bk as int + 1) * L <= n as int * L) by (nonlinear_arith)
                    requires
                        bk as int + 1 <= n as int,
                        L >= 1,
                ;
                assert forall|x: int|
                    (bk as int + 1) * L <= x < n as int * L implies #[trigger] words_flat(
                    self@,
                )[x] == fw0[x] by {
                    lemma_bit_index(x, L as int, n as int);
                    lemma_above_block(x, bk as int, L as int);
                    assert(words_flat(self@)[x] == words_flat(prev)[x]);
                }
                assert forall|x: int, j: int|
                    0 <= x < (bk as int + 1) * L && 0 <= j < W::word_bits() implies (
                #[trigger] words_flat(self@)[x].bit_at(j)) == (fw0[x].bit_at(j) || rfw[x].bit_at(j)) by {
                    lemma_bit_index(x, L as int, n as int);
                    if x / (L as int) == bk as int {
                        assert(words_flat(prev)[x] == fw0[x]);
                        assert(words_flat(prev)[x] == oblk@[x % (L as int)]);
                        assert(rfw[x] == rblk@[x % (L as int)]);
                        assert(words_flat(self@)[x] == blk@[x % (L as int)]);
                        assert(blk@[x % (L as int)].bit_at(j) == (oblk@[x % (L as int)].bit_at(j) || rblk@[x % (L as int)].bit_at(j)));
                    } else {
                        lemma_below_next_block(x, bk as int, L as int);
                        assert(words_flat(self@)[x].bit_at(j) == words_flat(prev)[x].bit_at(
                            j,
                        ));
                    }
                }
            }
            bk += 1;
        }
        proof {
            let tgt = Seq::new(old(self).bits().len(), |i: int| old(self).bits()[i] || rhs.bits()[i]);
            assert forall|i: int|
                0 <= i < self.bits().len() implies self.bits()[i] == tgt[i] by {
                lemma_bit_index(i, wb, n as int * L);
            }
            assert(self.bits() =~= tgt);
            
        }
    }

    fn bit_and(&mut self, rhs: &Self) {
        proof {
            W::word_bits_facts();
            lemma_nw_bound::<W>(self@.len() as int, L as int);
            lemma_words_len_eq(
                self@.len() as int * L,
                rhs@.len() as int * L,
                W::word_bits() as int,
            );
            lemma_words_len_eq(self@.len() as int, rhs@.len() as int, L as int);
        }
        let ghost wb = W::word_bits() as int;
        let ghost fw0 = words_flat(old(self)@);
        let ghost rfw = words_flat(rhs@);
        let n = self.len();
        let mut bk: usize = 0;
        while bk < n
            invariant
                bk <= n,
                L >= 1,
                n == self@.len(),
                n == rhs@.len(),
                n == old(self)@.len(),
                self.inv(),
                wb == W::word_bits() as int,
                fw0 == words_flat(old(self)@),
                rfw == words_flat(rhs@),
                forall|x: int| bk * L <= x < n * L ==> #[trigger] words_flat(self@)[x] == fw0[x],
                forall|x: int, j: int|
                    0 <= x < bk * L && 0 <= j < W::word_bits() ==> (#[trigger] words_flat(
                        self@,
                    )[x].bit_at(j)) == (fw0[x].bit_at(j) && rfw[x].bit_at(j)),
            decreases n - bk,
        {
            let ghost prev = self@;
            let mut blk = self[bk];
            let rblk = rhs[bk];
            let ghost oblk = blk;
            let mut ln: usize = 0;
            while ln < L
                invariant
                    ln <= L,
                    forall|t: int| ln <= t < L ==> blk@[t] == oblk@[t],
                    forall|t: int, j: int|
                        0 <= t < ln && 0 <= j < W::word_bits() ==> (#[trigger] blk@[t].bit_at(j))
                            == (oblk@[t].bit_at(j) && rblk@[t].bit_at(j)),
                decreases L - ln,
            {
                let w = blk[ln].word_and(rblk[ln]);
                blk.set(ln, w);
                ln += 1;
            }
            self.set(bk, blk);
            proof {
                W::word_bits_facts();
                lemma_flat_block_replace::<W, L>(self@, prev, bk as int);
                assert((bk as int + 1) * L == bk as int * L + L) by (nonlinear_arith);
                assert((bk as int + 1) * L <= n as int * L) by (nonlinear_arith)
                    requires
                        bk as int + 1 <= n as int,
                        L >= 1,
                ;
                assert forall|x: int|
                    (bk as int + 1) * L <= x < n as int * L implies #[trigger] words_flat(
                    self@,
                )[x] == fw0[x] by {
                    lemma_bit_index(x, L as int, n as int);
                    lemma_above_block(x, bk as int, L as int);
                    assert(words_flat(self@)[x] == words_flat(prev)[x]);
                }
                assert forall|x: int, j: int|
                    0 <= x < (bk as int + 1) * L && 0 <= j < W::word_bits() implies (
                #[trigger] words_flat(self@)[x].bit_at(j)) == (fw0[x].bit_at(j) && rfw[x].bit_at(j)) by {
                    lemma_bit_index(x, L as int, n as int);
                    if x / (L as int) == bk as int {
                        assert(words_flat(prev)[x] == fw0[x]);
                        assert(words_flat(prev)[x] == oblk@[x % (L as int)]);
                        assert(rfw[x] == rblk@[x % (L as int)]);
                        assert(words_flat(self@)[x] == blk@[x % (L as int)]);
                        assert(blk@[x % (L as int)].bit_at(j) == (oblk@[x % (L as int)].bit_at(j) && rblk@[x % (L as int)].bit_at(j)));
                    } else {
                        lemma_below_next_block(x, bk as int, L as int);
                        assert(words_flat(self@)[x].bit_at(j) == words_flat(prev)[x].bit_at(
                            j,
                        ));
                    }
                }
            }
            bk += 1;
        }
        proof {
            let tgt = Seq::new(old(self).bits().len(), |i: int| old(self).bits()[i] && rhs.bits()[i]);
            assert forall|i: int|
                0 <= i < self.bits().len() implies self.bits()[i] == tgt[i] by {
                lemma_bit_index(i, wb, n as int * L);
            }
            assert(self.bits() =~= tgt);
            assert(self.bits() =~= old(self).and_bits(rhs));
        }
    }

    fn bit_andnot(&mut self, rhs: &Self) {
        proof {
            W::word_bits_facts();
            lemma_nw_bound::<W>(self@.len() as int, L as int);
            lemma_words_len_eq(
                self@.len() as int * L,
                rhs@.len() as int * L,
                W::word_bits() as int,
            );
            lemma_words_len_eq(self@.len() as int, rhs@.len() as int, L as int);
        }
        let ghost wb = W::word_bits() as int;
        let ghost fw0 = words_flat(old(self)@);
        let ghost rfw = words_flat(rhs@);
        let n = self.len();
        let mut bk: usize = 0;
        while bk < n
            invariant
                bk <= n,
                L >= 1,
                n == self@.len(),
                n == rhs@.len(),
                n == old(self)@.len(),
                self.inv(),
                wb == W::word_bits() as int,
                fw0 == words_flat(old(self)@),
                rfw == words_flat(rhs@),
                forall|x: int| bk * L <= x < n * L ==> #[trigger] words_flat(self@)[x] == fw0[x],
                forall|x: int, j: int|
                    0 <= x < bk * L && 0 <= j < W::word_bits() ==> (#[trigger] words_flat(
                        self@,
                    )[x].bit_at(j)) == (fw0[x].bit_at(j) && !rfw[x].bit_at(j)),
            decreases n - bk,
        {
            let ghost prev = self@;
            let mut blk = self[bk];
            let rblk = rhs[bk];
            let ghost oblk = blk;
            let mut ln: usize = 0;
            while ln < L
                invariant
                    ln <= L,
                    forall|t: int| ln <= t < L ==> blk@[t] == oblk@[t],
                    forall|t: int, j: int|
                        0 <= t < ln && 0 <= j < W::word_bits() ==> (#[trigger] blk@[t].bit_at(j))
                            == (oblk@[t].bit_at(j) && !rblk@[t].bit_at(j)),
                decreases L - ln,
            {
                let w = blk[ln].word_andnot(rblk[ln]);
                blk.set(ln, w);
                ln += 1;
            }
            self.set(bk, blk);
            proof {
                W::word_bits_facts();
                lemma_flat_block_replace::<W, L>(self@, prev, bk as int);
                assert((bk as int + 1) * L == bk as int * L + L) by (nonlinear_arith);
                assert((bk as int + 1) * L <= n as int * L) by (nonlinear_arith)
                    requires
                        bk as int + 1 <= n as int,
                        L >= 1,
                ;
                assert forall|x: int|
                    (bk as int + 1) * L <= x < n as int * L implies #[trigger] words_flat(
                    self@,
                )[x] == fw0[x] by {
                    lemma_bit_index(x, L as int, n as int);
                    lemma_above_block(x, bk as int, L as int);
                    assert(words_flat(self@)[x] == words_flat(prev)[x]);
                }
                assert forall|x: int, j: int|
                    0 <= x < (bk as int + 1) * L && 0 <= j < W::word_bits() implies (
                #[trigger] words_flat(self@)[x].bit_at(j)) == (fw0[x].bit_at(j) && !rfw[x].bit_at(j)) by {
                    lemma_bit_index(x, L as int, n as int);
                    if x / (L as int) == bk as int {
                        assert(words_flat(prev)[x] == fw0[x]);
                        assert(words_flat(prev)[x] == oblk@[x % (L as int)]);
                        assert(rfw[x] == rblk@[x % (L as int)]);
                        assert(words_flat(self@)[x] == blk@[x % (L as int)]);
                        assert(blk@[x % (L as int)].bit_at(j) == (oblk@[x % (L as int)].bit_at(j) && !rblk@[x % (L as int)].bit_at(j)));
                    } else {
                        lemma_below_next_block(x, bk as int, L as int);
                        assert(words_flat(self@)[x].bit_at(j) == words_flat(prev)[x].bit_at(
                            j,
                        ));
                    }
                }
            }
            bk += 1;
        }
        proof {
            let tgt = Seq::new(old(self).bits().len(), |i: int| old(self).bits()[i] && !rhs.bits()[i]);
            assert forall|i: int|
                0 <= i < self.bits().len() implies self.bits()[i] == tgt[i] by {
                lemma_bit_index(i, wb, n as int * L);
            }
            assert(self.bits() =~= tgt);
            
        }
    }

    fn bit_xor(&mut self, rhs: &Self) {
        proof {
            W::word_bits_facts();
            lemma_nw_bound::<W>(self@.len() as int, L as int);
            lemma_words_len_eq(
                self@.len() as int * L,
                rhs@.len() as int * L,
                W::word_bits() as int,
            );
            lemma_words_len_eq(self@.len() as int, rhs@.len() as int, L as int);
        }
        let ghost wb = W::word_bits() as int;
        let ghost fw0 = words_flat(old(self)@);
        let ghost rfw = words_flat(rhs@);
        let n = self.len();
        let mut bk: usize = 0;
        while bk < n
            invariant
                bk <= n,
                L >= 1,
                n == self@.len(),
                n == rhs@.len(),
                n == old(self)@.len(),
                self.inv(),
                wb == W::word_bits() as int,
                fw0 == words_flat(old(self)@),
                rfw == words_flat(rhs@),
                forall|x: int| bk * L <= x < n * L ==> #[trigger] words_flat(self@)[x] == fw0[x],
                forall|x: int, j: int|
                    0 <= x < bk * L && 0 <= j < W::word_bits() ==> (#[trigger] words_flat(
                        self@,
                    )[x].bit_at(j)) == (fw0[x].bit_at(j) != rfw[x].bit_at(j)),
            decreases n - bk,
        {
            let ghost prev = self@;
            let mut blk = self[bk];
            let rblk = rhs[bk];
            let ghost oblk = blk;
            let mut ln: usize = 0;
            while ln < L
                invariant
                    ln <= L,
                    forall|t: int| ln <= t < L ==> blk@[t] == oblk@[t],
                    forall|t: int, j: int|
                        0 <= t < ln && 0 <= j < W::word_bits() ==> (#[trigger] blk@[t].bit_at(j))
                            == (oblk@[t].bit_at(j) != rblk@[t].bit_at(j)),
                decreases L - ln,
            {
                let w = blk[ln].word_xor(rblk[ln]);
                blk.set(ln, w);
                ln += 1;
            }
            self.set(bk, blk);
            proof {
                W::word_bits_facts();
                lemma_flat_block_replace::<W, L>(self@, prev, bk as int);
                assert((bk as int + 1) * L == bk as int * L + L) by (nonlinear_arith);
                assert((bk as int + 1) * L <= n as int * L) by (nonlinear_arith)
                    requires
                        bk as int + 1 <= n as int,
                        L >= 1,
                ;
                assert forall|x: int|
                    (bk as int + 1) * L <= x < n as int * L implies #[trigger] words_flat(
                    self@,
                )[x] == fw0[x] by {
                    lemma_bit_index(x, L as int, n as int);
                    lemma_above_block(x, bk as int, L as int);
                    assert(words_flat(self@)[x] == words_flat(prev)[x]);
                }
                assert forall|x: int, j: int|
                    0 <= x < (bk as int + 1) * L && 0 <= j < W::word_bits() implies (
                #[trigger] words_flat(self@)[x].bit_at(j)) == (fw0[x].bit_at(j) != rfw[x].bit_at(j)) by {
                    lemma_bit_index(x, L as int, n as int);
                    if x / (L as int) == bk as int {
                        assert(words_flat(prev)[x] == fw0[x]);
                        assert(words_flat(prev)[x] == oblk@[x % (L as int)]);
                        assert(rfw[x] == rblk@[x % (L as int)]);
                        assert(words_flat(self@)[x] == blk@[x % (L as int)]);
                        assert(blk@[x % (L as int)].bit_at(j) == (oblk@[x % (L as int)].bit_at(j) != rblk@[x % (L as int)].bit_at(j)));
                    } else {
                        lemma_below_next_block(x, bk as int, L as int);
                        assert(words_flat(self@)[x].bit_at(j) == words_flat(prev)[x].bit_at(
                            j,
                        ));
                    }
                }
            }
            bk += 1;
        }
        proof {
            let tgt = Seq::new(old(self).bits().len(), |i: int| old(self).bits()[i] != rhs.bits()[i]);
            assert forall|i: int|
                0 <= i < self.bits().len() implies self.bits()[i] == tgt[i] by {
                lemma_bit_index(i, wb, n as int * L);
            }
            assert(self.bits() =~= tgt);
            assert(self.bits() =~= old(self).xor_bits(rhs));
        }
    }

    fn bit_not(&mut self) {
        proof {
            W::word_bits_facts();
            lemma_nw_bound::<W>(self@.len() as int, L as int);
        }
        let ghost wb = W::word_bits() as int;
        let ghost fw0 = words_flat(old(self)@);
        let n = self.len();
        let mut bk: usize = 0;
        while bk < n
            invariant
                bk <= n,
                L >= 1,
                n == self@.len(),
                n == old(self)@.len(),
                self.inv(),
                wb == W::word_bits() as int,
                fw0 == words_flat(old(self)@),
                forall|x: int| bk * L <= x < n * L ==> #[trigger] words_flat(self@)[x] == fw0[x],
                forall|x: int, j: int|
                    0 <= x < bk * L && 0 <= j < W::word_bits() ==> (#[trigger] words_flat(
                        self@,
                    )[x].bit_at(j)) == !fw0[x].bit_at(j),
            decreases n - bk,
        {
            let ghost prev = self@;
            let mut blk = self[bk];
            let ghost oblk = blk;
            let mut ln: usize = 0;
            while ln < L
                invariant
                    ln <= L,
                    forall|t: int| ln <= t < L ==> blk@[t] == oblk@[t],
                    forall|t: int, j: int|
                        0 <= t < ln && 0 <= j < W::word_bits() ==> (#[trigger] blk@[t].bit_at(j))
                            == !oblk@[t].bit_at(j),
                decreases L - ln,
            {
                let w = blk[ln].word_not();
                blk.set(ln, w);
                ln += 1;
            }
            self.set(bk, blk);
            proof {
                W::word_bits_facts();
                lemma_flat_block_replace::<W, L>(self@, prev, bk as int);
                assert((bk as int + 1) * L == bk as int * L + L) by (nonlinear_arith);
                assert((bk as int + 1) * L <= n as int * L) by (nonlinear_arith)
                    requires
                        bk as int + 1 <= n as int,
                        L >= 1,
                ;
                assert forall|x: int|
                    (bk as int + 1) * L <= x < n as int * L implies #[trigger] words_flat(
                    self@,
                )[x] == fw0[x] by {
                    lemma_bit_index(x, L as int, n as int);
                    lemma_above_block(x, bk as int, L as int);
                    assert(words_flat(self@)[x] == words_flat(prev)[x]);
                }
                assert forall|x: int, j: int|
                    0 <= x < (bk as int + 1) * L && 0 <= j < W::word_bits() implies (
                #[trigger] words_flat(self@)[x].bit_at(j)) == !fw0[x].bit_at(j) by {
                    lemma_bit_index(x, L as int, n as int);
                    if x / (L as int) == bk as int {
                        assert(words_flat(prev)[x] == fw0[x]);
                        assert(words_flat(prev)[x] == oblk@[x % (L as int)]);
                        assert(words_flat(self@)[x] == blk@[x % (L as int)]);
                        assert(blk@[x % (L as int)].bit_at(j) == !oblk@[x % (L as int)].bit_at(
                            j,
                        ));
                    } else {
                        lemma_below_next_block(x, bk as int, L as int);
                        assert(words_flat(self@)[x].bit_at(j) == words_flat(prev)[x].bit_at(
                            j,
                        ));
                    }
                }
            }
            bk += 1;
        }
        proof {
            let tgt = Seq::new(old(self).bits().len(), |i: int| !old(self).bits()[i]);
            assert forall|i: int|
                0 <= i < self.bits().len() implies self.bits()[i] == tgt[i] by {
                lemma_bit_index(i, wb, n as int * L);
            }
            assert(self.bits() =~= tgt);
        }
    }

    fn bit_mask(&mut self, rhs: &Self, mask: &Self) {
        proof {
            W::word_bits_facts();
            lemma_nw_bound::<W>(self@.len() as int, L as int);
            lemma_words_len_eq(
                self@.len() as int * L,
                rhs@.len() as int * L,
                W::word_bits() as int,
            );
            lemma_words_len_eq(self@.len() as int, rhs@.len() as int, L as int);
            lemma_words_len_eq(
                self@.len() as int * L,
                mask@.len() as int * L,
                W::word_bits() as int,
            );
            lemma_words_len_eq(self@.len() as int, mask@.len() as int, L as int);
        }
        let ghost wb = W::word_bits() as int;
        let ghost fw0 = words_flat(old(self)@);
        let ghost rfw = words_flat(rhs@);
        let ghost mfw = words_flat(mask@);
        let n = self.len();
        let mut bk: usize = 0;
        while bk < n
            invariant
                bk <= n,
                L >= 1,
                n == self@.len(),
                n == rhs@.len(),
                n == mask@.len(),
                n == old(self)@.len(),
                self.inv(),
                wb == W::word_bits() as int,
                fw0 == words_flat(old(self)@),
                rfw == words_flat(rhs@),
                mfw == words_flat(mask@),
                forall|x: int| bk * L <= x < n * L ==> #[trigger] words_flat(self@)[x] == fw0[x],
                forall|x: int, j: int|
                    0 <= x < bk * L && 0 <= j < W::word_bits() ==> (#[trigger] words_flat(
                        self@,
                    )[x].bit_at(j)) == (if mfw[x].bit_at(j) {
                        rfw[x].bit_at(j)
                    } else {
                        fw0[x].bit_at(j)
                    }),
            decreases n - bk,
        {
            let ghost prev = self@;
            let mut blk = self[bk];
            let rblk = rhs[bk];
            let mblk = mask[bk];
            let ghost oblk = blk;
            let mut ln: usize = 0;
            while ln < L
                invariant
                    ln <= L,
                    forall|t: int| ln <= t < L ==> blk@[t] == oblk@[t],
                    forall|t: int, j: int|
                        0 <= t < ln && 0 <= j < W::word_bits() ==> (#[trigger] blk@[t].bit_at(j))
                            == (if mblk@[t].bit_at(j) {
                            rblk@[t].bit_at(j)
                        } else {
                            oblk@[t].bit_at(j)
                        }),
                decreases L - ln,
            {
                let w = blk[ln].word_mask(rblk[ln], mblk[ln]);
                blk.set(ln, w);
                ln += 1;
            }
            self.set(bk, blk);
            proof {
                W::word_bits_facts();
                lemma_flat_block_replace::<W, L>(self@, prev, bk as int);
                assert((bk as int + 1) * L == bk as int * L + L) by (nonlinear_arith);
                assert((bk as int + 1) * L <= n as int * L) by (nonlinear_arith)
                    requires
                        bk as int + 1 <= n as int,
                        L >= 1,
                ;
                assert forall|x: int|
                    (bk as int + 1) * L <= x < n as int * L implies #[trigger] words_flat(
                    self@,
                )[x] == fw0[x] by {
                    lemma_bit_index(x, L as int, n as int);
                    lemma_above_block(x, bk as int, L as int);
                    assert(words_flat(self@)[x] == words_flat(prev)[x]);
                }
                assert forall|x: int, j: int|
                    0 <= x < (bk as int + 1) * L && 0 <= j < W::word_bits() implies (
                #[trigger] words_flat(self@)[x].bit_at(j)) == (if mfw[x].bit_at(j) {
                    rfw[x].bit_at(j)
                } else {
                    fw0[x].bit_at(j)
                }) by {
                    lemma_bit_index(x, L as int, n as int);
                    if x / (L as int) == bk as int {
                        assert(words_flat(prev)[x] == fw0[x]);
                        assert(words_flat(prev)[x] == oblk@[x % (L as int)]);
                        assert(rfw[x] == rblk@[x % (L as int)]);
                        assert(mfw[x] == mblk@[x % (L as int)]);
                        assert(words_flat(self@)[x] == blk@[x % (L as int)]);
                        assert(blk@[x % (L as int)].bit_at(j) == (if mblk@[x % (L as int)].bit_at(
                            j,
                        ) {
                            rblk@[x % (L as int)].bit_at(j)
                        } else {
                            oblk@[x % (L as int)].bit_at(j)
                        }));
                    } else {
                        lemma_below_next_block(x, bk as int, L as int);
                        assert(words_flat(self@)[x].bit_at(j) == words_flat(prev)[x].bit_at(
                            j,
                        ));
                    }
                }
            }
            bk += 1;
        }
        proof {
            let tgt = Seq::new(
                old(self).bits().len(),
                |i: int|
                    if mask.bits()[i] {
                        rhs.bits()[i]
                    } else {
                        old(self).bits()[i]
                    },
            );
            assert forall|i: int|
                0 <= i < self.bits().len() implies self.bits()[i] == tgt[i] by {
                lemma_bit_index(i, wb, n as int * L);
            }
            assert(self.bits() =~= tgt);
        }
    }

    fn bit_count(&self) -> (r: usize) {
        proof {
            W::word_bits_facts();
            lemma_nw_bound::<W>(self@.len() as int, L as int);
        }
        let ghost wb = W::word_bits() as int;
        let ghost fw = words_flat(self@);
        let n = self.len();
        let mut c: usize = 0;
        let mut bk: usize = 0;
        while bk < n
            invariant
                bk <= n,
                L >= 1,
                n == self@.len(),
                self.inv(),
                wb == W::word_bits() as int,
                fw == words_flat(self@),
                c == count_set(self.bits().take(bk as int * L * wb)),
                c <= bk as int * L * wb,
            decreases n - bk,
        {
            let blk = self[bk];
            let mut ln: usize = 0;
            while ln < L
                invariant
                    ln <= L,
                    bk < n,
                    L >= 1,
                    n == self@.len(),
                    self.inv(),
                    wb == W::word_bits() as int,
                    fw == words_flat(self@),
                    blk == self@[bk as int],
                    c == count_set(self.bits().take((bk as int * L + ln) * wb)),
                    c <= (bk as int * L + ln) * wb,
                decreases L - ln,
            {
                let wk = blk[ln];
                proof {
                    W::word_bits_facts();
                    lemma_nw_bound::<W>(self@.len() as int, L as int);
                    lemma_word_index(bk as int, ln as int, L as int, n as int);
                    let m: int = bk as int * (L as int) + ln as int;
                    lemma_count_word_step::<W>(fw, m);
                    assert((m + 1) * wb == m * wb + wb) by (nonlinear_arith);
                    vstd::arithmetic::mul::lemma_mul_inequality(m + 1, n as int * L, wb);
                    assert(fw[m] == blk@[ln as int]);
                    assert(Seq::new(W::word_bits(), |j: int| fw[m].bit_at(j)) =~= Seq::new(
                        W::word_bits(),
                        |i: int| wk.bit_at(i),
                    ));
                }
                c = c + wk.word_count();
                ln += 1;
            }
            proof {
                assert((bk as int + 1) * L == bk as int * L + L) by (nonlinear_arith);
            }
            bk += 1;
        }
        proof {
            assert(self.bits().take(n as int * L * wb) =~= self.bits());
        }
        c
    }
}

/// The total number of lane words fits the machine's range.
proof fn lemma_nw_bound<W: BitWord>(n: int, l: int)
    requires
        n >= 0,
        l >= 1,
        W::word_bits() >= 1,
        n * l * W::word_bits() <= usize::MAX,
    ensures
        n * l <= usize::MAX,
        n * l * W::word_bits() == (n * l) * (W::word_bits() as int),
{
    assert(n * l <= n * l * W::word_bits() && n * l * W::word_bits() == (n * l) * (
    W::word_bits() as int)) by (nonlinear_arith)
        requires
            n >= 0,
            l >= 1,
            W::word_bits() >= 1,
    ;
}

} // verus!
