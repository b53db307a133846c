//! The flat-array backend: the bit-set contract on a vector of words,
//! addressed linearly.  Bit `i` lives at bit `i % w` of word `i / w`,
//! where `w` is the word width.

use vstd::prelude::*;

use crate::uint::BitWord;
use crate::{count_set, lemma_count_append, BitSet};
use vstd::arithmetic::div_mod::{
    lemma_fundamental_div_mod, lemma_fundamental_div_mod_converse,
    lemma_mod_division_less_than_divisor,
};
use vstd::arithmetic::div_mod::lemma_div_pos_is_pos;
use vstd::arithmetic::mul::lemma_mul_inequality;

verus! {

/// The bit sequence represented by a sequence of words, low-index word
/// first, least-significant bit of each word first.
pub open spec fn bits_of_words<W: BitWord>(ws: Seq<W>) -> Seq<bool> {
    Seq::new(
        ws.len() * W::word_bits(),
        |i: int| ws[i / (W::word_bits() as int)].bit_at(i % (W::word_bits() as int)),
    )
}

/// Splits a linear bit position into word index and in-word position.
pub proof fn lemma_bit_index(i: int, wb: int, n: int)
    requires
        wb > 0,
        n >= 0,
        0 <= i < n * wb,
    ensures
        0 <= i / wb < n,
        0 <= i % wb < wb,
        i == (i / wb) * wb + (i % wb),
{
    lemma_fundamental_div_mod(i, wb);
    lemma_mod_division_less_than_divisor(i, wb);
    lemma_div_pos_is_pos(i, wb);
    assert((i / wb) * wb == wb * (i / wb)) by (nonlinear_arith);
    if i / wb >= n {
        lemma_mul_inequality(n, i / wb, wb);
        assert(false);
    }
}

/// Joins a word index and an in-word position into a linear bit position.
pub proof fn lemma_word_index(k: int, j: int, wb: int, n: int)
    requires
        wb > 0,
        0 <= k < n,
        0 <= j < wb,
    ensures
        0 <= k * wb + j < n * wb,
        (k * wb + j) / wb == k,
        (k * wb + j) % wb == j,
{
    lemma_fundamental_div_mod_converse(k * wb + j, wb, k, j);
    lemma_mul_inequality(k + 1, n, wb);
    assert(k * wb + j < (k + 1) * wb) by (nonlinear_arith)
        requires
            j < wb,
    ;
    assert(k * wb + j >= 0) by (nonlinear_arith)
        requires
            k >= 0,
            j >= 0,
            wb > 0,
    ;
}

/// Word sequences of equal bit length hold equally many words.
pub proof fn lemma_words_len_eq(a: int, b: int, wb: int)
    requires
        wb > 0,
        a * wb == b * wb,
    ensures
        a == b,
{
    assert(a == b) by (nonlinear_arith)
        requires
            wb > 0,
            a * wb == b * wb,
    ;
}

/// Changing one bit of one word changes exactly one linear bit position.
pub proof fn lemma_update_one_bit<W: BitWord>(
    nw: Seq<W>,
    ow: Seq<W>,
    k: int,
    j: int,
    bit: int,
    value: bool,
)
    requires
        nw.len() == ow.len(),
        0 <= k < ow.len(),
        0 <= j < W::word_bits(),
        bit == k * W::word_bits() + j,
        forall|m: int| 0 <= m < ow.len() && m != k ==> nw[m] == ow[m],
        forall|i: int|
            0 <= i < W::word_bits() ==> nw[k].bit_at(i) == (if i == j {
                value
            } else {
                ow[k].bit_at(i)
            }),
    ensures
        bits_of_words(nw) =~= bits_of_words(ow).update(bit, value),
{
    W::word_bits_facts();
    let wb = W::word_bits() as int;
    lemma_word_index(k, j, wb, ow.len() as int);
    assert forall|i: int|
        0 <= i < nw.len() * wb implies bits_of_words(nw)[i] == bits_of_words(ow).update(
        bit,
        value,
    )[i] by {
        lemma_bit_index(i, wb, ow.len() as int);
        if i / wb == k {
            if i % wb == j {
                assert(i == bit);
            } else {
                assert(i != bit);
            }
        } else {
            assert(i != bit);
        }
    }
}

/// The flat-array backend: a vector of words addressed linearly.
impl<W: BitWord> BitSet for Vec<W> {
    open spec fn inv(&self) -> bool {
        self@.len() * W::word_bits() <= usize::MAX
    }

    open spec fn bits(&self) -> Seq<bool> {
        bits_of_words(self@)
    }

    open spec fn is_bounded() -> bool {
        true
    }

    open spec fn and_bits(&self, rhs: &Self) -> Seq<bool> {
        Seq::new(self.bits().len(), |i: int| self.bits()[i] && rhs.bits()[i])
    }

    open spec fn xor_bits(&self, rhs: &Self) -> Seq<bool> {
        Seq::new(self.bits().len(), |i: int| self.bits()[i] != rhs.bits()[i])
    }

    fn bit_len(&self) -> (r: usize) {
        proof {
            W::word_bits_facts();
        }
        self.len() * W::word_size()
    }

    fn bit_init(&mut self, value: bool) {
        proof {
            W::word_bits_facts();
        }
        let n = self.len();
        let w = W::word_fill(value);
        let mut k: usize = 0;
        while k < n
            invariant
                k <= n,
                n == self@.len(),
                forall|i: int| 0 <= i < W::word_bits() ==> #[trigger] w.bit_at(i) == value,
                forall|m: int| 0 <= m < k ==> self@[m] == w,
            decreases n - k,
        {
            proof {
                W::word_bits_facts();
            }
            self.set(k, w);
            k += 1;
        }
        proof {
            assert forall|i: int|
                0 <= i < self.bits().len() implies self.bits()[i] == value by {
                lemma_bit_index(i, W::word_bits() as int, n as int);
            }
        }
    }

    fn bit_test(&self, bit: usize) -> (r: bool) {
        proof {
            W::word_bits_facts();
            lemma_bit_index(bit as int, W::word_bits() as int, self@.len() as int);
        }
        let ws = W::word_size();
        self[bit / ws].word_test(bit % ws)
    }

    fn bit_set(&mut self, bit: usize) {
        proof {
            W::word_bits_facts();
            lemma_bit_index(bit as int, W::word_bits() as int, self@.len() as int);
        }
        let ws = W::word_size();
        let k = bit / ws;
        let j = bit % ws;
        let w = self[k].word_set(j);
        self.set(k, w);
        proof {
            lemma_update_one_bit(
                self@,
                old(self)@,
                k as int,
                j as int,
                bit as int,
                true,
            );
            assert(self.bits() =~= old(self).bits().update(bit as int, true));
        }
    }

    fn bit_reset(&mut self, bit: usize) {
        proof {
            W::word_bits_facts();
            lemma_bit_index(bit as int, W::word_bits() as int, self@.len() as int);
        }
        let ws = W::word_size();
        let k = bit / ws;
        let j = bit % ws;
        let w = self[k].word_reset(j);
        self.set(k, w);
        proof {
            lemma_update_one_bit(
                self@,
                old(self)@,
                k as int,
                j as int,
                bit as int,
                false,
            );
            assert(self.bits() =~= old(self).bits().update(bit as int, false));
        }
    }

    fn bit_flip(&mut self, bit: usize) {
        proof {
            W::word_bits_facts();
            lemma_bit_index(bit as int, W::word_bits() as int, self@.len() as int);
        }
        let ws = W::word_size();
        let k = bit / ws;
        let j = bit % ws;
        let w = self[k].word_flip(j);
        self.set(k, w);
        proof {
            lemma_update_one_bit(
                self@,
                old(self)@,
                k as int,
                j as int,
                bit as int,
                !old(self).bits()[bit as int],
            );
            assert(self.bits() =~= old(self).bits().update(
                bit as int,
                !old(self).bits()[bit as int],
            ));
        }
    }

    fn bit_cond(&mut self, bit: usize, value: bool) {
        if value {
            self.bit_set(bit);
        } else {
            self.bit_reset(bit);
        }
        proof {
            assert(self.bits() =~= old(self).bits().update(bit as int, value));
        }
    }

    fn bit_all(&self) -> (r: bool) {
        proof {
            W::word_bits_facts();
        }
        let ghost wb = W::word_bits() as int;
        let n = self.len();
        let mut k: usize = 0;
        while k < n
            invariant
                k <= n,
                n == self@.len(),
                self.inv(),
                wb == W::word_bits() as int,
                forall|m: int, j: int|
                    0 <= m < k && 0 <= j < W::word_bits() ==> #[trigger] self@[m].bit_at(j),
            decreases n - k,
        {
            proof {
                W::word_bits_facts();
            }
            if !self[k].word_full() {
                proof {
                    assert(exists|j: int|
                        0 <= j < W::word_bits() && !(#[trigger] self@[k as int].bit_at(j)));
                    let j = choose|j: int|
                        0 <= j < W::word_bits() && !(#[trigger] self@[k as int].bit_at(j));
                    lemma_word_index(k as int, j, wb, n as int);
                    assert(!self.bits()[k as int * wb + j]);
                }
                return false;
            }
            k += 1;
        }
        proof {
            assert forall|i: int| 0 <= i < self.bits().len() implies self.bits()[i] by {
                lemma_bit_index(i, wb, n as int);
            }
        }
        true
    }

    fn bit_any(&self) -> (r: bool) {
        proof {
            W::word_bits_facts();
        }
        let ghost wb = W::word_bits() as int;
        let n = self.len();
        let mut k: usize = 0;
        while k < n
            invariant
                k <= n,
                n == self@.len(),
                self.inv(),
                wb == W::word_bits() as int,
                forall|m: int, j: int|
                    0 <= m < k && 0 <= j < W::word_bits() ==> !(#[trigger] self@[m].bit_at(j)),
            decreases n - k,
        {
            proof {
                W::word_bits_facts();
            }
            if self[k].word_any() {
                proof {
                    assert(exists|j: int|
                        0 <= j < W::word_bits() && #[trigger] self@[k as int].bit_at(j));
                    let j = choose|j: int|
                        0 <= j < W::word_bits() && #[trigger] self@[k as int].bit_at(j);
                    lemma_word_index(k as int, j, wb, n as int);
                    assert(self.bits()[k as int * wb + j]);
                }
                return true;
            }
            k += 1;
        }
        proof {
            assert forall|i: int| 0 <= i < self.bits().len() implies !self.bits()[i] by {
                lemma_bit_index(i, wb, n as int);
            }
        }
        false
    }

    fn bit_eq(&self, rhs: &Self) -> (r: bool) {
        proof {
            W::word_bits_facts();
            lemma_words_len_eq(self@.len() as int, rhs@.len() as int, W::word_bits() as int);
        }
        let ghost wb = W::word_bits() as int;
        let n = self.len();
        let mut k: usize = 0;
        while k < n
            invariant
                k <= n,
                n == self@.len(),
                n == rhs@.len(),
                self.inv(),
                wb == W::word_bits() as int,
                forall|m: int, j: int|
                    0 <= m < k && 0 <= j < W::word_bits() ==> (#[trigger] self@[m].bit_at(j))
                        == rhs@[m].bit_at(j),
            decreases n - k,
        {
            proof {
                W::word_bits_facts();
            }
            if !self[k].word_eq(rhs[k]) {
                proof {
                    assert(exists|j: int|
                        0 <= j < W::word_bits() && (#[trigger] self@[k as int].bit_at(j)) != rhs@[
                            k as int
                        ].bit_at(j));
                    let j = choose|j: int|
                        0 <= j < W::word_bits() && (#[trigger] self@[k as int].bit_at(j)) != rhs@[
                            k as int
                        ].bit_at(j);
                    lemma_word_index(k as int, j, wb, n as int);
                    assert(self.bits()[k as int * wb + j] != rhs.bits()[k as int * wb + j]);
                }
                return false;
            }
            k += 1;
        }
        proof {
            assert forall|i: int|
                0 <= i < self.bits().len() implies self.bits()[i] == rhs.bits()[i] by {
                lemma_bit_index(i, wb, n as int);
            }
        }
        true
    }

    fn bit_disjoint(&self, rhs: &Self) -> (r: bool) {
        proof {
            W::word_bits_facts();
            lemma_words_len_eq(self@.len() as int, rhs@.len() as int, W::word_bits() as int);
        }
        let ghost wb = W::word_bits() as int;
        let n = self.len();
        let mut k: usize = 0;
        while k < n
            invariant
                k <= n,
                n == self@.len(),
                n == rhs@.len(),
                self.inv(),
                wb == W::word_bits() as int,
                forall|m: int, j: int|
                    0 <= m < k && 0 <= j < W::word_bits() ==> !((#[trigger] self@[m].bit_at(j))
                        && rhs@[m].bit_at(j)),
            decreases n - k,
        {
            proof {
                W::word_bits_facts();
            }
            let d = self[k].word_and(rhs[k]);
            if d.word_any() {
                proof {
                    assert(exists|j: int| 0 <= j < W::word_bits() && #[trigger] d.bit_at(j));
                    let j = choose|j: int| 0 <= j < W::word_bits() && #[trigger] d.bit_at(j);
                    lemma_word_index(k as int, j, wb, n as int);
                    assert(self.bits()[k as int * wb + j] && rhs.bits()[k as int * wb + j]);
                }
                return false;
            }
            k += 1;
        }
        proof {
            assert forall|i: int|
                0 <= i < self.bits().len() implies !(self.bits()[i] && rhs.bits()[i]) by {
                lemma_bit_index(i, wb, n as int);
            }
        }
        true
    }

    fn bit_subset(&self, rhs: &Self) -> (r: bool) {
        proof {
            W::word_bits_facts();
            lemma_words_len_eq(self@.len() as int, rhs@.len() as int, W::word_bits() as int);
        }
        let ghost wb = W::word_bits() as int;
        let n = self.len();
        let mut k: usize = 0;
        while k < n
            invariant
                k <= n,
                n == self@.len(),
                n == rhs@.len(),
                self.inv(),
                wb == W::word_bits() as int,
                forall|m: int, j: int|
                    0 <= m < k && 0 <= j < W::word_bits() ==> ((#[trigger] self@[m].bit_at(j))
                        ==> rhs@[m].bit_at(j)),
            decreases n - k,
        {
            proof {
                W::word_bits_facts();
            }
            let u = self[k].word_or(rhs[k]);
            if !u.word_eq(rhs[k]) {
                proof {
                    assert(exists|j: int|
                        0 <= j < W::word_bits() && (#[trigger] u.bit_at(j)) != rhs@[
                            k as int
                        ].bit_at(j));
                    let j = choose|j: int|
                        0 <= j < W::word_bits() && (#[trigger] u.bit_at(j)) != rhs@[
                            k as int
                        ].bit_at(j);
                    lemma_word_index(k as int, j, wb, n as int);
                    assert(self.bits()[k as int * wb + j] && !rhs.bits()[k as int * wb + j]);
                }
                return false;
            }
            k += 1;
        }
        proof {
            assert forall|i: int|
                0 <= i < self.bits().len() implies (self.bits()[i] ==> rhs.bits()[i]) by {
                lemma_bit_index(i, wb, n as int);
            }
        }
        true
    }

    fn bit_or(&mut self, rhs: &Self) {
        proof {
            W::word_bits_facts();
            lemma_words_len_eq(self@.len() as int, rhs@.len() as int, W::word_bits() as int);
        }
        let ghost wb = W::word_bits() as int;
        let n = self.len();
        let mut k: usize = 0;
        while k < n
            invariant
                k <= n,
                n == self@.len(),
                n == rhs@.len(),
                n == old(self)@.len(),
                self.inv(),
                wb == W::word_bits() as int,
                forall|m: int| k <= m < n ==> self@[m] == old(self)@[m],
                forall|m: int, j: int|
                    0 <= m < k && 0 <= j < W::word_bits() ==> (#[trigger] self@[m].bit_at(j))
                        == (old(self)@[m].bit_at(j) || rhs@[m].bit_at(j)),
            decreases n - k,
        {
            proof {
                W::word_bits_facts();
            }
            let w = self[k].word_or(rhs[k]);
            self.set(k, w);
            k += 1;
        }
        proof {
            let tgt = Seq::new(
                old(self).bits().len(),
                |i: int| old(self).bits()[i] || rhs.bits()[i],
            );
            assert forall|i: int|
                0 <= i < self.bits().len() implies self.bits()[i] == tgt[i] by {
                lemma_bit_index(i, wb, n as int);
            }
            assert(self.bits() =~= tgt);
        }
    }

    fn bit_and(&mut self, rhs: &Self) {
        proof {
            W::word_bits_facts();
            lemma_words_len_eq(self@.len() as int, rhs@.len() as int, W::word_bits() as int);
        }
        let ghost wb = W::word_bits() as int;
        let n = self.len();
        let mut k: usize = 0;
        while k < n
            invariant
                k <= n,
                n == self@.len(),
                n == rhs@.len(),
                n == old(self)@.len(),
                self.inv(),
                wb == W::word_bits() as int,
                forall|m: int| k <= m < n ==> self@[m] == old(self)@[m],
                forall|m: int, j: int|
                    0 <= m < k && 0 <= j < W::word_bits() ==> (#[trigger] self@[m].bit_at(j))
                        == (old(self)@[m].bit_at(j) && rhs@[m].bit_at(j)),
            decreases n - k,
        {
            proof {
                W::word_bits_facts();
            }
            let w = self[k].word_and(rhs[k]);
            self.set(k, w);
            k += 1;
        }
        proof {
            let ab = old(self).and_bits(rhs);
            assert forall|i: int|
                0 <= i < self.bits().len() implies self.bits()[i] == ab[i] by {
                lemma_bit_index(i, wb, n as int);
            }
            assert(self.bits() =~= ab);
        }
    }

    fn bit_andnot(&mut self, rhs: &Self) {
        proof {
            W::word_bits_facts();
            lemma_words_len_eq(self@.len() as int, rhs@.len() as int, W::word_bits() as int);
        }
        let ghost wb = W::word_bits() as int;
        let n = self.len();
        let mut k: usize = 0;
        while k < n
            invariant
                k <= n,
                n == self@.len(),
                n == rhs@.len(),
                n == old(self)@.len(),
                self.inv(),
                wb == W::word_bits() as int,
                forall|m: int| k <= m < n ==> self@[m] == old(self)@[m],
                forall|m: int, j: int|
                    0 <= m < k && 0 <= j < W::word_bits() ==> (#[trigger] self@[m].bit_at(j))
                        == (old(self)@[m].bit_at(j) && !rhs@[m].bit_at(j)),
            decreases n - k,
        {
            proof {
                W::word_bits_facts();
            }
            let w = self[k].word_andnot(rhs[k]);
            self.set(k, w);
            k += 1;
        }
        proof {
            let tgt = Seq::new(
                old(self).bits().len(),
                |i: int| old(self).bits()[i] && !rhs.bits()[i],
            );
            assert forall|i: int|
                0 <= i < self.bits().len() implies self.bits()[i] == tgt[i] by {
                lemma_bit_index(i, wb, n as int);
            }
            assert(self.bits() =~= tgt);
        }
    }

    fn bit_xor(&mut self, rhs: &Self) {
        proof {
            W::word_bits_facts();
            lemma_words_len_eq(self@.len() as int, rhs@.len() as int, W::word_bits() as int);
        }
        let ghost wb = W::word_bits() as int;
        let n = self.len();
        let mut k: usize = 0;
        while k < n
            invariant
                k <= n,
                n == self@.len(),
                n == rhs@.len(),
                n == old(self)@.len(),
                self.inv(),
                wb == W::word_bits() as int,
                forall|m: int| k <= m < n ==> self@[m] == old(self)@[m],
                forall|m: int, j: int|
                    0 <= m < k && 0 <= j < W::word_bits() ==> (#[trigger] self@[m].bit_at(j))
                        == (old(self)@[m].bit_at(j) != rhs@[m].bit_at(j)),
            decreases n - k,
        {
            proof {
                W::word_bits_facts();
            }
            let w = self[k].word_xor(rhs[k]);
            self.set(k, w);
            k += 1;
        }
        proof {
            let xb = old(self).xor_bits(rhs);
            assert forall|i: int|
                0 <= i < self.bits().len() implies self.bits()[i] == xb[i] by {
                lemma_bit_index(i, wb, n as int);
            }
            assert(self.bits() =~= xb);
        }
    }

    fn bit_not(&mut self) {
        proof {
            W::word_bits_facts();
        }
        let ghost wb = W::word_bits() as int;
        let n = self.len();
        let mut k: usize = 0;
        while k < n
            invariant
                k <= n,
                n == self@.len(),
                n == old(self)@.len(),
                self.inv(),
                wb == W::word_bits() as int,
                forall|m: int| k <= m < n ==> self@[m] == old(self)@[m],
                forall|m: int, j: int|
                    0 <= m < k && 0 <= j < W::word_bits() ==> (#[trigger] self@[m].bit_at(j))
                        == !old(self)@[m].bit_at(j),
            decreases n - k,
        {
            proof {
                W::word_bits_facts();
            }
            let w = self[k].word_not();
            self.set(k, w);
            k += 1;
        }
        proof {
            assert forall|i: int|
                0 <= i < self.bits().len() implies self.bits()[i] == !old(self).bits()[i] by {
                lemma_bit_index(i, wb, n as int);
            }
        }
    }

    fn bit_mask(&mut self, rhs: &Self, mask: &Self) {
        proof {
            W::word_bits_facts();
            lemma_words_len_eq(self@.len() as int, rhs@.len() as int, W::word_bits() as int);
            lemma_words_len_eq(self@.len() as int, mask@.len() as int, W::word_bits() as int);
        }
        let ghost wb = W::word_bits() as int;
        let n = self.len();
        let mut k: usize = 0;
        while k < n
            invariant
                k <= n,
                n == self@.len(),
                n == rhs@.len(),
                n == mask@.len(),
                n == old(self)@.len(),
                self.inv(),
                wb == W::word_bits() as int,
                forall|m: int| k <= m < n ==> self@[m] == old(self)@[m],
                forall|m: int, j: int|
                    0 <= m < k && 0 <= j < W::word_bits() ==> (#[trigger] self@[m].bit_at(j))
                        == (if mask@[m].bit_at(j) {
                            rhs@[m].bit_at(j)
                        } else {
                            old(self)@[m].bit_at(j)
                        }),
            decreases n - k,
        {
            proof {
                W::word_bits_facts();
            }
            let w = self[k].word_mask(rhs[k], mask[k]);
            self.set(k, w);
            k += 1;
        }
        proof {
            assert forall|i: int|
                0 <= i < self.bits().len() implies self.bits()[i] == (if mask.bits()[i] {
                    rhs.bits()[i]
                } else {
                    old(self).bits()[i]
                }) by {
                lemma_bit_index(i, wb, n as int);
            }
        }
    }

    fn bit_count(&self) -> (r: usize) {
        proof {
            W::word_bits_facts();
        }
        let ghost wb = W::word_bits() as int;
        let n = self.len();
        let ws = W::word_size();
        let mut c: usize = 0;
        let mut k: usize = 0;
        while k < n
            invariant
                k <= n,
                n == self@.len(),
                self.inv(),
                wb == W::word_bits() as int,
                c == count_set(self.bits().take(k as int * wb)),
                c <= k as int * wb,
            decreases n - k,
        {
            let wk = self[k];
            proof {
                W::word_bits_facts();
                lemma_count_word_step(self@, k as int);
                assert((k as int + 1) * wb == k as int * wb + wb) by (nonlinear_arith);
                lemma_mul_inequality(k as int + 1, n as int, wb);
                assert(Seq::new(W::word_bits(), |j: int| self@[k as int].bit_at(j)) =~= Seq::new(
                    W::word_bits(),
                    |i: int| wk.bit_at(i),
                ));
            }
            c = c + wk.word_count();
            k += 1;
        }
        proof {
            assert(self.bits().take(n as int * wb) =~= self.bits());
        }
        c
    }
}

/// Counting bits one word further extends the running prefix count by the
/// word's own count.
pub proof fn lemma_count_word_step<W: BitWord>(ws: Seq<W>, k: int)
    requires
        0 <= k < ws.len(),
    ensures
        count_set(bits_of_words(ws).take((k + 1) * (W::word_bits() as int))) == count_set(
            bits_of_words(ws).take(k * (W::word_bits() as int)),
        ) + count_set(Seq::new(W::word_bits(), |j: int| ws[k].bit_at(j))),
{
    W::word_bits_facts();
    let wb = W::word_bits() as int;
    let s = bits_of_words(ws);
    let a = s.take(k * wb);
    let w = Seq::new(W::word_bits(), |j: int| ws[k].bit_at(j));
    assert((k + 1) * wb == k * wb + wb) by (nonlinear_arith);
    assert(0 <= k * wb && k * wb + wb <= s.len()) by {
        lemma_mul_inequality(k + 1, ws.len() as int, wb);
        assert(k * wb >= 0) by (nonlinear_arith)
            requires
                k >= 0,
                wb > 0,
        ;
    }
    assert forall|j: int| 0 <= j < wb implies s[k * wb + j] == w[j] by {
        lemma_word_index(k, j, wb, ws.len() as int);
    }
    assert(s.take((k + 1) * wb) =~= a + w);
    lemma_count_append(a, w);
}

} // verus!
