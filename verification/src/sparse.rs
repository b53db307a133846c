//! The sparse backend: the bit-set contract on a key-to-word
//! association, standing for a virtually unbounded bit domain.  A key
//! holds one storage word; absent keys are implicitly all-zero words.
//! Set-class operations allocate a zero word for an absent key on first
//! touch; resetting an absent key allocates nothing, and entries are
//! never removed short of clearing the whole container.
//!
//! The bit length is the largest whole-word span the machine can
//! address, since any key in range may be addressed lazily.  Filling
//! the domain (`bit_init(true)`), complementing it (`bit_not`) and
//! rendering it are not representable and are excluded.

use vstd::prelude::*;

use crate::slice::{lemma_bit_index, lemma_word_index};
use crate::uint::BitWord;
use crate::{count_set, BitSet};

verus! {

/// The number of addressable whole words.
pub open spec fn spec_max_keys<W: BitWord>() -> int {
    (usize::MAX as int) / (W::word_bits() as int)
}

/// True when one of the first `m` entries of `es` carries key `k`.
pub open spec fn key_in_prefix<W: BitWord>(es: Seq<(usize, W)>, k: int, m: int) -> bool {
    exists|j: int| 0 <= j < m && (#[trigger] es[j]).0 == k
}

/// True when some entry of `es` carries key `k`.
pub open spec fn has_key<W: BitWord>(es: Seq<(usize, W)>, k: int) -> bool {
    exists|j: int| 0 <= j < es.len() && (#[trigger] es[j]).0 == k
}

/// The position of the entry carrying key `k`.
pub open spec fn key_index<W: BitWord>(es: Seq<(usize, W)>, k: int) -> int {
    choose|j: int| 0 <= j < es.len() && (#[trigger] es[j]).0 == k
}

/// The word stored under key `k`.
pub open spec fn word_at<W: BitWord>(es: Seq<(usize, W)>, k: int) -> W {
    es[key_index(es, k)].1
}

/// True when no two entries of `es` carry the same key.
pub open spec fn unique_keys<W: BitWord>(es: Seq<(usize, W)>) -> bool {
    forall|j1: int, j2: int|
        0 <= j1 < j2 < es.len() ==> (#[trigger] es[j1]).0 != (#[trigger] es[j2]).0
}

/// True when every key of `es` is addressable.
pub open spec fn keys_in_range<W: BitWord>(es: Seq<(usize, W)>) -> bool {
    forall|j: int| 0 <= j < es.len() ==> ((#[trigger] es[j]).0 as int) < spec_max_keys::<W>()
}

/// The bit sequence of an entry list: bit `i` is bit `i % w` of the word
/// under key `i / w`, or false when that key is absent.
pub open spec fn sbits<W: BitWord>(es: Seq<(usize, W)>) -> Seq<bool> {
    Seq::new(
        (spec_max_keys::<W>() * W::word_bits()) as nat,
        |i: int| has_key(es, i / (W::word_bits() as int)) && word_at(
            es,
            i / (W::word_bits() as int),
        ).bit_at(i % (W::word_bits() as int)),
    )
}

/// An entry determines the lookup result for its own key.
pub proof fn lemma_key_index<W: BitWord>(es: Seq<(usize, W)>, j: int)
    requires
        unique_keys(es),
        0 <= j < es.len(),
    ensures
        has_key(es, es[j].0 as int),
        key_index(es, es[j].0 as int) == j,
        word_at(es, es[j].0 as int) == es[j].1,
{
    let k = es[j].0 as int;
    assert(has_key(es, k));
    let j2 = key_index(es, k);
    if j2 != j {
        if j2 < j {
            assert(es[j2].0 != es[j].0);
        } else {
            assert(es[j].0 != es[j2].0);
        }
        assert(false);
    }
}

/// The sparse backend: a list of key-and-word entries, keys unique.
pub struct SparseBits<W: BitWord> {
    /// The stored words, keyed by word index; `inv()` asks the keys to be
    /// unique and addressable.
    pub entries: Vec<(usize, W)>,
}

impl<W: BitWord> SparseBits<W> {
    /// An empty sparse container: every bit of the domain is zero.
    pub fn new() -> (r: Self)
        ensures
            r.inv(),
            forall|i: int| 0 <= i < r.bits().len() ==> !r.bits()[i],
    {
        let r = SparseBits { entries: Vec::new() };
        proof {
            assert forall|i: int| 0 <= i < r.bits().len() implies !r.bits()[i] by {
                assert(!has_key(r.entries@, i / (W::word_bits() as int)));
            }
        }
        r
    }

    /// Looks the key up by scanning the entries.
    fn find_key(&self, key: usize) -> (r: Option<usize>)
        ensures
            match r {
                Some(j) => j < self.entries@.len() && self.entries@[j as int].0 == key,
                None => !has_key(self.entries@, key as int),
            },
    {
        let n = self.entries.len();
        let mut j: usize = 0;
        while j < n
            invariant
                j <= n,
                n == self.entries@.len(),
                forall|jj: int| 0 <= jj < j ==> (#[trigger] self.entries@[jj]).0 != key,
            decreases n - j,
        {
            if self.entries[j].0 == key {
                return Some(j);
            }
            j += 1;
        }
        None
    }
}

/// Replacing the word of one entry changes lookups for its key only.
pub proof fn lemma_entries_update<W: BitWord>(oe: Seq<(usize, W)>, j: int, w: W)
    requires
        unique_keys(oe),
        0 <= j < oe.len(),
    ensures
        unique_keys(oe.update(j, (oe[j].0, w))),
        forall|k: int| has_key(oe.update(j, (oe[j].0, w)), k) == has_key(oe, k),
        word_at(oe.update(j, (oe[j].0, w)), oe[j].0 as int) == w,
        forall|k: int|
            k != oe[j].0 as int && #[trigger] has_key(oe, k) ==> word_at(
                oe.update(j, (oe[j].0, w)),
                k,
            ) == word_at(oe, k),
{
    let ne = oe.update(j, (oe[j].0, w));
    assert forall|k: int| has_key(ne, k) == has_key(oe, k) by {
        if has_key(ne, k) {
            let x = choose|x: int| 0 <= x < ne.len() && (#[trigger] ne[x]).0 == k;
            assert(oe[x].0 == k);
        }
        if has_key(oe, k) {
            let x = choose|x: int| 0 <= x < oe.len() && (#[trigger] oe[x]).0 == k;
            assert(ne[x].0 == k);
        }
    }
    lemma_key_index(ne, j);
    assert forall|k: int|
        k != oe[j].0 as int && #[trigger] has_key(oe, k) implies word_at(ne, k) == word_at(
        oe,
        k,
    ) by {
        let x = key_index(oe, k);
        lemma_key_index(ne, x);
        assert(ne[x].0 == k);
    }
}

/// Appending an entry with a fresh key adds lookups for that key only.
pub proof fn lemma_entries_push<W: BitWord>(oe: Seq<(usize, W)>, key: usize, w: W)
    requires
        unique_keys(oe),
        !has_key(oe, key as int),
    ensures
        unique_keys(oe.push((key, w))),
        has_key(oe.push((key, w)), key as int),
        word_at(oe.push((key, w)), key as int) == w,
        forall|k: int|
            k != key as int ==> #[trigger] has_key(oe.push((key, w)), k) == has_key(oe, k),
        forall|k: int|
            k != key as int && #[trigger] has_key(oe, k) ==> word_at(oe.push((key, w)), k)
                == word_at(oe, k),
{
    let ne = oe.push((key, w));
    assert forall|j1: int, j2: int|
        0 <= j1 < j2 < ne.len() implies (#[trigger] ne[j1]).0 != (#[trigger] ne[j2]).0 by {
        if j2 == ne.len() - 1 {
            assert(oe[j1].0 != key);
        }
    }
    assert(ne[ne.len() - 1].0 == key);
    lemma_key_index(ne, ne.len() - 1);
    assert forall|k: int|
        k != key as int implies #[trigger] has_key(ne, k) == has_key(oe, k) by {
        if has_key(ne, k) {
            let x = choose|x: int| 0 <= x < ne.len() && (#[trigger] ne[x]).0 == k;
            assert(oe[x].0 == k);
        }
        if has_key(oe, k) {
            let x = choose|x: int| 0 <= x < oe.len() && (#[trigger] oe[x]).0 == k;
            assert(ne[x].0 == k);
        }
    }
    assert forall|k: int|
        k != key as int && #[trigger] has_key(oe, k) implies word_at(ne, k) == word_at(oe, k) by {
        let x = key_index(oe, k);
        lemma_key_index(ne, x);
        assert(ne[x].0 == k);
    }
}

impl<W: BitWord> BitSet for SparseBits<W> {
    open spec fn inv(&self) -> bool {
        unique_keys(self.entries@) && keys_in_range::<W>(self.entries@)
    }

    open spec fn bits(&self) -> Seq<bool> {
        sbits(self.entries@)
    }

    open spec fn is_bounded() -> bool {
        false
    }

    open spec fn and_bits(&self, rhs: &Self) -> Seq<bool> {
        Seq::new(
            self.bits().len(),
            |i: int| self.bits()[i] && (has_key(rhs.entries@, i / (W::word_bits() as int))
                ==> rhs.bits()[i]),
        )
    }

    open spec fn xor_bits(&self, rhs: &Self) -> Seq<bool> {
        Seq::new(self.bits().len(), |i: int| self.bits()[i] || rhs.bits()[i])
    }

    fn bit_len(&self) -> (r: usize) {
        proof {
            W::word_bits_facts();
            lemma_max_bits_fit::<W>();
        }
        let ws = W::word_size();
        (usize::MAX / ws) * ws
    }

    fn bit_init(&mut self, value: bool) {
        proof {
            // filling the unbounded domain is not representable and is
            // ruled out by the precondition; only clearing remains
            assert(!value);
        }
        self.entries = Vec::new();
        proof {
            assert forall|i: int|
                0 <= i < self.bits().len() implies self.bits()[i] == value by {
                assert(!has_key(self.entries@, i / (W::word_bits() as int)));
            }
        }
    }

    fn bit_test(&self, bit: usize) -> (r: bool) {
        proof {
            W::word_bits_facts();
            lemma_max_bits_fit::<W>();
            lemma_bit_index(bit as int, W::word_bits() as int, spec_max_keys::<W>());
        }
        let ws = W::word_size();
        let key = bit / ws;
        let b = bit % ws;
        match self.find_key(key) {
            Option::None => false,
            Option::Some(j) => {
                proof {
                    lemma_key_index(self.entries@, j as int);
                }
                self.entries[j].1.word_test(b)
            },
        }
    }

    fn bit_set(&mut self, bit: usize) {
        proof {
            W::word_bits_facts();
            lemma_max_bits_fit::<W>();
            lemma_bit_index(bit as int, W::word_bits() as int, spec_max_keys::<W>());
        }
        let ghost oe = self.entries@;
        let ghost wb = W::word_bits() as int;
        let ws = W::word_size();
        let key = bit / ws;
        let b = bit % ws;
        match self.find_key(key) {
            Option::Some(j) => {
                proof {
                    lemma_key_index(oe, j as int);
                }
                let w = self.entries[j].1.word_set(b);
                self.entries.set(j, (key, w));
                proof {
                    lemma_entries_update(oe, j as int, w);
                    lemma_sparse_word_change::<W>(self.entries@, oe, key as int, bit as int, true);
                }
            },
            Option::None => {
                let w = W::word_fill(false).word_set(b);
                self.entries.push((key, w));
                proof {
                    lemma_entries_push(oe, key, w);
                    lemma_sparse_word_change::<W>(self.entries@, oe, key as int, bit as int, true);
                }
            },
        }
    }

    fn bit_reset(&mut self, bit: usize) {
        proof {
            W::word_bits_facts();
            lemma_max_bits_fit::<W>();
            lemma_bit_index(bit as int, W::word_bits() as int, spec_max_keys::<W>());
        }
        let ghost oe = self.entries@;
        let ws = W::word_size();
        let key = bit / ws;
        let b = bit % ws;
        match self.find_key(key) {
            Option::Some(j) => {
                proof {
                    lemma_key_index(oe, j as int);
                }
                let w = self.entries[j].1.word_reset(b);
                self.entries.set(j, (key, w));
                proof {
                    lemma_entries_update(oe, j as int, w);
                    lemma_sparse_word_change::<W>(self.entries@, oe, key as int, bit as int, false);
                }
            },
            Option::None => {
                proof {
                    assert forall|i: int|
                        0 <= i < self.bits().len() implies self.bits()[i] == old(
                        self,
                    ).bits().update(bit as int, false)[i] by {
                        if i == bit {
                            assert(!has_key(oe, bit as int / (W::word_bits() as int)));
                        }
                    }
                    assert(self.bits() =~= old(self).bits().update(bit as int, false));
                }
            },
        }
    }

    fn bit_flip(&mut self, bit: usize) {
        proof {
            W::word_bits_facts();
            lemma_max_bits_fit::<W>();
            lemma_bit_index(bit as int, W::word_bits() as int, spec_max_keys::<W>());
        }
        let ghost oe = self.entries@;
        let ws = W::word_size();
        let key = bit / ws;
        let b = bit % ws;
        match self.find_key(key) {
            Option::Some(j) => {
                proof {
                    lemma_key_index(oe, j as int);
                }
                let w = self.entries[j].1.word_flip(b);
                self.entries.set(j, (key, w));
                proof {
                    lemma_entries_update(oe, j as int, w);
                    lemma_sparse_word_change::<W>(
                        self.entries@,
                        oe,
                        key as int,
                        bit as int,
                        !old(self).bits()[bit as int],
                    );
                }
            },
            Option::None => {
                let w = W::word_fill(false).word_flip(b);
                self.entries.push((key, w));
                proof {
                    lemma_entries_push(oe, key, w);
                    assert(!has_key(oe, key as int));
                    lemma_sparse_word_change::<W>(
                        self.entries@,
                        oe,
                        key as int,
                        bit as int,
                        !old(self).bits()[bit as int],
                    );
                }
            },
        }
    }

    fn bit_cond(&mut self, bit: usize, value: bool) {
        if value {
            self.bit_set(bit);
        } else {
            self.bit_reset(bit);
        }
        proof {
            assert(self.bits() =~= old(self).bits().update(bit as int, value));
        }
    }

    fn bit_all(&self) -> (r: bool) {
        false
    }

    fn bit_any(&self) -> (r: bool) {
        proof {
            W::word_bits_facts();
            lemma_max_bits_fit::<W>();
        }
        let ghost wb = W::word_bits() as int;
        let n = self.entries.len();
        let mut j: usize = 0;
        while j < n
            invariant
                j <= n,
                n == self.entries@.len(),
                self.inv(),
                wb == W::word_bits() as int,
                forall|jj: int, t: int|
                    0 <= jj < j && 0 <= t < W::word_bits() ==> !(#[trigger] self.entries@[
                        jj
                    ].1.bit_at(t)),
            decreases n - j,
        {
            proof {
                W::word_bits_facts();
                lemma_max_bits_fit::<W>();
            }
            if self.entries[j].1.word_any() {
                proof {
                    let t = choose|t: int|
                        0 <= t < W::word_bits() && #[trigger] self.entries@[j as int].1.bit_at(t);
                    let key = self.entries@[j as int].0 as int;
                    lemma_word_index(key, t, wb, spec_max_keys::<W>());
                    lemma_key_index(self.entries@, j as int);
                    assert(self.bits()[key * wb + t]);
                }
                return true;
            }
            j += 1;
        }
        proof {
            assert forall|i: int| 0 <= i < self.bits().len() implies !self.bits()[i] by {
                lemma_bit_index(i, wb, spec_max_keys::<W>());
                let k = i / wb;
                if has_key(self.entries@, k) {
                    let x = key_index(self.entries@, k);
                    assert(0 <= x < n && self.entries@[x].0 == k);
                    assert(!self.entries@[x].1.bit_at(i % wb));
                }
            }
        }
        false
    }

    fn bit_eq(&self, rhs: &Self) -> (r: bool) {
        proof {
            W::word_bits_facts();
            lemma_max_bits_fit::<W>();
        }
        let ghost wb = W::word_bits() as int;
        let n1 = self.entries.len();
        let mut j: usize = 0;
        while j < n1
            invariant
                j <= n1,
                n1 == self.entries@.len(),
                self.inv(),
                rhs.inv(),
                wb == W::word_bits() as int,
                forall|jj: int, t: int|
                    0 <= jj < j && 0 <= t < W::word_bits() ==> (#[trigger] self.entries@[
                        jj
                    ].1.bit_at(t)) == (has_key(rhs.entries@, self.entries@[jj].0 as int)
                        && word_at(rhs.entries@, self.entries@[jj].0 as int).bit_at(t)),
            decreases n1 - j,
        {
            proof {
                W::word_bits_facts();
                lemma_max_bits_fit::<W>();
            }
            let e = self.entries[j];
            match rhs.find_key(e.0) {
                Option::Some(j2) => {
                    proof {
                        lemma_key_index(rhs.entries@, j2 as int);
                    }
                    if !e.1.word_eq(rhs.entries[j2].1) {
                        proof {
                            let t = choose|t: int|
                                0 <= t < W::word_bits() && (#[trigger] e.1.bit_at(t)) != rhs.entries@[
                                    j2 as int
                                ].1.bit_at(t);
                            lemma_word_index(e.0 as int, t, wb, spec_max_keys::<W>());
                            lemma_key_index(self.entries@, j as int);
                            assert(self.bits()[e.0 as int * wb + t] != rhs.bits()[e.0 as int * wb
                                + t]);
                        }
                        return false;
                    }
                },
                Option::None => {
                    if e.1.word_any() {
                        proof {
                            let t = choose|t: int|
                                0 <= t < W::word_bits() && #[trigger] e.1.bit_at(t);
                            lemma_word_index(e.0 as int, t, wb, spec_max_keys::<W>());
                            lemma_key_index(self.entries@, j as int);
                            assert(self.bits()[e.0 as int * wb + t] != rhs.bits()[e.0 as int * wb
                                + t]);
                        }
                        return false;
                    }
                },
            }
            j += 1;
        }
        let n2 = rhs.entries.len();
        let mut j2: usize = 0;
        while j2 < n2
            invariant
                j2 <= n2,
                n1 == self.entries@.len(),
                n2 == rhs.entries@.len(),
                self.inv(),
                rhs.inv(),
                wb == W::word_bits() as int,
                forall|jj: int, t: int|
                    0 <= jj < n1 && 0 <= t < W::word_bits() ==> (#[trigger] self.entries@[
                        jj
                    ].1.bit_at(t)) == (has_key(rhs.entries@, self.entries@[jj].0 as int)
                        && word_at(rhs.entries@, self.entries@[jj].0 as int).bit_at(t)),
                forall|jj: int, t: int|
                    0 <= jj < j2 && 0 <= t < W::word_bits() ==> (#[trigger] rhs.entries@[
                        jj
                    ].1.bit_at(t)) == (has_key(self.entries@, rhs.entries@[jj].0 as int)
                        && word_at(self.entries@, rhs.entries@[jj].0 as int).bit_at(t)),
            decreases n2 - j2,
        {
            proof {
                W::word_bits_facts();
                lemma_max_bits_fit::<W>();
            }
            let e = rhs.entries[j2];
            match self.find_key(e.0) {
                Option::Some(j1) => {
                    proof {
                        lemma_key_index(self.entries@, j1 as int);
                    }
                    if !rhs.entries[j2].1.word_eq(self.entries[j1].1) {
                        proof {
                            let t = choose|t: int|
                                0 <= t < W::word_bits() && (#[trigger] e.1.bit_at(t)) != self.entries@[
                                    j1 as int
                                ].1.bit_at(t);
                            lemma_word_index(e.0 as int, t, wb, spec_max_keys::<W>());
                            lemma_key_index(rhs.entries@, j2 as int);
                            assert(self.bits()[e.0 as int * wb + t] != rhs.bits()[e.0 as int * wb
                                + t]);
                        }
                        return false;
                    }
                },
                Option::None => {
                    if rhs.entries[j2].1.word_any() {
                        proof {
                            let t = choose|t: int|
                                0 <= t < W::word_bits() && #[trigger] e.1.bit_at(t);
                            lemma_word_index(e.0 as int, t, wb, spec_max_keys::<W>());
                            lemma_key_index(rhs.entries@, j2 as int);
                            assert(self.bits()[e.0 as int * wb + t] != rhs.bits()[e.0 as int * wb
                                + t]);
                        }
                        return false;
                    }
                },
            }
            j2 += 1;
        }
        proof {
            assert forall|i: int|
                0 <= i < self.bits().len() implies self.bits()[i] == rhs.bits()[i] by {
                lemma_bit_index(i, wb, spec_max_keys::<W>());
                let k = i / wb;
                if has_key(self.entries@, k) {
                    let x = key_index(self.entries@, k);
                    assert(0 <= x < n1 && self.entries@[x].0 == k);
                } else {
                    if has_key(rhs.entries@, k) {
                        let x = key_index(rhs.entries@, k);
                        assert(0 <= x < n2 && rhs.entries@[x].0 == k);
                        assert(!has_key(self.entries@, rhs.entries@[x].0 as int));
                    }
                }
            }
        }
        true
    }

    fn bit_disjoint(&self, rhs: &Self) -> (r: bool) {
        proof {
            W::word_bits_facts();
            lemma_max_bits_fit::<W>();
        }
        let ghost wb = W::word_bits() as int;
        let n = self.entries.len();
        let mut j: usize = 0;
        while j < n
            invariant
                j <= n,
                n == self.entries@.len(),
                self.inv(),
                rhs.inv(),
                wb == W::word_bits() as int,
                forall|jj: int, t: int|
                    0 <= jj < j && 0 <= t < W::word_bits() ==> !((#[trigger] self.entries@[
                        jj
                    ].1.bit_at(t)) && has_key(rhs.entries@, self.entries@[jj].0 as int) && word_at(
                        rhs.entries@,
                        self.entries@[jj].0 as int,
                    ).bit_at(t)),
            decreases n - j,
        {
            proof {
                W::word_bits_facts();
                lemma_max_bits_fit::<W>();
            }
            let e = self.entries[j];
            match rhs.find_key(e.0) {
                Option::Some(j2) => {
                    proof {
                        lemma_key_index(rhs.entries@, j2 as int);
                    }
                    let d = e.1.word_and(rhs.entries[j2].1);
                    if d.word_any() {
                        proof {
                            let t = choose|t: int|
                                0 <= t < W::word_bits() && #[trigger] d.bit_at(t);
                            lemma_word_index(e.0 as int, t, wb, spec_max_keys::<W>());
                            lemma_key_index(self.entries@, j as int);
                            assert(self.bits()[e.0 as int * wb + t] && rhs.bits()[e.0 as int * wb
                                + t]);
                        }
                        return false;
                    }
                },
                Option::None => {},
            }
            j += 1;
        }
        proof {
            assert forall|i: int|
                0 <= i < self.bits().len() implies !(self.bits()[i] && rhs.bits()[i]) by {
                lemma_bit_index(i, wb, spec_max_keys::<W>());
                let k = i / wb;
                if has_key(self.entries@, k) {
                    let x = key_index(self.entries@, k);
                    assert(0 <= x < n && self.entries@[x].0 == k);
                }
            }
        }
        true
    }

    fn bit_subset(&self, rhs: &Self) -> (r: bool) {
        proof {
            W::word_bits_facts();
            lemma_max_bits_fit::<W>();
        }
        let ghost wb = W::word_bits() as int;
        let n = self.entries.len();
        let mut j: usize = 0;
        while j < n
            invariant
                j <= n,
                n == self.entries@.len(),
                self.inv(),
                rhs.inv(),
                wb == W::word_bits() as int,
                forall|jj: int, t: int|
                    0 <= jj < j && 0 <= t < W::word_bits() ==> ((#[trigger] self.entries@[
                        jj
                    ].1.bit_at(t)) ==> (has_key(rhs.entries@, self.entries@[jj].0 as int)
                        && word_at(rhs.entries@, self.entries@[jj].0 as int).bit_at(t))),
            decreases n - j,
        {
            proof {
                W::word_bits_facts();
                lemma_max_bits_fit::<W>();
            }
            let e = self.entries[j];
            match rhs.find_key(e.0) {
                Option::Some(j2) => {
                    proof {
                        lemma_key_index(rhs.entries@, j2 as int);
                    }
                    let u = e.1.word_andnot(rhs.entries[j2].1);
                    if u.word_any() {
                        proof {
                            let t = choose|t: int|
                                0 <= t < W::word_bits() && #[trigger] u.bit_at(t);
                            lemma_word_index(e.0 as int, t, wb, spec_max_keys::<W>());
                            lemma_key_index(self.entries@, j as int);
                            assert(self.bits()[e.0 as int * wb + t] && !rhs.bits()[e.0 as int * wb
                                + t]);
                        }
                        return false;
                    }
                },
                Option::None => {
                    if e.1.word_any() {
                        proof {
                            let t = choose|t: int|
                                0 <= t < W::word_bits() && #[trigger] e.1.bit_at(t);
                            lemma_word_index(e.0 as int, t, wb, spec_max_keys::<W>());
                            lemma_key_index(self.entries@, j as int);
                            assert(self.bits()[e.0 as int * wb + t] && !rhs.bits()[e.0 as int * wb
                                + t]);
                        }
                        return false;
                    }
                },
            }
            j += 1;
        }
        proof {
            assert forall|i: int|
                0 <= i < self.bits().len() implies (self.bits()[i] ==> rhs.bits()[i]) by {
                lemma_bit_index(i, wb, spec_max_keys::<W>());
                let k = i / wb;
                if has_key(self.entries@, k) {
                    let x = key_index(self.entries@, k);
                    assert(0 <= x < n && self.entries@[x].0 == k);
                }
            }
        }
        true
    }

    fn bit_or(&mut self, rhs: &Self) {
        sparse_merge_or(self, rhs);
        proof {
            assert forall|i: int|
                0 <= i < self.bits().len() implies self.bits()[i] == (old(self).bits()[i]
                || rhs.bits()[i]) by {}
        }
    }

    fn bit_and(&mut self, rhs: &Self) {
        proof {
            W::word_bits_facts();
            lemma_max_bits_fit::<W>();
        }
        let ghost wb = W::word_bits() as int;
        let ghost oe = old(self).entries@;
        let n = self.entries.len();
        let mut j: usize = 0;
        while j < n
            invariant
                j <= n,
                n == self.entries@.len(),
                n == oe.len(),
                self.inv(),
                rhs.inv(),
                wb == W::word_bits() as int,
                oe == old(self).entries@,
                forall|jj: int| 0 <= jj < n ==> (#[trigger] self.entries@[jj]).0 == oe[jj].0,
                forall|jj: int| j <= jj < n ==> (#[trigger] self.entries@[jj]).1 == oe[jj].1,
                forall|jj: int, t: int|
                    0 <= jj < j && 0 <= t < W::word_bits() ==> (#[trigger] self.entries@[
                        jj
                    ].1.bit_at(t)) == (oe[jj].1.bit_at(t) && (has_key(
                        rhs.entries@,
                        oe[jj].0 as int,
                    ) ==> word_at(rhs.entries@, oe[jj].0 as int).bit_at(t))),
            decreases n - j,
        {
            proof {
                W::word_bits_facts();
                lemma_max_bits_fit::<W>();
            }
            let ghost pe = self.entries@;
            let e = self.entries[j];
            match rhs.find_key(e.0) {
                Option::Some(j2) => {
                    proof {
                        lemma_key_index(rhs.entries@, j2 as int);
                        lemma_key_index(self.entries@, j as int);
                    }
                    let w = e.1.word_and(rhs.entries[j2].1);
                    self.entries.set(j, (e.0, w));
                    proof {
                        lemma_entries_update(pe, j as int, w);
                    }
                },
                Option::None => {},
            }
            j += 1;
        }
        proof {
            let tgt = old(self).and_bits(rhs);
            assert forall|i: int|
                0 <= i < self.bits().len() implies self.bits()[i] == tgt[i] by {
                lemma_bit_index(i, wb, spec_max_keys::<W>());
                let k = i / wb;
                lemma_same_keys_lookup::<W>(self.entries@, oe, k);
                if has_key(oe, k) {
                    let x = key_index(oe, k);
                    lemma_key_index(oe, x);
                    lemma_key_index(self.entries@, x);
                }
            }
            assert(self.bits() =~= tgt);
        }
    }

    fn bit_andnot(&mut self, rhs: &Self) {
        proof {
            W::word_bits_facts();
            lemma_max_bits_fit::<W>();
        }
        let ghost wb = W::word_bits() as int;
        let ghost oe = old(self).entries@;
        let n = self.entries.len();
        let mut j: usize = 0;
        while j < n
            invariant
                j <= n,
                n == self.entries@.len(),
                n == oe.len(),
                self.inv(),
                rhs.inv(),
                wb == W::word_bits() as int,
                oe == old(self).entries@,
                forall|jj: int| 0 <= jj < n ==> (#[trigger] self.entries@[jj]).0 == oe[jj].0,
                forall|jj: int| j <= jj < n ==> (#[trigger] self.entries@[jj]).1 == oe[jj].1,
                forall|jj: int, t: int|
                    0 <= jj < j && 0 <= t < W::word_bits() ==> (#[trigger] self.entries@[
                        jj
                    ].1.bit_at(t)) == (oe[jj].1.bit_at(t) && !(has_key(
                        rhs.entries@,
                        oe[jj].0 as int,
                    ) && word_at(rhs.entries@, oe[jj].0 as int).bit_at(t))),
            decreases n - j,
        {
            proof {
                W::word_bits_facts();
                lemma_max_bits_fit::<W>();
            }
            let ghost pe = self.entries@;
            let e = self.entries[j];
            match rhs.find_key(e.0) {
                Option::Some(j2) => {
                    proof {
                        lemma_key_index(rhs.entries@, j2 as int);
                        lemma_key_index(self.entries@, j as int);
                    }
                    let w = e.1.word_andnot(rhs.entries[j2].1);
                    self.entries.set(j, (e.0, w));
                    proof {
                        lemma_entries_update(pe, j as int, w);
                    }
                },
                Option::None => {},
            }
            j += 1;
        }
        proof {
            let tgt = Seq::new(
                old(self).bits().len(),
                |i: int| old(self).bits()[i] && !rhs.bits()[i],
            );
            assert forall|i: int|
                0 <= i < self.bits().len() implies self.bits()[i] == tgt[i] by {
                lemma_bit_index(i, wb, spec_max_keys::<W>());
                let k = i / wb;
                lemma_same_keys_lookup::<W>(self.entries@, oe, k);
                if has_key(oe, k) {
                    let x = key_index(oe, k);
                    lemma_key_index(oe, x);
                    lemma_key_index(self.entries@, x);
                }
            }
            assert(self.bits() =~= tgt);
        }
    }

    fn bit_xor(&mut self, rhs: &Self) {
        sparse_merge_or(self, rhs);
        proof {
            let tgt = old(self).xor_bits(rhs);
            assert forall|i: int|
                0 <= i < self.bits().len() implies self.bits()[i] == tgt[i] by {}
            assert(self.bits() =~= tgt);
        }
    }

    fn bit_not(&mut self) {
        // complementing the unbounded domain is not representable; the
        // precondition (`Self::is_bounded()`) rules every call out
    }

    fn bit_mask(&mut self, rhs: &Self, mask: &Self) {
        sparse_merge_mask(self, rhs, mask);
    }

    fn bit_count(&self) -> (r: usize) {
        proof {
            W::word_bits_facts();
            lemma_max_bits_fit::<W>();
        }
        let ghost wb = W::word_bits() as int;
        proof {
            assert forall|i: int|
                0 <= i < sbits::<W>(self.entries@.take(0)).len() implies !sbits::<W>(
                self.entries@.take(0),
            )[i] by {
                assert(!has_key(self.entries@.take(0), i / wb));
            }
            crate::lemma_count_zero(sbits::<W>(self.entries@.take(0)));
        }
        let n = self.entries.len();
        let mut c: usize = 0;
        let mut j: usize = 0;
        while j < n
            invariant
                j <= n,
                n == self.entries@.len(),
                self.inv(),
                wb == W::word_bits() as int,
                c == count_set(sbits(self.entries@.take(j as int))),
            decreases n - j,
        {
            proof {
                W::word_bits_facts();
                lemma_max_bits_fit::<W>();
                lemma_sparse_count_step::<W>(self.entries@, j as int);
                crate::lemma_count_le_len(sbits(self.entries@.take(j as int + 1)));
            }
            let wk = self.entries[j].1;
            proof {
                assert(Seq::new(W::word_bits(), |t: int| self.entries@[j as int].1.bit_at(t))
                    =~= Seq::new(W::word_bits(), |i: int| wk.bit_at(i)));
            }
            c = c + wk.word_count();
            j += 1;
        }
        proof {
            assert(self.entries@.take(n as int) =~= self.entries@);
        }
        c
    }
}

/// The whole-word bit span fits the machine's range.
pub proof fn lemma_max_bits_fit<W: BitWord>()
    requires
        W::word_bits() >= 1,
    ensures
        spec_max_keys::<W>() >= 0,
        spec_max_keys::<W>() * (W::word_bits() as int) <= usize::MAX,
        sbits::<W>(Seq::empty()).len() == spec_max_keys::<W>() * (W::word_bits() as int),
{
    let wb = W::word_bits() as int;
    let mk = (usize::MAX as int) / wb;
    vstd::arithmetic::div_mod::lemma_div_pos_is_pos(usize::MAX as int, wb);
    vstd::arithmetic::div_mod::lemma_fundamental_div_mod(usize::MAX as int, wb);
    vstd::arithmetic::div_mod::lemma_mod_division_less_than_divisor(usize::MAX as int, wb);
    assert(mk * wb == wb * mk) by (nonlinear_arith);
}

/// Two entry lists with the same keys in the same order agree on key
/// lookup, whatever words they hold.
pub proof fn lemma_same_keys_lookup<W: BitWord>(ne: Seq<(usize, W)>, oe: Seq<(usize, W)>, k: int)
    requires
        ne.len() == oe.len(),
        forall|jj: int| 0 <= jj < ne.len() ==> (#[trigger] ne[jj]).0 == oe[jj].0,
    ensures
        has_key(ne, k) == has_key(oe, k),
{
    if has_key(ne, k) {
        let x = choose|x: int| 0 <= x < ne.len() && (#[trigger] ne[x]).0 == k;
        assert(oe[x].0 == k);
    }
    if has_key(oe, k) {
        let x = choose|x: int| 0 <= x < oe.len() && (#[trigger] oe[x]).0 == k;
        assert(ne[x].0 == k);
    }
}

/// After changing the stored word for one key, the bit sequence is the
/// old one with the bit at `bit` set to `value`, provided the new word
/// agrees with that update on every lane.
pub proof fn lemma_sparse_word_change<W: BitWord>(
    ne: Seq<(usize, W)>,
    oe: Seq<(usize, W)>,
    key: int,
    bit: int,
    value: bool,
)
    requires
        W::word_bits() >= 1,
        0 <= bit < spec_max_keys::<W>() * (W::word_bits() as int),
        key == bit / (W::word_bits() as int),
        unique_keys(ne),
        has_key(ne, key),
        forall|k: int| k != key ==> #[trigger] has_key(ne, k) == has_key(oe, k),
        forall|k: int|
            k != key && #[trigger] has_key(oe, k) ==> word_at(ne, k) == word_at(oe, k),
        forall|t: int|
            0 <= t < W::word_bits() ==> #[trigger] word_at(ne, key).bit_at(t) == (if t == bit % (
            W::word_bits() as int) {
                value
            } else {
                has_key(oe, key) && word_at(oe, key).bit_at(t)
            }),
    ensures
        sbits(ne) =~= sbits(oe).update(bit, value),
{
    let wb = W::word_bits() as int;
    lemma_bit_index(bit, wb, spec_max_keys::<W>());
    assert forall|i: int|
        0 <= i < sbits(ne).len() implies sbits(ne)[i] == sbits(oe).update(bit, value)[i] by {
        lemma_bit_index(i, wb, spec_max_keys::<W>());
        if i / wb == key {
            if i % wb == bit % wb {
                assert(i == bit);
            } else {
                assert(i != bit);
            }
        } else {
            assert(i != bit);
        }
    }
}

/// Unfolding one entry of the population count: the bits of a one-entry
/// extension are the prefix bits plus the new entry's word.
pub proof fn lemma_sparse_count_step<W: BitWord>(es: Seq<(usize, W)>, j: int)
    requires
        W::word_bits() >= 1,
        unique_keys(es),
        keys_in_range::<W>(es),
        0 <= j < es.len(),
    ensures
        count_set(sbits(es.take(j + 1))) == count_set(sbits(es.take(j))) + count_set(
            Seq::new(W::word_bits(), |t: int| es[j].1.bit_at(t)),
        ),
{
    let wb = W::word_bits() as int;
    let a = sbits(es.take(j));
    let b = sbits(es.take(j + 1));
    let key = es[j].0 as int;
    let lo = key * wb;
    let hi = key * wb + wb;
    let w = Seq::new(W::word_bits(), |t: int| es[j].1.bit_at(t));
    lemma_max_bits_fit::<W>();
    lemma_word_index(key, 0, wb, spec_max_keys::<W>());
    assert(es.take(j + 1) =~= es.take(j).push(es[j]));
    assert(unique_keys(es.take(j + 1))) by {
        assert forall|j1: int, j2: int|
            0 <= j1 < j2 < j + 1 implies (#[trigger] es.take(j + 1)[j1]).0 != (#[trigger] es.take(
            j + 1,
        )[j2]).0 by {
            assert(es[j1].0 != es[j2].0);
        }
    }
    assert(!has_key(es.take(j), key)) by {
        if has_key(es.take(j), key) {
            let x = choose|x: int| 0 <= x < j && (#[trigger] es.take(j)[x]).0 == key;
            assert(es[x].0 == es[j].0);
            assert(false);
        }
    }
    lemma_entries_push(es.take(j), es[j].0, es[j].1);
    assert(b.len() == a.len());
    assert(0 <= lo && hi <= a.len()) by {
        vstd::arithmetic::mul::lemma_mul_inequality(key + 1, spec_max_keys::<W>(), wb);
        assert((key + 1) * wb == key * wb + wb) by (nonlinear_arith);
        assert(key * wb >= 0) by (nonlinear_arith)
            requires
                key >= 0,
                wb >= 1,
        ;
    }
    assert forall|i: int| 0 <= i < a.len() && !(lo <= i < hi) implies a[i] == b[i] by {
        lemma_bit_index(i, wb, spec_max_keys::<W>());
        if i / wb == key {
            lemma_word_index(key, i % wb, wb, spec_max_keys::<W>());
            assert(i == key * wb + i % wb);
            assert(false);
        }
    }
    assert forall|i: int| lo <= i < hi implies !a[i] && b[i] == w[i - lo] by {
        lemma_word_index(key, i - lo, wb, spec_max_keys::<W>());
        assert(i / wb == key && i % wb == i - lo);
    }
    let a1 = a.subrange(0, lo);
    let a2 = a.subrange(lo, hi);
    let a3 = a.subrange(hi, a.len() as int);
    let b1 = b.subrange(0, lo);
    let b2 = b.subrange(lo, hi);
    let b3 = b.subrange(hi, b.len() as int);
    assert(a =~= a1 + a2 + a3);
    assert(b =~= b1 + b2 + b3);
    crate::lemma_count_append(a1 + a2, a3);
    crate::lemma_count_append(a1, a2);
    crate::lemma_count_append(b1 + b2, b3);
    crate::lemma_count_append(b1, b2);
    assert((a1 + a2) + a3 == a1 + a2 + a3);
    assert((b1 + b2) + b3 == b1 + b2 + b3);
    assert(a1 =~= b1);
    assert(a3 =~= b3);
    assert(b2 =~= w);
    crate::lemma_count_zero(a2);
}

/// Unions every stored word of `rhs` into `this`, inserting a fresh
/// entry where the key is absent.  This is both the union and, over
/// whole words, the symmetric-difference merge of the sparse backend.
fn sparse_merge_or<W: BitWord>(this: &mut SparseBits<W>, rhs: &SparseBits<W>)
    requires
        old(this).inv(),
        rhs.inv(),
    ensures
        final(this).inv(),
        final(this).bits().len() == old(this).bits().len(),
        forall|i: int|
            0 <= i < final(this).bits().len() ==> (#[trigger] final(this).bits()[i]) == (old(
            this,
            ).bits()[i] || rhs.bits()[i]),
{
    proof {
        W::word_bits_facts();
        lemma_max_bits_fit::<W>();
    }
    let ghost wb = W::word_bits() as int;
    let n2 = rhs.entries.len();
    let mut m: usize = 0;
    while m < n2
        invariant
            m <= n2,
            n2 == rhs.entries@.len(),
            this.inv(),
            rhs.inv(),
            wb == W::word_bits() as int,
            forall|i: int|
                0 <= i < this.bits().len() ==> #[trigger] this.bits()[i] == (old(this).bits()[i]
                    || (key_in_prefix(rhs.entries@, i / (W::word_bits() as int), m as int)
                        && rhs.bits()[i])),
        decreases n2 - m,
    {
        proof {
            W::word_bits_facts();
            lemma_max_bits_fit::<W>();
            lemma_key_index(rhs.entries@, m as int);
        }
        let ghost pre = this.bits();
        let ghost pe = this.entries@;
        let e = rhs.entries[m];
        match this.find_key(e.0) {
            Option::Some(j) => {
                proof {
                    lemma_key_index(pe, j as int);
                }
                let w = this.entries[j].1.word_or(e.1);
                this.entries.set(j, (e.0, w));
                proof {
                    lemma_entries_update(pe, j as int, w);
                }
            },
            Option::None => {
                this.entries.push((e.0, e.1));
                proof {
                    lemma_entries_push(pe, e.0, e.1);
                }
            },
        }
        proof {
            assert forall|i: int|
                0 <= i < this.bits().len() implies #[trigger] this.bits()[i] == (old(
                this,
            ).bits()[i] || (key_in_prefix(rhs.entries@, i / (W::word_bits() as int), m as int + 1)
                && rhs.bits()[i])) by {
                lemma_bit_index(i, wb, spec_max_keys::<W>());
                let k = i / wb;
                if k == e.0 as int {
                    assert(!key_in_prefix(rhs.entries@, k, m as int)) by {
                        if key_in_prefix(rhs.entries@, k, m as int) {
                            let x = choose|x: int|
                                0 <= x < m && (#[trigger] rhs.entries@[x]).0 == k;
                            assert(rhs.entries@[x].0 != rhs.entries@[m as int].0);
                            assert(false);
                        }
                    }
                    assert(rhs.entries@[m as int].0 == k);
                    assert(key_in_prefix(rhs.entries@, k, m as int + 1));
                    assert(pre[i] == old(this).bits()[i]);
                } else {
                    assert(this.bits()[i] == pre[i]);
                    assert(key_in_prefix(rhs.entries@, k, m as int + 1) == key_in_prefix(
                        rhs.entries@,
                        k,
                        m as int,
                    )) by {
                        if key_in_prefix(rhs.entries@, k, m as int + 1) {
                            let x = choose|x: int|
                                0 <= x < m + 1 && (#[trigger] rhs.entries@[x]).0 == k;
                            assert(x != m);
                        }
                    }
                }
            }
        }
        m += 1;
    }
    proof {
        assert forall|i: int|
            0 <= i < this.bits().len() implies #[trigger] this.bits()[i] == (old(this).bits()[i]
            || rhs.bits()[i]) by {
            lemma_bit_index(i, wb, spec_max_keys::<W>());
            let k = i / wb;
            if rhs.bits()[i] {
                assert(has_key(rhs.entries@, k));
                let x = key_index(rhs.entries@, k);
                assert(0 <= x < n2 && rhs.entries@[x].0 == k);
                assert(key_in_prefix(rhs.entries@, k, n2 as int));
            }
            if key_in_prefix(rhs.entries@, k, n2 as int) {
                let x = choose|x: int| 0 <= x < n2 && (#[trigger] rhs.entries@[x]).0 == k;
                assert(has_key(rhs.entries@, k));
            }
        }
    }
}

/// Applies the masked merge for every key stored in `mask`, fetching
/// the default zero word where `rhs` or `this` has no entry.  Keys the
/// mask does not hold keep their bits, which matches the bit-level
/// select against an implicitly zero mask word.
fn sparse_merge_mask<W: BitWord>(
    this: &mut SparseBits<W>,
    rhs: &SparseBits<W>,
    mask: &SparseBits<W>,
)
    requires
        old(this).inv(),
        rhs.inv(),
        mask.inv(),
    ensures
        final(this).inv(),
        final(this).bits().len() == old(this).bits().len(),
        forall|i: int|
            0 <= i < final(this).bits().len() ==> (#[trigger] final(this).bits()[i]) == (
            if mask.bits()[i] {
                rhs.bits()[i]
            } else {
                old(this).bits()[i]
            }),
{
    proof {
        W::word_bits_facts();
        lemma_max_bits_fit::<W>();
    }
    let ghost wb = W::word_bits() as int;
    let n2 = mask.entries.len();
    let mut m: usize = 0;
    while m < n2
        invariant
            m <= n2,
            n2 == mask.entries@.len(),
            this.inv(),
            rhs.inv(),
            mask.inv(),
            wb == W::word_bits() as int,
            forall|i: int|
                0 <= i < this.bits().len() ==> #[trigger] this.bits()[i] == (if key_in_prefix(
                    mask.entries@,
                    i / (W::word_bits() as int),
                    m as int,
                ) && mask.bits()[i] {
                    rhs.bits()[i]
                } else {
                    old(this).bits()[i]
                }),
        decreases n2 - m,
    {
        proof {
            W::word_bits_facts();
            lemma_max_bits_fit::<W>();
            lemma_key_index(mask.entries@, m as int);
        }
        let ghost pre = this.bits();
        let ghost pe = this.entries@;
        let e = mask.entries[m];
        let w2 = match rhs.find_key(e.0) {
            Option::Some(j2) => {
                proof {
                    lemma_key_index(rhs.entries@, j2 as int);
                }
                rhs.entries[j2].1
            },
            Option::None => W::word_fill(false),
        };
        proof {
            assert forall|t: int|
                0 <= t < W::word_bits() implies #[trigger] w2.bit_at(t) == (has_key(
                rhs.entries@,
                e.0 as int,
            ) && word_at(rhs.entries@, e.0 as int).bit_at(t)) by {}
        }
        match this.find_key(e.0) {
            Option::Some(j) => {
                proof {
                    lemma_key_index(pe, j as int);
                }
                let w = this.entries[j].1.word_mask(w2, e.1);
                this.entries.set(j, (e.0, w));
                proof {
                    lemma_entries_update(pe, j as int, w);
                }
            },
            Option::None => {
                let w = W::word_fill(false).word_mask(w2, e.1);
                this.entries.push((e.0, w));
                proof {
                    lemma_entries_push(pe, e.0, w);
                }
            },
        }
        proof {
            assert forall|i: int|
                0 <= i < this.bits().len() implies #[trigger] this.bits()[i] == (if key_in_prefix(
                    mask.entries@,
                    i / (W::word_bits() as int),
                    m as int + 1,
                ) && mask.bits()[i] {
                    rhs.bits()[i]
                } else {
                    old(this).bits()[i]
                }) by {
                lemma_bit_index(i, wb, spec_max_keys::<W>());
                let k = i / wb;
                if k == e.0 as int {
                    assert(!key_in_prefix(mask.entries@, k, m as int)) by {
                        if key_in_prefix(mask.entries@, k, m as int) {
                            let x = choose|x: int|
                                0 <= x < m && (#[trigger] mask.entries@[x]).0 == k;
                            assert(mask.entries@[x].0 != mask.entries@[m as int].0);
                            assert(false);
                        }
                    }
                    assert(mask.entries@[m as int].0 == k);
                    assert(key_in_prefix(mask.entries@, k, m as int + 1));
                    assert(pre[i] == old(this).bits()[i]);
                } else {
                    assert(this.bits()[i] == pre[i]);
                    assert(key_in_prefix(mask.entries@, k, m as int + 1) == key_in_prefix(
                        mask.entries@,
                        k,
                        m as int,
                    )) by {
                        if key_in_prefix(mask.entries@, k, m as int + 1) {
                            let x = choose|x: int|
                                0 <= x < m + 1 && (#[trigger] mask.entries@[x]).0 == k;
                            assert(x != m);
                        }
                    }
                }
            }
        }
        m += 1;
    }
    proof {
        assert forall|i: int|
            0 <= i < this.bits().len() implies this.bits()[i] == (if mask.bits()[i] {
            rhs.bits()[i]
        } else {
            old(this).bits()[i]
        }) by {
            lemma_bit_index(i, wb, spec_max_keys::<W>());
            let k = i / wb;
            if mask.bits()[i] {
                assert(has_key(mask.entries@, k));
                let x = key_index(mask.entries@, k);
                assert(0 <= x < n2 && mask.entries@[x].0 == k);
                assert(key_in_prefix(mask.entries@, k, n2 as int));
            }
        }
    }
}

} // verus!
