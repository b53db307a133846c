//! A bit-set abstraction over several storage backends.
//!
//! The [`BitSet`] trait gives every supported container the same bit-level
//! contract: testing and mutating single bits, boolean reductions, set
//! algebra, population count and formatting.  Backends are provided for a
//! single unsigned word, a vector of words, a vector of fixed-size lane
//! arrays (shaped like hardware vector registers), and a sparse key-to-word
//! association with default-zero semantics.
//!
//! Every container is modelled by a sequence of booleans, `bits()`; bit `i`
//! is the bit at position `1 << (i % w)` of word `i / w`, where `w` is the
//! word width in bits (little-endian bit convention).

use vstd::prelude::*;

pub mod fmt;
pub mod index;
pub mod laws;
pub mod simd;
pub mod sparse;
pub mod slice;
pub mod uint;

pub use fmt::{bit_fmt, BitFmt};

verus! {

/// True when at least one bit of `s` is set.
pub open spec fn any_set(s: Seq<bool>) -> bool {
    exists|i: int| 0 <= i < s.len() && s[i]
}

/// True when every bit of `s` is set.
pub open spec fn all_set(s: Seq<bool>) -> bool {
    forall|i: int| 0 <= i < s.len() ==> s[i]
}

/// True when `a` and `b` agree on every position of `a`.
pub open spec fn same_bits(a: Seq<bool>, b: Seq<bool>) -> bool {
    forall|i: int| 0 <= i < a.len() ==> a[i] == b[i]
}

/// True when no position is set in both `a` and `b`.
pub open spec fn disjoint_bits(a: Seq<bool>, b: Seq<bool>) -> bool {
    forall|i: int| 0 <= i < a.len() ==> !(a[i] && b[i])
}

/// True when every bit set in `a` is also set in `b`.
pub open spec fn subset_bits(a: Seq<bool>, b: Seq<bool>) -> bool {
    forall|i: int| 0 <= i < a.len() ==> (a[i] ==> b[i])
}

/// The number of set bits in `s`.
pub open spec fn count_set(s: Seq<bool>) -> nat
    decreases s.len(),
{
    if s.len() == 0 {
        0
    } else {
        count_set(s.drop_last()) + (if s.last() {
            1nat
        } else {
            0nat
        })
    }
}

/// `count_set` distributes over concatenation.
pub proof fn lemma_count_append(a: Seq<bool>, b: Seq<bool>)
    ensures
        count_set(a + b) == count_set(a) + count_set(b),
    decreases b.len(),
{
    if b.len() == 0 {
        assert(a + b =~= a);
    } else {
        assert((a + b).drop_last() =~= a + b.drop_last());
        lemma_count_append(a, b.drop_last());
    }
}

/// `count_set` never exceeds the sequence length.
pub proof fn lemma_count_le_len(s: Seq<bool>)
    ensures
        count_set(s) <= s.len(),
    decreases s.len(),
{
    if s.len() > 0 {
        lemma_count_le_len(s.drop_last());
    }
}

/// A sequence with no set bit counts zero.
pub proof fn lemma_count_zero(s: Seq<bool>)
    requires
        forall|i: int| 0 <= i < s.len() ==> !s[i],
    ensures
        count_set(s) == 0,
    decreases s.len(),
{
    if s.len() > 0 {
        assert(!s[s.len() - 1]);
        lemma_count_zero(s.drop_last());
    }
}

/// The shared bit-set contract.
///
/// A container's conceptual content is the boolean sequence `bits()`;
/// `inv()` is the container's well-formedness condition, which every
/// operation preserves.  `is_bounded()` distinguishes the finite backends
/// from the sparse backend, whose bit domain is virtually unbounded: on an
/// unbounded backend, setting every bit (`bit_init(true)`, `bit_not`) is
/// not representable and is excluded by precondition, and `bit_all` is
/// always false.
///
/// `bit_and` and `bit_xor` do not behave uniformly across backends: the
/// sparse backend leaves a stored word unchanged when the right-hand side
/// has no word stored under the same key, and its symmetric difference
/// merges whole words.  Each implementation therefore fixes the exact
/// result through its own `and_bits` / `xor_bits` definition, and the
/// trait-level postconditions additionally give the bounds that hold for
/// every backend.
pub trait BitSet: Sized {
    /// Well-formedness of the container.
    spec fn inv(&self) -> bool;

    /// The conceptual bit sequence; bit 0 is the least-significant bit of
    /// word 0.
    spec fn bits(&self) -> Seq<bool>;

    /// False exactly for backends with a virtually unbounded bit domain.
    spec fn is_bounded() -> bool;

    /// The exact result of `bit_and` on this backend.
    spec fn and_bits(&self, rhs: &Self) -> Seq<bool>;

    /// The exact result of `bit_xor` on this backend.
    spec fn xor_bits(&self, rhs: &Self) -> Seq<bool>;

    /// Returns the total number of addressable bits.
    fn bit_len(&self) -> (r: usize)
        requires
            self.inv(),
        ensures
            r == self.bits().len(),
    ;

    /// Sets every bit to `value`.  Setting all bits of an unbounded
    /// backend is not representable and is excluded.
    fn bit_init(&mut self, value: bool)
        requires
            old(self).inv(),
            value ==> Self::is_bounded(),
        ensures
            final(self).inv(),
            final(self).bits().len() == old(self).bits().len(),
            forall|i: int|
                0 <= i < final(self).bits().len() ==> final(self).bits()[i] == value,
    ;

    /// Returns whether bit `bit` is set.
    fn bit_test(&self, bit: usize) -> (r: bool)
        requires
            self.inv(),
            bit < self.bits().len(),
        ensures
            r == self.bits()[bit as int],
    ;

    /// Sets bit `bit`.
    fn bit_set(&mut self, bit: usize)
        requires
            old(self).inv(),
            bit < old(self).bits().len(),
        ensures
            final(self).inv(),
            final(self).bits() =~= old(self).bits().update(bit as int, true),
    ;

    /// Resets bit `bit`.
    fn bit_reset(&mut self, bit: usize)
        requires
            old(self).inv(),
            bit < old(self).bits().len(),
        ensures
            final(self).inv(),
            final(self).bits() =~= old(self).bits().update(bit as int, false),
    ;

    /// Flips bit `bit`.
    fn bit_flip(&mut self, bit: usize)
        requires
            old(self).inv(),
            bit < old(self).bits().len(),
        ensures
            final(self).inv(),
            final(self).bits() =~= old(self).bits().update(
                bit as int,
                !old(self).bits()[bit as int],
            ),
    ;

    /// Sets bit `bit` to `value`.
    fn bit_cond(&mut self, bit: usize, value: bool)
        requires
            old(self).inv(),
            bit < old(self).bits().len(),
        ensures
            final(self).inv(),
            final(self).bits() =~= old(self).bits().update(bit as int, value),
    ;

    /// Returns whether every bit is set.  On an unbounded backend no
    /// finite content can set every bit, so the result is always false
    /// there.
    fn bit_all(&self) -> (r: bool)
        requires
            self.inv(),
        ensures
            r == (Self::is_bounded() && all_set(self.bits())),
    ;

    /// Returns whether at least one bit is set.
    fn bit_any(&self) -> (r: bool)
        requires
            self.inv(),
        ensures
            r == any_set(self.bits()),
    ;

    /// Returns whether no bit is set.
    fn bit_none(&self) -> (r: bool)
        requires
            self.inv(),
        ensures
            r == !any_set(self.bits()),
    {
        !self.bit_any()
    }

    /// Returns whether the two containers hold the same bits.
    fn bit_eq(&self, rhs: &Self) -> (r: bool)
        requires
            self.inv(),
            rhs.inv(),
            self.bits().len() == rhs.bits().len(),
        ensures
            r == same_bits(self.bits(), rhs.bits()),
    ;

    /// Returns whether the two containers have no set bit in common.
    fn bit_disjoint(&self, rhs: &Self) -> (r: bool)
        requires
            self.inv(),
            rhs.inv(),
            self.bits().len() == rhs.bits().len(),
        ensures
            r == disjoint_bits(self.bits(), rhs.bits()),
    ;

    /// Returns whether every bit set in `self` is also set in `rhs`.
    fn bit_subset(&self, rhs: &Self) -> (r: bool)
        requires
            self.inv(),
            rhs.inv(),
            self.bits().len() == rhs.bits().len(),
        ensures
            r == subset_bits(self.bits(), rhs.bits()),
    ;

    /// Returns whether every bit set in `rhs` is also set in `self`.
    fn bit_superset(&self, rhs: &Self) -> (r: bool)
        requires
            self.inv(),
            rhs.inv(),
            self.bits().len() == rhs.bits().len(),
        ensures
            r == subset_bits(rhs.bits(), self.bits()),
    {
        rhs.bit_subset(self)
    }

    /// Bitwise union, in place.
    fn bit_or(&mut self, rhs: &Self)
        requires
            old(self).inv(),
            rhs.inv(),
            old(self).bits().len() == rhs.bits().len(),
        ensures
            final(self).inv(),
            final(self).bits().len() == old(self).bits().len(),
            forall|i: int|
                0 <= i < final(self).bits().len() ==> final(self).bits()[i] == (old(self).bits()[i]
                    || rhs.bits()[i]),
    ;

    /// Bitwise intersection, in place.  The exact result is the backend's
    /// `and_bits`; on every backend it lies between the pointwise
    /// intersection and the original content.
    fn bit_and(&mut self, rhs: &Self)
        requires
            old(self).inv(),
            rhs.inv(),
            old(self).bits().len() == rhs.bits().len(),
        ensures
            final(self).inv(),
            final(self).bits() =~= old(self).and_bits(rhs),
            final(self).bits().len() == old(self).bits().len(),
            forall|i: int|
                0 <= i < final(self).bits().len() ==> ((final(self).bits()[i]
                    ==> old(self).bits()[i]) && ((old(self).bits()[i] && rhs.bits()[i])
                    ==> final(self).bits()[i])),
    ;

    /// Bitwise difference (`self & !rhs`), in place.
    fn bit_andnot(&mut self, rhs: &Self)
        requires
            old(self).inv(),
            rhs.inv(),
            old(self).bits().len() == rhs.bits().len(),
        ensures
            final(self).inv(),
            final(self).bits().len() == old(self).bits().len(),
            forall|i: int|
                0 <= i < final(self).bits().len() ==> final(self).bits()[i] == (old(self).bits()[i]
                    && !rhs.bits()[i]),
    ;

    /// Symmetric difference, in place.  The exact result is the backend's
    /// `xor_bits`; on every backend a position keeps its old bit where
    /// `rhs` is zero, and takes `rhs`'s bit where the old bit is zero.
    fn bit_xor(&mut self, rhs: &Self)
        requires
            old(self).inv(),
            rhs.inv(),
            old(self).bits().len() == rhs.bits().len(),
        ensures
            final(self).inv(),
            final(self).bits() =~= old(self).xor_bits(rhs),
            final(self).bits().len() == old(self).bits().len(),
            forall|i: int|
                0 <= i < final(self).bits().len() ==> ((!rhs.bits()[i] ==> final(self).bits()[i]
                    == old(self).bits()[i]) && (!old(self).bits()[i] ==> final(self).bits()[i]
                    == rhs.bits()[i])),
    ;

    /// Bitwise complement, in place.  Complementing an unbounded backend
    /// is not representable and is excluded.
    fn bit_not(&mut self)
        requires
            old(self).inv(),
            Self::is_bounded(),
        ensures
            final(self).inv(),
            final(self).bits().len() == old(self).bits().len(),
            forall|i: int|
                0 <= i < final(self).bits().len() ==> final(self).bits()[i] == !old(self).bits()[i],
    ;

    /// Masked merge: takes `rhs`'s bit where `mask` is set, keeps its own
    /// bit elsewhere.
    fn bit_mask(&mut self, rhs: &Self, mask: &Self)
        requires
            old(self).inv(),
            rhs.inv(),
            mask.inv(),
            old(self).bits().len() == rhs.bits().len(),
            old(self).bits().len() == mask.bits().len(),
        ensures
            final(self).inv(),
            final(self).bits().len() == old(self).bits().len(),
            forall|i: int|
                0 <= i < final(self).bits().len() ==> final(self).bits()[i] == (if mask.bits()[i] {
                    rhs.bits()[i]
                } else {
                    old(self).bits()[i]
                }),
    ;

    /// Returns the number of set bits.
    fn bit_count(&self) -> (r: usize)
        requires
            self.inv(),
        ensures
            r == count_set(self.bits()),
    ;
}

/// Sets the given bit positions on the container, as a convenience
/// constructor: returns `init` with every listed position set.
pub fn bitset_with<T: BitSet>(init: T, positions: &Vec<usize>) -> (r: T)
    requires
        init.inv(),
        forall|k: int| 0 <= k < positions@.len() ==> positions@[k] < init.bits().len(),
    ensures
        r.inv(),
        r.bits().len() == init.bits().len(),
        forall|i: int|
            0 <= i < r.bits().len() ==> r.bits()[i] == (init.bits()[i] || exists|k: int|
                0 <= k < positions@.len() && positions@[k] == i),
{
    let ghost orig = init;
    let mut this = init;
    let m = positions.len();
    let mut k: usize = 0;
    while k < m
        invariant
            this.inv(),
            this.bits().len() == orig.bits().len(),
            k <= m,
            m == positions@.len(),
            forall|k2: int| 0 <= k2 < m ==> positions@[k2] < orig.bits().len(),
            forall|i: int|
                0 <= i < this.bits().len() ==> this.bits()[i] == (orig.bits()[i] || exists|k2: int|
                    0 <= k2 < k && positions@[k2] == i),
        decreases m - k,
    {
        let p = positions[k];
        this.bit_set(p);
        proof {
            assert forall|i: int|
                0 <= i < this.bits().len() implies this.bits()[i] == (orig.bits()[i]
                    || exists|k2: int| 0 <= k2 < k + 1 && positions@[k2] == i) by {
                if i == p {
                    assert(0 <= k < k + 1 && positions@[k as int] == i);
                } else {
                    assert forall|k2: int|
                        0 <= k2 < k + 1 && positions@[k2] == i implies 0 <= k2 < k by {}
                }
            }
        }
        k += 1;
    }
    this
}

/// Unions the given containers into the first, as a convenience
/// combinator: returns `init` after `bit_or` with each element.
pub fn bitor_with<T: BitSet>(init: T, others: &Vec<T>) -> (r: T)
    requires
        init.inv(),
        forall|k: int|
            0 <= k < others@.len() ==> (#[trigger] others@[k]).inv() && others@[k].bits().len()
                == init.bits().len(),
    ensures
        r.inv(),
        r.bits().len() == init.bits().len(),
        forall|i: int|
            0 <= i < r.bits().len() ==> r.bits()[i] == (init.bits()[i] || exists|k: int|
                0 <= k < others@.len() && others@[k].bits()[i]),
{
    let ghost orig = init;
    let mut this = init;
    let m = others.len();
    let mut k: usize = 0;
    while k < m
        invariant
            this.inv(),
            this.bits().len() == orig.bits().len(),
            k <= m,
            m == others@.len(),
            forall|k2: int|
                0 <= k2 < m ==> (#[trigger] others@[k2]).inv() && others@[k2].bits().len()
                    == orig.bits().len(),
            forall|i: int|
                0 <= i < this.bits().len() ==> this.bits()[i] == (orig.bits()[i] || exists|k2: int|
                    0 <= k2 < k && others@[k2].bits()[i]),
        decreases m - k,
    {
        this.bit_or(&others[k]);
        proof {
            assert forall|i: int|
                0 <= i < this.bits().len() implies this.bits()[i] == (orig.bits()[i]
                    || exists|k2: int| 0 <= k2 < k + 1 && others@[k2].bits()[i]) by {
                if others@[k as int].bits()[i] {
                    assert(0 <= k < k + 1 && others@[k as int].bits()[i]);
                } else {
                    assert forall|k2: int|
                        0 <= k2 < k + 1 && others@[k2].bits()[i] implies 0 <= k2 < k by {}
                }
            }
        }
        k += 1;
    }
    this
}

/// Exercises one container through the whole unary part of the contract:
/// clearing, filling, setting and resetting every even bit, complementing,
/// flipping every bit, and the reflexive relations.  Every check the
/// battery makes is proved rather than run; the container ends with
/// exactly its odd positions set.
pub fn unary_tests<T: BitSet>(bits: &mut T)
    requires
        old(bits).inv(),
        T::is_bounded(),
        old(bits).bits().len() >= 2,
    ensures
        final(bits).inv(),
        final(bits).bits().len() == old(bits).bits().len(),
        forall|i: int|
            0 <= i < final(bits).bits().len() ==> final(bits).bits()[i] == (i % 2 == 1),
{
    let n = bits.bit_len();
    // reset all bits
    bits.bit_init(false);
    let any0 = bits.bit_any();
    let all0 = bits.bit_all();
    proof {
        assert(!bits.bits()[0]);
    }
    assert(!any0);
    assert(!all0);
    // set even bits
    let mut i: usize = 0;
    while i < n
        invariant
            bits.inv(),
            n == bits.bits().len(),
            n >= 2,
            i <= n,
            forall|j: int| 0 <= j < n ==> bits.bits()[j] == (j % 2 == 0 && j < i),
        decreases n - i,
    {
        let e = i - i % 2;
        bits.bit_set(e);
        i += 1;
    }
    let any1 = bits.bit_any();
    let all1 = bits.bit_all();
    proof {
        assert(bits.bits()[0]);
        assert(!bits.bits()[1]);
    }
    assert(any1);
    assert(!all1);
    i = 0;
    while i < n
        invariant
            bits.inv(),
            n == bits.bits().len(),
            n >= 2,
            i <= n,
            forall|j: int| 0 <= j < n ==> bits.bits()[j] == (j % 2 == 0),
        decreases n - i,
    {
        let t = bits.bit_test(i);
        assert(t == (i % 2 == 0));
        i += 1;
    }
    // invert all bits and flip back
    bits.bit_not();
    i = 0;
    while i < n
        invariant
            bits.inv(),
            T::is_bounded(),
            n == bits.bits().len(),
            n >= 2,
            i <= n,
            forall|j: int|
                0 <= j < n ==> bits.bits()[j] == (if j < i {
                    j % 2 == 0
                } else {
                    j % 2 == 1
                }),
        decreases n - i,
    {
        bits.bit_flip(i);
        let t = bits.bit_test(i);
        assert(t == (i % 2 == 0));
        i += 1;
    }
    // set all bits
    bits.bit_init(true);
    let any2 = bits.bit_any();
    let all2 = bits.bit_all();
    proof {
        assert(bits.bits()[0]);
    }
    assert(any2);
    assert(all2);
    // clear even bits
    i = 0;
    while i < n
        invariant
            bits.inv(),
            T::is_bounded(),
            n == bits.bits().len(),
            n >= 2,
            i <= n,
            forall|j: int| 0 <= j < n ==> bits.bits()[j] == !(j % 2 == 0 && j < i),
        decreases n - i,
    {
        let e = i - i % 2;
        bits.bit_reset(e);
        i += 1;
    }
    let any3 = bits.bit_any();
    let all3 = bits.bit_all();
    proof {
        assert(bits.bits()[1]);
        assert(!bits.bits()[0]);
    }
    assert(any3);
    assert(!all3);
    i = 0;
    while i < n
        invariant
            bits.inv(),
            T::is_bounded(),
            n == bits.bits().len(),
            n >= 2,
            i <= n,
            forall|j: int| 0 <= j < n ==> bits.bits()[j] == (j % 2 != 0),
        decreases n - i,
    {
        let t = bits.bit_test(i);
        assert(t == (i % 2 != 0));
        i += 1;
    }
    // invert all bits and flip back
    bits.bit_not();
    i = 0;
    while i < n
        invariant
            bits.inv(),
            T::is_bounded(),
            n == bits.bits().len(),
            n >= 2,
            i <= n,
            forall|j: int|
                0 <= j < n ==> bits.bits()[j] == (if j < i {
                    j % 2 == 1
                } else {
                    j % 2 == 0
                }),
        decreases n - i,
    {
        bits.bit_flip(i);
        let t = bits.bit_test(i);
        assert(t == (i % 2 != 0));
        i += 1;
    }
    // the reflexive relations on a populated container
    let this = &*bits;
    let d = this.bit_disjoint(this);
    proof {
        assert(this.bits()[1]);
    }
    assert(!d);
    let sub = this.bit_subset(this);
    assert(sub);
    let sup = this.bit_superset(this);
    assert(sup);
}

} // verus!
