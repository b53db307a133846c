//! The word backend: the bit-set contract on a single unsigned integer.
//!
//! [`BitWord`] captures what the other backends need from one storage
//! word: per-bit access and the word-level forms of every operation, each
//! specified against the word's bit sequence.  The unsigned integer types
//! implement it, and every `BitWord` is itself a complete [`BitSet`] of
//! fixed length.

use vstd::prelude::*;

use crate::{count_set, BitSet};

verus! {

/// One storage word: a fixed-width unsigned integer addressed bit by bit.
///
/// `bit_at(i)` is bit `i` of the word, with bit 0 the least-significant
/// bit; `word_bits()` is the width.  Each executable operation is exact
/// with respect to `bit_at`.
pub trait BitWord: Copy + Sized {
    /// Width of the word in bits.
    spec fn word_bits() -> nat;

    /// Bit `i` of the word (bit 0 is least significant).
    spec fn bit_at(self, i: int) -> bool;

    /// Every width is a positive multiple of 8, no wider than 128 bits.
    proof fn word_bits_facts()
        ensures
            8 <= Self::word_bits() <= 128,
            Self::word_bits() % 8 == 0,
    ;

    /// The width as a runtime value.
    fn word_size() -> (r: usize)
        ensures
            r == Self::word_bits(),
    ;

    /// The all-zero or all-one word.
    fn word_fill(value: bool) -> (r: Self)
        ensures
            forall|i: int| 0 <= i < Self::word_bits() ==> r.bit_at(i) == value,
    ;

    /// Tests bit `b`.
    fn word_test(self, b: usize) -> (r: bool)
        requires
            b < Self::word_bits(),
        ensures
            r == self.bit_at(b as int),
    ;

    /// Sets bit `b`.
    fn word_set(self, b: usize) -> (r: Self)
        requires
            b < Self::word_bits(),
        ensures
            forall|i: int|
                0 <= i < Self::word_bits() ==> r.bit_at(i) == (i == b || self.bit_at(i)),
    ;

    /// Resets bit `b`.
    fn word_reset(self, b: usize) -> (r: Self)
        requires
            b < Self::word_bits(),
        ensures
            forall|i: int|
                0 <= i < Self::word_bits() ==> r.bit_at(i) == (i != b && self.bit_at(i)),
    ;

    /// Flips bit `b`.
    fn word_flip(self, b: usize) -> (r: Self)
        requires
            b < Self::word_bits(),
        ensures
            forall|i: int|
                0 <= i < Self::word_bits() ==> r.bit_at(i) == (if i == b {
                    !self.bit_at(i)
                } else {
                    self.bit_at(i)
                }),
    ;

    /// Bitwise union.
    fn word_or(self, o: Self) -> (r: Self)
        ensures
            forall|i: int|
                0 <= i < Self::word_bits() ==> r.bit_at(i) == (self.bit_at(i) || o.bit_at(i)),
    ;

    /// Bitwise intersection.
    fn word_and(self, o: Self) -> (r: Self)
        ensures
            forall|i: int|
                0 <= i < Self::word_bits() ==> r.bit_at(i) == (self.bit_at(i) && o.bit_at(i)),
    ;

    /// Bitwise difference (`self & !o`).
    fn word_andnot(self, o: Self) -> (r: Self)
        ensures
            forall|i: int|
                0 <= i < Self::word_bits() ==> r.bit_at(i) == (self.bit_at(i) && !o.bit_at(i)),
    ;

    /// Bitwise symmetric difference.
    fn word_xor(self, o: Self) -> (r: Self)
        ensures
            forall|i: int|
                0 <= i < Self::word_bits() ==> r.bit_at(i) == (self.bit_at(i) != o.bit_at(i)),
    ;

    /// Bitwise complement.
    fn word_not(self) -> (r: Self)
        ensures
            forall|i: int| 0 <= i < Self::word_bits() ==> r.bit_at(i) == !self.bit_at(i),
    ;

    /// Masked merge: `self & !m | rhs & m`.
    fn word_mask(self, rhs: Self, m: Self) -> (r: Self)
        ensures
            forall|i: int|
                0 <= i < Self::word_bits() ==> r.bit_at(i) == (if m.bit_at(i) {
                    rhs.bit_at(i)
                } else {
                    self.bit_at(i)
                }),
    ;

    /// Returns whether any bit of the word is set.
    fn word_any(self) -> (r: bool)
        ensures
            r == exists|i: int| 0 <= i < Self::word_bits() && self.bit_at(i),
    ;

    /// Returns whether every bit of the word is set.
    fn word_full(self) -> (r: bool)
        ensures
            r == forall|i: int| 0 <= i < Self::word_bits() ==> self.bit_at(i),
    {
        let c = self.word_not();
        let r = !c.word_any();
        proof {
            if !r {
                let w = choose|i: int| 0 <= i < Self::word_bits() && c.bit_at(i);
                assert(!self.bit_at(w));
            }
        }
        r
    }

    /// Returns whether the two words are equal bit for bit.
    fn word_eq(self, o: Self) -> (r: bool)
        ensures
            r == forall|i: int| 0 <= i < Self::word_bits() ==> self.bit_at(i) == o.bit_at(i),
    {
        let d = self.word_xor(o);
        let r = !d.word_any();
        proof {
            if !r {
                let w = choose|i: int| 0 <= i < Self::word_bits() && d.bit_at(i);
                assert(self.bit_at(w) != o.bit_at(w));
            }
        }
        r
    }

    /// Returns the number of set bits of the word.
    fn word_count(self) -> (r: usize)
        ensures
            r == count_set(Seq::new(Self::word_bits(), |i: int| self.bit_at(i))),
            r <= Self::word_bits(),
    {
        proof {
            Self::word_bits_facts();
        }
        let ghost s = Seq::new(Self::word_bits(), |i: int| self.bit_at(i));
        let n = Self::word_size();
        let mut c: usize = 0;
        let mut b: usize = 0;
        while b < n
            invariant
                b <= n,
                n == Self::word_bits(),
                s == Seq::new(Self::word_bits(), |i: int| self.bit_at(i)),
                c == count_set(s.take(b as int)),
                c <= b,
            decreases n - b,
        {
            proof {
                lemma_count_take_one_more(s, b as int);
            }
            if self.word_test(b) {
                c = c + 1;
            }
            b = b + 1;
        }
        proof {
            assert(s.take(n as int) =~= s);
        }
        c
    }
}

/// The bit sequence of one word.
pub open spec fn word_view<W: BitWord>(w: W) -> Seq<bool> {
    Seq::new(W::word_bits(), |i: int| w.bit_at(i))
}

/// Unfolds one step of `count_set` on a prefix.
pub proof fn lemma_count_take_one_more(s: Seq<bool>, b: int)
    requires
        0 <= b < s.len(),
    ensures
        count_set(s.take(b + 1)) == count_set(s.take(b)) + (if s[b] {
            1nat
        } else {
            0nat
        }),
{
    assert(s.take(b + 1).drop_last() =~= s.take(b));
    assert(s.take(b + 1).last() == s[b]);
}

/// How each 32-bit bitwise operation acts on one bit position.
proof fn lemma_u32_core(x: u32, y: u32, m: u32, b: u32, i: u32)
    by (bit_vector)
    requires
        b < 32,
        i < 32,
    ensures
        ((x >> i) & 1 == 0) || ((x >> i) & 1 == 1),
        (((x | y) >> i) & 1 == 1) == ((x >> i) & 1 == 1 || (y >> i) & 1 == 1),
        (((x & y) >> i) & 1 == 1) == ((x >> i) & 1 == 1 && (y >> i) & 1 == 1),
        (((x & !y) >> i) & 1 == 1) == ((x >> i) & 1 == 1 && !((y >> i) & 1 == 1)),
        (((x ^ y) >> i) & 1 == 1) == (((x >> i) & 1 == 1) != ((y >> i) & 1 == 1)),
        (((!x) >> i) & 1 == 1) == !((x >> i) & 1 == 1),
        (((x | (1u32 << b)) >> i) & 1 == 1) == (i == b || (x >> i) & 1 == 1),
        (((x & !(1u32 << b)) >> i) & 1 == 1) == (i != b && (x >> i) & 1 == 1),
        (((x ^ (1u32 << b)) >> i) & 1 == 1) == (if i == b {
            !((x >> i) & 1 == 1)
        } else {
            (x >> i) & 1 == 1
        }),
        ((((x & !m) | (y & m)) >> i) & 1 == 1) == (if (m >> i) & 1 == 1 {
            (y >> i) & 1 == 1
        } else {
            (x >> i) & 1 == 1
        }),
        (0u32 >> i) & 1 == 0,
        (0xffff_ffffu32 >> i) & 1 == 1,
{
}

/// A nonzero 32-bit word has a set bit.
proof fn lemma_u32_nonzero_bit(x: u32)
    requires
        x != 0,
    ensures
        exists|i: u32| i < 32 && #[trigger] ((x >> i) & 1) == 1,
    decreases x,
{
    if x & 1 == 1 {
        assert((x >> 0u32) & 1 == 1) by (bit_vector)
            requires
                x & 1 == 1,
        ;
        assert(0u32 < 32 && (x >> 0u32) & 1 == 1);
    } else {
        assert(x >> 1u32 != 0 && x >> 1u32 < x) by (bit_vector)
            requires
                x != 0 && x & 1 != 1,
        ;
        lemma_u32_nonzero_bit(x >> 1u32);
        let j = choose|j: u32| j < 32 && #[trigger] (((x >> 1u32) >> j) & 1) == 1;
        assert(((x >> 1u32) >> 31u32) & 1 == 0) by (bit_vector);
        assert(j < 31);
        let k: u32 = (j + 1) as u32;
        assert((x >> k) & 1 == 1) by (bit_vector)
            requires
                j < 31 && k == (j + 1) as u32 && ((x >> 1u32) >> j) & 1 == 1,
        ;
        assert(k < 32 && (x >> k) & 1 == 1);
    }
}

impl BitWord for u32 {
    open spec fn word_bits() -> nat {
        32
    }

    open spec fn bit_at(self, i: int) -> bool {
        (self >> (i as u32)) & 1 == 1
    }

    proof fn word_bits_facts() {
    }

    fn word_size() -> usize {
        32
    }

    fn word_fill(value: bool) -> (r: Self) {
        let r: u32 = if value {
            0xffff_ffffu32
        } else {
            0u32
        };
        proof {
            assert forall|i: int| 0 <= i < 32 implies r.bit_at(i) == value by {
                lemma_u32_core(r, 0, 0, 0, i as u32);
            }
        }
        r
    }

    fn word_test(self, b: usize) -> (r: bool) {
        (self >> (b as u32)) & 1 == 1
    }

    fn word_set(self, b: usize) -> (r: Self) {
        let r = self | (1u32 << (b as u32));
        proof {
            assert forall|i: int|
                0 <= i < 32 implies r.bit_at(i) == (i == b || self.bit_at(i)) by {
                lemma_u32_core(self, 0, 0, b as u32, i as u32);
            }
        }
        r
    }

    fn word_reset(self, b: usize) -> (r: Self) {
        let r = self & !(1u32 << (b as u32));
        proof {
            assert forall|i: int|
                0 <= i < 32 implies r.bit_at(i) == (i != b && self.bit_at(i)) by {
                lemma_u32_core(self, 0, 0, b as u32, i as u32);
            }
        }
        r
    }

    fn word_flip(self, b: usize) -> (r: Self) {
        let r = self ^ (1u32 << (b as u32));
        proof {
            assert forall|i: int|
                0 <= i < 32 implies r.bit_at(i) == (if i == b {
                    !self.bit_at(i)
                } else {
                    self.bit_at(i)
                }) by {
                lemma_u32_core(self, 0, 0, b as u32, i as u32);
            }
        }
        r
    }

    fn word_or(self, o: Self) -> (r: Self) {
        let r = self | o;
        proof {
            assert forall|i: int|
                0 <= i < 32 implies r.bit_at(i) == (self.bit_at(i) || o.bit_at(i)) by {
                lemma_u32_core(self, o, 0, 0, i as u32);
            }
        }
        r
    }

    fn word_and(self, o: Self) -> (r: Self) {
        let r = self & o;
        proof {
            assert forall|i: int|
                0 <= i < 32 implies r.bit_at(i) == (self.bit_at(i) && o.bit_at(i)) by {
                lemma_u32_core(self, o, 0, 0, i as u32);
            }
        }
        r
    }

    fn word_andnot(self, o: Self) -> (r: Self) {
        let r = self & !o;
        proof {
            assert forall|i: int|
                0 <= i < 32 implies r.bit_at(i) == (self.bit_at(i) && !o.bit_at(i)) by {
                lemma_u32_core(self, o, 0, 0, i as u32);
            }
        }
        r
    }

    fn word_xor(self, o: Self) -> (r: Self) {
        let r = self ^ o;
        proof {
            assert forall|i: int|
                0 <= i < 32 implies r.bit_at(i) == (self.bit_at(i) != o.bit_at(i)) by {
                lemma_u32_core(self, o, 0, 0, i as u32);
            }
        }
        r
    }

    fn word_not(self) -> (r: Self) {
        let r = !self;
        proof {
            assert forall|i: int| 0 <= i < 32 implies r.bit_at(i) == !self.bit_at(i) by {
                lemma_u32_core(self, 0, 0, 0, i as u32);
            }
        }
        r
    }

    fn word_mask(self, rhs: Self, m: Self) -> (r: Self) {
        let r = (self & !m) | (rhs & m);
        proof {
            assert forall|i: int|
                0 <= i < 32 implies r.bit_at(i) == (if m.bit_at(i) {
                    rhs.bit_at(i)
                } else {
                    self.bit_at(i)
                }) by {
                lemma_u32_core(self, rhs, m, 0, i as u32);
            }
        }
        r
    }

    fn word_any(self) -> (r: bool) {
        let r = self != 0u32;
        proof {
            if !r {
                assert forall|i: int| 0 <= i < 32 implies !self.bit_at(i) by {
                    lemma_u32_core(self, 0, 0, 0, i as u32);
                }
            } else {
                lemma_u32_nonzero_bit(self);
                let w = choose|i: u32| i < 32 && #[trigger] ((self >> i) & 1) == 1;
                assert(self.bit_at(w as int));
                assert(0 <= (w as int) && (w as int) < 32 && self.bit_at(w as int));
            }
        }
        r
    }
}

/// How each 8-bit bitwise operation acts on one bit position.
proof fn lemma_u8_core(x: u8, y: u8, m: u8, b: u8, i: u8)
    by (bit_vector)
    requires
        b < 8,
        i < 8,
    ensures
        ((x >> i) & 1 == 0) || ((x >> i) & 1 == 1),
        (((x | y) >> i) & 1 == 1) == ((x >> i) & 1 == 1 || (y >> i) & 1 == 1),
        (((x & y) >> i) & 1 == 1) == ((x >> i) & 1 == 1 && (y >> i) & 1 == 1),
        (((x & !y) >> i) & 1 == 1) == ((x >> i) & 1 == 1 && !((y >> i) & 1 == 1)),
        (((x ^ y) >> i) & 1 == 1) == (((x >> i) & 1 == 1) != ((y >> i) & 1 == 1)),
        (((!x) >> i) & 1 == 1) == !((x >> i) & 1 == 1),
        (((x | (1u8 << b)) >> i) & 1 == 1) == (i == b || (x >> i) & 1 == 1),
        (((x & !(1u8 << b)) >> i) & 1 == 1) == (i != b && (x >> i) & 1 == 1),
        (((x ^ (1u8 << b)) >> i) & 1 == 1) == (if i == b {
            !((x >> i) & 1 == 1)
        } else {
            (x >> i) & 1 == 1
        }),
        ((((x & !m) | (y & m)) >> i) & 1 == 1) == (if (m >> i) & 1 == 1 {
            (y >> i) & 1 == 1
        } else {
            (x >> i) & 1 == 1
        }),
        (0u8 >> i) & 1 == 0,
        (0xffu8 >> i) & 1 == 1,
{
}

/// A nonzero 8-bit word has a set bit.
proof fn lemma_u8_nonzero_bit(x: u8)
    requires
        x != 0,
    ensures
        exists|i: u8| i < 8 && #[trigger] ((x >> i) & 1) == 1,
    decreases x,
{
    if x & 1 == 1 {
        assert((x >> 0u8) & 1 == 1) by (bit_vector)
            requires
                x & 1 == 1,
        ;
        assert(0u8 < 8 && (x >> 0u8) & 1 == 1);
    } else {
        assert(x >> 1u8 != 0 && x >> 1u8 < x) by (bit_vector)
            requires
                x != 0 && x & 1 != 1,
        ;
        lemma_u8_nonzero_bit(x >> 1u8);
        let j = choose|j: u8| j < 8 && #[trigger] (((x >> 1u8) >> j) & 1) == 1;
        assert(((x >> 1u8) >> 7u8) & 1 == 0) by (bit_vector);
        assert(j < 7);
        let k: u8 = (j + 1) as u8;
        assert((x >> k) & 1 == 1) by (bit_vector)
            requires
                j < 7 && k == (j + 1) as u8 && ((x >> 1u8) >> j) & 1 == 1,
        ;
        assert(k < 8 && (x >> k) & 1 == 1);
    }
}

impl BitWord for u8 {
    open spec fn word_bits() -> nat {
        8
    }

    open spec fn bit_at(self, i: int) -> bool {
        (self >> (i as u8)) & 1 == 1
    }

    proof fn word_bits_facts() {
    }

    fn word_size() -> usize {
        8
    }

    fn word_fill(value: bool) -> (r: Self) {
        let r: u8 = if value {
            0xffu8
        } else {
            0u8
        };
        proof {
            assert forall|i: int| 0 <= i < 8 implies r.bit_at(i) == value by {
                lemma_u8_core(r, 0, 0, 0, i as u8);
            }
        }
        r
    }

    fn word_test(self, b: usize) -> (r: bool) {
        (self >> (b as u8)) & 1 == 1
    }

    fn word_set(self, b: usize) -> (r: Self) {
        let r = self | (1u8 << (b as u8));
        proof {
            assert forall|i: int|
                0 <= i < 8 implies r.bit_at(i) == (i == b || self.bit_at(i)) by {
                lemma_u8_core(self, 0, 0, b as u8, i as u8);
            }
        }
        r
    }

    fn word_reset(self, b: usize) -> (r: Self) {
        let r = self & !(1u8 << (b as u8));
        proof {
            assert forall|i: int|
                0 <= i < 8 implies r.bit_at(i) == (i != b && self.bit_at(i)) by {
                lemma_u8_core(self, 0, 0, b as u8, i as u8);
            }
        }
        r
    }

    fn word_flip(self, b: usize) -> (r: Self) {
        let r = self ^ (1u8 << (b as u8));
        proof {
            assert forall|i: int|
                0 <= i < 8 implies r.bit_at(i) == (if i == b {
                    !self.bit_at(i)
                } else {
                    self.bit_at(i)
                }) by {
                lemma_u8_core(self, 0, 0, b as u8, i as u8);
            }
        }
        r
    }

    fn word_or(self, o: Self) -> (r: Self) {
        let r = self | o;
        proof {
            assert forall|i: int|
                0 <= i < 8 implies r.bit_at(i) == (self.bit_at(i) || o.bit_at(i)) by {
                lemma_u8_core(self, o, 0, 0, i as u8);
            }
        }
        r
    }

    fn word_and(self, o: Self) -> (r: Self) {
        let r = self & o;
        proof {
            assert forall|i: int|
                0 <= i < 8 implies r.bit_at(i) == (self.bit_at(i) && o.bit_at(i)) by {
                lemma_u8_core(self, o, 0, 0, i as u8);
            }
        }
        r
    }

    fn word_andnot(self, o: Self) -> (r: Self) {
        let r = self & !o;
        proof {
            assert forall|i: int|
                0 <= i < 8 implies r.bit_at(i) == (self.bit_at(i) && !o.bit_at(i)) by {
                lemma_u8_core(self, o, 0, 0, i as u8);
            }
        }
        r
    }

    fn word_xor(self, o: Self) -> (r: Self) {
        let r = self ^ o;
        proof {
            assert forall|i: int|
                0 <= i < 8 implies r.bit_at(i) == (self.bit_at(i) != o.bit_at(i)) by {
                lemma_u8_core(self, o, 0, 0, i as u8);
            }
        }
        r
    }

    fn word_not(self) -> (r: Self) {
        let r = !self;
        proof {
            assert forall|i: int| 0 <= i < 8 implies r.bit_at(i) == !self.bit_at(i) by {
                lemma_u8_core(self, 0, 0, 0, i as u8);
            }
        }
        r
    }

    fn word_mask(self, rhs: Self, m: Self) -> (r: Self) {
        let r = (self & !m) | (rhs & m);
        proof {
            assert forall|i: int|
                0 <= i < 8 implies r.bit_at(i) == (if m.bit_at(i) {
                    rhs.bit_at(i)
                } else {
                    self.bit_at(i)
                }) by {
                lemma_u8_core(self, rhs, m, 0, i as u8);
            }
        }
        r
    }

    fn word_any(self) -> (r: bool) {
        let r = self != 0u8;
        proof {
            if !r {
                assert forall|i: int| 0 <= i < 8 implies !self.bit_at(i) by {
                    lemma_u8_core(self, 0, 0, 0, i as u8);
                }
            } else {
                lemma_u8_nonzero_bit(self);
                let w = choose|i: u8| i < 8 && #[trigger] ((self >> i) & 1) == 1;
                assert(self.bit_at(w as int));
                assert(0 <= (w as int) && (w as int) < 8 && self.bit_at(w as int));
            }
        }
        r
    }
}

/// How each 16-bit bitwise operation acts on one bit position.
proof fn lemma_u16_core(x: u16, y: u16, m: u16, b: u16, i: u16)
    by (bit_vector)
    requires
        b < 16,
        i < 16,
    ensures
        ((x >> i) & 1 == 0) || ((x >> i) & 1 == 1),
        (((x | y) >> i) & 1 == 1) == ((x >> i) & 1 == 1 || (y >> i) & 1 == 1),
        (((x & y) >> i) & 1 == 1) == ((x >> i) & 1 == 1 && (y >> i) & 1 == 1),
        (((x & !y) >> i) & 1 == 1) == ((x >> i) & 1 == 1 && !((y >> i) & 1 == 1)),
        (((x ^ y) >> i) & 1 == 1) == (((x >> i) & 1 == 1) != ((y >> i) & 1 == 1)),
        (((!x) >> i) & 1 == 1) == !((x >> i) & 1 == 1),
        (((x | (1u16 << b)) >> i) & 1 == 1) == (i == b || (x >> i) & 1 == 1),
        (((x & !(1u16 << b)) >> i) & 1 == 1) == (i != b && (x >> i) & 1 == 1),
        (((x ^ (1u16 << b)) >> i) & 1 == 1) == (if i == b {
            !((x >> i) & 1 == 1)
        } else {
            (x >> i) & 1 == 1
        }),
        ((((x & !m) | (y & m)) >> i) & 1 == 1) == (if (m >> i) & 1 == 1 {
            (y >> i) & 1 == 1
        } else {
            (x >> i) & 1 == 1
        }),
        (0u16 >> i) & 1 == 0,
        (0xffffu16 >> i) & 1 == 1,
{
}

/// A nonzero 16-bit word has a set bit.
proof fn lemma_u16_nonzero_bit(x: u16)
    requires
        x != 0,
    ensures
        exists|i: u16| i < 16 && #[trigger] ((x >> i) & 1) == 1,
    decreases x,
{
    if x & 1 == 1 {
        assert((x >> 0u16) & 1 == 1) by (bit_vector)
            requires
                x & 1 == 1,
        ;
        assert(0u16 < 16 && (x >> 0u16) & 1 == 1);
    } else {
        assert(x >> 1u16 != 0 && x >> 1u16 < x) by (bit_vector)
            requires
                x != 0 && x & 1 != 1,
        ;
        lemma_u16_nonzero_bit(x >> 1u16);
        let j = choose|j: u16| j < 16 && #[trigger] (((x >> 1u16) >> j) & 1) == 1;
        assert(((x >> 1u16) >> 15u16) & 1 == 0) by (bit_vector);
        assert(j < 15);
        let k: u16 = (j + 1) as u16;
        assert((x >> k) & 1 == 1) by (bit_vector)
            requires
                j < 15 && k == (j + 1) as u16 && ((x >> 1u16) >> j) & 1 == 1,
        ;
        assert(k < 16 && (x >> k) & 1 == 1);
    }
}

impl BitWord for u16 {
    open spec fn word_bits() -> nat {
        16
    }

    open spec fn bit_at(self, i: int) -> bool {
        (self >> (i as u16)) & 1 == 1
    }

    proof fn word_bits_facts() {
    }

    fn word_size() -> usize {
        16
    }

    fn word_fill(value: bool) -> (r: Self) {
        let r: u16 = if value {
            0xffffu16
        } else {
            0u16
        };
        proof {
            assert forall|i: int| 0 <= i < 16 implies r.bit_at(i) == value by {
                lemma_u16_core(r, 0, 0, 0, i as u16);
            }
        }
        r
    }

    fn word_test(self, b: usize) -> (r: bool) {
        (self >> (b as u16)) & 1 == 1
    }

    fn word_set(self, b: usize) -> (r: Self) {
        let r = self | (1u16 << (b as u16));
        proof {
            assert forall|i: int|
                0 <= i < 16 implies r.bit_at(i) == (i == b || self.bit_at(i)) by {
                lemma_u16_core(self, 0, 0, b as u16, i as u16);
            }
        }
        r
    }

    fn word_reset(self, b: usize) -> (r: Self) {
        let r = self & !(1u16 << (b as u16));
        proof {
            assert forall|i: int|
                0 <= i < 16 implies r.bit_at(i) == (i != b && self.bit_at(i)) by {
                lemma_u16_core(self, 0, 0, b as u16, i as u16);
            }
        }
        r
    }

    fn word_flip(self, b: usize) -> (r: Self) {
        let r = self ^ (1u16 << (b as u16));
        proof {
            assert forall|i: int|
                0 <= i < 16 implies r.bit_at(i) == (if i == b {
                    !self.bit_at(i)
                } else {
                    self.bit_at(i)
                }) by {
                lemma_u16_core(self, 0, 0, b as u16, i as u16);
            }
        }
        r
    }

    fn word_or(self, o: Self) -> (r: Self) {
        let r = self | o;
        proof {
            assert forall|i: int|
                0 <= i < 16 implies r.bit_at(i) == (self.bit_at(i) || o.bit_at(i)) by {
                lemma_u16_core(self, o, 0, 0, i as u16);
            }
        }
        r
    }

    fn word_and(self, o: Self) -> (r: Self) {
        let r = self & o;
        proof {
            assert forall|i: int|
                0 <= i < 16 implies r.bit_at(i) == (self.bit_at(i) && o.bit_at(i)) by {
                lemma_u16_core(self, o, 0, 0, i as u16);
            }
        }
        r
    }

    fn word_andnot(self, o: Self) -> (r: Self) {
        let r = self & !o;
        proof {
            assert forall|i: int|
                0 <= i < 16 implies r.bit_at(i) == (self.bit_at(i) && !o.bit_at(i)) by {
                lemma_u16_core(self, o, 0, 0, i as u16);
            }
        }
        r
    }

    fn word_xor(self, o: Self) -> (r: Self) {
        let r = self ^ o;
        proof {
            assert forall|i: int|
                0 <= i < 16 implies r.bit_at(i) == (self.bit_at(i) != o.bit_at(i)) by {
                lemma_u16_core(self, o, 0, 0, i as u16);
            }
        }
        r
    }

    fn word_not(self) -> (r: Self) {
        let r = !self;
        proof {
            assert forall|i: int| 0 <= i < 16 implies r.bit_at(i) == !self.bit_at(i) by {
                lemma_u16_core(self, 0, 0, 0, i as u16);
            }
        }
        r
    }

    fn word_mask(self, rhs: Self, m: Self) -> (r: Self) {
        let r = (self & !m) | (rhs & m);
        proof {
            assert forall|i: int|
                0 <= i < 16 implies r.bit_at(i) == (if m.bit_at(i) {
                    rhs.bit_at(i)
                } else {
                    self.bit_at(i)
                }) by {
                lemma_u16_core(self, rhs, m, 0, i as u16);
            }
        }
        r
    }

    fn word_any(self) -> (r: bool) {
        let r = self != 0u16;
        proof {
            if !r {
                assert forall|i: int| 0 <= i < 16 implies !self.bit_at(i) by {
                    lemma_u16_core(self, 0, 0, 0, i as u16);
                }
            } else {
                lemma_u16_nonzero_bit(self);
                let w = choose|i: u16| i < 16 && #[trigger] ((self >> i) & 1) == 1;
                assert(self.bit_at(w as int));
                assert(0 <= (w as int) && (w as int) < 16 && self.bit_at(w as int));
            }
        }
        r
    }
}

/// How each 64-bit bitwise operation acts on one bit position.
proof fn lemma_u64_core(x: u64, y: u64, m: u64, b: u64, i: u64)
    by (bit_vector)
    requires
        b < 64,
        i < 64,
    ensures
        ((x >> i) & 1 == 0) || ((x >> i) & 1 == 1),
        (((x | y) >> i) & 1 == 1) == ((x >> i) & 1 == 1 || (y >> i) & 1 == 1),
        (((x & y) >> i) & 1 == 1) == ((x >> i) & 1 == 1 && (y >> i) & 1 == 1),
        (((x & !y) >> i) & 1 == 1) == ((x >> i) & 1 == 1 && !((y >> i) & 1 == 1)),
        (((x ^ y) >> i) & 1 == 1) == (((x >> i) & 1 == 1) != ((y >> i) & 1 == 1)),
        (((!x) >> i) & 1 == 1) == !((x >> i) & 1 == 1),
        (((x | (1u64 << b)) >> i) & 1 == 1) == (i == b || (x >> i) & 1 == 1),
        (((x & !(1u64 << b)) >> i) & 1 == 1) == (i != b && (x >> i) & 1 == 1),
        (((x ^ (1u64 << b)) >> i) & 1 == 1) == (if i == b {
            !((x >> i) & 1 == 1)
        } else {
            (x >> i) & 1 == 1
        }),
        ((((x & !m) | (y & m)) >> i) & 1 == 1) == (if (m >> i) & 1 == 1 {
            (y >> i) & 1 == 1
        } else {
            (x >> i) & 1 == 1
        }),
        (0u64 >> i) & 1 == 0,
        (0xffff_ffff_ffff_ffffu64 >> i) & 1 == 1,
{
}

/// A nonzero 64-bit word has a set bit.
proof fn lemma_u64_nonzero_bit(x: u64)
    requires
        x != 0,
    ensures
        exists|i: u64| i < 64 && #[trigger] ((x >> i) & 1) == 1,
    decreases x,
{
    if x & 1 == 1 {
        assert((x >> 0u64) & 1 == 1) by (bit_vector)
            requires
                x & 1 == 1,
        ;
        assert(0u64 < 64 && (x >> 0u64) & 1 == 1);
    } else {
        assert(x >> 1u64 != 0 && x >> 1u64 < x) by (bit_vector)
            requires
                x != 0 && x & 1 != 1,
        ;
        lemma_u64_nonzero_bit(x >> 1u64);
        let j = choose|j: u64| j < 64 && #[trigger] (((x >> 1u64) >> j) & 1) == 1;
        assert(((x >> 1u64) >> 63u64) & 1 == 0) by (bit_vector);
        assert(j < 63);
        let k: u64 = (j + 1) as u64;
        assert((x >> k) & 1 == 1) by (bit_vector)
            requires
                j < 63 && k == (j + 1) as u64 && ((x >> 1u64) >> j) & 1 == 1,
        ;
        assert(k < 64 && (x >> k) & 1 == 1);
    }
}

impl BitWord for u64 {
    open spec fn word_bits() -> nat {
        64
    }

    open spec fn bit_at(self, i: int) -> bool {
        (self >> (i as u64)) & 1 == 1
    }

    proof fn word_bits_facts() {
    }

    fn word_size() -> usize {
        64
    }

    fn word_fill(value: bool) -> (r: Self) {
        let r: u64 = if value {
            0xffff_ffff_ffff_ffffu64
        } else {
            0u64
        };
        proof {
            assert forall|i: int| 0 <= i < 64 implies r.bit_at(i) == value by {
                lemma_u64_core(r, 0, 0, 0, i as u64);
            }
        }
        r
    }

    fn word_test(self, b: usize) -> (r: bool) {
        (self >> (b as u64)) & 1 == 1
    }

    fn word_set(self, b: usize) -> (r: Self) {
        let r = self | (1u64 << (b as u64));
        proof {
            assert forall|i: int|
                0 <= i < 64 implies r.bit_at(i) == (i == b || self.bit_at(i)) by {
                lemma_u64_core(self, 0, 0, b as u64, i as u64);
            }
        }
        r
    }

    fn word_reset(self, b: usize) -> (r: Self) {
        let r = self & !(1u64 << (b as u64));
        proof {
            assert forall|i: int|
                0 <= i < 64 implies r.bit_at(i) == (i != b && self.bit_at(i)) by {
                lemma_u64_core(self, 0, 0, b as u64, i as u64);
            }
        }
        r
    }

    fn word_flip(self, b: usize) -> (r: Self) {
        let r = self ^ (1u64 << (b as u64));
        proof {
            assert forall|i: int|
                0 <= i < 64 implies r.bit_at(i) == (if i == b {
                    !self.bit_at(i)
                } else {
                    self.bit_at(i)
                }) by {
                lemma_u64_core(self, 0, 0, b as u64, i as u64);
            }
        }
        r
    }

    fn word_or(self, o: Self) -> (r: Self) {
        let r = self | o;
        proof {
            assert forall|i: int|
                0 <= i < 64 implies r.bit_at(i) == (self.bit_at(i) || o.bit_at(i)) by {
                lemma_u64_core(self, o, 0, 0, i as u64);
            }
        }
        r
    }

    fn word_and(self, o: Self) -> (r: Self) {
        let r = self & o;
        proof {
            assert forall|i: int|
                0 <= i < 64 implies r.bit_at(i) == (self.bit_at(i) && o.bit_at(i)) by {
                lemma_u64_core(self, o, 0, 0, i as u64);
            }
        }
        r
    }

    fn word_andnot(self, o: Self) -> (r: Self) {
        let r = self & !o;
        proof {
            assert forall|i: int|
                0 <= i < 64 implies r.bit_at(i) == (self.bit_at(i) && !o.bit_at(i)) by {
                lemma_u64_core(self, o, 0, 0, i as u64);
            }
        }
        r
    }

    fn word_xor(self, o: Self) -> (r: Self) {
        let r = self ^ o;
        proof {
            assert forall|i: int|
                0 <= i < 64 implies r.bit_at(i) == (self.bit_at(i) != o.bit_at(i)) by {
                lemma_u64_core(self, o, 0, 0, i as u64);
            }
        }
        r
    }

    fn word_not(self) -> (r: Self) {
        let r = !self;
        proof {
            assert forall|i: int| 0 <= i < 64 implies r.bit_at(i) == !self.bit_at(i) by {
                lemma_u64_core(self, 0, 0, 0, i as u64);
            }
        }
        r
    }

    fn word_mask(self, rhs: Self, m: Self) -> (r: Self) {
        let r = (self & !m) | (rhs & m);
        proof {
            assert forall|i: int|
                0 <= i < 64 implies r.bit_at(i) == (if m.bit_at(i) {
                    rhs.bit_at(i)
                } else {
                    self.bit_at(i)
                }) by {
                lemma_u64_core(self, rhs, m, 0, i as u64);
            }
        }
        r
    }

    fn word_any(self) -> (r: bool) {
        let r = self != 0u64;
        proof {
            if !r {
                assert forall|i: int| 0 <= i < 64 implies !self.bit_at(i) by {
                    lemma_u64_core(self, 0, 0, 0, i as u64);
                }
            } else {
                lemma_u64_nonzero_bit(self);
                let w = choose|i: u64| i < 64 && #[trigger] ((self >> i) & 1) == 1;
                assert(self.bit_at(w as int));
                assert(0 <= (w as int) && (w as int) < 64 && self.bit_at(w as int));
            }
        }
        r
    }
}

/// How each 128-bit bitwise operation acts on one bit position.
proof fn lemma_u128_core(x: u128, y: u128, m: u128, b: u128, i: u128)
    by (bit_vector)
    requires
        b < 128,
        i < 128,
    ensures
        ((x >> i) & 1 == 0) || ((x >> i) & 1 == 1),
        (((x | y) >> i) & 1 == 1) == ((x >> i) & 1 == 1 || (y >> i) & 1 == 1),
        (((x & y) >> i) & 1 == 1) == ((x >> i) & 1 == 1 && (y >> i) & 1 == 1),
        (((x & !y) >> i) & 1 == 1) == ((x >> i) & 1 == 1 && !((y >> i) & 1 == 1)),
        (((x ^ y) >> i) & 1 == 1) == (((x >> i) & 1 == 1) != ((y >> i) & 1 == 1)),
        (((!x) >> i) & 1 == 1) == !((x >> i) & 1 == 1),
        (((x | (1u128 << b)) >> i) & 1 == 1) == (i == b || (x >> i) & 1 == 1),
        (((x & !(1u128 << b)) >> i) & 1 == 1) == (i != b && (x >> i) & 1 == 1),
        (((x ^ (1u128 << b)) >> i) & 1 == 1) == (if i == b {
            !((x >> i) & 1 == 1)
        } else {
            (x >> i) & 1 == 1
        }),
        ((((x & !m) | (y & m)) >> i) & 1 == 1) == (if (m >> i) & 1 == 1 {
            (y >> i) & 1 == 1
        } else {
            (x >> i) & 1 == 1
        }),
        (0u128 >> i) & 1 == 0,
        (0xffff_ffff_ffff_ffff_ffff_ffff_ffff_ffffu128 >> i) & 1 == 1,
{
}

/// A nonzero 128-bit word has a set bit.
proof fn lemma_u128_nonzero_bit(x: u128)
    requires
        x != 0,
    ensures
        exists|i: u128| i < 128 && #[trigger] ((x >> i) & 1) == 1,
    decreases x,
{
    if x & 1 == 1 {
        assert((x >> 0u128) & 1 == 1) by (bit_vector)
            requires
                x & 1 == 1,
        ;
        assert(0u128 < 128 && (x >> 0u128) & 1 == 1);
    } else {
        assert(x >> 1u128 != 0 && x >> 1u128 < x) by (bit_vector)
            requires
                x != 0 && x & 1 != 1,
        ;
        lemma_u128_nonzero_bit(x >> 1u128);
        let j = choose|j: u128| j < 128 && #[trigger] (((x >> 1u128) >> j) & 1) == 1;
        assert(((x >> 1u128) >> 127u128) & 1 == 0) by (bit_vector);
        assert(j < 127);
        let k: u128 = (j + 1) as u128;
        assert((x >> k) & 1 == 1) by (bit_vector)
            requires
                j < 127 && k == (j + 1) as u128 && ((x >> 1u128) >> j) & 1 == 1,
        ;
        assert(k < 128 && (x >> k) & 1 == 1);
    }
}

impl BitWord for u128 {
    open spec fn word_bits() -> nat {
        128
    }

    open spec fn bit_at(self, i: int) -> bool {
        (self >> (i as u128)) & 1 == 1
    }

    proof fn word_bits_facts() {
    }

    fn word_size() -> usize {
        128
    }

    fn word_fill(value: bool) -> (r: Self) {
        let r: u128 = if value {
            0xffff_ffff_ffff_ffff_ffff_ffff_ffff_ffffu128
        } else {
            0u128
        };
        proof {
            assert forall|i: int| 0 <= i < 128 implies r.bit_at(i) == value by {
                lemma_u128_core(r, 0, 0, 0, i as u128);
            }
        }
        r
    }

    fn word_test(self, b: usize) -> (r: bool) {
        (self >> (b as u128)) & 1 == 1
    }

    fn word_set(self, b: usize) -> (r: Self) {
        let r = self | (1u128 << (b as u128));
        proof {
            assert forall|i: int|
                0 <= i < 128 implies r.bit_at(i) == (i == b || self.bit_at(i)) by {
                lemma_u128_core(self, 0, 0, b as u128, i as u128);
            }
        }
        r
    }

    fn word_reset(self, b: usize) -> (r: Self) {
        let r = self & !(1u128 << (b as u128));
        proof {
            assert forall|i: int|
                0 <= i < 128 implies r.bit_at(i) == (i != b && self.bit_at(i)) by {
                lemma_u128_core(self, 0, 0, b as u128, i as u128);
            }
        }
        r
    }

    fn word_flip(self, b: usize) -> (r: Self) {
        let r = self ^ (1u128 << (b as u128));
        proof {
            assert forall|i: int|
                0 <= i < 128 implies r.bit_at(i) == (if i == b {
                    !self.bit_at(i)
                } else {
                    self.bit_at(i)
                }) by {
                lemma_u128_core(self, 0, 0, b as u128, i as u128);
            }
        }
        r
    }

    fn word_or(self, o: Self) -> (r: Self) {
        let r = self | o;
        proof {
            assert forall|i: int|
                0 <= i < 128 implies r.bit_at(i) == (self.bit_at(i) || o.bit_at(i)) by {
                lemma_u128_core(self, o, 0, 0, i as u128);
            }
        }
        r
    }

    fn word_and(self, o: Self) -> (r: Self) {
        let r = self & o;
        proof {
            assert forall|i: int|
                0 <= i < 128 implies r.bit_at(i) == (self.bit_at(i) && o.bit_at(i)) by {
                lemma_u128_core(self, o, 0, 0, i as u128);
            }
        }
        r
    }

    fn word_andnot(self, o: Self) -> (r: Self) {
        let r = self & !o;
        proof {
            assert forall|i: int|
                0 <= i < 128 implies r.bit_at(i) == (self.bit_at(i) && !o.bit_at(i)) by {
                lemma_u128_core(self, o, 0, 0, i as u128);
            }
        }
        r
    }

    fn word_xor(self, o: Self) -> (r: Self) {
        let r = self ^ o;
        proof {
            assert forall|i: int|
                0 <= i < 128 implies r.bit_at(i) == (self.bit_at(i) != o.bit_at(i)) by {
                lemma_u128_core(self, o, 0, 0, i as u128);
            }
        }
        r
    }

    fn word_not(self) -> (r: Self) {
        let r = !self;
        proof {
            assert forall|i: int| 0 <= i < 128 implies r.bit_at(i) == !self.bit_at(i) by {
                lemma_u128_core(self, 0, 0, 0, i as u128);
            }
        }
        r
    }

    fn word_mask(self, rhs: Self, m: Self) -> (r: Self) {
        let r = (self & !m) | (rhs & m);
        proof {
            assert forall|i: int|
                0 <= i < 128 implies r.bit_at(i) == (if m.bit_at(i) {
                    rhs.bit_at(i)
                } else {
                    self.bit_at(i)
                }) by {
                lemma_u128_core(self, rhs, m, 0, i as u128);
            }
        }
        r
    }

    fn word_any(self) -> (r: bool) {
        let r = self != 0u128;
        proof {
            if !r {
                assert forall|i: int| 0 <= i < 128 implies !self.bit_at(i) by {
                    lemma_u128_core(self, 0, 0, 0, i as u128);
                }
            } else {
                lemma_u128_nonzero_bit(self);
                let w = choose|i: u128| i < 128 && #[trigger] ((self >> i) & 1) == 1;
                assert(self.bit_at(w as int));
                assert(0 <= (w as int) && (w as int) < 128 && self.bit_at(w as int));
            }
        }
        r
    }
}

/// Every single word is itself a bit set of fixed length `word_bits()`.
impl<W: BitWord> BitSet for W {
    open spec fn inv(&self) -> bool {
        true
    }

    open spec fn bits(&self) -> Seq<bool> {
        word_view(*self)
    }

    open spec fn is_bounded() -> bool {
        true
    }

    open spec fn and_bits(&self, rhs: &Self) -> Seq<bool> {
        Seq::new(W::word_bits(), |i: int| self.bit_at(i) && rhs.bit_at(i))
    }

    open spec fn xor_bits(&self, rhs: &Self) -> Seq<bool> {
        Seq::new(W::word_bits(), |i: int| self.bit_at(i) != rhs.bit_at(i))
    }

    fn bit_len(&self) -> (r: usize) {
        W::word_size()
    }

    fn bit_init(&mut self, value: bool) {
        *self = W::word_fill(value);
    }

    fn bit_test(&self, bit: usize) -> (r: bool) {
        self.word_test(bit)
    }

    fn bit_set(&mut self, bit: usize) {
        *self = self.word_set(bit);
        proof {
            assert(self.bits() =~= old(self).bits().update(bit as int, true));
        }
    }

    fn bit_reset(&mut self, bit: usize) {
        *self = self.word_reset(bit);
        proof {
            assert(self.bits() =~= old(self).bits().update(bit as int, false));
        }
    }

    fn bit_flip(&mut self, bit: usize) {
        *self = self.word_flip(bit);
        proof {
            assert(self.bits() =~= old(self).bits().update(
                bit as int,
                !old(self).bits()[bit as int],
            ));
        }
    }

    fn bit_cond(&mut self, bit: usize, value: bool) {
        if value {
            *self = self.word_set(bit);
        } else {
            *self = self.word_reset(bit);
        }
        proof {
            assert(self.bits() =~= old(self).bits().update(bit as int, value));
        }
    }

    fn bit_all(&self) -> (r: bool) {
        let r = self.word_full();
        proof {
            if r {
                assert forall|i: int| 0 <= i < self.bits().len() implies self.bits()[i] by {
                    assert(self.bit_at(i));
                }
            } else {
                assert(exists|i: int| 0 <= i < W::word_bits() && !self.bit_at(i));
                let w = choose|i: int| 0 <= i < W::word_bits() && !self.bit_at(i);
                assert(!self.bits()[w]);
            }
        }
        r
    }

    fn bit_any(&self) -> (r: bool) {
        let r = self.word_any();
        proof {
            if r {
                let w = choose|i: int| 0 <= i < W::word_bits() && self.bit_at(i);
                assert(self.bits()[w]);
            } else {
                assert forall|i: int| 0 <= i < self.bits().len() implies !self.bits()[i] by {
                    assert(!self.bit_at(i));
                }
            }
        }
        r
    }

    fn bit_eq(&self, rhs: &Self) -> (r: bool) {
        let r = self.word_eq(*rhs);
        proof {
            if r {
                assert forall|i: int|
                    0 <= i < self.bits().len() implies self.bits()[i] == rhs.bits()[i] by {
                    assert(self.bit_at(i) == rhs.bit_at(i));
                }
            } else {
                assert(exists|i: int|
                    0 <= i < W::word_bits() && self.bit_at(i) != rhs.bit_at(i));
                let w = choose|i: int|
                    0 <= i < W::word_bits() && self.bit_at(i) != rhs.bit_at(i);
                assert(self.bits()[w] != rhs.bits()[w]);
            }
        }
        r
    }

    fn bit_disjoint(&self, rhs: &Self) -> (r: bool) {
        let d = self.word_and(*rhs);
        let r = !d.word_any();
        proof {
            if r {
                assert forall|i: int|
                    0 <= i < self.bits().len() implies !(self.bits()[i] && rhs.bits()[i]) by {
                    assert(!d.bit_at(i));
                }
            } else {
                let w = choose|i: int| 0 <= i < W::word_bits() && d.bit_at(i);
                assert(self.bits()[w] && rhs.bits()[w]);
            }
        }
        r
    }

    fn bit_subset(&self, rhs: &Self) -> (r: bool) {
        let u = self.word_or(*rhs);
        let r = u.word_eq(*rhs);
        proof {
            if r {
                assert forall|i: int|
                    0 <= i < self.bits().len() implies (self.bits()[i] ==> rhs.bits()[i]) by {
                    assert(u.bit_at(i) == rhs.bit_at(i));
                }
            } else {
                assert(exists|i: int|
                    0 <= i < W::word_bits() && u.bit_at(i) != rhs.bit_at(i));
                let w = choose|i: int|
                    0 <= i < W::word_bits() && u.bit_at(i) != rhs.bit_at(i);
                assert(self.bits()[w] && !rhs.bits()[w]);
            }
        }
        r
    }

    fn bit_or(&mut self, rhs: &Self) {
        *self = self.word_or(*rhs);
    }

    fn bit_and(&mut self, rhs: &Self) {
        *self = self.word_and(*rhs);
        proof {
            assert(self.bits() =~= old(self).and_bits(rhs));
        }
    }

    fn bit_andnot(&mut self, rhs: &Self) {
        *self = self.word_andnot(*rhs);
    }

    fn bit_xor(&mut self, rhs: &Self) {
        *self = self.word_xor(*rhs);
        proof {
            assert(self.bits() =~= old(self).xor_bits(rhs));
        }
    }

    fn bit_not(&mut self) {
        *self = self.word_not();
    }

    fn bit_mask(&mut self, rhs: &Self, mask: &Self) {
        *self = self.word_mask(*rhs, *mask);
    }

    fn bit_count(&self) -> (r: usize) {
        self.word_count()
    }
}

} // verus!
