//! General laws of the bit-set contract, stated over the boolean-sequence
//! model that every backend's operations are specified against.

use vstd::prelude::*;

use crate::slice::{bits_of_words, lemma_bit_index};
use crate::uint::{word_view, BitWord};
use crate::{all_set, any_set, count_set, disjoint_bits, subset_bits};
use vstd::set_lib::{lemma_int_range, lemma_len_subset, set_int_range};

verus! {

/// After clearing a container (`bit_init(false)`), `bit_any` is false,
/// and `bit_all` is false unless the container is empty.
pub proof fn law_cleared_bits(s: Seq<bool>)
    requires
        forall|i: int| 0 <= i < s.len() ==> !s[i],
    ensures
        !any_set(s),
        s.len() > 0 ==> !all_set(s),
{
    if any_set(s) {
        let w = choose|i: int| 0 <= i < s.len() && s[i];
        assert(!s[w]);
    }
    if s.len() > 0 {
        assert(!s[0]);
    }
}

/// After filling a bounded container (`bit_init(true)`), `bit_all` is
/// true, and `bit_any` is true unless the container is empty.
pub proof fn law_filled_bits(s: Seq<bool>)
    requires
        forall|i: int| 0 <= i < s.len() ==> s[i],
    ensures
        all_set(s),
        s.len() > 0 ==> any_set(s),
{
    if s.len() > 0 {
        assert(s[0]);
    }
}

/// Setting a bit makes it test true, resetting makes it test false, and
/// flipping a bit twice restores the original content.
pub proof fn law_set_reset_flip(s: Seq<bool>, i: int)
    requires
        0 <= i < s.len(),
    ensures
        s.update(i, true)[i],
        !s.update(i, false)[i],
        s.update(i, !s[i]).update(i, !s.update(i, !s[i])[i]) =~= s,
{
}

/// Setting a bit twice has the same observable state as setting it once;
/// likewise for resetting.
pub proof fn law_idempotence(s: Seq<bool>, i: int)
    requires
        0 <= i < s.len(),
    ensures
        s.update(i, true).update(i, true) =~= s.update(i, true),
        s.update(i, false).update(i, false) =~= s.update(i, false),
{
}

/// A populated container is not disjoint from itself; every container is
/// a subset and a superset of itself.
pub proof fn law_self_relations(s: Seq<bool>)
    ensures
        any_set(s) ==> !disjoint_bits(s, s),
        subset_bits(s, s),
{
    if any_set(s) {
        let w = choose|i: int| 0 <= i < s.len() && s[i];
        assert(s[w] && s[w]);
    }
}

/// The population count equals the number of positions that test true.
pub proof fn law_count_matches_tests(s: Seq<bool>)
    ensures
        count_set(s) == Set::new(|i: int| 0 <= i < s.len() && s[i]).len(),
    decreases s.len(),
{
    let whole = Set::new(|i: int| 0 <= i < s.len() && s[i]);
    if s.len() == 0 {
        assert(whole =~= Set::empty());
    } else {
        let t = s.drop_last();
        let last = s.len() - 1;
        law_count_matches_tests(t);
        let prefix = Set::new(|i: int| 0 <= i < t.len() && t[i]);
        lemma_int_range(0, last);
        lemma_len_subset(prefix, set_int_range(0, last));
        if s.last() {
            assert(whole =~= prefix.insert(last));
            assert(!prefix.contains(last));
            vstd::set::axiom_set_insert_len(prefix, last);
        } else {
            assert(whole =~= prefix);
        }
    }
}

/// How one 32-bit word decomposes into four bytes, bit by bit.
proof fn lemma_word_from_bytes(b0: u8, b1: u8, b2: u8, b3: u8, w: u32, i: u32)
    by (bit_vector)
    requires
        i < 32,
        w == b0 + b1 * 0x100 + b2 * 0x10000 + b3 * 0x1000000,
    ensures
        i < 8 ==> (((w >> i) & 1 == 1) == ((b0 >> (i as u8)) & 1 == 1)),
        8 <= i < 16 ==> (((w >> i) & 1 == 1) == ((b1 >> ((i - 8) as u8)) & 1 == 1)),
        16 <= i < 24 ==> (((w >> i) & 1 == 1) == ((b2 >> ((i - 16) as u8)) & 1 == 1)),
        24 <= i < 32 ==> (((w >> i) & 1 == 1) == ((b3 >> ((i - 24) as u8)) & 1 == 1)),
{
}

/// Cross-backend layout equivalence: four bytes addressed linearly hold
/// exactly the bits of the 32-bit word they assemble into little-endian,
/// so setting bit `i` on either backend touches the same stored bit.
pub proof fn law_cross_backend_layout(bytes: Seq<u8>, w: u32)
    requires
        bytes.len() == 4,
        w == bytes[0] + bytes[1] * 0x100 + bytes[2] * 0x10000 + bytes[3] * 0x1000000,
    ensures
        bits_of_words::<u8>(bytes) =~= word_view(w),
{
    assert forall|i: int| 0 <= i < 32 implies bits_of_words::<u8>(bytes)[i] == word_view(w)[i] by {
        lemma_bit_index(i, 8, 4);
        lemma_word_from_bytes(bytes[0], bytes[1], bytes[2], bytes[3], w, i as u32);
        assert(bytes[i / 8].bit_at(i % 8) == w.bit_at(i));
    }
}

} // verus!
