use bitset_core::fmt::bit_fmt;
use bitset_core::index::BitIndex;
use bitset_core::sparse::SparseBits;
use bitset_core::{bitor_with, bitset_with, unary_tests, BitSet};

#[test]
fn uint_tests() {
    let mut bytes = 0u8;
    let mut words = 0u16;
    let mut dwords = 0u32;
    let mut qwords = 0u64;

    unary_tests(&mut bytes);
    unary_tests(&mut words);
    unary_tests(&mut dwords);
    unary_tests(&mut qwords);
}

#[test]
fn slice_tests() {
    let mut bytes: Vec<u8> = vec![0u8; 32];
    let mut words: Vec<u16> = vec![0u16; 16];
    let mut dwords: Vec<u32> = vec![0u32; 8];
    let mut qwords: Vec<u64> = vec![0u64; 4];

    unary_tests(&mut bytes);
    unary_tests(&mut words);
    unary_tests(&mut dwords);
    unary_tests(&mut qwords);
}

// Tests whether `bit X` is the same bit regardless of underlying primitive used.
// NOTE: This only works on little endian, nobody cares about big endian anyway.
#[test]
fn test_transmute() {
    for i in 0..32 {
        let uint = bitset_with(vec![0u32; 1], &vec![i]);
        let ubyte = bitset_with(vec![0u8; 4], &vec![i]);
        let raw = [ubyte[0], ubyte[1], ubyte[2], ubyte[3]];
        assert_eq!(uint[0], u32::from_ne_bytes(raw));
    }
}

#[test]
fn tests128() {
    let mut bytes: Vec<[u8; 16]> = vec![[0u8; 16]; 32];
    let mut words: Vec<[u16; 8]> = vec![[0u16; 8]; 16];
    let mut dwords: Vec<[u32; 4]> = vec![[0u32; 4]; 8];
    let mut qwords: Vec<[u64; 2]> = vec![[0u64; 2]; 4];

    unary_tests(&mut bytes);
    unary_tests(&mut words);
    unary_tests(&mut dwords);
    unary_tests(&mut qwords);
}

#[test]
fn tests256() {
    let mut bytes: Vec<[u8; 32]> = vec![[0u8; 32]; 32];
    let mut words: Vec<[u16; 16]> = vec![[0u16; 16]; 16];
    let mut dwords: Vec<[u32; 8]> = vec![[0u32; 8]; 8];
    let mut qwords: Vec<[u64; 4]> = vec![[0u64; 4]; 4];

    unary_tests(&mut bytes);
    unary_tests(&mut words);
    unary_tests(&mut dwords);
    unary_tests(&mut qwords);
}

#[test]
fn word8_scenario() {
    let mut b = 0u8;
    b.bit_init(false);
    b.bit_set(2);
    b.bit_set(5);
    assert_eq!(b.bit_count(), 2);
    assert!(b.bit_test(2));
    assert!(b.bit_test(5));
    for i in 0..8 {
        if i != 2 && i != 5 {
            assert!(!b.bit_test(i));
        }
    }
    let f = bit_fmt(&b);
    let upper: String = f.upper_hex.iter().collect();
    assert_eq!(upper, "24");
    let lower: String = f.lower_hex.iter().collect();
    assert_eq!(lower, "24");
    let binary: String = f.binary.iter().collect();
    assert_eq!(binary, "00100100");
}

#[test]
fn word32_algebra() {
    let mut a = 0x21212121u32;
    let b = 0x55555555u32;
    a.bit_or(&b);
    a.bit_and(&b);
    a.bit_xor(&b);
    a.bit_not();
    assert_eq!(a, 0xffffffffu32);
}

#[test]
fn simd_algebra() {
    let mut a: Vec<[u32; 4]> = vec![[0x21212121u32; 4]; 16];
    let b: Vec<[u32; 4]> = vec![[0x55555555u32; 4]; 16];
    a.bit_or(&b);
    a.bit_and(&b);
    a.bit_xor(&b);
    a.bit_not();
    assert_eq!(a, vec![[0xffffffffu32; 4]; 16]);
}

#[test]
fn sparse_scenario() {
    let mut s: SparseBits<u32> = SparseBits::new();
    s.bit_set(1000000);
    assert_eq!(s.bit_count(), 1);
    assert!(s.bit_test(1000000));
    assert!(!s.bit_test(0));
    assert!(s.bit_any());
    assert!(!s.bit_all());
}

#[test]
fn sparse_relations() {
    let mut a: SparseBits<u16> = SparseBits::new();
    let mut b: SparseBits<u16> = SparseBits::new();
    a.bit_set(3);
    a.bit_set(1000);
    b.bit_set(3);
    assert!(b.bit_subset(&a));
    assert!(a.bit_superset(&b));
    assert!(!a.bit_subset(&b));
    assert!(!a.bit_disjoint(&b));
    assert!(!a.bit_eq(&b));
    b.bit_reset(3);
    assert!(a.bit_disjoint(&b));
    assert!(b.bit_none());
    let mut c: SparseBits<u16> = SparseBits::new();
    c.bit_or(&a);
    assert!(c.bit_eq(&a));
    c.bit_andnot(&a);
    assert!(!c.bit_any());
    assert_eq!(c.bit_count(), 0);
}

#[test]
fn sparse_lazy_reset() {
    // resetting or clearing never makes a bit appear
    let mut s: SparseBits<u8> = SparseBits::new();
    s.bit_reset(77);
    assert!(!s.bit_any());
    assert_eq!(s.bit_count(), 0);
    s.bit_flip(77);
    assert!(s.bit_test(77));
    s.bit_flip(77);
    assert!(!s.bit_test(77));
    s.bit_set(12);
    s.bit_init(false);
    assert!(s.bit_none());
}

#[test]
fn sparse_word_merges() {
    // intersecting leaves a stored word alone when the other side has no
    // word under the same key, and the symmetric difference merges whole
    // words as a union
    let mut a: SparseBits<u8> = SparseBits::new();
    let mut b: SparseBits<u8> = SparseBits::new();
    a.bit_set(0);
    a.bit_set(100);
    b.bit_set(1);
    a.bit_and(&b);
    assert!(!a.bit_test(0)); // keys 0 of a and b intersect
    assert!(a.bit_test(100)); // b holds no word under bit 100's key
    a.bit_xor(&b);
    assert!(a.bit_test(1));
    assert!(a.bit_test(100));
    let mut m: SparseBits<u8> = SparseBits::new();
    let mut r: SparseBits<u8> = SparseBits::new();
    m.bit_set(100);
    r.bit_set(100);
    r.bit_set(101);
    a.bit_mask(&r, &m);
    assert!(a.bit_test(100)); // taken from r where the mask is set
    assert!(!a.bit_test(101)); // mask clear: keeps its own zero
    assert!(a.bit_test(1)); // untouched key
}

#[test]
fn word_cond_none_superset() {
    let mut w = 0u16;
    w.bit_cond(4, true);
    assert!(w.bit_test(4));
    w.bit_cond(4, false);
    assert!(!w.bit_test(4));
    assert!(w.bit_none());
    let a = 0b0110u16;
    let b = 0b0010u16;
    assert!(a.bit_superset(&b));
    assert!(!b.bit_superset(&a));
    assert!(b.bit_subset(&a));
    assert!(a.bit_eq(&a));
}

#[test]
fn word_mask_select() {
    let mut w = 0b1010u8;
    let r = 0b0110u8;
    let m = 0b0011u8;
    w.bit_mask(&r, &m);
    assert_eq!(w, 0b1010u8 & !0b0011 | 0b0110 & 0b0011);
}

#[test]
fn flat_ops_exact() {
    let mut a: Vec<u16> = vec![0x0f0fu16, 0x1234u16];
    let b: Vec<u16> = vec![0x00ffu16, 0xff00u16];
    a.bit_and(&b);
    assert_eq!(a, vec![0x000fu16, 0x1200u16]);
    a.bit_or(&b);
    assert_eq!(a, vec![0x00ffu16, 0xff00u16]);
    a.bit_xor(&b);
    assert!(a.bit_none());
    a.bit_not();
    assert!(a.bit_all());
    assert_eq!(a.bit_count(), 32);
    a.bit_andnot(&b);
    assert_eq!(a, vec![0xff00u16, 0x00ffu16]);
    let mut c: Vec<u16> = vec![0u16, 0u16];
    c.bit_init(true);
    assert!(c.bit_all() && c.bit_any());
    c.bit_init(false);
    assert!(!c.bit_all() && !c.bit_any());
}

#[test]
fn flat_formatting() {
    let v: Vec<u16> = vec![0x0102u16];
    let f = bit_fmt(&v);
    // low-index byte first: bits 0..8 hold 0x02, bits 8..16 hold 0x01
    let upper: String = f.upper_hex.iter().collect();
    assert_eq!(upper, "0201");
    let binary: String = f.binary.iter().collect();
    assert_eq!(binary, "00000010_00000001");
    let empty: Vec<u8> = Vec::new();
    let fe = bit_fmt(&empty);
    assert!(fe.binary.is_empty());
    assert!(fe.upper_hex.is_empty());
    assert!(fe.lower_hex.is_empty());
}

#[test]
fn hex_alphabet_cases() {
    let v: Vec<u8> = vec![0xabu8, 0xcdu8, 0xefu8];
    let f = bit_fmt(&v);
    // each byte renders as its own value, high nibble first
    let upper: String = f.upper_hex.iter().collect();
    assert_eq!(upper, "ABCDEF");
    let lower: String = f.lower_hex.iter().collect();
    assert_eq!(lower, "abcdef");
}

#[test]
fn set_reset_flip_roundtrip() {
    let mut w = 0u32;
    w.bit_set(17);
    assert!(w.bit_test(17));
    w.bit_set(17);
    assert!(w.bit_test(17));
    assert_eq!(w.bit_count(), 1);
    w.bit_reset(17);
    assert!(!w.bit_test(17));
    w.bit_reset(17);
    assert!(!w.bit_test(17));
    let before = w;
    w.bit_flip(9);
    w.bit_flip(9);
    assert_eq!(w, before);
}

#[test]
fn count_matches_tests() {
    let w = 0xC3A5u16;
    let mut seen = 0;
    for i in 0..16 {
        if w.bit_test(i) {
            seen += 1;
        }
    }
    assert_eq!(w.bit_count(), seen);
    let v: Vec<u8> = vec![0xffu8, 0x00u8, 0x81u8];
    let mut seen2 = 0;
    for i in 0..v.bit_len() {
        if v.bit_test(i) {
            seen2 += 1;
        }
    }
    assert_eq!(v.bit_count(), seen2);
    assert_eq!(v.bit_count(), 10);
}

#[test]
fn constructors() {
    let bits = bitset_with(vec![0u8; 4], &vec![2, 3, 5, 7, 11, 13, 17, 19, 23, 29, 31]);
    assert_eq!(bits.bit_count(), 11);
    let merged = bitor_with(vec![0u8; 4], &vec![vec![0x01u8; 4], vec![0x10u8; 4]]);
    assert_eq!(merged, vec![0x11u8; 4]);
}

#[test]
fn index_adaptation() {
    assert_eq!(7u8.into_index(), 7);
    assert_eq!(7u16.into_index(), 7);
    assert_eq!(7u32.into_index(), 7);
    assert_eq!(7usize.into_index(), 7);
    assert_eq!(7i8.into_index(), 7);
    assert_eq!(7i16.into_index(), 7);
    assert_eq!(7i32.into_index(), 7);
    assert_eq!(7isize.into_index(), 7);
    assert_eq!((-1i32).into_index(), usize::MAX);
    let mut set: Vec<u8> = vec![0u8; 32];
    set.bit_set(13u32.into_index());
    assert!(set.bit_test(13));
}

#[test]
fn simd_single_bits() {
    let mut v: Vec<[u8; 16]> = vec![[0u8; 16]; 2];
    assert_eq!(v.bit_len(), 256);
    v.bit_set(0);
    v.bit_set(130);
    assert!(v.bit_test(0));
    assert!(v.bit_test(130));
    assert!(!v.bit_test(1));
    assert_eq!(v.bit_count(), 2);
    // bit 130 lives in block 1, lane 0, bit 2
    assert_eq!(v[1][0], 0b100u8);
    v.bit_cond(130, false);
    assert!(!v.bit_test(130));
    assert_eq!(v.bit_count(), 1);
}

#[test]
fn wide_words() {
    let mut wide = 0u128;
    unary_tests(&mut wide);
    let mut vec_wide: Vec<u128> = vec![0u128; 2];
    unary_tests(&mut vec_wide);
    let mut w = 0u128;
    w.bit_set(127);
    assert!(w.bit_test(127));
    assert_eq!(w.bit_count(), 1);
    assert_eq!(w, 1u128 << 127);
}
