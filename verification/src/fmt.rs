//! Formatting: rendering any backend as binary or hexadecimal digits.
//!
//! Both renderings walk the container through the generic `test`/`length`
//! part of the contract only, eight bits at a time, low-index byte first.
//! The binary form prints each chunk most-significant bit first — bit
//! `i + 7` down to bit `i + 0` — separating chunks after the first with
//! `'_'`.  The hexadecimal form renders each byte's value as exactly two
//! digits, high nibble first, so bit `i + 7` weighs most within its
//! chunk.
//!
//! The output is kept as vectors of digit characters drawn from a fixed
//! ASCII alphabet, always valid text by construction.

use vstd::prelude::*;

use crate::BitSet;

verus! {

/// The rendered forms of one container.
pub struct BitFmt {
    /// Binary digits, eight per chunk, chunks separated by `'_'`.
    pub binary: Vec<char>,
    /// Hexadecimal digits, upper-case alphabet, two per byte.
    pub upper_hex: Vec<char>,
    /// Hexadecimal digits, lower-case alphabet, two per byte.
    pub lower_hex: Vec<char>,
}

/// The character for one bit.
pub open spec fn binary_digit(b: bool) -> char {
    if b {
        '1'
    } else {
        '0'
    }
}

/// The eight binary digits of the chunk starting at `base`, most
/// significant bit of the group first.
pub open spec fn binary_chunk(s: Seq<bool>, base: int) -> Seq<char> {
    Seq::new(8, |j: int| binary_digit(s[base + 7 - j]))
}

/// The full binary rendering: chunks low-index first, `'_'` between
/// chunks.
#[verifier::opaque]
pub open spec fn binary_render(s: Seq<bool>) -> Seq<char>
    decreases s.len(),
{
    if s.len() < 8 {
        Seq::empty()
    } else {
        binary_render(s.take(s.len() - 8)) + (if s.len() == 8 {
            Seq::empty()
        } else {
            seq!['_']
        }) + binary_chunk(s, s.len() - 8)
    }
}

/// The character for one hexadecimal digit value.
pub open spec fn hex_digit(v: int, upper: bool) -> char {
    if v == 0 {
        '0'
    } else if v == 1 {
        '1'
    } else if v == 2 {
        '2'
    } else if v == 3 {
        '3'
    } else if v == 4 {
        '4'
    } else if v == 5 {
        '5'
    } else if v == 6 {
        '6'
    } else if v == 7 {
        '7'
    } else if v == 8 {
        '8'
    } else if v == 9 {
        '9'
    } else if v == 10 {
        if upper {
            'A'
        } else {
            'a'
        }
    } else if v == 11 {
        if upper {
            'B'
        } else {
            'b'
        }
    } else if v == 12 {
        if upper {
            'C'
        } else {
            'c'
        }
    } else if v == 13 {
        if upper {
            'D'
        } else {
            'd'
        }
    } else if v == 14 {
        if upper {
            'E'
        } else {
            'e'
        }
    } else {
        if upper {
            'F'
        } else {
            'f'
        }
    }
}

/// The value of the nibble whose bits start at `base`; the highest bit
/// of the nibble, `base + 3`, weighs most.
pub open spec fn nibble_val(s: Seq<bool>, base: int) -> int {
    (if s[base + 3] {
        8int
    } else {
        0int
    }) + (if s[base + 2] {
        4int
    } else {
        0int
    }) + (if s[base + 1] {
        2int
    } else {
        0int
    }) + (if s[base] {
        1int
    } else {
        0int
    })
}

/// The two hexadecimal digits of the byte starting at `base`: its value,
/// high nibble (bits `base + 4 .. base + 8`) first.
pub open spec fn hex_chunk(s: Seq<bool>, base: int, upper: bool) -> Seq<char> {
    seq![hex_digit(nibble_val(s, base + 4), upper), hex_digit(nibble_val(s, base), upper)]
}

/// The full hexadecimal rendering: two digits per byte, low-index byte
/// first, no separators.
#[verifier::opaque]
pub open spec fn hex_render(s: Seq<bool>, upper: bool) -> Seq<char>
    decreases s.len(),
{
    if s.len() < 8 {
        Seq::empty()
    } else {
        hex_render(s.take(s.len() - 8), upper) + hex_chunk(s, s.len() - 8, upper)
    }
}

/// An empty bit sequence renders as empty text.
pub proof fn lemma_render_empty(s: Seq<bool>)
    requires
        s.len() == 0,
    ensures
        binary_render(s) == Seq::<char>::empty(),
        hex_render(s, true) == Seq::<char>::empty(),
        hex_render(s, false) == Seq::<char>::empty(),
{
    reveal(binary_render);
    reveal(hex_render);
}

/// Extends each rendering of a prefix by one more chunk.
pub proof fn lemma_render_step(s: Seq<bool>, i: int)
    requires
        0 <= i,
        i + 8 <= s.len(),
    ensures
        binary_render(s.take(i + 8)) == binary_render(s.take(i)) + (if i == 0 {
            Seq::<char>::empty()
        } else {
            seq!['_']
        }) + binary_chunk(s, i),
        hex_render(s.take(i + 8), true) == hex_render(s.take(i), true) + hex_chunk(s, i, true),
        hex_render(s.take(i + 8), false) == hex_render(s.take(i), false) + hex_chunk(s, i, false),
{
    reveal(binary_render);
    reveal(hex_render);
    let t = s.take(i + 8);
    assert(t.take(i) =~= s.take(i));
    assert(binary_chunk(t, i) =~= binary_chunk(s, i));
    assert(hex_chunk(t, i, true) =~= hex_chunk(s, i, true));
    assert(hex_chunk(t, i, false) =~= hex_chunk(s, i, false));
}

/// The character for one hexadecimal digit value, as runtime code.
fn hex_digit_exec(v: usize, upper: bool) -> (c: char)
    requires
        v < 16,
    ensures
        c == hex_digit(v as int, upper),
{
    if v == 0 {
        '0'
    } else if v == 1 {
        '1'
    } else if v == 2 {
        '2'
    } else if v == 3 {
        '3'
    } else if v == 4 {
        '4'
    } else if v == 5 {
        '5'
    } else if v == 6 {
        '6'
    } else if v == 7 {
        '7'
    } else if v == 8 {
        '8'
    } else if v == 9 {
        '9'
    } else if v == 10 {
        if upper {
            'A'
        } else {
            'a'
        }
    } else if v == 11 {
        if upper {
            'B'
        } else {
            'b'
        }
    } else if v == 12 {
        if upper {
            'C'
        } else {
            'c'
        }
    } else if v == 13 {
        if upper {
            'D'
        } else {
            'd'
        }
    } else if v == 14 {
        if upper {
            'E'
        } else {
            'e'
        }
    } else {
        if upper {
            'F'
        } else {
            'f'
        }
    }
}

/// Appends eight binary digits.
#[verifier::rlimit(100)]
#[verifier::spinoff_prover]
fn push_binary_digits(
    binary: &mut Vec<char>,
    b0: bool,
    b1: bool,
    b2: bool,
    b3: bool,
    b4: bool,
    b5: bool,
    b6: bool,
    b7: bool,
    Ghost(s): Ghost<Seq<bool>>,
    i: usize,
)
    requires
        i + 8 <= s.len(),
        b0 == s[i as int],
        b1 == s[i as int + 1],
        b2 == s[i as int + 2],
        b3 == s[i as int + 3],
        b4 == s[i as int + 4],
        b5 == s[i as int + 5],
        b6 == s[i as int + 6],
        b7 == s[i as int + 7],
    ensures
        final(binary)@ =~= old(binary)@ + binary_chunk(s, i as int),
{
    binary.push(if b7 {
        '1'
    } else {
        '0'
    });
    binary.push(if b6 {
        '1'
    } else {
        '0'
    });
    binary.push(if b5 {
        '1'
    } else {
        '0'
    });
    binary.push(if b4 {
        '1'
    } else {
        '0'
    });
    binary.push(if b3 {
        '1'
    } else {
        '0'
    });
    binary.push(if b2 {
        '1'
    } else {
        '0'
    });
    binary.push(if b1 {
        '1'
    } else {
        '0'
    });
    binary.push(if b0 {
        '1'
    } else {
        '0'
    });
    proof {
        assert(binary@ =~= old(binary)@ + binary_chunk(s, i as int));
    }
}

/// Appends the binary digits of one chunk, with its separator.
#[verifier::rlimit(100)]
#[verifier::spinoff_prover]
fn push_binary_chunk(
    binary: &mut Vec<char>,
    b0: bool,
    b1: bool,
    b2: bool,
    b3: bool,
    b4: bool,
    b5: bool,
    b6: bool,
    b7: bool,
    Ghost(s): Ghost<Seq<bool>>,
    i: usize,
)
    requires
        i + 8 <= s.len(),
        b0 == s[i as int],
        b1 == s[i as int + 1],
        b2 == s[i as int + 2],
        b3 == s[i as int + 3],
        b4 == s[i as int + 4],
        b5 == s[i as int + 5],
        b6 == s[i as int + 6],
        b7 == s[i as int + 7],
        old(binary)@ == binary_render(s.take(i as int)),
    ensures
        final(binary)@ == binary_render(s.take(i as int + 8)),
{
    let ghost a = binary_render(s.take(i as int));
    let ghost sep: Seq<char> = if i == 0 {
        Seq::empty()
    } else {
        seq!['_']
    };
    if i > 0 {
        binary.push('_');
    }
    proof {
        assert(binary@ =~= a + sep);
    }
    push_binary_digits(binary, b0, b1, b2, b3, b4, b5, b6, b7, Ghost(s), i);
    proof {
        lemma_render_step(s, i as int);
        assert(binary@ =~= a + sep + binary_chunk(s, i as int));
    }
}

/// Appends the two hexadecimal digits of one chunk.
#[verifier::rlimit(100)]
#[verifier::spinoff_prover]
fn push_hex_chunk(
    hex: &mut Vec<char>,
    upper: bool,
    b0: bool,
    b1: bool,
    b2: bool,
    b3: bool,
    b4: bool,
    b5: bool,
    b6: bool,
    b7: bool,
    Ghost(s): Ghost<Seq<bool>>,
    i: usize,
)
    requires
        i + 8 <= s.len(),
        b0 == s[i as int],
        b1 == s[i as int + 1],
        b2 == s[i as int + 2],
        b3 == s[i as int + 3],
        b4 == s[i as int + 4],
        b5 == s[i as int + 5],
        b6 == s[i as int + 6],
        b7 == s[i as int + 7],
        old(hex)@ == hex_render(s.take(i as int), upper),
    ensures
        final(hex)@ == hex_render(s.take(i as int + 8), upper),
{
    let hi: usize = (if b7 {
        8
    } else {
        0
    }) + (if b6 {
        4
    } else {
        0
    }) + (if b5 {
        2
    } else {
        0
    }) + (if b4 {
        1
    } else {
        0
    });
    let lo: usize = (if b3 {
        8
    } else {
        0
    }) + (if b2 {
        4
    } else {
        0
    }) + (if b1 {
        2
    } else {
        0
    }) + (if b0 {
        1
    } else {
        0
    });
    hex.push(hex_digit_exec(hi, upper));
    hex.push(hex_digit_exec(lo, upper));
    proof {
        lemma_render_step(s, i as int);
        assert(hex@ =~= hex_render(s.take(i as int + 8), upper));
    }
}

/// Renders a container in all supported textual forms, through the
/// generic `bit_len` / `bit_test` contract only.  An unbounded backend
/// has no finite rendering; the formatter is meant for the bounded
/// backends, whose bit length is a multiple of eight.
pub fn bit_fmt<T: BitSet>(this: &T) -> (r: BitFmt)
    requires
        this.inv(),
        T::is_bounded(),
        this.bits().len() % 8 == 0,
    ensures
        r.binary@ == binary_render(this.bits()),
        r.upper_hex@ == hex_render(this.bits(), true),
        r.lower_hex@ == hex_render(this.bits(), false),
{
    let ghost s = this.bits();
    proof {
        lemma_render_empty(s.take(0));
    }
    let n = this.bit_len();
    let mut binary: Vec<char> = Vec::new();
    let mut upper_hex: Vec<char> = Vec::new();
    let mut lower_hex: Vec<char> = Vec::new();
    let mut i: usize = 0;
    while i < n
        invariant
            this.inv(),
            s == this.bits(),
            n == s.len(),
            n % 8 == 0,
            i % 8 == 0,
            i <= n,
            binary@ == binary_render(s.take(i as int)),
            upper_hex@ == hex_render(s.take(i as int), true),
            lower_hex@ == hex_render(s.take(i as int), false),
        decreases n - i,
    {
        let b0 = this.bit_test(i);
        let b1 = this.bit_test(i + 1);
        let b2 = this.bit_test(i + 2);
        let b3 = this.bit_test(i + 3);
        let b4 = this.bit_test(i + 4);
        let b5 = this.bit_test(i + 5);
        let b6 = this.bit_test(i + 6);
        let b7 = this.bit_test(i + 7);
        push_binary_chunk(&mut binary, b0, b1, b2, b3, b4, b5, b6, b7, Ghost(s), i);
        push_hex_chunk(&mut upper_hex, true, b0, b1, b2, b3, b4, b5, b6, b7, Ghost(s), i);
        push_hex_chunk(&mut lower_hex, false, b0, b1, b2, b3, b4, b5, b6, b7, Ghost(s), i);
        i = i + 8;
    }
    proof {
        assert(s.take(n as int) =~= s);
    }
    BitFmt { binary, upper_hex, lower_hex }
}

} // verus!
