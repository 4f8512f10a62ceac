//! Counting newline characters.
//!
//! The count of `'\n'` characters in a span is the primitive that the slice
//! and tree layers use whenever a line count must be (re)computed.

use vstd::prelude::*;

verus! {

/// The number of newline characters in `s`: the reference definition,
/// one character at a time.
pub open spec fn nl_count(s: Seq<char>) -> nat
    decreases s.len(),
{
    if s.len() == 0 {
        0
    } else {
        (if s.first() == '\n' {
            1nat
        } else {
            0nat
        }) + nl_count(s.drop_first())
    }
}

/// A span never holds more newlines than characters.
pub proof fn lemma_nl_count_le_len(s: Seq<char>)
    ensures
        nl_count(s) <= s.len(),
    decreases s.len(),
{
    if s.len() > 0 {
        lemma_nl_count_le_len(s.drop_first());
    }
}

/// Newline counts add across concatenation.
pub proof fn lemma_nl_count_concat(a: Seq<char>, b: Seq<char>)
    ensures
        nl_count(a + b) == nl_count(a) + nl_count(b),
    decreases a.len(),
{
    if a.len() == 0 {
        assert(a + b =~= b);
    } else {
        assert((a + b).drop_first() =~= a.drop_first() + b);
        lemma_nl_count_concat(a.drop_first(), b);
    }
}

/// One character holds one newline exactly when it is one.
pub proof fn lemma_nl_count_single(c: char)
    ensures
        nl_count(seq![c]) == (if c == '\n' {
            1nat
        } else {
            0nat
        }),
{
    assert(seq![c].drop_first() =~= Seq::<char>::empty());
    assert(nl_count(seq![c].drop_first()) == 0);
}

/// Count the newlines in `v[from..to]`, one character at a time.
pub fn count_newlines_range(v: &Vec<char>, from: usize, to: usize) -> (r: usize)
    requires
        from <= to <= v@.len(),
    ensures
        r == nl_count(v@.subrange(from as int, to as int)),
{
    let mut count: usize = 0;
    let mut i: usize = from;
    while i < to
        invariant
            from <= i <= to <= v@.len(),
            count == nl_count(v@.subrange(from as int, i as int)),
        decreases to - i,
    {
        proof {
            assert(v@.subrange(from as int, i + 1) =~= v@.subrange(from as int, i as int)
                + seq![v@[i as int]]);
            lemma_nl_count_concat(v@.subrange(from as int, i as int), seq![v@[i as int]]);
            lemma_nl_count_single(v@[i as int]);
            lemma_nl_count_le_len(v@.subrange(from as int, i as int));
        }
        if v[i] == '\n' {
            count = count + 1;
        }
        i = i + 1;
    }
    count
}

/// The number of newline bytes in `b`: the reference definition, one byte
/// at a time.
pub open spec fn nl_count_bytes(b: Seq<u8>) -> nat
    decreases b.len(),
{
    if b.len() == 0 {
        0
    } else {
        (if b.first() == 0x0au8 {
            1nat
        } else {
            0nat
        }) + nl_count_bytes(b.drop_first())
    }
}

/// A span never holds more newline bytes than bytes.
pub proof fn lemma_nl_count_bytes_le_len(b: Seq<u8>)
    ensures
        nl_count_bytes(b) <= b.len(),
    decreases b.len(),
{
    if b.len() > 0 {
        lemma_nl_count_bytes_le_len(b.drop_first());
    }
}

/// Newline byte counts add across concatenation.
pub proof fn lemma_nl_count_bytes_concat(a: Seq<u8>, b: Seq<u8>)
    ensures
        nl_count_bytes(a + b) == nl_count_bytes(a) + nl_count_bytes(b),
    decreases a.len(),
{
    if a.len() == 0 {
        assert(a + b =~= b);
    } else {
        assert((a + b).drop_first() =~= a.drop_first() + b);
        lemma_nl_count_bytes_concat(a.drop_first(), b);
    }
}

/// One byte holds one newline exactly when it is one.
pub proof fn lemma_nl_count_bytes_single(x: u8)
    ensures
        nl_count_bytes(seq![x]) == (if x == 0x0au8 {
            1nat
        } else {
            0nat
        }),
{
    assert(seq![x].drop_first() =~= Seq::<u8>::empty());
    assert(nl_count_bytes(seq![x].drop_first()) == 0);
}

/// The UTF-8 encoding of one character holds a newline byte exactly when the
/// character is the newline: a one-byte encoding is the character's own
/// value, and every byte of a longer encoding has its high bit set.
proof fn lemma_encode_scalar_nl(c: char)
    ensures
        nl_count_bytes(vstd::utf8::encode_scalar(c as u32)) == (if c == '\n' {
            1nat
        } else {
            0nat
        }),
{
    let v = c as u32;
    let e = vstd::utf8::encode_scalar(v);
    assert(('\n' as u32) == 10);
    if vstd::utf8::has_width_1_encoding(v) {
        let b0 = vstd::utf8::leading_byte_width_1(v);
        lemma_nl_count_bytes_single(b0);
        assert(v <= 0x7F ==> ((((v & 0x7F) as u8) == 0x0au8) <==> v == 10)) by (bit_vector);
    } else {
        assert(v > 0x7F ==> (0xC0u8 | (((v >> 6) & 0x1F) as u8)) != 0x0au8) by (bit_vector);
        assert(v > 0x7F ==> (0xE0u8 | (((v >> 12) & 0x0F) as u8)) != 0x0au8) by (bit_vector);
        assert(v > 0x7F ==> (0xF0u8 | (((v >> 18) & 0x7) as u8)) != 0x0au8) by (bit_vector);
        assert((0x80u8 | ((v & 0x3F) as u8)) != 0x0au8) by (bit_vector);
        assert((0x80u8 | (((v >> 6) & 0x3F) as u8)) != 0x0au8) by (bit_vector);
        assert((0x80u8 | (((v >> 12) & 0x3F) as u8)) != 0x0au8) by (bit_vector);
        assert(forall|i: int| 0 <= i < e.len() ==> e[i] != 0x0au8);
        lemma_nl_count_bytes_none(e);
    }
}

/// A span without newline bytes counts zero.
proof fn lemma_nl_count_bytes_none(b: Seq<u8>)
    requires
        forall|i: int| 0 <= i < b.len() ==> b[i] != 0x0au8,
    ensures
        nl_count_bytes(b) == 0,
    decreases b.len(),
{
    if b.len() > 0 {
        lemma_nl_count_bytes_none(b.drop_first());
    }
}

/// Counting newline bytes in the UTF-8 encoding of a text counts exactly its
/// newline characters.
proof fn lemma_utf8_nl(s: Seq<char>)
    ensures
        nl_count_bytes(vstd::utf8::encode_utf8(s)) == nl_count(s),
    decreases s.len(),
{
    if s.len() > 0 {
        lemma_utf8_nl(s.drop_first());
        lemma_encode_scalar_nl(s[0]);
        let e0 = vstd::utf8::encode_scalar(s[0] as u32);
        let rest = vstd::utf8::encode_utf8(s.drop_first());
        lemma_nl_count_bytes_concat(e0, rest);
    }
}

/// A word of eight byte lanes, replicated patterns for the word-parallel scan.
const REP_NEWLINE: u64 = 0x0A0A0A0A0A0A0A0A;

/// The lowest bit of every byte lane.
const LANE_ONES: u64 = 0x0101010101010101;

/// All bits of every byte lane but the highest.
const LANE_LOWS: u64 = 0x7F7F7F7F7F7F7F7F;

/// The number of newline bytes among the eight byte lanes of `w`.
pub open spec fn word_nl(w: u64) -> int {
    (if w & 0xFF == 0x0A {
        1int
    } else {
        0int
    }) + (if (w >> 8) & 0xFF == 0x0A {
        1int
    } else {
        0int
    }) + (if (w >> 16) & 0xFF == 0x0A {
        1int
    } else {
        0int
    }) + (if (w >> 24) & 0xFF == 0x0A {
        1int
    } else {
        0int
    }) + (if (w >> 32) & 0xFF == 0x0A {
        1int
    } else {
        0int
    }) + (if (w >> 40) & 0xFF == 0x0A {
        1int
    } else {
        0int
    }) + (if (w >> 48) & 0xFF == 0x0A {
        1int
    } else {
        0int
    }) + (if (w >> 56) & 0xFF == 0x0A {
        1int
    } else {
        0int
    })
}

/// Count the newline bytes among the eight lanes of one word at once: XOR
/// against the replicated newline pattern, set the high bit of exactly the
/// lanes that matched with a mask/add/complement zero test (kept local to
/// each lane, so no borrow can leak into a neighbour), and reduce the flags
/// to a count with a single multiply and shift.
fn count_newlines_word(w: u64) -> (r: u64)
    ensures
        r == word_nl(w),
        r <= 8,
{
    let x = w ^ REP_NEWLINE;
    proof {
        assert(x & 0x7F7F7F7F7F7F7F7Fu64 <= 0x7F7F7F7F7F7F7F7Fu64) by (bit_vector);
    }
    let t = (x & LANE_LOWS) + LANE_LOWS;
    let flags = (!(t | x | LANE_LOWS)) >> 7u64;
    let prod = flags.wrapping_mul(LANE_ONES);
    let r = prod >> 56u64;
    proof {
        let f0 = flags & 0xFF;
        let f1 = (flags >> 8) & 0xFF;
        let f2 = (flags >> 16) & 0xFF;
        let f3 = (flags >> 24) & 0xFF;
        let f4 = (flags >> 32) & 0xFF;
        let f5 = (flags >> 40) & 0xFF;
        let f6 = (flags >> 48) & 0xFF;
        let f7 = (flags >> 56) & 0xFF;
        assert(prod == ((flags * 0x0101010101010101) % 0x10000000000000000) as u64);
        assert(flags & 0x0101010101010101u64 == flags && (flags & 0xFF) == (if w & 0xFF == 0x0A {
            1u64
        } else {
            0u64
        }) && ((flags >> 8) & 0xFF) == (if (w >> 8) & 0xFF == 0x0A {
            1u64
        } else {
            0u64
        }) && ((flags >> 16) & 0xFF) == (if (w >> 16) & 0xFF == 0x0A {
            1u64
        } else {
            0u64
        }) && ((flags >> 24) & 0xFF) == (if (w >> 24) & 0xFF == 0x0A {
            1u64
        } else {
            0u64
        }) && ((flags >> 32) & 0xFF) == (if (w >> 32) & 0xFF == 0x0A {
            1u64
        } else {
            0u64
        }) && ((flags >> 40) & 0xFF) == (if (w >> 40) & 0xFF == 0x0A {
            1u64
        } else {
            0u64
        }) && ((flags >> 48) & 0xFF) == (if (w >> 48) & 0xFF == 0x0A {
            1u64
        } else {
            0u64
        }) && ((flags >> 56) & 0xFF) == (if (w >> 56) & 0xFF == 0x0A {
            1u64
        } else {
            0u64
        })) by (bit_vector)
            requires
                x == w ^ 0x0A0A0A0A0A0A0A0Au64,
                t == (x & 0x7F7F7F7F7F7F7F7Fu64) + 0x7F7F7F7F7F7F7F7Fu64,
                flags == (!(t | x | 0x7F7F7F7F7F7F7F7Fu64)) >> 7u64,
        ;
        assert(r == f0 + f1 + f2 + f3 + f4 + f5 + f6 + f7) by (bit_vector)
            requires
                flags & 0x0101010101010101u64 == flags,
                prod == ((flags * 0x0101010101010101) % 0x10000000000000000) as u64,
                r == prod >> 56u64,
                f0 == flags & 0xFF,
                f1 == (flags >> 8) & 0xFF,
                f2 == (flags >> 16) & 0xFF,
                f3 == (flags >> 24) & 0xFF,
                f4 == (flags >> 32) & 0xFF,
                f5 == (flags >> 40) & 0xFF,
                f6 == (flags >> 48) & 0xFF,
                f7 == (flags >> 56) & 0xFF,
        ;
    }
    r
}

/// Eight consecutive bytes count as their indicator sum.
proof fn lemma_nl_count_bytes_window(b: Seq<u8>)
    requires
        b.len() == 8,
    ensures
        nl_count_bytes(b) == (if b[0] == 0x0au8 {
            1int
        } else {
            0int
        }) + (if b[1] == 0x0au8 {
            1int
        } else {
            0int
        }) + (if b[2] == 0x0au8 {
            1int
        } else {
            0int
        }) + (if b[3] == 0x0au8 {
            1int
        } else {
            0int
        }) + (if b[4] == 0x0au8 {
            1int
        } else {
            0int
        }) + (if b[5] == 0x0au8 {
            1int
        } else {
            0int
        }) + (if b[6] == 0x0au8 {
            1int
        } else {
            0int
        }) + (if b[7] == 0x0au8 {
            1int
        } else {
            0int
        }),
{
    reveal_with_fuel(nl_count_bytes, 9);
    assert(b.drop_first().drop_first().drop_first().drop_first().drop_first().drop_first()
        .drop_first().drop_first() =~= Seq::<u8>::empty());
}

/// Count the newline bytes of a byte span: the interior in word-sized chunks
/// via [`count_newlines_word`], the tail one byte at a time. The result is
/// exactly the count of newline bytes in the span, whatever the bytes are.
pub fn count_newline_bytes(b: &[u8]) -> (r: usize)
    ensures
        r == nl_count_bytes(b@),
{
    let n = b.len();
    let mut count: usize = 0;
    let mut i: usize = 0;
    while n - i >= 8
        invariant
            i <= n,
            n == b@.len(),
            count == nl_count_bytes(b@.take(i as int)),
        decreases n - i,
    {
        let w = (b[i] as u64) | ((b[i + 1] as u64) << 8u64) | ((b[i + 2] as u64) << 16u64) | ((b[i
            + 3] as u64) << 24u64) | ((b[i + 4] as u64) << 32u64) | ((b[i + 5] as u64) << 40u64)
            | ((b[i + 6] as u64) << 48u64) | ((b[i + 7] as u64) << 56u64);
        let c = count_newlines_word(w);
        proof {
            let x0 = b@[i as int] as u64;
            let x1 = b@[i + 1] as u64;
            let x2 = b@[i + 2] as u64;
            let x3 = b@[i + 3] as u64;
            let x4 = b@[i + 4] as u64;
            let x5 = b@[i + 5] as u64;
            let x6 = b@[i + 6] as u64;
            let x7 = b@[i + 7] as u64;
            assert(w & 0xFF == x0 && (w >> 8) & 0xFF == x1 && (w >> 16) & 0xFF == x2 && (w >> 24)
                & 0xFF == x3 && (w >> 32) & 0xFF == x4 && (w >> 40) & 0xFF == x5 && (w >> 48) & 0xFF
                == x6 && (w >> 56) & 0xFF == x7) by (bit_vector)
                requires
                    w == x0 | (x1 << 8u64) | (x2 << 16u64) | (x3 << 24u64) | (x4 << 32u64) | (x5
                        << 40u64) | (x6 << 48u64) | (x7 << 56u64),
                    x0 < 256 && x1 < 256 && x2 < 256 && x3 < 256 && x4 < 256 && x5 < 256 && x6
                        < 256 && x7 < 256,
            ;
            let window = b@.subrange(i as int, i + 8);
            lemma_nl_count_bytes_window(window);
            assert(b@.take(i + 8) =~= b@.take(i as int) + window);
            lemma_nl_count_bytes_concat(b@.take(i as int), window);
            lemma_nl_count_bytes_le_len(b@.take(i + 8));
        }
        count = count + (c as usize);
        i = i + 8;
    }
    while i < n
        invariant
            i <= n,
            n == b@.len(),
            count == nl_count_bytes(b@.take(i as int)),
        decreases n - i,
    {
        proof {
            assert(b@.take(i + 1) =~= b@.take(i as int) + seq![b@[i as int]]);
            lemma_nl_count_bytes_concat(b@.take(i as int), seq![b@[i as int]]);
            lemma_nl_count_bytes_single(b@[i as int]);
            lemma_nl_count_bytes_le_len(b@.take(i as int));
        }
        if b[i] == 0x0au8 {
            count = count + 1;
        }
        i = i + 1;
    }
    proof {
        assert(b@.take(n as int) =~= b@);
    }
    count
}

/// Count the newline characters of `s`, scanning its bytes word-parallel.
/// The result is exactly what a one-character-at-a-time reference scan
/// gives, for every input, including empty, all-newline and no-newline
/// text: only newline identity matters here, and a newline byte occurs in
/// UTF-8 exactly where the newline character does.
pub fn count_newlines(s: &str) -> (r: usize)
    ensures
        r == nl_count(s@),
{
    let r = count_newline_bytes(s.as_bytes());
    proof {
        lemma_utf8_nl(s@);
    }
    r
}

} // verus!
