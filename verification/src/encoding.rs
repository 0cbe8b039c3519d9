//! Reporting helpers for non-ASCII characters: the UTF-8 encoding of a
//! character rendered as lowercase hex bytes, each followed by a space.

use vstd::prelude::*;

verus! {

broadcast use vstd::seq::group_seq_axioms, vstd::std_specs::vec::group_vec_axioms, vstd::string::group_string_axioms;

/// The UTF-8 encoding of the scalar value `n`: one to four bytes.
pub open spec fn utf8_bytes(n: u32) -> Seq<u8> {
    if n < 0x80 {
        seq![n as u8]
    } else if n < 0x800 {
        seq![(0xC0u32 | (n >> 6)) as u8, (0x80u32 | (n & 0x3F)) as u8]
    } else if n < 0x10000 {
        seq![
            (0xE0u32 | (n >> 12)) as u8,
            (0x80u32 | ((n >> 6) & 0x3F)) as u8,
            (0x80u32 | (n & 0x3F)) as u8,
        ]
    } else {
        seq![
            (0xF0u32 | (n >> 18)) as u8,
            (0x80u32 | ((n >> 12) & 0x3F)) as u8,
            (0x80u32 | ((n >> 6) & 0x3F)) as u8,
            (0x80u32 | (n & 0x3F)) as u8,
        ]
    }
}

/// The lowercase hex digit for a value below 16.
pub open spec fn hex_digit_char(d: u8) -> char {
    if d == 0 {
        '0'
    } else if d == 1 {
        '1'
    } else if d == 2 {
        '2'
    } else if d == 3 {
        '3'
    } else if d == 4 {
        '4'
    } else if d == 5 {
        '5'
    } else if d == 6 {
        '6'
    } else if d == 7 {
        '7'
    } else if d == 8 {
        '8'
    } else if d == 9 {
        '9'
    } else if d == 10 {
        'a'
    } else if d == 11 {
        'b'
    } else if d == 12 {
        'c'
    } else if d == 13 {
        'd'
    } else if d == 14 {
        'e'
    } else {
        'f'
    }
}

/// One byte as two lowercase hex digits and a trailing space.
pub open spec fn byte_hex(b: u8) -> Seq<char> {
    seq![hex_digit_char(b / 16), hex_digit_char(b % 16), ' ']
}

/// A run of bytes rendered as hex, byte for byte.
pub open spec fn hex_str(bytes: Seq<u8>) -> Seq<char>
    decreases bytes.len(),
{
    if bytes.len() == 0 {
        Seq::empty()
    } else {
        hex_str(bytes.drop_last()) + byte_hex(bytes.last())
    }
}

/// Appends the lowercase hex digit for `d` to the string.
pub(crate) fn append_hex_digit(s: &mut String, d: u8)
    requires
        d < 16,
    ensures
        final(s)@ == old(s)@ + seq![hex_digit_char(d)],
{
    proof {
        reveal_strlit("0");
        reveal_strlit("1");
        reveal_strlit("2");
        reveal_strlit("3");
        reveal_strlit("4");
        reveal_strlit("5");
        reveal_strlit("6");
        reveal_strlit("7");
        reveal_strlit("8");
        reveal_strlit("9");
        reveal_strlit("a");
        reveal_strlit("b");
        reveal_strlit("c");
        reveal_strlit("d");
        reveal_strlit("e");
        reveal_strlit("f");
    }
    if d == 0 {
        s.append("0");
        proof {
            assert("0"@ =~= seq![hex_digit_char(d)]);
        }
    } else if d == 1 {
        s.append("1");
        proof {
            assert("1"@ =~= seq![hex_digit_char(d)]);
        }
    } else if d == 2 {
        s.append("2");
        proof {
            assert("2"@ =~= seq![hex_digit_char(d)]);
        }
    } else if d == 3 {
        s.append("3");
        proof {
            assert("3"@ =~= seq![hex_digit_char(d)]);
        }
    } else if d == 4 {
        s.append("4");
        proof {
            assert("4"@ =~= seq![hex_digit_char(d)]);
        }
    } else if d == 5 {
        s.append("5");
        proof {
            assert("5"@ =~= seq![hex_digit_char(d)]);
        }
    } else if d == 6 {
        s.append("6");
        proof {
            assert("6"@ =~= seq![hex_digit_char(d)]);
        }
    } else if d == 7 {
        s.append("7");
        proof {
            assert("7"@ =~= seq![hex_digit_char(d)]);
        }
    } else if d == 8 {
        s.append("8");
        proof {
            assert("8"@ =~= seq![hex_digit_char(d)]);
        }
    } else if d == 9 {
        s.append("9");
        proof {
            assert("9"@ =~= seq![hex_digit_char(d)]);
        }
    } else if d == 10 {
        s.append("a");
        proof {
            assert("a"@ =~= seq![hex_digit_char(d)]);
        }
    } else if d == 11 {
        s.append("b");
        proof {
            assert("b"@ =~= seq![hex_digit_char(d)]);
        }
    } else if d == 12 {
        s.append("c");
        proof {
            assert("c"@ =~= seq![hex_digit_char(d)]);
        }
    } else if d == 13 {
        s.append("d");
        proof {
            assert("d"@ =~= seq![hex_digit_char(d)]);
        }
    } else if d == 14 {
        s.append("e");
        proof {
            assert("e"@ =~= seq![hex_digit_char(d)]);
        }
    } else {
        s.append("f");
        proof {
            assert("f"@ =~= seq![hex_digit_char(d)]);
        }
    }
}

/// Renders the UTF-8 encoding of a character as lowercase hex bytes,
/// two digits and a space for each byte.
pub fn c_to_encoding_str(c: char) -> (r: String)
    ensures
        r@ == hex_str(utf8_bytes(c as u32)),
{
    let n = c as u32;
    let mut bytes: Vec<u8> = Vec::new();
    if n < 0x80 {
        bytes.push(n as u8);
    } else if n < 0x800 {
        proof {
            assert(n < 0x800 ==> (0xC0u32 | (n >> 6)) < 0x100 && (0x80u32 | (n & 0x3F)) < 0x100)
                by (bit_vector);
        }
        bytes.push((0xC0u32 | (n >> 6)) as u8);
        bytes.push((0x80u32 | (n & 0x3F)) as u8);
    } else if n < 0x10000 {
        proof {
            assert(n < 0x10000 ==> (0xE0u32 | (n >> 12)) < 0x100 && (0x80u32 | ((n >> 6) & 0x3F))
                < 0x100 && (0x80u32 | (n & 0x3F)) < 0x100) by (bit_vector);
        }
        bytes.push((0xE0u32 | (n >> 12)) as u8);
        bytes.push((0x80u32 | ((n >> 6) & 0x3F)) as u8);
        bytes.push((0x80u32 | (n & 0x3F)) as u8);
    } else {
        proof {
            assert(n < 0x200000 ==> (0xF0u32 | (n >> 18)) < 0x100 && (0x80u32 | ((n >> 12) & 0x3F))
                < 0x100 && (0x80u32 | ((n >> 6) & 0x3F)) < 0x100 && (0x80u32 | (n & 0x3F)) < 0x100)
                by (bit_vector);
        }
        bytes.push((0xF0u32 | (n >> 18)) as u8);
        bytes.push((0x80u32 | ((n >> 12) & 0x3F)) as u8);
        bytes.push((0x80u32 | ((n >> 6) & 0x3F)) as u8);
        bytes.push((0x80u32 | (n & 0x3F)) as u8);
    }
    proof {
        assert(bytes@ =~= utf8_bytes(n));
    }
    let mut s = String::new();
    let mut i: usize = 0;
    while i < bytes.len()
        invariant
            0 <= i <= bytes@.len(),
            s@ == hex_str(bytes@.take(i as int)),
        decreases bytes@.len() - i,
    {
        let b = bytes[i];
        append_hex_digit(&mut s, b / 16);
        append_hex_digit(&mut s, b % 16);
        proof {
            reveal_strlit(" ");
        }
        s.append(" ");
        proof {
            assert(" "@ =~= seq![' ']);
            assert(bytes@.take(i + 1).drop_last() =~= bytes@.take(i as int));
            assert(bytes@.take(i + 1).last() == bytes@[i as int]);
            assert(s@ =~= hex_str(bytes@.take(i as int)) + byte_hex(bytes@[i as int]));
        }
        i = i + 1;
    }
    proof {
        assert(bytes@.take(bytes@.len() as int) =~= bytes@);
    }
    s
}

} // verus!
