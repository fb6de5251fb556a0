//! Hexadecimal rendering of byte strings, used for on-disk blob names and
//! key display.

use vstd::prelude::*;

verus! {

/// The lower-case hexadecimal digit for a value below 16.
pub open spec fn hex_digit(n: u8) -> char {
    if n == 0 {
        '0'
    } else if n == 1 {
        '1'
    } else if n == 2 {
        '2'
    } else if n == 3 {
        '3'
    } else if n == 4 {
        '4'
    } else if n == 5 {
        '5'
    } else if n == 6 {
        '6'
    } else if n == 7 {
        '7'
    } else if n == 8 {
        '8'
    } else if n == 9 {
        '9'
    } else if n == 10 {
        'a'
    } else if n == 11 {
        'b'
    } else if n == 12 {
        'c'
    } else if n == 13 {
        'd'
    } else if n == 14 {
        'e'
    } else {
        'f'
    }
}

/// The upper-case hexadecimal digit for a value below 16.
pub open spec fn upper_hex_digit(n: u8) -> char {
    if n == 0 {
        '0'
    } else if n == 1 {
        '1'
    } else if n == 2 {
        '2'
    } else if n == 3 {
        '3'
    } else if n == 4 {
        '4'
    } else if n == 5 {
        '5'
    } else if n == 6 {
        '6'
    } else if n == 7 {
        '7'
    } else if n == 8 {
        '8'
    } else if n == 9 {
        '9'
    } else if n == 10 {
        'A'
    } else if n == 11 {
        'B'
    } else if n == 12 {
        'C'
    } else if n == 13 {
        'D'
    } else if n == 14 {
        'E'
    } else {
        'F'
    }
}

/// Lower-case hexadecimal rendering: two digits per byte.
pub open spec fn hex_chars(s: Seq<u8>) -> Seq<char>
    decreases s.len(),
{
    if s.len() == 0 {
        Seq::empty()
    } else {
        seq![hex_digit(s[0] >> 4), hex_digit(s[0] & 0x0f)] + hex_chars(s.drop_first())
    }
}

/// Upper-case rendering in the style of `{:X}` formatting: one digit for a
/// byte below 16, two digits otherwise.
pub open spec fn upper_hex_of_byte(b: u8) -> Seq<char> {
    if b < 16 {
        seq![upper_hex_digit(b)]
    } else {
        seq![upper_hex_digit(b >> 4), upper_hex_digit(b & 0x0f)]
    }
}

/// Upper-case rendering of a byte string, byte by byte.
pub open spec fn upper_hex_chars(s: Seq<u8>) -> Seq<char>
    decreases s.len(),
{
    if s.len() == 0 {
        Seq::empty()
    } else {
        upper_hex_of_byte(s[0]) + upper_hex_chars(s.drop_first())
    }
}

/// Appending one byte appends its two digits.
proof fn lemma_hex_chars_snoc(s: Seq<u8>, b: u8)
    ensures
        hex_chars(s.push(b)) == hex_chars(s) + seq![hex_digit(b >> 4), hex_digit(b & 0x0f)],
    decreases s.len(),
{
    if s.len() == 0 {
        assert(s.push(b)[0] == b);
        assert(s.push(b).drop_first() =~= Seq::<u8>::empty());
        assert(hex_chars(Seq::<u8>::empty()) =~= Seq::<char>::empty());
        assert(hex_chars(s.push(b).drop_first()) =~= Seq::<char>::empty());
        assert(hex_chars(s.push(b)) =~= hex_chars(s) + seq![
            hex_digit(b >> 4),
            hex_digit(b & 0x0f),
        ]);
    } else {
        assert(s.push(b)[0] == s[0]);
        assert(s.push(b).drop_first() =~= s.drop_first().push(b));
        lemma_hex_chars_snoc(s.drop_first(), b);
        assert(hex_chars(s.push(b)) =~= hex_chars(s) + seq![
            hex_digit(b >> 4),
            hex_digit(b & 0x0f),
        ]);
    }
}

/// Appending one byte appends its rendering.
proof fn lemma_upper_hex_chars_snoc(s: Seq<u8>, b: u8)
    ensures
        upper_hex_chars(s.push(b)) == upper_hex_chars(s) + upper_hex_of_byte(b),
    decreases s.len(),
{
    if s.len() == 0 {
        assert(s.push(b)[0] == b);
        assert(s.push(b).drop_first() =~= Seq::<u8>::empty());
        assert(upper_hex_chars(Seq::<u8>::empty()) =~= Seq::<char>::empty());
        assert(upper_hex_chars(s.push(b).drop_first()) =~= Seq::<char>::empty());
        assert(upper_hex_chars(s.push(b)) =~= upper_hex_chars(s) + upper_hex_of_byte(b));
    } else {
        assert(s.push(b)[0] == s[0]);
        assert(s.push(b).drop_first() =~= s.drop_first().push(b));
        lemma_upper_hex_chars_snoc(s.drop_first(), b);
        assert(upper_hex_chars(s.push(b)) =~= upper_hex_chars(s) + upper_hex_of_byte(b));
    }
}

/// Appends the lower-case digit for a value below 16.
fn push_hex_digit(out: &mut String, n: u8)
    requires
        n < 16,
    ensures
        final(out)@ == old(out)@ + seq![hex_digit(n)],
{
    if n == 0 {
        proof {
            reveal_strlit("0");
        }
        out.append("0");
    } else if n == 1 {
        proof {
            reveal_strlit("1");
        }
        out.append("1");
    } else if n == 2 {
        proof {
            reveal_strlit("2");
        }
        out.append("2");
    } else if n == 3 {
        proof {
            reveal_strlit("3");
        }
        out.append("3");
    } else if n == 4 {
        proof {
            reveal_strlit("4");
        }
        out.append("4");
    } else if n == 5 {
        proof {
            reveal_strlit("5");
        }
        out.append("5");
    } else if n == 6 {
        proof {
            reveal_strlit("6");
        }
        out.append("6");
    } else if n == 7 {
        proof {
            reveal_strlit("7");
        }
        out.append("7");
    } else if n == 8 {
        proof {
            reveal_strlit("8");
        }
        out.append("8");
    } else if n == 9 {
        proof {
            reveal_strlit("9");
        }
        out.append("9");
    } else if n == 10 {
        proof {
            reveal_strlit("a");
        }
        out.append("a");
    } else if n == 11 {
        proof {
            reveal_strlit("b");
        }
        out.append("b");
    } else if n == 12 {
        proof {
            reveal_strlit("c");
        }
        out.append("c");
    } else if n == 13 {
        proof {
            reveal_strlit("d");
        }
        out.append("d");
    } else if n == 14 {
        proof {
            reveal_strlit("e");
        }
        out.append("e");
    } else {
        proof {
            reveal_strlit("f");
        }
        out.append("f");
    }
    assert(out@ =~= old(out)@ + seq![hex_digit(n)]);
}

/// Appends the upper-case digit for a value below 16.
fn push_upper_hex_digit(out: &mut String, n: u8)
    requires
        n < 16,
    ensures
        final(out)@ == old(out)@ + seq![upper_hex_digit(n)],
{
    if n < 10 {
        push_hex_digit(out, n);
        assert(out@ =~= old(out)@ + seq![upper_hex_digit(n)]);
    } else if n == 10 {
        proof {
            reveal_strlit("A");
        }
        out.append("A");
        assert(out@ =~= old(out)@ + seq![upper_hex_digit(n)]);
    } else if n == 11 {
        proof {
            reveal_strlit("B");
        }
        out.append("B");
        assert(out@ =~= old(out)@ + seq![upper_hex_digit(n)]);
    } else if n == 12 {
        proof {
            reveal_strlit("C");
        }
        out.append("C");
        assert(out@ =~= old(out)@ + seq![upper_hex_digit(n)]);
    } else if n == 13 {
        proof {
            reveal_strlit("D");
        }
        out.append("D");
        assert(out@ =~= old(out)@ + seq![upper_hex_digit(n)]);
    } else if n == 14 {
        proof {
            reveal_strlit("E");
        }
        out.append("E");
        assert(out@ =~= old(out)@ + seq![upper_hex_digit(n)]);
    } else {
        proof {
            reveal_strlit("F");
        }
        out.append("F");
        assert(out@ =~= old(out)@ + seq![upper_hex_digit(n)]);
    }
}

/// Renders a byte string as lower-case hexadecimal, two digits per byte.
pub fn slice_to_hexadecimal(data: &[u8]) -> (r: String)
    ensures
        r@ == hex_chars(data@),
{
    let n = data.len();
    let mut out = String::new();
    let mut k: usize = 0;
    proof {
        assert(hex_chars(data@.subrange(0, 0)) =~= Seq::<char>::empty());
    }
    while k < n
        invariant
            k <= n,
            n == data@.len(),
            out@ == hex_chars(data@.subrange(0, k as int)),
        decreases n - k,
    {
        let b = data[k];
        proof {
            assert(b >> 4 < 16 && b & 0x0f < 16) by (bit_vector);
        }
        push_hex_digit(&mut out, b >> 4);
        push_hex_digit(&mut out, b & 0x0f);
        proof {
            lemma_hex_chars_snoc(data@.subrange(0, k as int), b);
            assert(data@.subrange(0, k as int).push(b) =~= data@.subrange(0, k + 1 as int));
            assert(out@ =~= hex_chars(data@.subrange(0, k + 1 as int)));
        }
        k = k + 1;
    }
    proof {
        assert(data@.subrange(0, n as int) =~= data@);
    }
    out
}

/// Renders a byte string in the style of `{:X}` formatting: upper-case,
/// without a leading zero on bytes below 16.
pub fn u8_slice_to_string(data: &[u8]) -> (r: String)
    ensures
        r@ == upper_hex_chars(data@),
{
    let n = data.len();
    let mut out = String::new();
    let mut k: usize = 0;
    proof {
        assert(upper_hex_chars(data@.subrange(0, 0)) =~= Seq::<char>::empty());
    }
    while k < n
        invariant
            k <= n,
            n == data@.len(),
            out@ == upper_hex_chars(data@.subrange(0, k as int)),
        decreases n - k,
    {
        let b = data[k];
        proof {
            assert(b >> 4 < 16 && b & 0x0f < 16) by (bit_vector);
        }
        if b < 16 {
            push_upper_hex_digit(&mut out, b);
        } else {
            push_upper_hex_digit(&mut out, b >> 4);
            push_upper_hex_digit(&mut out, b & 0x0f);
        }
        proof {
            lemma_upper_hex_chars_snoc(data@.subrange(0, k as int), b);
            assert(data@.subrange(0, k as int).push(b) =~= data@.subrange(0, k + 1 as int));
            assert(out@ =~= upper_hex_chars(data@.subrange(0, k + 1 as int)));
        }
        k = k + 1;
    }
    proof {
        assert(data@.subrange(0, n as int) =~= data@);
    }
    out
}

} // verus!
