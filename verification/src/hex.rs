//! Lowercase hexadecimal encoding of byte strings.
//!
//! Commit ids are fixed-width byte values whose textual form is lowercase
//! hex; symbol resolution matches hex prefixes against that textual form.

use vstd::prelude::*;

verus! {

/// Whether `c` is a lowercase hexadecimal digit.
pub open spec fn is_hex_char(c: char) -> bool {
    (48 <= c as u32 && c as u32 <= 57) || (97 <= c as u32 && c as u32 <= 102)
}

/// The digit character for a nibble value below 16.
pub open spec fn hex_digit_char(n: u8) -> char
    recommends
        n < 16,
{
    if n == 0 { '0' } else if n == 1 { '1' } else if n == 2 { '2' } else if n == 3 { '3' }
    else if n == 4 { '4' } else if n == 5 { '5' } else if n == 6 { '6' } else if n == 7 { '7' }
    else if n == 8 { '8' } else if n == 9 { '9' } else if n == 10 { 'a' } else if n == 11 { 'b' }
    else if n == 12 { 'c' } else if n == 13 { 'd' } else if n == 14 { 'e' } else { 'f' }
}

/// The value of a lowercase hexadecimal digit character.
pub open spec fn hex_char_value(c: char) -> u8
    recommends
        is_hex_char(c),
{
    if c as u32 <= 57 { ((c as u32) - 48) as u8 } else { ((c as u32) - 87) as u8 }
}

/// The nibble of `bytes` that the hex digit at position `j` encodes: the
/// high nibble of byte `j / 2` at even positions, the low one at odd ones.
pub open spec fn nibble_at(bytes: Seq<u8>, j: int) -> u8
    recommends
        0 <= j < 2 * bytes.len(),
{
    if j % 2 == 0 { bytes[j / 2] / 16 } else { bytes[j / 2] % 16 }
}

/// Lowercase hex encoding of a byte string: two digits for each byte.
pub open spec fn hex_of(bytes: Seq<u8>) -> Seq<char> {
    Seq::new((2 * bytes.len()) as nat, |j: int| hex_digit_char(nibble_at(bytes, j)))
}

/// Encoding a nibble and reading it back is the identity.
pub proof fn lemma_hex_digit_char_value(n: u8)
    requires
        n < 16,
    ensures
        is_hex_char(hex_digit_char(n)),
        hex_char_value(hex_digit_char(n)) == n,
{
}

/// Reading a digit and encoding it back is the identity.
pub proof fn lemma_hex_value_digit_char(c: char)
    requires
        is_hex_char(c),
    ensures
        hex_char_value(c) < 16,
        hex_digit_char(hex_char_value(c)) == c,
{
}

/// The digit character for a nibble value, executable form.
pub fn hex_char_of(n: u8) -> (c: char)
    requires
        n < 16,
    ensures
        c == hex_digit_char(n),
{
    if n == 0 { '0' } else if n == 1 { '1' } else if n == 2 { '2' } else if n == 3 { '3' }
    else if n == 4 { '4' } else if n == 5 { '5' } else if n == 6 { '6' } else if n == 7 { '7' }
    else if n == 8 { '8' } else if n == 9 { '9' } else if n == 10 { 'a' } else if n == 11 { 'b' }
    else if n == 12 { 'c' } else if n == 13 { 'd' } else if n == 14 { 'e' } else { 'f' }
}

/// Strict lexicographic order on character strings, by unicode scalar value.
/// On lowercase hex strings this is the numeric order of what they encode.
pub open spec fn lex_lt(a: Seq<char>, b: Seq<char>) -> bool
    decreases a.len(),
{
    if b.len() == 0 {
        false
    } else if a.len() == 0 {
        true
    } else if (a[0] as u32) < (b[0] as u32) {
        true
    } else if a[0] == b[0] {
        lex_lt(a.skip(1), b.skip(1))
    } else {
        false
    }
}

/// The order is asymmetric, hence also irreflexive.
pub proof fn lemma_lex_lt_asym(a: Seq<char>, b: Seq<char>)
    requires
        lex_lt(a, b),
    ensures
        !lex_lt(b, a),
    decreases a.len(),
{
    if a.len() > 0 && b.len() > 0 && a[0] == b[0] {
        lemma_lex_lt_asym(a.skip(1), b.skip(1));
    }
}

/// The order is transitive.
pub proof fn lemma_lex_lt_trans(a: Seq<char>, b: Seq<char>, c: Seq<char>)
    requires
        lex_lt(a, b),
        lex_lt(b, c),
    ensures
        lex_lt(a, c),
    decreases a.len(),
{
    if a.len() > 0 && b.len() > 0 && c.len() > 0 && a[0] == b[0] && b[0] == c[0] {
        lemma_lex_lt_trans(a.skip(1), b.skip(1), c.skip(1));
    }
}

/// Two distinct strings are ordered one way or the other.
pub proof fn lemma_lex_trichotomy(a: Seq<char>, b: Seq<char>)
    requires
        a != b,
    ensures
        lex_lt(a, b) || lex_lt(b, a),
    decreases a.len(),
{
    if a.len() == 0 {
        if b.len() == 0 {
            assert(a =~= b);
        }
    } else if b.len() == 0 {
    } else if a[0] == b[0] {
        if a.skip(1) == b.skip(1) {
            assert(a.skip(1).len() == b.skip(1).len());
            assert(a.len() == b.len());
            assert(a =~= b) by {
                assert forall|i: int| 0 <= i < a.len() implies a[i] == b[i] by {
                    if i > 0 {
                        assert(a.skip(1)[i - 1] == b.skip(1)[i - 1]);
                    }
                }
            }
        } else {
            lemma_lex_trichotomy(a.skip(1), b.skip(1));
        }
    } else {
        if a[0] as u32 == b[0] as u32 {
            vstd::utf8::char_u32_cast(a[0], a[0] as u32);
            vstd::utf8::char_u32_cast(b[0], b[0] as u32);
        }
    }
}

/// A string is never below one of its prefixes.
pub proof fn lemma_prefix_le(p: Seq<char>, x: Seq<char>)
    requires
        p.is_prefix_of(x),
    ensures
        !lex_lt(x, p),
    decreases p.len(),
{
    if p.len() > 0 {
        assert(x[0] == p.take(p.len() as int)[0]);
        assert(p.skip(1).is_prefix_of(x.skip(1))) by {
            assert(p.skip(1) =~= x.skip(1).take(p.len() - 1));
        }
        lemma_prefix_le(p.skip(1), x.skip(1));
    }
}

/// A proper prefix is strictly below what it prefixes.
pub proof fn lemma_strict_prefix_lt(p: Seq<char>, x: Seq<char>)
    requires
        p.is_prefix_of(x),
        p.len() < x.len(),
    ensures
        lex_lt(p, x),
    decreases p.len(),
{
    if p.len() > 0 {
        assert(x[0] == p.take(p.len() as int)[0]);
        assert(p.skip(1).is_prefix_of(x.skip(1))) by {
            assert(p.skip(1) =~= x.skip(1).take(p.len() - 1));
        }
        lemma_strict_prefix_lt(p.skip(1), x.skip(1));
    }
}

/// Everything ordered between two strings with a common prefix has that
/// prefix too: prefix matches are contiguous in lexicographic order.
pub proof fn lemma_prefix_sandwich(p: Seq<char>, a: Seq<char>, b: Seq<char>, c: Seq<char>)
    requires
        p.is_prefix_of(a),
        p.is_prefix_of(c),
        !lex_lt(b, a),
        !lex_lt(c, b),
    ensures
        p.is_prefix_of(b),
    decreases p.len(),
{
    if p.len() == 0 {
        assert(p =~= b.take(0));
    } else {
        assert(a[0] == p.take(p.len() as int)[0]);
        assert(c[0] == p.take(p.len() as int)[0]);
        assert(a[0] == p[0] && c[0] == p[0]);
        assert(b.len() > 0);
        assert(b[0] == p[0]) by {
            if (b[0] as u32) < (a[0] as u32) {
                assert(lex_lt(b, a));
            }
            if (c[0] as u32) < (b[0] as u32) {
                assert(lex_lt(c, b));
            }
            assert(b[0] as u32 == p[0] as u32);
            vstd::utf8::char_u32_cast(b[0], b[0] as u32);
            vstd::utf8::char_u32_cast(p[0], p[0] as u32);
        }
        assert(!lex_lt(b.skip(1), a.skip(1)));
        assert(!lex_lt(c.skip(1), b.skip(1)));
        assert(p.skip(1).is_prefix_of(a.skip(1))) by {
            assert(p.skip(1) =~= a.skip(1).take(p.len() - 1));
        }
        assert(p.skip(1).is_prefix_of(c.skip(1))) by {
            assert(p.skip(1) =~= c.skip(1).take(p.len() - 1));
        }
        lemma_prefix_sandwich(p.skip(1), a.skip(1), b.skip(1), c.skip(1));
        assert(p.is_prefix_of(b)) by {
            assert(p =~= b.take(p.len() as int)) by {
                assert forall|i: int| 0 <= i < p.len() implies p[i] == b[i] by {
                    if i > 0 {
                        assert(p.skip(1)[i - 1]
                            == b.skip(1).take(p.len() - 1)[i - 1]);
                    }
                }
            }
        }
    }
}

/// Deciding the order from the first position where two strings differ.
pub proof fn lemma_lex_skip_eq(a: Seq<char>, b: Seq<char>, j: int)
    requires
        0 <= j <= a.len(),
        j <= b.len(),
        a.take(j) == b.take(j),
    ensures
        lex_lt(a, b) <==> lex_lt(a.skip(j), b.skip(j)),
    decreases j,
{
    if j == 0 {
        assert(a.skip(0) =~= a);
        assert(b.skip(0) =~= b);
    } else {
        assert(a[0] == a.take(j)[0]);
        assert(b[0] == b.take(j)[0]);
        assert(a[0] == b[0]);
        assert(a.skip(1).take(j - 1) == b.skip(1).take(j - 1)) by {
            assert(a.skip(1).take(j - 1) =~= b.skip(1).take(j - 1)) by {
                assert forall|i: int| 0 <= i < j - 1 implies
                    #[trigger] a.skip(1).take(j - 1)[i] == b.skip(1).take(j - 1)[i] by {
                    assert(a.skip(1).take(j - 1)[i] == a[i + 1]);
                    assert(b.skip(1).take(j - 1)[i] == b[i + 1]);
                    assert(a.take(j)[i + 1] == a[i + 1]);
                    assert(b.take(j)[i + 1] == b[i + 1]);
                    assert(a.take(j)[i + 1] == b.take(j)[i + 1]);
                }
            }
        }
        lemma_lex_skip_eq(a.skip(1), b.skip(1), j - 1);
        assert(a.skip(1).skip(j - 1) =~= a.skip(j));
        assert(b.skip(1).skip(j - 1) =~= b.skip(j));
    }
}

/// Hex encoding is injective: equal encodings come from equal bytes.
pub proof fn lemma_hex_of_injective(a: Seq<u8>, b: Seq<u8>)
    requires
        hex_of(a) == hex_of(b),
    ensures
        a == b,
{
    assert(hex_of(a).len() == 2 * a.len());
    assert(hex_of(b).len() == 2 * b.len());
    assert(a.len() == b.len());
    assert forall|i: int| 0 <= i < a.len() implies a[i] == b[i] by {
        assert(hex_of(a)[2 * i] == hex_digit_char(nibble_at(a, 2 * i)));
        assert(hex_of(a)[2 * i + 1] == hex_digit_char(nibble_at(a, 2 * i + 1)));
        assert(hex_of(b)[2 * i] == hex_digit_char(nibble_at(b, 2 * i)));
        assert(hex_of(b)[2 * i + 1] == hex_digit_char(nibble_at(b, 2 * i + 1)));
        assert(nibble_at(a, 2 * i) == a[i] / 16 && nibble_at(a, 2 * i + 1) == a[i] % 16);
        assert(nibble_at(b, 2 * i) == b[i] / 16 && nibble_at(b, 2 * i + 1) == b[i] % 16);
        assert(hex_digit_char(a[i] / 16) == hex_digit_char(b[i] / 16));
        assert(hex_digit_char(a[i] % 16) == hex_digit_char(b[i] % 16));
        lemma_hex_digit_char_value(a[i] / 16);
        lemma_hex_digit_char_value(a[i] % 16);
        lemma_hex_digit_char_value(b[i] / 16);
        lemma_hex_digit_char_value(b[i] % 16);
        assert(a[i] / 16 == b[i] / 16 && a[i] % 16 == b[i] % 16);
        assert(a[i] == (a[i] / 16) * 16 + a[i] % 16) by (nonlinear_arith);
        assert(b[i] == (b[i] / 16) * 16 + b[i] % 16) by (nonlinear_arith);
    }
    assert(a =~= b);
}

/// The value of a hex digit character, or `None` where `c` is none.
pub fn hex_value_of(c: char) -> (r: Option<u8>)
    ensures
        match r {
            Some(v) => is_hex_char(c) && v == hex_char_value(c) && v < 16,
            None => !is_hex_char(c),
        },
{
    let u = c as u32;
    if 48 <= u && u <= 57 {
        Some((u - 48) as u8)
    } else if 97 <= u && u <= 102 {
        Some((u - 87) as u8)
    } else {
        None
    }
}

} // verus!
