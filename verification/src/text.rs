//! Text helpers: appending text, decimal and hexadecimal numbers, digit
//! parsing, and the string conversions of `std`.

use vstd::prelude::*;

verus! {

/// The characters of `s`, in order.
pub fn chars_of(s: &str) -> (r: Vec<char>)
    ensures
        r@ == s@,
{
    let mut r: Vec<char> = Vec::new();
    for c in it: s.chars()
        invariant
            r@ == it.seq().take(it.index() as int),
    {
        r.push(c);
    }
    r
}


/// Appends the characters of `s`.
pub fn push_str(out: &mut Vec<char>, s: &str)
    ensures
        final(out)@ == old(out)@ + s@,
{
    for c in it: s.chars()
        invariant
            out@ == old(out)@ + it.seq().take(it.index() as int),
    {
        out.push(c);
    }
}

/// Appends the characters of `s`.
pub fn push_chars(out: &mut Vec<char>, s: &Vec<char>)
    ensures
        final(out)@ == old(out)@ + s@,
{
    let mut i: usize = 0;
    while i < s.len()
        invariant
            i <= s@.len(),
            out@ == old(out)@ + s@.take(i as int),
        decreases s@.len() - i,
    {
        out.push(s[i]);
        i = i + 1;
        assert(s@.take(i as int) == s@.take(i - 1) + seq![s@[i - 1]]);
    }
    assert(s@.take(s@.len() as int) == s@);
}

/// `n` spaces.
pub open spec fn spaces(n: nat) -> Seq<char> {
    Seq::new(n, |i: int| ' ')
}

/// Appends `n` spaces.
pub fn push_spaces(out: &mut Vec<char>, n: usize)
    ensures
        final(out)@ == old(out)@ + spaces(n as nat),
{
    let mut i: usize = 0;
    while i < n
        invariant
            i <= n,
            out@ == old(out)@ + spaces(i as nat),
        decreases n - i,
    {
        out.push(' ');
        i = i + 1;
        assert(spaces(i as nat) == spaces((i - 1) as nat) + seq![' ']);
    }
}

/// The decimal digit for `d < 10`.
pub open spec fn digit_char(d: nat) -> char {
    (48 + d) as char
}

/// Decimal representation of `n`, without leading zeros ("0" for zero).
pub open spec fn decimal(n: nat) -> Seq<char>
    decreases n,
{
    if n < 10 {
        seq![digit_char(n)]
    } else {
        decimal(n / 10).push(digit_char(n % 10))
    }
}

/// Appends the decimal representation of `n`.
pub fn push_decimal(out: &mut Vec<char>, n: u64)
    ensures
        final(out)@ == old(out)@ + decimal(n as nat),
    decreases n,
{
    if n >= 10 {
        push_decimal(out, n / 10);
    }
    let d = (n % 10) as u8;
    out.push((48u8 + d) as char);
}

/// The upper-case hexadecimal digit for `d < 16`.
pub open spec fn hex_digit_char(d: nat) -> char {
    if d < 10 {
        (48 + d) as char
    } else {
        (55 + d) as char
    }
}

/// `0xHH`: a byte as two upper-case hexadecimal digits.
pub open spec fn hex_byte(b: u8) -> Seq<char> {
    seq!['0', 'x', hex_digit_char((b / 16) as nat), hex_digit_char((b % 16) as nat)]
}

/// Appends `0xHH` for the byte `b`.
pub fn push_hex_byte(out: &mut Vec<char>, b: u8)
    ensures
        final(out)@ == old(out)@ + hex_byte(b),
{
    out.push('0');
    out.push('x');
    let hi = b / 16;
    let lo = b % 16;
    out.push(
        if hi < 10 {
            (48u8 + hi) as char
        } else {
            (55u8 + hi) as char
        },
    );
    out.push(
        if lo < 10 {
            (48u8 + lo) as char
        } else {
            (55u8 + lo) as char
        },
    );
    assert(out@ == old(out)@ + hex_byte(b));
}

/// A `String` holding the given characters (`String::from_iter`).
#[verifier::external_body]
pub(crate) fn string_from_chars(v: &Vec<char>) -> (s: String)
    ensures
        s@ == v@,
{
    String::from_iter(v.iter())
}

/// The text holds ASCII characters only.
pub open spec fn is_ascii_text(s: Seq<char>) -> bool {
    forall|i: int| 0 <= i < s.len() ==> (#[trigger] s[i] as u32) < 128
}

/// Unicode lower case of a string, as `str::to_lowercase` computes it.
pub uninterp spec fn unicode_lowercase(s: Seq<char>) -> Seq<char>;

/// `str::to_lowercase`: the lower-case mapping of every character of `s`.
/// Its result is named `unicode_lowercase`; of ASCII text it is the ASCII
/// lower case (`A`-`Z` become `a`-`z`, every other character stays), as the
/// Unicode lower-case mapping of an ASCII letter is its ASCII lower case.
/// Of other text nothing more is stated.
#[verifier::external_body]
pub(crate) fn to_lowercase(s: &str) -> (r: String)
    ensures
        r@ == unicode_lowercase(s@),
        is_ascii_text(s@) ==> r@ == crate::importer::ascii_lower(s@),
{
    s.to_lowercase()
}


/// Value of a hexadecimal or decimal digit character (`0-9`, `a-f`, `A-F`).
pub open spec fn digit_value(c: u32) -> nat {
    if 48 <= c <= 57 {
        (c - 48) as nat
    } else if 97 <= c <= 102 {
        (c - 87) as nat
    } else if 65 <= c <= 70 {
        (c - 55) as nat
    } else {
        0
    }
}

/// ASCII decimal digit.
pub open spec fn is_dec_digit(c: u32) -> bool {
    48 <= c <= 57
}

/// ASCII hexadecimal digit.
pub open spec fn is_hex_digit(c: u32) -> bool {
    48 <= c <= 57 || 97 <= c <= 102 || 65 <= c <= 70
}

/// The number written by the digit characters `s` in base `base`.
pub open spec fn digits_value(s: Seq<u32>, base: nat) -> nat
    decreases s.len(),
{
    if s.len() == 0 {
        0
    } else {
        digits_value(s.drop_last(), base) * base + digit_value(s.last())
    }
}

/// Code points of a character sequence.
pub open spec fn code_points(s: Seq<char>) -> Seq<u32> {
    s.map_values(|c: char| c as u32)
}

/// Code points of a byte sequence.
pub open spec fn byte_points(s: Seq<u8>) -> Seq<u32> {
    s.map_values(|b: u8| b as u32)
}

/// Whether `s` is non-empty and all its characters are digits of the base
/// (decimal for 10, hexadecimal for 16).
pub open spec fn all_digits(s: Seq<u32>, base: nat) -> bool {
    s.len() > 0 && forall|i: int|
        0 <= i < s.len() ==> if base == 16 {
            is_hex_digit(#[trigger] s[i])
        } else {
            is_dec_digit(s[i])
        }
}

/// What `u64::from_str_radix(s, base)` gives (base 10 or 16): an optional
/// `+` sign, then one or more digits, the value fitting `u64`.
pub open spec fn parsed_u64(s: Seq<u32>, base: nat) -> Option<u64> {
    let d = if s.len() > 0 && s[0] == 43 {
        s.skip(1)
    } else {
        s
    };
    if all_digits(d, base) && digits_value(d, base) <= u64::MAX {
        Some(digits_value(d, base) as u64)
    } else {
        None
    }
}

/// A longer digit string is worth at least as much as its prefix.
pub proof fn lemma_digits_value_prefix(s: Seq<u32>, base: nat, i: int)
    requires
        0 <= i <= s.len(),
        base > 0,
    ensures
        digits_value(s.take(i), base) <= digits_value(s, base),
    decreases s.len(),
{
    if i < s.len() {
        lemma_digits_value_prefix(s.drop_last(), base, i);
        assert(s.drop_last().take(i) == s.take(i));
        let p = digits_value(s.drop_last(), base);
        assert(p <= p * base) by (nonlinear_arith)
            requires
                base > 0,
        ;
    } else {
        assert(s.take(i) == s);
    }
}

/// Parses digits in base 10 or 16 (with an optional leading `+`) into a
/// `u64`, as `u64::from_str_radix` does.
pub fn parse_u64_points(s: &Vec<u32>, base: u32) -> (r: Option<u64>)
    requires
        base == 10 || base == 16,
    ensures
        r == parsed_u64(s@, base as nat),
{
    let n = s.len();
    let mut i: usize = 0;
    if n > 0 && s[0] == 43 {
        i = 1;
    }
    let ghost d = if s@.len() > 0 && s@[0] == 43 {
        s@.skip(1)
    } else {
        s@
    };
    let ghost start = i as int;
    if i == n {
        return None;
    }
    let mut v: u64 = 0;
    while i < n
        invariant
            start <= i <= n == s@.len(),
            start == 0 || start == 1,
            d == s@.skip(start),
            d == (if s@.len() > 0 && s@[0] == 43 {
                s@.skip(1)
            } else {
                s@
            }),
            base == 10 || base == 16,
            v as nat == digits_value(d.take(i - start), base as nat),
            forall|j: int|
                0 <= j < i - start ==> if base == 16 {
                    is_hex_digit(#[trigger] d[j])
                } else {
                    is_dec_digit(d[j])
                },
        decreases n - i,
    {
        let c = s[i];
        let ok = if base == 16 {
            (48 <= c && c <= 57) || (97 <= c && c <= 102) || (65 <= c && c <= 70)
        } else {
            48 <= c && c <= 57
        };
        assert(d[i - start] == c);
        if !ok {
            assert(!all_digits(d, base as nat));
            return None;
        }
        let dv: u64 = if 48 <= c && c <= 57 {
            (c - 48) as u64
        } else if 97 <= c && c <= 102 {
            (c - 87) as u64
        } else {
            (c - 55) as u64
        };
        assert(d.take(i - start + 1).drop_last() == d.take(i - start));
        assert(d.take(i - start + 1).last() == c);
        assert(digit_value(c) == dv);
        assert(digits_value(d.take(i - start + 1), base as nat) == v * base + dv);
        if v > (u64::MAX - dv) / (base as u64) {
            proof {
                assert(v * base + dv > u64::MAX) by (nonlinear_arith)
                    requires
                        v > (u64::MAX - dv) / (base as int),
                        base > 0,
                        dv <= u64::MAX,
                ;
                lemma_digits_value_prefix(d, base as nat, i - start + 1);
            }
            return None;
        }
        proof {
            assert(v * base + dv <= u64::MAX) by (nonlinear_arith)
                requires
                    v <= (u64::MAX - dv) / (base as int),
                    base > 0,
                    dv <= u64::MAX,
            ;
        }
        v = v * (base as u64) + dv;
        i = i + 1;
    }
    assert(d.take(n - start) == d);
    Some(v)
}

/// Code points of the characters of `s`.
pub fn points_of(s: &str) -> (r: Vec<u32>)
    ensures
        r@ == code_points(s@),
{
    let mut r: Vec<u32> = Vec::new();
    for c in it: s.chars()
        invariant
            r@ == code_points(it.seq().take(it.index() as int)),
    {
        r.push(c as u32);
        assert(code_points(it.seq().take(it.index() as int + 1)) =~= code_points(it.seq().take(it.index() as int)).push(c as u32));
    }
    r
}

} // verus!
