//! Text building for names, notes and error messages: characters are pushed
//! one by one and numbers are rendered in decimal or zero-padded hex, each
//! operation stated over the resulting character sequence.
use vstd::prelude::*;

verus! {

/// Appends one character (std `String::push`).
#[verifier::external_body]
pub(crate) fn push_char(s: &mut String, c: char)
    ensures
        final(s)@ == old(s)@.push(c),
{
    s.push(c)
}

/// The character of a hex digit `d < 16`, lowercase.
pub open spec fn digit_char(d: int) -> char {
    if d == 0 { '0' }
    else if d == 1 { '1' }
    else if d == 2 { '2' }
    else if d == 3 { '3' }
    else if d == 4 { '4' }
    else if d == 5 { '5' }
    else if d == 6 { '6' }
    else if d == 7 { '7' }
    else if d == 8 { '8' }
    else if d == 9 { '9' }
    else if d == 10 { 'a' }
    else if d == 11 { 'b' }
    else if d == 12 { 'c' }
    else if d == 13 { 'd' }
    else if d == 14 { 'e' }
    else { 'f' }
}

/// Decimal rendering of `n` (no sign, no leading zeros).
pub open spec fn dec_chars(n: nat) -> Seq<char>
    decreases n,
{
    if n < 10 {
        seq![digit_char(n as int)]
    } else {
        dec_chars(n / 10).push(digit_char((n % 10) as int))
    }
}

/// Lowercase hex rendering of `n` (no prefix, no leading zeros).
pub open spec fn hex_digits(n: nat) -> Seq<char>
    decreases n,
{
    if n < 16 {
        seq![digit_char(n as int)]
    } else {
        hex_digits(n / 16).push(digit_char((n % 16) as int))
    }
}

/// `count` copies of `'0'`.
pub open spec fn zeros(count: int) -> Seq<char> {
    Seq::new(if count > 0 { count as nat } else { 0 }, |i: int| '0')
}

/// `0x` followed by the lowercase hex digits of `n`, zero-padded to at least
/// `width` digits (the rendering of `{:#0w$x}` with `w = width + 2`).
pub open spec fn hex_chars(n: nat, width: nat) -> Seq<char> {
    seq!['0', 'x'] + zeros(width - hex_digits(n).len()) + hex_digits(n)
}

fn digit(d: u64) -> (c: char)
    requires
        d < 16,
    ensures
        c == digit_char(d as int),
{
    match d {
        0 => '0',
        1 => '1',
        2 => '2',
        3 => '3',
        4 => '4',
        5 => '5',
        6 => '6',
        7 => '7',
        8 => '8',
        9 => '9',
        10 => 'a',
        11 => 'b',
        12 => 'c',
        13 => 'd',
        14 => 'e',
        _ => 'f',
    }
}

/// Appends the decimal rendering of `n`.
pub fn push_dec(s: &mut String, n: u64)
    ensures
        final(s)@ == old(s)@ + dec_chars(n as nat),
    decreases n,
{
    if n >= 10 {
        push_dec(s, n / 10);
    }
    push_char(s, digit(n % 10));
    proof {
        assert(final(s)@ =~= old(s)@ + dec_chars(n as nat));
    }
}

/// Appends the lowercase hex digits of `n` (no prefix, no padding).
fn push_hex_digits(s: &mut String, n: u64)
    ensures
        final(s)@ == old(s)@ + hex_digits(n as nat),
    decreases n,
{
    if n >= 16 {
        push_hex_digits(s, n / 16);
    }
    push_char(s, digit(n % 16));
    proof {
        assert(final(s)@ =~= old(s)@ + hex_digits(n as nat));
    }
}

/// Number of hex digits of `n`.
fn hex_len(n: u64) -> (r: usize)
    ensures
        r as nat == hex_digits(n as nat).len(),
        r <= 16,
    decreases n,
{
    if n >= 16 {
        proof {
            reveal_with_fuel(pow16, 17);
            assert(pow16(16) == 0x1_0000_0000_0000_0000);
            lemma_hex_digits_len(n as nat, 16);
        }
        hex_len(n / 16) + 1
    } else {
        1
    }
}

spec fn pow16(k: nat) -> nat
    decreases k,
{
    if k == 0 { 1 } else { 16 * pow16((k - 1) as nat) }
}

proof fn lemma_hex_digits_len(n: nat, k: nat)
    requires
        k >= 1,
        n < pow16(k),
    ensures
        hex_digits(n).len() <= k,
    decreases n,
{
    if n >= 16 {
        assert(k >= 2) by {
            if k == 1 {
                assert(pow16(1) == 16) by { assert(pow16(0) == 1); }
            }
        }
        lemma_hex_digits_len(n / 16, (k - 1) as nat);
    }
}

/// The value of a lowercase hex or decimal digit character (`-1` for any
/// other character).
pub open spec fn digit_value(c: char) -> int {
    let x = c as u32 as int;
    if 48 <= x <= 57 {
        x - 48
    } else if 97 <= x <= 102 {
        x - 87
    } else {
        -1
    }
}

/// The number a digit string spells in base `base`, most significant digit
/// first.
pub open spec fn digits_value(s: Seq<char>, base: int) -> int
    decreases s.len(),
{
    if s.len() == 0 {
        0
    } else {
        digits_value(s.drop_last(), base) * base + digit_value(s.last())
    }
}

proof fn lemma_digit_char_value(d: int)
    requires
        0 <= d < 16,
    ensures
        digit_value(digit_char(d)) == d,
{
}

/// Leading `'0'`s add nothing to the value of a digit string.
proof fn lemma_zeros_value(z: int, h: Seq<char>, base: int)
    ensures
        digits_value(zeros(z) + h, base) == digits_value(h, base),
    decreases h.len(),
{
    if h.len() == 0 {
        lemma_zeros_only(if z > 0 { z as nat } else { 0 }, base);
        assert(zeros(z) + h =~= zeros(z));
    } else {
        assert((zeros(z) + h).drop_last() =~= zeros(z) + h.drop_last());
        lemma_zeros_value(z, h.drop_last(), base);
    }
}

proof fn lemma_zeros_only(n: nat, base: int)
    ensures
        digits_value(zeros(n as int), base) == 0,
    decreases n,
{
    if n > 0 {
        assert(zeros(n as int).drop_last() =~= zeros((n - 1) as int));
        lemma_zeros_only((n - 1) as nat, base);
    }
}

/// The decimal rendering of `n` reads back as `n`: it is a non-empty string
/// of decimal digits, most significant first, with no leading zero.
pub proof fn lemma_dec_chars_value(n: nat)
    ensures
        dec_chars(n).len() >= 1,
        digits_value(dec_chars(n), 10) == n,
        forall|i: int| 0 <= i < dec_chars(n).len() ==> 0 <= #[trigger] digit_value(dec_chars(n)[i]) <= 9,
        dec_chars(n).len() > 1 ==> dec_chars(n)[0] != '0',
        (dec_chars(n).len() == 1) == (n < 10),
    decreases n,
{
    if n < 10 {
        lemma_digit_char_value(n as int);
        assert(dec_chars(n).drop_last() =~= Seq::<char>::empty());
        assert(dec_chars(n).last() == digit_char(n as int));
        assert(digits_value(Seq::<char>::empty(), 10) == 0);
        assert(digits_value(dec_chars(n), 10) == digits_value(dec_chars(n).drop_last(), 10) * 10 + digit_value(dec_chars(n).last()));
    } else {
        let d = dec_chars(n / 10);
        lemma_dec_chars_value(n / 10);
        lemma_digit_char_value((n % 10) as int);
        assert(dec_chars(n).drop_last() =~= d);
        assert(dec_chars(n).last() == digit_char((n % 10) as int));
        assert(digits_value(dec_chars(n), 10) == digits_value(d, 10) * 10 + (n % 10) as int);
        assert((n / 10) * 10 + n % 10 == n);
        assert forall|i: int| 0 <= i < dec_chars(n).len() implies 0 <= #[trigger] digit_value(
            dec_chars(n)[i],
        ) <= 9 by {
            if i < d.len() {
                assert(dec_chars(n)[i] == d[i]);
            }
        }
        assert(dec_chars(n)[0] == d[0]);
        if d.len() == 1 {
            lemma_digit_char_value((n / 10) as int);
        }
    }
}

/// The hex digits of `n` read back as `n`, most significant first, with no
/// leading zero.
proof fn lemma_hex_digits_value(n: nat)
    ensures
        hex_digits(n).len() >= 1,
        digits_value(hex_digits(n), 16) == n,
        forall|i: int| 0 <= i < hex_digits(n).len() ==> 0 <= #[trigger] digit_value(hex_digits(n)[i]) <= 15,
        hex_digits(n).len() > 1 ==> hex_digits(n)[0] != '0',
        (hex_digits(n).len() == 1) == (n < 16),
    decreases n,
{
    if n < 16 {
        lemma_digit_char_value(n as int);
        assert(hex_digits(n).drop_last() =~= Seq::<char>::empty());
        assert(hex_digits(n).last() == digit_char(n as int));
        assert(digits_value(Seq::<char>::empty(), 16) == 0);
        assert(digits_value(hex_digits(n), 16) == digits_value(hex_digits(n).drop_last(), 16) * 16 + digit_value(hex_digits(n).last()));
    } else {
        let d = hex_digits(n / 16);
        lemma_hex_digits_value(n / 16);
        lemma_digit_char_value((n % 16) as int);
        assert(hex_digits(n).drop_last() =~= d);
        assert(hex_digits(n).last() == digit_char((n % 16) as int));
        assert(digits_value(hex_digits(n), 16) == digits_value(d, 16) * 16 + (n % 16) as int);
        assert((n / 16) * 16 + n % 16 == n);
        assert forall|i: int| 0 <= i < hex_digits(n).len() implies 0 <= #[trigger] digit_value(
            hex_digits(n)[i],
        ) <= 15 by {
            if i < d.len() {
                assert(hex_digits(n)[i] == d[i]);
            }
        }
        assert(hex_digits(n)[0] == d[0]);
        if d.len() == 1 {
            lemma_digit_char_value((n / 16) as int);
        }
    }
}

/// The padded hex rendering of `n` is `0x` followed by at least `width`
/// lowercase hex digits that read back as `n`, zero-padded only up to
/// `width` digits.
pub proof fn lemma_hex_chars_value(n: nat, width: nat)
    ensures
        hex_chars(n, width).len() >= width + 2,
        hex_chars(n, width)[0] == '0' && hex_chars(n, width)[1] == 'x',
        digits_value(hex_chars(n, width).skip(2), 16) == n,
        forall|i: int|
            2 <= i < hex_chars(n, width).len() ==> 0 <= #[trigger] digit_value(hex_chars(n, width)[i])
                <= 15,
        n > 0 && hex_chars(n, width).len() > width + 2 ==> hex_chars(n, width)[2] != '0',
{
    lemma_hex_digits_value(n);
    let h = hex_digits(n);
    let z = width - h.len();
    assert(hex_chars(n, width).skip(2) =~= zeros(z) + h);
    lemma_zeros_value(z, h, 16);
    let t = hex_chars(n, width);
    assert forall|i: int| 2 <= i < t.len() implies 0 <= #[trigger] digit_value(t[i]) <= 15 by {
        let zl = zeros(z).len() as int;
        if i - 2 < zl {
            assert(t[i] == '0');
        } else {
            assert(t[i] == h[i - 2 - zl]);
        }
    }
    if n > 0 && t.len() > width + 2 {
        assert(zeros(z).len() == 0);
        assert(t[2] == h[0]);
        if h.len() == 1 {
            lemma_digit_char_value(n as int);
        }
    }
}

/// Appends `0x` and the hex digits of `n`, zero-padded to `width` digits.
pub fn push_hex(s: &mut String, n: u64, width: usize)
    ensures
        final(s)@ == old(s)@ + hex_chars(n as nat, width as nat),
{
    let ghost start = s@;
    push_char(s, '0');
    push_char(s, 'x');
    let len = hex_len(n);
    let mut i = len;
    while i < width
        invariant
            len <= i,
            i <= width || i == len,
            len as nat == hex_digits(n as nat).len(),
            s@ == start + seq!['0', 'x'] + zeros(i - len),
        decreases width - i,
    {
        push_char(s, '0');
        i = i + 1;
        proof {
            assert(s@ =~= start + seq!['0', 'x'] + zeros(i - len));
        }
    }
    push_hex_digits(s, n);
    proof {
        assert(zeros(i - len) =~= zeros(width - hex_digits(n as nat).len()));
        assert(s@ =~= start + hex_chars(n as nat, width as nat));
    }
}

} // verus!

verus! {

/// Whether `v` is a Unicode scalar value: at most `0x10FFFF` and not a
/// surrogate.
pub open spec fn is_scalar_value(v: u32) -> bool {
    v <= 0x10FFFF && !(0xD800 <= v <= 0xDFFF)
}

/// `char::from_u32`: the character with code point `v` when `v` is a Unicode
/// scalar value, `None` otherwise.
#[verifier::external_body]
pub(crate) fn char_from_u32(v: u32) -> (r: Option<char>)
    ensures
        is_scalar_value(v) ==> r == Some(v as char),
        !is_scalar_value(v) ==> r is None,
{
    char::from_u32(v)
}

} // verus!

verus! {

/// What `format!("{:?}", s)` renders for the string `s`: the characters
/// quoted, with Rust's debug escapes.
pub uninterp spec fn debug_chars(s: Seq<char>) -> Seq<char>;

/// The `{:?}` rendering of `s` (std `Debug` for `str`).
#[verifier::external_body]
pub(crate) fn debug_string(s: &str) -> (r: String)
    ensures
        r@ == debug_chars(s@),
{
    format!("{:?}", s)
}

} // verus!
