//! Character-level text building blocks: repeated glyphs, hexadecimal and
//! decimal digits, padding and truncation to an exact width.

use vstd::prelude::*;

verus! {

/// `n` copies of `c`.
pub open spec fn repeat_char(c: char, n: nat) -> Seq<char> {
    Seq::new(n, |_i: int| c)
}

pub open spec fn spaces(n: nat) -> Seq<char> {
    repeat_char(' ', n)
}

/// Lower-case hexadecimal digit of `d`, where `d < 16`.
pub open spec fn hex_char(d: nat) -> char {
    if d < 10 {
        (48 + d) as char
    } else {
        (87 + d) as char
    }
}

/// Lower-case hexadecimal notation of `v`, without leading zeros.
pub open spec fn hex_digits(v: nat) -> Seq<char>
    decreases v,
{
    if v < 16 {
        seq![hex_char(v)]
    } else {
        hex_digits(v / 16).push(hex_char(v % 16))
    }
}

/// Decimal notation of `v`, without leading zeros.
pub open spec fn dec_digits(v: nat) -> Seq<char>
    decreases v,
{
    if v < 10 {
        seq![(48 + v) as char]
    } else {
        dec_digits(v / 10).push((48 + v % 10) as char)
    }
}

/// `t` cut or padded on the right with spaces to exactly `n` characters.
pub open spec fn fit_left(t: Seq<char>, n: nat) -> Seq<char> {
    if t.len() >= n {
        t.take(n as int)
    } else {
        t + spaces((n - t.len()) as nat)
    }
}

/// `t` cut to its last `n` characters or padded on the left with spaces to
/// exactly `n` characters.
pub open spec fn fit_right(t: Seq<char>, n: nat) -> Seq<char> {
    if t.len() >= n {
        t.take(n as int)
    } else {
        spaces((n - t.len()) as nat) + t
    }
}

/// `c` centred in a field of `n >= 1` characters; the odd space goes right.
pub open spec fn centered(c: char, n: nat) -> Seq<char> {
    spaces(((n - 1) / 2) as nat) + seq![c] + spaces((n - 1 - (n - 1) / 2) as nat)
}

/// Relies on `String::push`: appends one character.
#[verifier::external_body]
pub(crate) fn push_char(s: &mut String, c: char)
    ensures
        final(s)@ == old(s)@.push(c),
{
    s.push(c)
}

/// Appends `n` copies of `c` to `s`.
pub fn push_repeat(s: &mut String, c: char, n: usize)
    ensures
        final(s)@ == old(s)@ + repeat_char(c, n as nat),
{
    let mut i: usize = 0;
    while i < n
        invariant
            i <= n,
            s@ == old(s)@ + repeat_char(c, i as nat),
        decreases n - i,
    {
        push_char(s, c);
        i += 1;
        assert(s@ =~= old(s)@ + repeat_char(c, i as nat));
    }
}

/// A string of `n` copies of `c`.
pub fn repeat(c: char, n: usize) -> (r: String)
    ensures
        r@ == repeat_char(c, n as nat),
{
    let mut s = String::new();
    push_repeat(&mut s, c, n);
    assert(s@ =~= repeat_char(c, n as nat));
    s
}

fn digit_char(d: u8) -> (c: char)
    requires
        d < 16,
    ensures
        c == hex_char(d as nat),
{
    if d < 10 {
        ((48u8 + d) as char)
    } else {
        ((87u8 + d) as char)
    }
}

/// Appends the hexadecimal digits of `v` to `out`.
fn push_hex_digits(out: &mut Vec<char>, v: u128)
    ensures
        final(out)@ == old(out)@ + hex_digits(v as nat),
    decreases v,
{
    if v >= 16 {
        push_hex_digits(out, v / 16);
    }
    out.push(digit_char((v % 16) as u8));
    assert(final(out)@ =~= old(out)@ + hex_digits(v as nat));
}

/// Appends the decimal digits of `v` to `out`.
fn push_dec_digits(out: &mut Vec<char>, v: u64)
    ensures
        final(out)@ == old(out)@ + dec_digits(v as nat),
    decreases v,
{
    if v >= 10 {
        push_dec_digits(out, v / 10);
    }
    out.push(((48u8 + (v % 10) as u8) as char));
    assert(final(out)@ =~= old(out)@ + dec_digits(v as nat));
}

/// Appends the characters of `t` to `s`, cut or space-padded on the right
/// to exactly `n` characters.
fn push_fit_left(s: &mut String, t: &Vec<char>, n: usize)
    ensures
        final(s)@ == old(s)@ + fit_left(t@, n as nat),
{
    let k: usize = if t.len() < n { t.len() } else { n };
    let mut i: usize = 0;
    while i < k
        invariant
            i <= k,
            k <= t@.len(),
            k <= n,
            s@ == old(s)@ + t@.take(i as int),
        decreases k - i,
    {
        push_char(s, t[i]);
        i += 1;
        assert(s@ =~= old(s)@ + t@.take(i as int));
    }
    push_repeat(s, ' ', n - k);
    assert(s@ =~= old(s)@ + fit_left(t@, n as nat));
}

/// `v` in lower-case hexadecimal, cut or space-padded to `n` characters.
pub fn hex_field(v: u128, n: usize) -> (r: String)
    ensures
        r@ == fit_left(hex_digits(v as nat), n as nat),
{
    let mut digits: Vec<char> = Vec::new();
    push_hex_digits(&mut digits, v);
    assert(digits@ =~= hex_digits(v as nat));
    let mut s = String::new();
    push_fit_left(&mut s, &digits, n);
    assert(s@ =~= fit_left(hex_digits(v as nat), n as nat));
    s
}

/// `v` in decimal, right-aligned in (or cut to) `n` characters.
pub fn dec_field(v: u64, n: usize) -> (r: String)
    ensures
        r@ == fit_right(dec_digits(v as nat), n as nat),
{
    let mut digits: Vec<char> = Vec::new();
    push_dec_digits(&mut digits, v);
    assert(digits@ =~= dec_digits(v as nat));
    let mut s = String::new();
    if digits.len() < n {
        push_repeat(&mut s, ' ', n - digits.len());
        let mut i: usize = 0;
        while i < digits.len()
            invariant
                i <= digits@.len(),
                digits@.len() < n,
                s@ == spaces((n - digits@.len()) as nat) + digits@.take(i as int),
            decreases digits@.len() - i,
        {
            push_char(&mut s, digits[i]);
            i += 1;
            assert(s@ =~= spaces((n - digits@.len()) as nat) + digits@.take(i as int));
        }
        assert(digits@.take(digits@.len() as int) =~= digits@);
    } else {
        let mut i: usize = 0;
        while i < n
            invariant
                i <= n,
                n <= digits@.len(),
                s@ == digits@.take(i as int),
            decreases n - i,
        {
            push_char(&mut s, digits[i]);
            i += 1;
            assert(s@ =~= digits@.take(i as int));
        }
    }
    s
}

/// `c` centred in a field of `n` characters.
pub fn centered_char(c: char, n: usize) -> (r: String)
    requires
        n >= 1,
    ensures
        r@ == centered(c, n as nat),
{
    let left = (n - 1) / 2;
    let mut s = String::new();
    push_repeat(&mut s, ' ', left);
    push_char(&mut s, c);
    push_repeat(&mut s, ' ', n - 1 - left);
    assert(s@ =~= centered(c, n as nat));
    s
}

} // verus!
