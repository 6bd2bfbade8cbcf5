//! Characters, decimal digits, and conversions between strings and vectors of
//! characters.

use vstd::prelude::*;

verus! {

broadcast use vstd::string::group_string_axioms;

/// The character of the decimal digit `d`.
pub open spec fn digit_char(d: int) -> char {
    if d == 0 {
        '0'
    } else if d == 1 {
        '1'
    } else if d == 2 {
        '2'
    } else if d == 3 {
        '3'
    } else if d == 4 {
        '4'
    } else if d == 5 {
        '5'
    } else if d == 6 {
        '6'
    } else if d == 7 {
        '7'
    } else if d == 8 {
        '8'
    } else {
        '9'
    }
}

/// Whether `c` is one of the ten decimal digits.
pub open spec fn is_digit(c: char) -> bool {
    exists|d: int| 0 <= d < 10 && c == #[trigger] digit_char(d)
}

/// The decimal digits of `n`, most significant first, without leading zeros.
pub open spec fn decimal(n: nat) -> Seq<char>
    decreases n,
{
    if n < 10 {
        seq![digit_char(n as int)]
    } else {
        decimal(n / 10).push(digit_char((n % 10) as int))
    }
}

/// `count` zeros; none where `count` is not positive.
pub open spec fn zeros(count: int) -> Seq<char> {
    Seq::new(
        if count > 0 {
            count as nat
        } else {
            0
        },
        |i: int| '0',
    )
}

/// The decimal digits of `n`, with zeros in front until there are at least
/// `width` characters.
pub open spec fn zero_padded(n: nat, width: nat) -> Seq<char> {
    zeros(width - decimal(n).len()) + decimal(n)
}

/// The number that a sequence of decimal digits writes.
pub open spec fn decimal_value(digits: Seq<char>) -> nat
    decreases digits.len(),
{
    if digits.len() == 0 {
        0
    } else {
        decimal_value(digits.drop_last()) * 10 + digit_value(digits.last())
    }
}

/// The value of one digit character; 0 for any other character.
pub open spec fn digit_value(c: char) -> nat {
    if c == '1' {
        1
    } else if c == '2' {
        2
    } else if c == '3' {
        3
    } else if c == '4' {
        4
    } else if c == '5' {
        5
    } else if c == '6' {
        6
    } else if c == '7' {
        7
    } else if c == '8' {
        8
    } else if c == '9' {
        9
    } else {
        0
    }
}

/// The texts of a sequence of strings.
pub open spec fn texts(strings: Seq<String>) -> Seq<Seq<char>> {
    strings.map_values(|s: String| s@)
}

/// The text of a string that may be absent.
pub open spec fn optional_text(string: Option<String>) -> Option<Seq<char>> {
    match string {
        Some(text) => Some(text@),
        None => None,
    }
}

/// The characters of a string slice.
pub fn to_chars(s: &str) -> (chars: Vec<char>)
    ensures
        chars@ == s@,
{
    let mut chars: Vec<char> = Vec::new();
    for c in it: s.chars()
        invariant
            it.seq() == s@,
            chars@ == it.seq().take(it.index()),
    {
        chars.push(c);
    }
    chars
}

/// `String::push` of the standard library: the string grows by the one
/// character at its end.
#[verifier::external_body]
fn push_char(s: &mut String, c: char)
    ensures
        final(s)@ == old(s)@.push(c),
{
    s.push(c)
}

/// The string made of the given characters.
pub fn from_chars(chars: &Vec<char>) -> (s: String)
    ensures
        s@ == chars@,
{
    let mut s = String::new();
    let mut i: usize = 0;
    while i < chars.len()
        invariant
            i <= chars.len(),
            s@ == chars@.take(i as int),
        decreases chars.len() - i,
    {
        push_char(&mut s, chars[i]);
        i += 1;
    }
    s
}

/// Appends every character of `tail` to `out`.
pub fn extend(out: &mut Vec<char>, tail: &Vec<char>)
    ensures
        final(out)@ == old(out)@ + tail@,
{
    let mut i: usize = 0;
    while i < tail.len()
        invariant
            i <= tail.len(),
            out@ == old(out)@ + tail@.take(i as int),
        decreases tail.len() - i,
    {
        out.push(tail[i]);
        i += 1;
    }
}

/// Appends `v[from..to]` to `out`.
pub fn extend_range(out: &mut Vec<char>, v: &Vec<char>, from: usize, to: usize)
    requires
        from <= to <= v.len(),
    ensures
        final(out)@ == old(out)@ + v@.subrange(from as int, to as int),
{
    let mut i: usize = from;
    while i < to
        invariant
            from <= i <= to <= v.len(),
            out@ == old(out)@ + v@.subrange(from as int, i as int),
        decreases to - i,
    {
        out.push(v[i]);
        i += 1;
    }
}

/// Appends the characters of a string slice to `out`.
pub fn extend_str(out: &mut Vec<char>, tail: &str)
    ensures
        final(out)@ == old(out)@ + tail@,
{
    let chars = to_chars(tail);
    extend(out, &chars);
}

/// The character of a decimal digit.
pub fn digit(d: u8) -> (c: char)
    requires
        d < 10,
    ensures
        c == digit_char(d as int),
{
    (48u8 + d) as char
}

/// Appends `n` in decimal to `out`, zero-padded to at least `width` places.
pub fn push_zero_padded(out: &mut Vec<char>, n: u64, width: usize)
    ensures
        final(out)@ == old(out)@ + zero_padded(n as nat, width as nat),
{
    // The digits of `n`, least significant first.
    let mut reversed: Vec<char> = Vec::new();
    reversed.push(digit((n % 10) as u8));
    let mut rest: u64 = n / 10;
    while rest > 0
        invariant
            reversed@.len() >= 1,
            decimal(n as nat) =~= if rest == 0 {
                reversed@.reverse()
            } else {
                decimal(rest as nat) + reversed@.reverse()
            },
        decreases rest,
    {
        let ghost before = reversed@;
        reversed.push(digit((rest % 10) as u8));
        proof {
            let d = digit_char((rest % 10) as int);
            assert(reversed@.reverse() =~= seq![d] + before.reverse());
            if rest >= 10 {
                assert(decimal(rest as nat) =~= decimal((rest / 10) as nat).push(d));
            } else {
                assert(decimal(rest as nat) =~= seq![d]);
            }
        }
        rest = rest / 10;
    }
    let digits: usize = reversed.len();
    let mut pad: usize = 0;
    while pad + digits < width
        invariant
            digits == reversed@.len(),
            pad + digits <= width || pad == 0,
            out@ == old(out)@ + zeros(pad as int),
        decreases width - pad,
    {
        out.push('0');
        pad += 1;
    }
    assert(zeros(pad as int) =~= zeros(width - digits));
    let mut i: usize = digits;
    while i > 0
        invariant
            i <= digits,
            digits == reversed@.len(),
            out@ == old(out)@ + zeros(width - digits) + reversed@.reverse().take(digits - i),
        decreases i,
    {
        i -= 1;
        out.push(reversed[i]);
    }
    assert(reversed@.reverse().take(digits as int) =~= reversed@.reverse());
}

/// The decimal digits of a number are digits, and there is at least one.
pub proof fn lemma_decimal_digits(n: nat)
    ensures
        decimal(n).len() >= 1,
        forall|i: int| 0 <= i < decimal(n).len() ==> is_digit(#[trigger] decimal(n)[i]),
    decreases n,
{
    if n < 10 {
        assert(is_digit(digit_char(n as int)));
    } else {
        lemma_decimal_digits(n / 10);
        assert(is_digit(digit_char((n % 10) as int)));
    }
}

/// Reading the decimal digits of a number gives the number back.
pub proof fn lemma_decimal_value(n: nat)
    ensures
        decimal_value(decimal(n)) == n,
    decreases n,
{
    if n < 10 {
        let s = decimal(n);
        assert(s.drop_last() =~= Seq::<char>::empty());
        assert(decimal_value(s.drop_last()) == 0);
    } else {
        lemma_decimal_value(n / 10);
        let s = decimal(n);
        assert(s.drop_last() =~= decimal(n / 10));
        assert(s.last() == digit_char((n % 10) as int));
    }
}

/// Zeros in front do not change the number that is read.
pub proof fn lemma_leading_zeros(count: int, digits: Seq<char>)
    ensures
        decimal_value(zeros(count) + digits) == decimal_value(digits),
    decreases digits.len(), (if count > 0 { count } else { 0 }),
{
    let whole = zeros(count) + digits;
    if digits.len() > 0 {
        assert(whole.drop_last() =~= zeros(count) + digits.drop_last());
        assert(whole.last() == digits.last());
        lemma_leading_zeros(count, digits.drop_last());
    } else if count > 0 {
        assert(whole.drop_last() =~= zeros(count - 1) + digits);
        assert(whole.last() == '0');
        lemma_leading_zeros(count - 1, digits);
    } else {
        assert(whole =~= Seq::<char>::empty());
    }
}

/// A zero-padded number reads as the number, is made of digits, and is at
/// least as wide as asked.
pub proof fn lemma_zero_padded(n: nat, width: nat)
    ensures
        decimal_value(zero_padded(n, width)) == n,
        zero_padded(n, width).len() >= width,
        zero_padded(n, width).len() >= 1,
        zero_padded(n, width).len() == if decimal(n).len() >= width {
            decimal(n).len()
        } else {
            width
        },
        forall|i: int|
            0 <= i < zero_padded(n, width).len() ==> is_digit(#[trigger] zero_padded(n, width)[i]),
{
    lemma_decimal_digits(n);
    lemma_decimal_value(n);
    lemma_leading_zeros(width - decimal(n).len(), decimal(n));
    let padded = zero_padded(n, width);
    let lead = zeros(width - decimal(n).len());
    assert forall|i: int| 0 <= i < padded.len() implies is_digit(#[trigger] padded[i]) by {
        if i < lead.len() {
            assert(padded[i] == digit_char(0));
        } else {
            assert(padded[i] == decimal(n)[i - lead.len()]);
        }
    }
}

/// Two numbers padded to the same width are written alike only if they are
/// the same number.
pub proof fn lemma_zero_padded_injective(a: nat, b: nat, width: nat)
    requires
        zero_padded(a, width) == zero_padded(b, width),
    ensures
        a == b,
{
    lemma_zero_padded(a, width);
    lemma_zero_padded(b, width);
}

/// Numbers below one thousand padded to three places take exactly three
/// characters.
pub proof fn lemma_three_digits(n: nat)
    requires
        n < 1000,
    ensures
        zero_padded(n, 3).len() == 3,
{
    reveal_with_fuel(decimal, 3);
    lemma_zero_padded(n, 3);
}

} // verus!
