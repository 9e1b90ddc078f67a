//! Numbers as text: reading them, writing them, and recognising them.
use crate::chars;
use crate::text;
use vstd::prelude::*;

verus! {

pub open spec fn all_digits(s: Seq<char>) -> bool {
    forall|i: int| 0 <= i < s.len() ==> chars::is_digit(#[trigger] s[i])
}

pub open spec fn digit_value(c: char) -> int {
    c as int - '0' as int
}

pub open spec fn digit_char(d: int) -> char {
    ('0' as int + d) as char
}

/// The number that a run of decimal digits stands for.
pub open spec fn value_of(s: Seq<char>) -> int
    decreases s.len(),
{
    if s.len() == 0 {
        0
    } else {
        value_of(s.drop_last()) * 10 + digit_value(s.last())
    }
}

/// A number without its sign, where it has one.
pub open spec fn unsigned_part(s: Seq<char>, signs: Seq<char>) -> Seq<char> {
    if s.len() > 0 && signs.contains(s[0]) {
        s.skip(1)
    } else {
        s
    }
}

/// The unsigned 64-bit number that `s` spells in decimal: digits, with at most a plus sign before them.
pub open spec fn unsigned_of(s: Seq<char>) -> Option<u64> {
    let d = unsigned_part(s, seq!['+']);
    if d.len() > 0 && all_digits(d) && value_of(d) <= u64::MAX {
        Some(value_of(d) as u64)
    } else {
        None
    }
}

/// The signed 64-bit number that `s` spells in decimal: digits, with at most one sign before them.
pub open spec fn signed_of(s: Seq<char>) -> Option<i64> {
    let d = unsigned_part(s, seq!['+', '-']);
    let v = if s.len() > 0 && s[0] == '-' {
        -value_of(d)
    } else {
        value_of(d)
    };
    if d.len() > 0 && all_digits(d) && i64::MIN <= v <= i64::MAX {
        Some(v as i64)
    } else {
        None
    }
}

/// The decimal digits of `n`, with no leading zero.
pub open spec fn decimal(n: nat) -> Seq<char>
    decreases n,
{
    if n < 10 {
        seq![digit_char(n as int)]
    } else {
        decimal(n / 10).push(digit_char((n % 10) as int))
    }
}

pub open spec fn zeros(n: int) -> Seq<char> {
    Seq::new(if n > 0 { n as nat } else { 0 }, |i: int| '0')
}

pub open spec fn magnitude(n: int) -> nat {
    if n < 0 {
        (-n) as nat
    } else {
        n as nat
    }
}

pub open spec fn sign_of(n: int) -> Seq<char> {
    if n < 0 {
        seq!['-']
    } else {
        seq![]
    }
}

/// `n` in decimal, with a minus sign where it is negative.
pub open spec fn signed_decimal(n: int) -> Seq<char> {
    sign_of(n) + decimal(magnitude(n))
}

/// `n` in decimal, with zeros between sign and digits up to the given width.
pub open spec fn padded(n: int, width: int) -> Seq<char> {
    let d = decimal(magnitude(n));
    sign_of(n) + zeros(width - sign_of(n).len() - d.len()) + d
}

pub open spec fn lowered(c: char) -> char {
    if 'A' <= c && c <= 'Z' {
        (c as int + 32) as char
    } else {
        c
    }
}

pub open spec fn same_ignoring_case(s: Seq<char>, t: Seq<char>) -> bool {
    s.map_values(|c: char| lowered(c)) == t
}

/// An exponent: `e` or `E`, perhaps a sign, and digits.
pub open spec fn is_exponent(s: Seq<char>) -> bool {
    let d = unsigned_part(s.skip(1), seq!['+', '-']);
    s.len() > 0 && lowered(s[0]) == 'e' && d.len() > 0 && all_digits(d)
}

/// Digits with at most one full stop among or around them, and perhaps an exponent.
pub open spec fn is_plain_number(s: Seq<char>) -> bool {
    let whole = chars::span(s, chars::Class::Digit, true);
    let tail = s.skip(whole);
    let dotted = tail.len() > 0 && tail[0] == '.';
    let part = if dotted {
        chars::span(tail.skip(1), chars::Class::Digit, true)
    } else {
        0
    };
    let rest = if dotted {
        tail.skip(1).skip(part)
    } else {
        tail
    };
    whole + part > 0 && (rest.len() == 0 || is_exponent(rest))
}

/// The texts that stand for a floating-point number.
pub open spec fn is_real_number(s: Seq<char>) -> bool {
    let t = unsigned_part(s, seq!['+', '-']);
    ||| same_ignoring_case(t, seq!['i', 'n', 'f'])
    ||| same_ignoring_case(t, seq!['i', 'n', 'f', 'i', 'n', 'i', 't', 'y'])
    ||| same_ignoring_case(t, seq!['n', 'a', 'n'])
    ||| is_plain_number(t)
}

pub proof fn lemma_value_nonneg(s: Seq<char>)
    requires
        all_digits(s),
    ensures
        value_of(s) >= 0,
    decreases s.len(),
{
    if s.len() > 0 {
        assert(chars::is_digit(s[s.len() - 1]));
        assert(all_digits(s.drop_last())) by {
            assert forall|i: int| 0 <= i < s.drop_last().len() implies chars::is_digit(
                #[trigger] s.drop_last()[i],
            ) by {
                assert(chars::is_digit(s[i]));
            }
        }
        lemma_value_nonneg(s.drop_last());
    }
}

/// A prefix of a run of digits stands for no more than the whole run.
proof fn lemma_value_grows(s: Seq<char>, n: int)
    requires
        all_digits(s),
        0 <= n <= s.len(),
    ensures
        value_of(s.take(n)) <= value_of(s),
    decreases s.len(),
{
    if n == s.len() {
        assert(s.take(n) =~= s);
    } else {
        let t = s.drop_last();
        assert(all_digits(t)) by {
            assert forall|i: int| 0 <= i < t.len() implies chars::is_digit(#[trigger] t[i]) by {
                assert(chars::is_digit(s[i]));
            }
        }
        lemma_value_grows(t, n);
        assert(t.take(n) =~= s.take(n));
        assert(chars::is_digit(s[s.len() - 1]));
        lemma_value_nonneg(t);
    }
}

/// The decimal digits of a number stand for it.
pub proof fn lemma_decimal_value(n: nat)
    ensures
        all_digits(decimal(n)),
        decimal(n).len() > 0,
        value_of(decimal(n)) == n,
        n > 0 ==> decimal(n)[0] != '0',
    decreases n,
{
    reveal_with_fuel(value_of, 2);
    if n < 10 {
        assert(decimal(n).drop_last() =~= seq![]);
    } else {
        lemma_decimal_value(n / 10);
        assert(decimal(n).drop_last() =~= decimal(n / 10));
    }
}

/// Reading back the decimal form of a number gives the number.
pub proof fn law_unsigned_round_trip(n: u64)
    ensures
        unsigned_of(decimal(n as nat)) == Some(n),
{
    lemma_decimal_value(n as nat);
    let d = decimal(n as nat);
    assert(chars::is_digit(d[0]));
    assert(!seq!['+'].contains(d[0]));
}

/// Reading back the signed decimal form of a number gives the number.
pub proof fn law_signed_round_trip(n: i64)
    ensures
        signed_of(signed_decimal(n as int)) == Some(n),
{
    let d = decimal(magnitude(n as int));
    lemma_decimal_value(magnitude(n as int));
    let s = signed_decimal(n as int);
    assert(chars::is_digit(d[0]));
    if n < 0 {
        assert(s[0] == '-');
        assert(seq!['+', '-'][1] == '-');
        assert(s.skip(1) =~= d);
    } else {
        assert(s =~= d);
        assert(!seq!['+', '-'].contains(d[0]));
    }
}

/// A plus sign may stand before a number and a minus sign only before one that may be negative;
/// what holds anything but digits behind that is no number, and neither is nothing.
pub proof fn law_signs_and_digits(n: u64, s: Seq<char>, i: int)
    requires
        0 <= i < s.len(),
        !chars::is_digit(s[i]),
        i > 0 || (s[0] != '+' && s[0] != '-'),
    ensures
        unsigned_of(seq!['+'] + decimal(n as nat)) == Some(n),
        unsigned_of(seq!['-'] + decimal(n as nat)) is None,
        unsigned_of(seq![]) is None,
        signed_of(seq![]) is None,
        unsigned_of(seq!['+']) is None,
        signed_of(seq!['-']) is None,
        unsigned_of(s) is None,
        signed_of(s) is None,
{
    let d = decimal(n as nat);
    lemma_decimal_value(n as nat);
    let plus = seq!['+'] + d;
    let minus = seq!['-'] + d;
    assert(seq!['+'][0] == '+');
    assert(plus.skip(1) =~= d);
    assert(!seq!['+'].contains('-'));
    assert(minus[0] == '-');
    assert(!chars::is_digit(minus[0]));
    let none: Seq<char> = seq![];
    assert(seq!['+'].skip(1) =~= none);
    assert(seq!['-'].skip(1) =~= none);
    assert(seq!['+', '-'][1] == '-');
    assert(unsigned_part(s, seq!['+']) == s || unsigned_part(s, seq!['+']) == s.skip(1));
    assert(i > 0 ==> s.skip(1)[i - 1] == s[i]);
    if i == 0 {
        assert(!seq!['+'].contains(s[0]));
        assert(!seq!['+', '-'].contains(s[0]));
    }
}

/// A number too great to be held is none.
pub proof fn law_too_great_is_none(n: nat)
    requires
        n > u64::MAX,
    ensures
        unsigned_of(decimal(n)) is None,
        signed_of(decimal(n)) is None,
{
    let d = decimal(n);
    lemma_decimal_value(n);
    assert(chars::is_digit(d[0]));
    assert(!seq!['+'].contains(d[0]));
    assert(!seq!['+', '-'].contains(d[0]));
}

/// Leading zeros change nothing of a number, and one more digit is ten times the number and the
/// digit.
pub proof fn law_digits_have_places(s: Seq<char>, d: char)
    requires
        all_digits(s),
        chars::is_digit(d),
    ensures
        value_of(seq![]) == 0,
        value_of(s.push(d)) == 10 * value_of(s) + (d as int - 48),
        value_of(seq!['0'] + s) == value_of(s),
    decreases s.len(),
{
    assert(s.push(d).drop_last() =~= s);
    let z = seq!['0'] + s;
    if s.len() == 0 {
        assert(z.drop_last() =~= s);
    } else {
        let t = s.drop_last();
        assert forall|i: int| 0 <= i < t.len() implies chars::is_digit(#[trigger] t[i]) by {
            assert(chars::is_digit(s[i]));
        }
        law_digits_have_places(t, d);
        assert(z.drop_last() =~= seq!['0'] + t);
    }
}

/// A padded number has the width asked for, or is the number itself where that is as long, and
/// reads back as the number.
pub proof fn law_padding_keeps_the_number(n: i64, width: int)
    ensures
        signed_of(padded(n as int, width)) == Some(n),
        padded(n as int, width).len() == if signed_decimal(n as int).len() >= width {
            signed_decimal(n as int).len() as int
        } else {
            width
        },
{
    let d = decimal(magnitude(n as int));
    lemma_decimal_value(magnitude(n as int));
    let k = width - sign_of(n as int).len() - d.len();
    let z = zeros(k);
    let p = padded(n as int, width);
    lemma_zeros(z.len() as int, d);
    let body = z + d;
    if k > 0 {
        assert(z =~= zeros(z.len() as int));
    } else {
        assert(z =~= zeros(0));
    }
    assert(seq!['+', '-'][1] == '-');
    if n < 0 {
        assert(p =~= seq!['-'] + body);
        assert(p.skip(1) =~= body);
    } else {
        assert(p =~= body);
        assert(chars::is_digit(p[0]));
        assert(!seq!['+', '-'].contains(p[0]));
    }
}

proof fn lemma_zeros(k: int, d: Seq<char>)
    requires
        k >= 0,
        all_digits(d),
    ensures
        all_digits(zeros(k) + d),
        value_of(zeros(k) + d) == value_of(d),
    decreases k,
{
    if k == 0 {
        assert(zeros(0) + d =~= d);
    } else {
        lemma_zeros(k - 1, d);
        assert(zeros(k) + d =~= seq!['0'] + (zeros(k - 1) + d));
        law_digits_have_places(zeros(k - 1) + d, '0');
        assert forall|i: int| 0 <= i < (zeros(k) + d).len() implies chars::is_digit(#[trigger] (zeros(k) + d)[i]) by {
            if i > 0 {
                assert((zeros(k) + d)[i] == (zeros(k - 1) + d)[i - 1]);
            }
        }
    }
}

proof fn lemma_plain_number(whole: Seq<char>, tail: Seq<char>)
    requires
        all_digits(whole),
        tail.len() > 0 ==> !chars::is_digit(tail[0]),
    ensures
        chars::span(whole + tail, chars::Class::Digit, true) == whole.len(),
        (whole + tail).skip(whole.len() as int) == tail,
{
    let s = whole + tail;
    chars::lemma_span_is(s, chars::Class::Digit, true, whole.len() as int);
    assert(s.skip(whole.len() as int) =~= tail);
}

/// Digits with or without a full stop and further digits are a number, where there is at least
/// one digit; a sign may stand before it and an exponent behind it.
pub proof fn law_decimals_are_numbers(whole: Seq<char>, part: Seq<char>, power: Seq<char>, sign: char)
    requires
        all_digits(whole),
        all_digits(part),
        all_digits(power),
        power.len() > 0,
        sign == '+' || sign == '-',
    ensures
        whole.len() > 0 ==> is_real_number(whole),
        whole.len() > 0 ==> is_real_number(whole + seq!['e', sign] + power),
        is_real_number(whole + seq!['.'] + part) == (whole.len() + part.len() > 0),
        whole.len() + part.len() > 0 ==> is_real_number(seq![sign] + (whole + seq!['.'] + part)),
{
    let none: Seq<char> = seq![];
    let signs = seq!['+', '-'];
    assert(signs[0] == '+' && signs[1] == '-');
    lemma_plain_number(whole, none);
    assert(whole + none =~= whole);
    let e = seq!['e', sign] + power;
    lemma_plain_number(whole, e);
    assert(whole + e =~= whole + seq!['e', sign] + power);
    assert(e.skip(1) =~= seq![sign] + power);
    assert((seq![sign] + power).skip(1) =~= power);
    assert(is_exponent(e));
    let dotted = seq!['.'] + part;
    lemma_plain_number(whole, dotted);
    assert(whole + dotted =~= whole + seq!['.'] + part);
    assert(dotted.skip(1) =~= part);
    lemma_plain_number(part, none);
    assert(part + none =~= part);
    let t = whole + seq!['.'] + part;
    let u = seq![sign] + t;
    assert(u.skip(1) =~= t);
    let w = whole + seq!['e', sign] + power;
    if whole.len() > 0 {
        assert(chars::is_digit(whole[0]));
        assert(!signs.contains(whole[0]));
        assert(t[0] == whole[0]);
        assert(w[0] == whole[0]);
    } else {
        assert(t[0] == '.');
    }
    assert(!signs.contains(t[0]));
    if whole.len() + part.len() == 0 {
        assert(t.len() == 1);
        assert(t.map_values(|c: char| lowered(c)).len() == 1);
    }
}

/// A character that belongs to no number keeps a text from being one, and so does its being
/// empty.
pub proof fn law_odd_character_is_no_number(s: Seq<char>, i: int)
    requires
        0 <= i < s.len(),
        !chars::is_digit(s[i]),
        s[i] != '+' && s[i] != '-' && s[i] != '.',
        !('a' <= s[i] && s[i] <= 'z') && !('A' <= s[i] && s[i] <= 'Z'),
    ensures
        !is_real_number(s),
        !is_real_number(seq![]),
{
    let signs = seq!['+', '-'];
    assert(signs[0] == '+' && signs[1] == '-');
    let t = unsigned_part(s, signs);
    let k = if t == s {
        i
    } else {
        i - 1
    };
    if i == 0 {
        assert(!signs.contains(s[0]));
    }
    assert(t[k] == s[i]);
    let low = t.map_values(|c: char| lowered(c));
    assert(low[k] == s[i]);
    assert(low.len() == t.len());
    if low == seq!['i', 'n', 'f'] {
        assert(low.len() == 3);
        assert(k == 0 || k == 1 || k == 2);
    } else if low == seq!['n', 'a', 'n'] {
        assert(low.len() == 3);
        assert(k == 0 || k == 1 || k == 2);
    } else if low == seq!['i', 'n', 'f', 'i', 'n', 'i', 't', 'y'] {
        assert(low.len() == 8);
        assert(k == 0 || k == 1 || k == 2 || k == 3 || k == 4 || k == 5 || k == 6 || k == 7);
    }
    lemma_odd_in_plain(t, k);
    let none: Seq<char> = seq![];
    assert(none.map_values(|c: char| lowered(c)).len() == 0);
}

proof fn lemma_odd_in_plain(t: Seq<char>, k: int)
    requires
        0 <= k < t.len(),
        !chars::is_digit(t[k]),
        t[k] != '+' && t[k] != '-' && t[k] != '.' && t[k] != 'e' && t[k] != 'E',
    ensures
        !is_plain_number(t),
{
    let whole = chars::span(t, chars::Class::Digit, true);
    chars::lemma_span(t, chars::Class::Digit, true);
    let tail = t.skip(whole);
    if k < whole {
        assert(chars::in_class(chars::Class::Digit, t[k]));
    }
    assert(tail[k - whole] == t[k]);
    let dotted = tail.len() > 0 && tail[0] == '.';
    if dotted {
        let more = tail.skip(1);
        let part = chars::span(more, chars::Class::Digit, true);
        chars::lemma_span(more, chars::Class::Digit, true);
        let j = k - whole - 1;
        assert(more[j] == t[k]);
        if j < part {
            assert(chars::in_class(chars::Class::Digit, more[j]));
        }
        lemma_odd_in_exponent(more.skip(part), j - part);
    } else {
        lemma_odd_in_exponent(tail, k - whole);
    }
}

proof fn lemma_odd_in_exponent(s: Seq<char>, k: int)
    requires
        0 <= k < s.len(),
        !chars::is_digit(s[k]),
        s[k] != '+' && s[k] != '-' && s[k] != '.' && s[k] != 'e' && s[k] != 'E',
    ensures
        !is_exponent(s),
{
    let signs = seq!['+', '-'];
    assert(signs[0] == '+' && signs[1] == '-');
    let more = s.skip(1);
    let d = unsigned_part(more, signs);
    if k > 0 {
        assert(more[k - 1] == s[k]);
        if d == more {
            assert(d[k - 1] == s[k]);
        } else {
            if k == 1 {
                assert(!signs.contains(more[0]));
            }
            assert(d[k - 2] == s[k]);
        }
    }
}

/// The number that a run of digits stands for, where it fits.
fn read_digits(s: &[char]) -> (r: Option<u64>)
    ensures
        r matches Some(v) ==> s@.len() > 0 && all_digits(s@) && value_of(s@) == v,
        r is None ==> !(s@.len() > 0 && all_digits(s@) && value_of(s@) <= u64::MAX),
{
    if s.len() == 0 {
        return None;
    }
    let mut v: u64 = 0;
    let mut i: usize = 0;
    while i < s.len()
        invariant
            i <= s@.len(),
            all_digits(s@.take(i as int)),
            v == value_of(s@.take(i as int)),
        decreases s.len() - i,
    {
        let c: char = s[i];
        if !('0' <= c && c <= '9') {
            assert(!chars::is_digit(s@[i as int]));
            return None;
        }
        let d: u64 = (c as u32 - '0' as u32) as u64;
        assert(s@.take(i + 1).drop_last() =~= s@.take(i as int));
        assert(value_of(s@.take(i + 1)) == v * 10 + d);
        if v > (u64::MAX - d) / 10 {
            proof {
                if all_digits(s@) {
                    lemma_value_grows(s@, i + 1);
                }
            }
            return None;
        }
        v = v * 10 + d;
        i += 1;
        assert(all_digits(s@.take(i as int))) by {
            assert forall|j: int| 0 <= j < i implies chars::is_digit(#[trigger] s@.take(i as int)[j]) by {
                if j < i - 1 {
                    assert(chars::is_digit(s@.take(i - 1)[j]));
                }
            }
        }
    }
    assert(s@.take(i as int) =~= s@);
    Some(v)
}

/// The text without a sign at its front, and whether that sign was a minus.
fn strip_sign(s: &[char], minus: bool) -> (r: (&[char], bool))
    ensures
        minus ==> r.0@ == unsigned_part(s@, seq!['+', '-']),
        !minus ==> r.0@ == unsigned_part(s@, seq!['+']),
        r.1 == (minus && s@.len() > 0 && s@[0] == '-'),
{
    proof {
        assert(seq!['+', '-'][0] == '+' && seq!['+', '-'][1] == '-');
        assert(seq!['+'][0] == '+');
    }
    if s.len() > 0 && s[0] == '+' {
        (text::past(s, 1), false)
    } else if minus && s.len() > 0 && s[0] == '-' {
        (text::past(s, 1), true)
    } else {
        (s, false)
    }
}

/// The unsigned number that the text spells.
pub fn parse_unsigned(s: &[char]) -> (r: Option<u64>)
    ensures
        r == unsigned_of(s@),
{
    read_digits(strip_sign(s, false).0)
}

/// The signed number that the text spells.
pub fn parse_signed(s: &[char]) -> (r: Option<i64>)
    ensures
        r == signed_of(s@),
{
    let (d, negative): (&[char], bool) = strip_sign(s, true);
    proof {
        if all_digits(d@) {
            lemma_value_nonneg(d@);
        }
    }
    match read_digits(d) {
        None => None,
        Some(v) => {
            if negative {
                if v <= 9223372036854775807 {
                    Some(-(v as i64))
                } else if v == 9223372036854775808 {
                    Some(i64::MIN)
                } else {
                    None
                }
            } else if v <= 9223372036854775807 {
                Some(v as i64)
            } else {
                None
            }
        },
    }
}

fn digit(d: u64) -> (r: char)
    requires
        d < 10,
    ensures
        r == digit_char(d as int),
{
    (48u8 + d as u8) as char
}

/// Appends the decimal digits of `n`.
pub fn put_decimal(out: &mut Vec<char>, n: u64)
    ensures
        final(out)@ == old(out)@ + decimal(n as nat),
    decreases n,
{
    if n >= 10 {
        put_decimal(out, n / 10);
    }
    out.push(digit(n % 10));
    assert(out@ =~= old(out)@ + decimal(n as nat));
}

/// The magnitude of a signed number.
fn magnitude_of(n: i64) -> (r: u64)
    ensures
        r == magnitude(n as int),
{
    if n < 0 {
        (-(n + 1)) as u64 + 1
    } else {
        n as u64
    }
}

/// Appends `n` in decimal, with its sign.
pub fn put_signed(out: &mut Vec<char>, n: i64)
    ensures
        final(out)@ == old(out)@ + signed_decimal(n as int),
{
    if n < 0 {
        out.push('-');
    }
    put_decimal(out, magnitude_of(n));
    assert(out@ =~= old(out)@ + signed_decimal(n as int));
}

/// Appends `n` in decimal, with zeros up to the given width.
pub fn put_padded(out: &mut Vec<char>, n: i64, width: usize)
    ensures
        final(out)@ == old(out)@ + padded(n as int, width as int),
{
    let mut body: Vec<char> = Vec::new();
    put_decimal(&mut body, magnitude_of(n));
    let mut used: usize = 0;
    if n < 0 {
        out.push('-');
        used = 1;
    }
    let ghost start = out@;
    let mut i: usize = 0;
    while used < width && body.len() < width - used && i < width - used - body.len()
        invariant
            used == sign_of(n as int).len(),
            i == 0 || (used < width && body@.len() < width - used && i <= width - used - body@.len()),
            out@ == start + zeros(i as int),
        decreases width - i,
    {
        out.push('0');
        i += 1;
        assert(zeros(i as int) =~= zeros(i - 1).push('0'));
    }
    assert(zeros(i as int) =~= zeros(width as int - used - body@.len()));
    text::put(out, body.as_slice());
    assert(body@ =~= decimal(magnitude(n as int)));
    assert(out@ =~= old(out)@ + padded(n as int, width as int));
}

pub fn signed_string(n: i64) -> (r: String)
    ensures
        r@ == signed_decimal(n as int),
{
    let mut out: Vec<char> = Vec::new();
    put_signed(&mut out, n);
    assert(out@ =~= signed_decimal(n as int));
    text::string_of(out.as_slice())
}

fn lower(c: char) -> (r: char)
    ensures
        r == lowered(c),
{
    if 'A' <= c && c <= 'Z' {
        (c as u8 + 32) as char
    } else {
        c
    }
}

fn equals_ignoring_case(s: &[char], t: &[char]) -> (r: bool)
    ensures
        r == same_ignoring_case(s@, t@),
{
    let mut low: Vec<char> = Vec::new();
    let mut i: usize = 0;
    while i < s.len()
        invariant
            i <= s@.len(),
            low@ == s@.take(i as int).map_values(|c: char| lowered(c)),
        decreases s.len() - i,
    {
        low.push(lower(s[i]));
        i += 1;
        assert(low@ =~= s@.take(i as int).map_values(|c: char| lowered(c)));
    }
    assert(s@.take(i as int) =~= s@);
    text::same(low.as_slice(), t)
}

fn digits_only(s: &[char]) -> (r: bool)
    ensures
        r == (s@.len() > 0 && all_digits(s@)),
{
    let n: usize = text::measure(s, chars::Class::Digit, true);
    proof {
        chars::lemma_span(s@, chars::Class::Digit, true);
        if n < s@.len() {
            assert(!chars::is_digit(s@[n as int]));
        } else {
            assert forall|i: int| 0 <= i < s@.len() implies chars::is_digit(#[trigger] s@[i]) by {
                assert(chars::in_class(chars::Class::Digit, s@[i]) == true);
            }
        }
    }
    s.len() > 0 && n == s.len()
}

fn exponent(s: &[char]) -> (r: bool)
    ensures
        r == is_exponent(s@),
{
    s.len() > 0 && lower(s[0]) == 'e' && digits_only(strip_sign(text::past(s, 1), true).0)
}

fn plain_number(s: &[char]) -> (r: bool)
    ensures
        r == is_plain_number(s@),
{
    let whole: usize = text::measure(s, chars::Class::Digit, true);
    let tail: &[char] = text::past(s, whole);
    if tail.len() > 0 && tail[0] == '.' {
        let after: &[char] = text::past(tail, 1);
        let part: usize = text::measure(after, chars::Class::Digit, true);
        let rest: &[char] = text::past(after, part);
        (whole > 0 || part > 0) && (rest.len() == 0 || exponent(rest))
    } else {
        whole > 0 && (tail.len() == 0 || exponent(tail))
    }
}

/// Whether the text stands for a floating-point number.
pub fn real_number(s: &[char]) -> (r: bool)
    ensures
        r == is_real_number(s@),
{
    let t: &[char] = strip_sign(s, true).0;
    let inf: Vec<char> = vec!['i', 'n', 'f'];
    let infinity: Vec<char> = vec!['i', 'n', 'f', 'i', 'n', 'i', 't', 'y'];
    let nan: Vec<char> = vec!['n', 'a', 'n'];
    assert(inf@ =~= seq!['i', 'n', 'f']);
    assert(infinity@ =~= seq!['i', 'n', 'f', 'i', 'n', 'i', 't', 'y']);
    assert(nan@ =~= seq!['n', 'a', 'n']);
    equals_ignoring_case(t, inf.as_slice()) || equals_ignoring_case(t, infinity.as_slice()) || equals_ignoring_case(
        t,
        nan.as_slice(),
    ) || plain_number(t)
}

} // verus!
