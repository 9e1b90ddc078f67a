//! Durations and absent values as they are shown.
use crate::chars;
use crate::numbers;
use crate::text;
use vstd::prelude::*;

verus! {

/// What is shown in place of a value that is not known.
pub const UNKNOWN: &'static str = "—";

pub open spec fn or_unknown(s: Option<Seq<char>>) -> Seq<char> {
    match s {
        Some(t) => t,
        None => UNKNOWN@,
    }
}

/// The text, or the sign for an unknown one.
pub fn shown(s: &Option<String>) -> (r: String)
    ensures
        r@ == or_unknown(chars::opt_text(*s)),
{
    match s {
        Some(t) => t.clone(),
        None => UNKNOWN.to_string(),
    }
}

/// A text, or the sign for an unknown one where it is empty.
pub open spec fn unless_empty(s: Seq<char>) -> Seq<char> {
    if s.len() == 0 {
        UNKNOWN@
    } else {
        s
    }
}

pub fn shown_unless_empty(s: &String) -> (r: String)
    ensures
        r@ == unless_empty(s@),
{
    if s.as_str().is_empty() {
        UNKNOWN.to_string()
    } else {
        s.clone()
    }
}

/// A rate in megabits as it is shown.
pub open spec fn mbits(n: Option<i64>) -> Seq<char> {
    match n {
        Some(n) => numbers::signed_decimal(n as int) + " Mbit/s"@,
        None => UNKNOWN@,
    }
}

pub fn shown_mbits(n: Option<i64>) -> (r: String)
    ensures
        r@ == mbits(n),
{
    match n {
        Some(n) => {
            let mut out: Vec<char> = Vec::new();
            numbers::put_signed(&mut out, n);
            text::put_str(&mut out, " Mbit/s");
            assert(out@ =~= mbits(Some(n)));
            text::string_of(out.as_slice())
        },
        None => UNKNOWN.to_string(),
    }
}

/// The units of a duration from the greatest to the least: how many of each, and its letter.
pub open spec fn duration_units(seconds: int) -> Seq<(int, char)> {
    seq![
        (seconds / 86400, 'd'),
        (seconds % 86400 / 3600, 'h'),
        (seconds % 3600 / 60, 'm'),
        (seconds % 60, 's'),
    ]
}

/// The units of which there are any, in the same order.
pub open spec fn non_zero(units: Seq<(int, char)>) -> Seq<(int, char)>
    decreases units.len(),
{
    if units.len() == 0 {
        seq![]
    } else if units.last().0 > 0 {
        non_zero(units.drop_last()).push(units.last())
    } else {
        non_zero(units.drop_last())
    }
}

/// The first two of some units: the second has two digits.
pub open spec fn two_units(units: Seq<(int, char)>) -> Seq<char> {
    if units.len() == 0 {
        seq![]
    } else if units.len() == 1 {
        numbers::decimal(units[0].0 as nat) + seq![units[0].1]
    } else {
        numbers::decimal(units[0].0 as nat) + seq![units[0].1, ' '] + numbers::padded(units[1].0, 2) + seq![units[1].1]
    }
}

/// A number of seconds in its two greatest units that are not zero.
pub open spec fn duration_text(seconds: int) -> Seq<char> {
    if seconds == 0 {
        "0s"@
    } else {
        two_units(non_zero(duration_units(seconds)))
    }
}

/// A duration in whole seconds, such as "2m 15s", "1h 04m", "3d 02h" or "1d 01m".
pub fn format_duration(seconds: Option<u64>) -> (r: String)
    ensures
        r@ == match seconds {
            Some(n) => duration_text(n as int),
            None => UNKNOWN@,
        },
{
    let total: u64 = match seconds {
        Some(n) => n,
        None => {
            return UNKNOWN.to_string();
        },
    };
    if total == 0 {
        return "0s".to_string();
    }
    let parts: [(u64, char); 4] = [
        (total / 86400, 'd'),
        (total % 86400 / 3600, 'h'),
        (total % 3600 / 60, 'm'),
        (total % 60, 's'),
    ];
    let ghost units = duration_units(total as int);
    let mut out: Vec<char> = Vec::new();
    let mut shown: usize = 0;
    let mut i: usize = 0;
    assert(units.take(0) =~= seq![]);
    while i < 4
        invariant
            i <= 4,
            units.len() == 4,
            forall|k: int| 0 <= k < 4 ==> units[k] == ((#[trigger] parts@[k]).0 as int, parts@[k].1),
            forall|k: int| 1 <= k < 4 ==> (#[trigger] parts@[k]).0 < 60,
            shown == non_zero(units.take(i as int)).len(),
            shown <= i,
            out@ == two_units(non_zero(units.take(i as int))),
        decreases 4 - i,
    {
        let n: u64 = parts[i].0;
        let letter: char = parts[i].1;
        let ghost before = non_zero(units.take(i as int));
        proof {
            assert(units[i as int] == (parts@[i as int].0 as int, parts@[i as int].1));
            assert(units.take(i + 1).drop_last() =~= units.take(i as int));
            assert(units.take(i + 1).last() == units[i as int]);
        }
        if n > 0 {
            if shown == 0 {
                numbers::put_decimal(&mut out, n);
                out.push(letter);
            } else if shown == 1 {
                out.push(' ');
                numbers::put_padded(&mut out, n as i64, 2);
                out.push(letter);
            }
            shown += 1;
            assert(out@ =~= two_units(before.push((n as int, letter))));
        }
        i += 1;
    }
    assert(units.take(4) =~= units);
    text::string_of(out.as_slice())
}

/// The units of a duration add up to it, and each lesser one fits below the greater.
pub proof fn law_duration_parts(seconds: int)
    requires
        seconds >= 0,
    ensures
        ({
            let u = duration_units(seconds);
            &&& seconds == u[0].0 * 86400 + u[1].0 * 3600 + u[2].0 * 60 + u[3].0
            &&& 0 <= u[0].0
            &&& 0 <= u[1].0 < 24
            &&& 0 <= u[2].0 < 60
            &&& 0 <= u[3].0 < 60
        }),
{
    assert(seconds % 86400 % 3600 == seconds % 3600) by (nonlinear_arith)
        requires
            seconds >= 0,
    ;
    assert(seconds % 3600 % 60 == seconds % 60) by (nonlinear_arith)
        requires
            seconds >= 0,
    ;
}

spec fn some_of(unit: (int, char)) -> Seq<(int, char)> {
    if unit.0 > 0 {
        seq![unit]
    } else {
        seq![]
    }
}

proof fn lemma_non_zero(u: Seq<(int, char)>)
    requires
        u.len() == 4,
    ensures
        non_zero(u) == some_of(u[0]) + some_of(u[1]) + some_of(u[2]) + some_of(u[3]),
{
    reveal_with_fuel(non_zero, 5);
    assert(u.drop_last() =~= seq![u[0], u[1], u[2]]);
    assert(u.drop_last().drop_last() =~= seq![u[0], u[1]]);
    assert(u.drop_last().drop_last().drop_last() =~= seq![u[0]]);
    assert(u.drop_last().drop_last().drop_last().drop_last() =~= seq![]);
    assert(non_zero(u) =~= some_of(u[0]) + some_of(u[1]) + some_of(u[2]) + some_of(u[3]));
}

/// The unit `i` and the next lower one `j` of which there are any are the two that are shown.
pub proof fn law_two_greatest_are_shown(seconds: int, i: int, j: int)
    requires
        seconds >= 0,
        0 <= i < j < 4,
        duration_units(seconds)[i].0 > 0,
        duration_units(seconds)[j].0 > 0,
        forall|k: int| 0 <= k < j && k != i ==> (#[trigger] duration_units(seconds)[k]).0 == 0,
    ensures
        ({
            let (a, unit) = duration_units(seconds)[i];
            let (b, lesser) = duration_units(seconds)[j];
            duration_text(seconds) == numbers::decimal(a as nat) + seq![unit, ' '] + numbers::padded(b, 2) + seq![
                lesser,
            ]
        }),
{
    law_duration_parts(seconds);
    let u = duration_units(seconds);
    lemma_non_zero(u);
    assert(u[0].0 >= 0 && u[1].0 >= 0 && u[2].0 >= 0 && u[3].0 >= 0);
    assert(non_zero(u).len() >= 2 && non_zero(u)[0] == u[i] && non_zero(u)[1] == u[j]);
}

/// A duration of a single unit is shown in it alone.
pub proof fn law_single_unit_is_shown(seconds: int, i: int)
    requires
        seconds >= 0,
        0 <= i < 4,
        duration_units(seconds)[i].0 > 0,
        forall|k: int| 0 <= k < 4 && k != i ==> (#[trigger] duration_units(seconds)[k]).0 == 0,
    ensures
        ({
            let (a, unit) = duration_units(seconds)[i];
            duration_text(seconds) == numbers::decimal(a as nat) + seq![unit]
        }),
{
    law_duration_parts(seconds);
    let u = duration_units(seconds);
    lemma_non_zero(u);
    assert(u[0].0 >= 0 && u[1].0 >= 0 && u[2].0 >= 0 && u[3].0 >= 0);
    assert(non_zero(u) =~= seq![u[i]]);
}

/// What `str::to_uppercase` makes of a text.
pub uninterp spec fn uppercased(s: Seq<char>) -> Seq<char>;

pub open spec fn is_lower(c: char) -> bool {
    'a' <= c && c <= 'z'
}

/// The capital of an ASCII letter; any other character stays.
pub open spec fn ascii_upper(c: char) -> char {
    if is_lower(c) {
        (c as int - 32) as char
    } else {
        c
    }
}

pub open spec fn all_ascii(s: Seq<char>) -> bool {
    forall|i: int| 0 <= i < s.len() ==> (#[trigger] s[i] as int) < 128
}

/// Calls `str::to_uppercase`. The contract names the result, and claims that a text of ASCII
/// characters has its letters made capitals and is otherwise unchanged.
#[verifier::external_body]
pub(crate) fn to_uppercase(s: &str) -> (r: String)
    ensures
        r@ == uppercased(s@),
        all_ascii(s@) ==> r@ == s@.map_values(|c: char| ascii_upper(c)),
{
    s.to_uppercase()
}

/// The text with its first character made a capital.
pub open spec fn capitalized(s: Seq<char>) -> Seq<char> {
    if s.len() == 0 {
        s
    } else {
        uppercased(s.take(1)) + s.skip(1)
    }
}

/// Makes the first character a capital.
pub fn capitalize(s: &str) -> (r: String)
    ensures
        r@ == capitalized(s@),
        s@.len() > 0 && all_ascii(s@) ==> r@ == s@.update(0, ascii_upper(s@[0])),
{
    let cs: Vec<char> = text::chars_of(s);
    if cs.len() == 0 {
        return String::new();
    }
    let first: String = text::string_of(text::front(cs.as_slice(), 1));
    let upper: String = to_uppercase(first.as_str());
    let mut out: Vec<char> = Vec::new();
    text::put_str(&mut out, upper.as_str());
    text::put(&mut out, text::past(cs.as_slice(), 1));
    assert(out@ =~= capitalized(s@));
    proof {
        if all_ascii(s@) {
            assert forall|i: int| 0 <= i < s@.take(1).len() implies (#[trigger] s@.take(1)[i] as int) < 128 by {
                assert((s@[i] as int) < 128);
            }
            assert(out@ =~= s@.update(0, ascii_upper(s@[0])));
        }
    }
    text::string_of(out.as_slice())
}


/// A value is shown as it is, and a dash in place of one that is not known; a rate is shown in
/// megabits.
pub proof fn law_unknown_is_a_dash(t: Seq<char>, n: i64)
    requires
        t.len() > 0,
    ensures
        or_unknown(Some(t)) == t,
        or_unknown(None) == "—"@,
        unless_empty(t) == t,
        unless_empty(seq![]) == "—"@,
        mbits(None) == "—"@,
        mbits(Some(n)) == numbers::signed_decimal(n as int) + " Mbit/s"@,
{
}

/// Only the first character becomes a capital: the rest stays, and nothing stays nothing.
pub proof fn law_only_the_first_becomes_a_capital(c: char, rest: Seq<char>)
    ensures
        capitalized(seq![c] + rest) == uppercased(seq![c]) + rest,
        capitalized(seq![]) == Seq::<char>::empty(),
{
    let s = seq![c] + rest;
    assert(s.take(1) =~= seq![c]);
    assert(s.skip(1) =~= rest);
}

} // verus!
