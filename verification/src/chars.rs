//! What the text operations of this library mean, over sequences of characters.
use vstd::prelude::*;

verus! {

/// A kind of character that a scan can stop at or run over.
#[derive(Clone, Copy)]
pub enum Class {
    /// White space, as Unicode defines it.
    Space,
    /// An ASCII decimal digit.
    Digit,
    /// An ASCII decimal digit or a full stop.
    Numeral,
    /// One given character.
    Is(char),
}

/// The characters with the Unicode property `White_Space`.
pub open spec fn is_space(c: char) -> bool {
    let n: int = c as int;
    ||| 0x09 <= n <= 0x0d
    ||| n == 0x20
    ||| n == 0x85
    ||| n == 0xa0
    ||| n == 0x1680
    ||| 0x2000 <= n <= 0x200a
    ||| n == 0x2028
    ||| n == 0x2029
    ||| n == 0x202f
    ||| n == 0x205f
    ||| n == 0x3000
}

pub open spec fn is_digit(c: char) -> bool {
    '0' <= c && c <= '9'
}

pub open spec fn in_class(k: Class, c: char) -> bool {
    match k {
        Class::Space => is_space(c),
        Class::Digit => is_digit(c),
        Class::Numeral => is_digit(c) || c == '.',
        Class::Is(x) => c == x,
    }
}

/// How many characters at the front of `s` are all in the class (`want`) or all outside it.
pub open spec fn span(s: Seq<char>, k: Class, want: bool) -> int
    decreases s.len(),
{
    if s.len() > 0 && in_class(k, s[0]) == want {
        1 + span(s.skip(1), k, want)
    } else {
        0
    }
}

/// How many characters at the back of `s` are all in the class (`want`) or all outside it.
pub open spec fn span_back(s: Seq<char>, k: Class, want: bool) -> int
    decreases s.len(),
{
    if s.len() > 0 && in_class(k, s.last()) == want {
        1 + span_back(s.drop_last(), k, want)
    } else {
        0
    }
}

/// `span` stops at the first character of the other kind, or at the end.
pub proof fn lemma_span(s: Seq<char>, k: Class, want: bool)
    ensures
        0 <= span(s, k, want) <= s.len(),
        forall|i: int| 0 <= i < span(s, k, want) ==> in_class(k, #[trigger] s[i]) == want,
        span(s, k, want) < s.len() ==> in_class(k, s[span(s, k, want)]) != want,
    decreases s.len(),
{
    if s.len() > 0 && in_class(k, s[0]) == want {
        let t = s.skip(1);
        lemma_span(t, k, want);
        assert forall|i: int| 0 <= i < span(s, k, want) implies in_class(k, #[trigger] s[i]) == want by {
            if i > 0 {
                assert(s[i] == t[i - 1]);
            }
        }
    }
}

/// The one length that meets the description of `span`.
pub proof fn lemma_span_is(s: Seq<char>, k: Class, want: bool, n: int)
    requires
        0 <= n <= s.len(),
        forall|i: int| 0 <= i < n ==> in_class(k, #[trigger] s[i]) == want,
        n < s.len() ==> in_class(k, s[n]) != want,
    ensures
        span(s, k, want) == n,
{
    lemma_span(s, k, want);
    let m = span(s, k, want);
    if m < n {
        assert(in_class(k, s[m]) == want);
    } else if n < m {
        assert(in_class(k, s[n]) == want);
    }
}

/// `span_back` stops at the last character of the other kind, or at the start.
pub proof fn lemma_span_back(s: Seq<char>, k: Class, want: bool)
    ensures
        0 <= span_back(s, k, want) <= s.len(),
        forall|i: int| s.len() - span_back(s, k, want) <= i < s.len() ==> in_class(k, #[trigger] s[i]) == want,
        span_back(s, k, want) < s.len() ==> in_class(k, s[s.len() - span_back(s, k, want) - 1]) != want,
    decreases s.len(),
{
    if s.len() > 0 && in_class(k, s.last()) == want {
        let t = s.drop_last();
        lemma_span_back(t, k, want);
        assert forall|i: int| s.len() - span_back(s, k, want) <= i < s.len() implies in_class(k, #[trigger] s[i])
            == want by {
            if i < t.len() {
                assert(s[i] == t[i]);
            }
        }
    }
}

/// The one length that meets the description of `span_back`.
pub proof fn lemma_span_back_is(s: Seq<char>, k: Class, want: bool, n: int)
    requires
        0 <= n <= s.len(),
        forall|i: int| s.len() - n <= i < s.len() ==> in_class(k, #[trigger] s[i]) == want,
        n < s.len() ==> in_class(k, s[s.len() - n - 1]) != want,
    ensures
        span_back(s, k, want) == n,
{
    lemma_span_back(s, k, want);
    let m = span_back(s, k, want);
    if m < n {
        assert(in_class(k, s[s.len() - m - 1]) == want);
    } else if n < m {
        assert(in_class(k, s[s.len() - n - 1]) == want);
    }
}

pub open spec fn trimmed_start(s: Seq<char>) -> Seq<char> {
    s.skip(span(s, Class::Space, true))
}

pub open spec fn trimmed_end(s: Seq<char>) -> Seq<char> {
    s.take(s.len() - span_back(s, Class::Space, true))
}

/// `s` without the white space at its two ends.
pub open spec fn trimmed(s: Seq<char>) -> Seq<char> {
    trimmed_end(trimmed_start(s))
}

/// `s` without the characters `c` that it ends in.
pub open spec fn trimmed_of(s: Seq<char>, c: char) -> Seq<char> {
    s.take(s.len() - span_back(s, Class::Is(c), true))
}

pub open spec fn starts(s: Seq<char>, p: Seq<char>) -> bool {
    p.len() <= s.len() && s.take(p.len() as int) == p
}

pub open spec fn ends(s: Seq<char>, p: Seq<char>) -> bool {
    p.len() <= s.len() && s.skip(s.len() - p.len()) == p
}

/// What follows the prefix `p`, where `s` starts with it.
pub open spec fn after_prefix(s: Seq<char>, p: Seq<char>) -> Option<Seq<char>> {
    if starts(s, p) {
        Some(s.skip(p.len() as int))
    } else {
        None
    }
}

/// `s` with every leading repetition of `p` taken off.
pub open spec fn without_leading(s: Seq<char>, p: Seq<char>) -> Seq<char>
    decreases s.len(),
{
    if p.len() > 0 && starts(s, p) {
        without_leading(s.skip(p.len() as int), p)
    } else {
        s
    }
}

/// The least position at which `p` stands in `s`.
pub open spec fn find_at(s: Seq<char>, p: Seq<char>) -> Option<int>
    decreases s.len(),
{
    if starts(s, p) {
        Some(0)
    } else if s.len() == 0 {
        None
    } else {
        moved(find_at(s.skip(1), p), 1)
    }
}

pub open spec fn moved(at: Option<int>, n: int) -> Option<int> {
    match at {
        Some(k) => Some(k + n),
        None => None,
    }
}

/// The greatest position at which `p` stands in `s`.
pub open spec fn rfind_at(s: Seq<char>, p: Seq<char>) -> Option<int>
    decreases s.len(),
{
    if ends(s, p) {
        Some(s.len() - p.len())
    } else if s.len() == 0 {
        None
    } else {
        rfind_at(s.drop_last(), p)
    }
}

pub open spec fn holds_text(s: Seq<char>, p: Seq<char>) -> bool {
    find_at(s, p) is Some
}

/// `find_at` gives a place where `p` stands, and none before it.
pub proof fn lemma_find_at(s: Seq<char>, p: Seq<char>)
    ensures
        match find_at(s, p) {
            Some(k) => {
                &&& 0 <= k <= k + p.len() <= s.len()
                &&& starts(s.skip(k), p)
                &&& forall|j: int| 0 <= j < k ==> !starts(#[trigger] s.skip(j), p)
            },
            None => forall|j: int| 0 <= j <= s.len() ==> !starts(#[trigger] s.skip(j), p),
        },
    decreases s.len(),
{
    assert(s.skip(0) =~= s);
    if !starts(s, p) && s.len() > 0 {
        let t = s.skip(1);
        lemma_find_at(t, p);
        assert forall|j: int| 1 <= j <= s.len() implies #[trigger] s.skip(j) == t.skip(j - 1) by {
            assert(s.skip(j) =~= t.skip(j - 1));
        }
        match find_at(t, p) {
            Some(k) => {
                assert(s.skip(k + 1) == t.skip(k));
                assert forall|j: int| 0 <= j < k + 1 implies !starts(#[trigger] s.skip(j), p) by {
                    if j > 0 {
                        assert(!starts(t.skip(j - 1), p));
                    }
                }
            },
            None => {
                assert forall|j: int| 0 <= j <= s.len() implies !starts(#[trigger] s.skip(j), p) by {
                    if j > 0 {
                        assert(!starts(t.skip(j - 1), p));
                    }
                }
            },
        }
    }
}

/// `rfind_at` gives a place where `p` stands.
pub proof fn lemma_rfind_at(s: Seq<char>, p: Seq<char>)
    ensures
        rfind_at(s, p) matches Some(k) ==> {
            &&& 0 <= k <= k + p.len() <= s.len()
            &&& s.subrange(k, k + p.len()) == p
        },
        rfind_at(s, p) is Some <==> holds_text(s, p),
    decreases s.len(),
{
    lemma_find_at(s, p);
    if ends(s, p) {
        let k = s.len() - p.len();
        assert(s.subrange(k, s.len() as int) =~= s.skip(k));
        assert(s.skip(k).take(p.len() as int) =~= p);
        assert(starts(s.skip(k), p));
    } else if s.len() > 0 {
        let t = s.drop_last();
        lemma_rfind_at(t, p);
        lemma_find_at(t, p);
        if let Some(k) = rfind_at(t, p) {
            assert(t.subrange(k, k + p.len()) =~= s.subrange(k, k + p.len()));
            assert(s.skip(k).take(p.len() as int) =~= p);
            assert(starts(s.skip(k), p));
        }
        if let Some(k) = find_at(s, p) {
            if k + p.len() == s.len() {
                assert(s.skip(k).take(p.len() as int) =~= s.skip(k));
                assert(ends(s, p));
            }
            assert(t.skip(k).take(p.len() as int) =~= s.skip(k).take(p.len() as int));
            assert(starts(t.skip(k), p));
        }
    } else {
        assert(s.skip(0) =~= s);
        if starts(s, p) {
            assert(s.take(0) =~= s);
            assert(ends(s, p));
        }
    }
}

/// How often `c` occurs in `s`.
pub open spec fn count_of(s: Seq<char>, c: char) -> nat
    decreases s.len(),
{
    if s.len() == 0 {
        0
    } else {
        count_of(s.drop_last(), c) + if s.last() == c { 1nat } else { 0nat }
    }
}

/// The two sides of the first `c` in `s`.
pub open spec fn cut(s: Seq<char>, c: char) -> Option<(Seq<char>, Seq<char>)> {
    let n = span(s, Class::Is(c), false);
    if n < s.len() {
        Some((s.take(n), s.skip(n + 1)))
    } else {
        None
    }
}

/// The two sides of the last `c` in `s`.
pub open spec fn cut_back(s: Seq<char>, c: char) -> Option<(Seq<char>, Seq<char>)> {
    let n = span_back(s, Class::Is(c), false);
    if n < s.len() {
        Some((s.take(s.len() - n - 1), s.skip(s.len() - n)))
    } else {
        None
    }
}

/// What stands before the first `c`, or all of `s` where there is none.
pub open spec fn before_first(s: Seq<char>, c: char) -> Seq<char> {
    s.take(span(s, Class::Is(c), false))
}

/// What stands after the last `c`, or all of `s` where there is none.
pub open spec fn after_last(s: Seq<char>, c: char) -> Seq<char> {
    s.skip(s.len() - span_back(s, Class::Is(c), false))
}

/// The pieces of `s` between the characters `c`: always one more than there are of those.
pub open spec fn pieces(s: Seq<char>, c: char) -> Seq<Seq<char>>
    decreases s.len(),
{
    let n = span(s, Class::Is(c), false);
    if n >= s.len() {
        seq![s]
    } else {
        proof {
            lemma_span(s, Class::Is(c), false);
        }
        seq![s.take(n)] + pieces(s.skip(n + 1), c)
    }
}

/// The parts of `s` between the occurrences of a separator, found from the left.
pub open spec fn parts(s: Seq<char>, sep: Seq<char>) -> Seq<Seq<char>>
    decreases s.len(),
{
    match find_at(s, sep) {
        Some(k) => if sep.len() == 0 {
            seq![s]
        } else {
            proof {
                lemma_find_at(s, sep);
            }
            seq![s.take(k)] + parts(s.skip(k + sep.len()), sep)
        },
        None => seq![s],
    }
}

/// The last line, or nothing.
pub open spec fn last_line(s: Seq<char>) -> Seq<char> {
    let all = lines_of(s);
    if all.len() == 0 {
        seq![]
    } else {
        all.last()
    }
}

/// A line without the carriage return that stood before its line feed.
pub open spec fn without_return(s: Seq<char>) -> Seq<char> {
    if s.len() > 0 && s.last() == '\r' {
        s.drop_last()
    } else {
        s
    }
}

/// The lines of `s`: each ends in a line feed, with or without a carriage return before it,
/// and neither belongs to the line. The last one may do without.
pub open spec fn lines_of(s: Seq<char>) -> Seq<Seq<char>>
    decreases s.len(),
{
    let n = span(s, Class::Is('\n'), false);
    if s.len() == 0 {
        seq![]
    } else if n >= s.len() {
        seq![s]
    } else {
        proof {
            lemma_span(s, Class::Is('\n'), false);
        }
        seq![without_return(s.take(n))] + lines_of(s.skip(n + 1))
    }
}

/// The longest runs of characters in `s` that are not white space.
pub open spec fn words_of(s: Seq<char>) -> Seq<Seq<char>>
    decreases s.len(),
{
    let t = trimmed_start(s);
    let n = span(t, Class::Space, false);
    if n <= 0 {
        seq![]
    } else {
        proof {
            lemma_span(s, Class::Space, true);
            lemma_span(t, Class::Space, false);
        }
        seq![t.take(n)] + words_of(t.skip(n))
    }
}

/// The texts that a sequence of character slices holds.
pub open spec fn texts(v: Seq<&[char]>) -> Seq<Seq<char>> {
    v.map_values(|x: &[char]| x@)
}

/// What is left of a sequence without its first `n` items.
pub open spec fn beyond<T>(s: Seq<T>, n: int) -> Seq<T> {
    if s.len() <= n {
        seq![]
    } else {
        s.skip(n)
    }
}

/// The word that follows the first occurrence of `key`.
pub open spec fn word_after(words: Seq<Seq<char>>, key: Seq<char>) -> Option<Seq<char>>
    decreases words.len(),
{
    if words.len() < 2 {
        None
    } else if words[0] == key {
        Some(words[1])
    } else {
        word_after(words.skip(1), key)
    }
}

/// The texts that a sequence of strings holds.
pub open spec fn strings(v: Seq<String>) -> Seq<Seq<char>> {
    v.map_values(|x: String| x@)
}

pub open spec fn opt_text(s: Option<String>) -> Option<Seq<char>> {
    match s {
        Some(s) => Some(s@),
        None => None,
    }
}

/// `items` one after the other, with `sep` between them.
pub open spec fn joined(items: Seq<Seq<char>>, sep: Seq<char>) -> Seq<char>
    decreases items.len(),
{
    if items.len() == 0 {
        seq![]
    } else if items.len() == 1 {
        items[0]
    } else {
        joined(items.drop_last(), sep) + sep + items.last()
    }
}

/// Splitting at a character loses nothing: the pieces joined by it give the text back.
pub proof fn law_pieces_join(s: Seq<char>, c: char)
    ensures
        joined(pieces(s, c), seq![c]) == s,
        pieces(s, c).len() == count_of(s, c) + 1,
    decreases s.len(),
{
    let n = span(s, Class::Is(c), false);
    lemma_span(s, Class::Is(c), false);
    if n >= s.len() {
        lemma_no_count(s, c);
        assert(joined(seq![s], seq![c]) == s);
    } else {
        let head = s.take(n);
        let rest = s.skip(n + 1);
        law_pieces_join(rest, c);
        lemma_joined_front(head, pieces(rest, c), seq![c]);
        assert(s =~= head + seq![c] + rest);
        lemma_no_count(head, c);
        lemma_count_add(head, seq![c], c);
        lemma_count_add(head + seq![c], rest, c);
        assert(seq![c].drop_last() =~= seq![]);
        assert(count_of(seq![c], c) == 1) by {
            reveal_with_fuel(count_of, 2);
        }
    }
}

proof fn lemma_no_count(s: Seq<char>, c: char)
    requires
        forall|i: int| 0 <= i < s.len() ==> !in_class(Class::Is(c), #[trigger] s[i]),
    ensures
        count_of(s, c) == 0,
    decreases s.len(),
{
    if s.len() > 0 {
        assert(!in_class(Class::Is(c), s[s.len() - 1]));
        assert forall|i: int| 0 <= i < s.drop_last().len() implies !in_class(
            Class::Is(c),
            #[trigger] s.drop_last()[i],
        ) by {
            assert(!in_class(Class::Is(c), s[i]));
        }
        lemma_no_count(s.drop_last(), c);
    }
}

pub proof fn lemma_count_add(a: Seq<char>, b: Seq<char>, c: char)
    ensures
        count_of(a + b, c) == count_of(a, c) + count_of(b, c),
    decreases b.len(),
{
    if b.len() == 0 {
        assert(a + b =~= a);
    } else {
        assert((a + b).drop_last() =~= a + b.drop_last());
        lemma_count_add(a, b.drop_last(), c);
    }
}

pub proof fn lemma_joined_front(head: Seq<char>, tail: Seq<Seq<char>>, sep: Seq<char>)
    requires
        tail.len() > 0,
    ensures
        joined(seq![head] + tail, sep) == head + sep + joined(tail, sep),
    decreases tail.len(),
{
    let all = seq![head] + tail;
    if tail.len() == 1 {
        assert(all.drop_last() =~= seq![head]);
        assert(joined(all.drop_last(), sep) == head);
        assert(joined(tail, sep) == tail[0]);
        assert(all.last() == tail[0]);
    } else {
        assert(all.drop_last() =~= seq![head] + tail.drop_last());
        lemma_joined_front(head, tail.drop_last(), sep);
        assert(joined(all, sep) =~= head + sep + joined(tail, sep));
    }
}


/// Whether all of a text is white space.
pub open spec fn is_blank(s: Seq<char>) -> bool {
    forall|i: int| 0 <= i < s.len() ==> is_space(#[trigger] s[i])
}

/// One or more characters, none of them white space.
pub open spec fn is_word(s: Seq<char>) -> bool {
    s.len() > 0 && forall|i: int| 0 <= i < s.len() ==> !is_space(#[trigger] s[i])
}

/// Nothing, or a text with no white space at either end.
pub open spec fn is_trim(s: Seq<char>) -> bool {
    s.len() > 0 ==> !is_space(s[0]) && !is_space(s.last())
}

/// Of the ASCII characters, tab, line feed, vertical tab, form feed, carriage return and space
/// are white space, and the ten digits are digits.
pub proof fn law_ascii_classes(c: char)
    requires
        (c as int) < 128,
    ensures
        is_space(c) <==> c as int == 9 || c as int == 10 || c as int == 11 || c as int == 12 || c as int == 13
            || c as int == 32,
        is_digit(c) <==> 48 <= c as int <= 57,
{
}

/// Trimming takes off all the white space at both ends, and nothing of what is between.
pub proof fn law_trimming_keeps_the_inside(front: Seq<char>, s: Seq<char>, back: Seq<char>)
    requires
        is_blank(front),
        is_blank(back),
        is_trim(s),
    ensures
        trimmed(front + s + back) == s,
        trimmed_start(front + s) == s,
        trimmed_end(s + back) == s,
{
    let all = front + s + back;
    let n = front.len() as int;
    if s.len() == 0 {
        lemma_span_is(all, Class::Space, true, all.len() as int);
        assert(all.skip(all.len() as int) =~= s);
        lemma_span_back_is(s, Class::Space, true, 0);
        assert(s.take(0) =~= s);
        lemma_span_is(front + s, Class::Space, true, n);
        lemma_span_back_is(s + back, Class::Space, true, back.len() as int);
        assert((front + s).skip(n) =~= s);
        assert((s + back).take(0) =~= s);
    } else {
        assert(all[n] == s[0]);
        lemma_span_is(all, Class::Space, true, n);
        assert(all.skip(n) =~= s + back);
        assert((s + back)[s.len() - 1] == s.last());
        lemma_span_back_is(s + back, Class::Space, true, back.len() as int);
        assert((s + back).take(s.len() as int) =~= s);
        assert((front + s)[n] == s[0]);
        lemma_span_is(front + s, Class::Space, true, n);
        assert((front + s).skip(n) =~= s);
    }
}

/// A text with no white space at either end is its own trimmed form.
pub proof fn law_trim_text_stays(s: Seq<char>)
    requires
        is_trim(s),
    ensures
        trimmed(s) == s,
{
    let none: Seq<char> = seq![];
    law_trimming_keeps_the_inside(none, s, none);
    assert(none + s + none =~= s);
}

/// A trimmed text has no white space at either end, and what was taken off is white space.
pub proof fn law_trimmed_is_trim(s: Seq<char>)
    ensures
        is_trim(trimmed(s)),
        exists|front: Seq<char>, back: Seq<char>| #[trigger] (front + trimmed(s) + back) == s && is_blank(front) && is_blank(back),
{
    let n = span(s, Class::Space, true);
    lemma_span(s, Class::Space, true);
    let t = trimmed_start(s);
    let m = span_back(t, Class::Space, true);
    lemma_span_back(t, Class::Space, true);
    let front = s.take(n);
    let back = t.skip(t.len() - m);
    assert(front + trimmed(s) + back =~= s);
    assert forall|i: int| 0 <= i < front.len() implies is_space(#[trigger] front[i]) by {
        assert(in_class(Class::Space, s[i]));
    }
    assert forall|i: int| 0 <= i < back.len() implies is_space(#[trigger] back[i]) by {
        assert(in_class(Class::Space, t[t.len() - m + i]));
    }
    if trimmed(s).len() > 0 {
        assert(trimmed(s)[0] == s[n]);
        assert(trimmed(s).last() == t[t.len() - m - 1]);
    }
}

/// Taking a character off the end takes off all of its repetitions there and nothing else.
pub proof fn law_repetitions_are_taken_off(s: Seq<char>, c: char, n: nat)
    requires
        s.len() > 0 ==> s.last() != c,
    ensures
        trimmed_of(s + Seq::new(n, |i: int| c), c) == s,
{
    let all = s + Seq::new(n, |i: int| c);
    if s.len() > 0 {
        assert(all[s.len() - 1] == s.last());
    }
    lemma_span_back_is(all, Class::Is(c), true, n as int);
    assert(all.take(s.len() as int) =~= s);
}

/// A text is cut at the first of a character: what stands before holds none of it.
pub proof fn law_cut_at_the_first(front: Seq<char>, c: char, back: Seq<char>)
    requires
        !front.contains(c),
    ensures
        cut(front + seq![c] + back, c) == Some((front, back)),
        before_first(front + seq![c] + back, c) == front,
        cut(front, c) is None,
        before_first(front, c) == front,
{
    let s = front + seq![c] + back;
    let n = front.len() as int;
    assert forall|i: int| 0 <= i < n implies front[i] != c by {
        assert(front.contains(front[i]));
    }
    lemma_span_is(s, Class::Is(c), false, n);
    assert(s.take(n) =~= front);
    assert(s.skip(n + 1) =~= back);
    lemma_span_is(front, Class::Is(c), false, n);
    assert(front.take(n) =~= front);
}

/// A text is cut back at the last of a character: what stands behind holds none of it.
pub proof fn law_cut_at_the_last(front: Seq<char>, c: char, back: Seq<char>)
    requires
        !back.contains(c),
    ensures
        cut_back(front + seq![c] + back, c) == Some((front, back)),
        after_last(front + seq![c] + back, c) == back,
        cut_back(back, c) is None,
        after_last(back, c) == back,
{
    let s = front + seq![c] + back;
    let n = back.len() as int;
    assert forall|i: int| 0 <= i < n implies back[i] != c by {
        assert(back.contains(back[i]));
    }
    assert(s[front.len() as int] == c);
    lemma_span_back_is(s, Class::Is(c), false, n);
    assert(s.take(front.len() as int) =~= front);
    assert(s.skip(front.len() as int + 1) =~= back);
    lemma_span_back_is(back, Class::Is(c), false, n);
    assert(back.skip(0) =~= back);
}

/// How often a character occurs is how many places hold it.
pub proof fn law_count_is_of_places(s: Seq<char>, c: char)
    ensures
        count_of(s, c) == s.filter(|x: char| x == c).len(),
        count_of(s, c) == 0 <==> !s.contains(c),
    decreases s.len(),
{
    reveal(Seq::filter);
    if s.len() > 0 {
        law_count_is_of_places(s.drop_last(), c);
        if s.contains(c) {
            let i = choose|i: int| 0 <= i < s.len() && s[i] == c;
            if i < s.len() - 1 {
                assert(s.drop_last()[i] == c);
            }
        }
        if s.drop_last().contains(c) {
            let i = choose|i: int| 0 <= i < s.drop_last().len() && s.drop_last()[i] == c;
            assert(s[i] == c);
        }
        assert(s.last() == s[s.len() - 1]);
    }
}

/// The position from the back is the greatest at which a text stands.
pub proof fn law_rfind_is_the_greatest(s: Seq<char>, p: Seq<char>, j: int)
    requires
        0 <= j,
        j + p.len() <= s.len(),
        s.subrange(j, j + p.len()) == p,
    ensures
        rfind_at(s, p) matches Some(k) && j <= k,
    decreases s.len(),
{
    if ends(s, p) {
    } else if j + p.len() == s.len() {
        assert(s.skip(j) =~= s.subrange(j, j + p.len()));
    } else {
        let t = s.drop_last();
        assert(t.subrange(j, j + p.len()) =~= s.subrange(j, j + p.len()));
        law_rfind_is_the_greatest(t, p, j);
    }
}

/// A line feed ends a line: the line before it comes first, without a carriage return at its
/// end, and then the lines of what follows.
pub proof fn law_line_feed_ends_a_line(line: Seq<char>, rest: Seq<char>)
    requires
        !line.contains('\n'),
    ensures
        lines_of(seq![]) == Seq::<Seq<char>>::empty(),
        line.len() > 0 ==> lines_of(line) == seq![line],
        line.len() > 0 && line.last() == '\r' ==> lines_of(line + seq!['\n'] + rest) == seq![line.drop_last()] + lines_of(
            rest,
        ),
        line.len() == 0 || line.last() != '\r' ==> lines_of(line + seq!['\n'] + rest) == seq![line] + lines_of(rest),
{
    let s = line + seq!['\n'] + rest;
    let n = line.len() as int;
    assert forall|i: int| 0 <= i < n implies line[i] != '\n' by {
        assert(line.contains(line[i]));
    }
    lemma_span_is(s, Class::Is('\n'), false, n);
    assert(s.take(n) =~= line);
    assert(s.skip(n + 1) =~= rest);
    lemma_span_is(line, Class::Is('\n'), false, n);
    let none: Seq<char> = seq![];
    lemma_span_is(none, Class::Is('\n'), false, 0);
}

/// Words are what white space separates: a word, white space and a text have the word and the
/// words of the text; white space alone has none.
pub proof fn law_space_separates_words(front: Seq<char>, word: Seq<char>, rest: Seq<char>)
    requires
        is_blank(front),
        is_word(word),
        rest.len() > 0 ==> is_space(rest[0]),
    ensures
        words_of(front) == Seq::<Seq<char>>::empty(),
        words_of(front + word + rest) == seq![word] + words_of(rest),
{
    let s = front + word + rest;
    let n = front.len() as int;
    let m = word.len() as int;
    let none: Seq<char> = seq![];
    lemma_span_is(front, Class::Space, true, n);
    assert(front.skip(n) =~= none);
    lemma_span_is(none, Class::Space, false, 0);
    assert(s[n] == word[0]);
    lemma_span_is(s, Class::Space, true, n);
    let t = s.skip(n);
    assert(t =~= word + rest);
    lemma_span_is(t, Class::Space, false, m);
    assert(t.take(m) =~= word);
    assert(t.skip(m) =~= rest);
}

/// A separator between two texts, of which the first does not hold it even together with the
/// front of the separator, parts them there.
pub proof fn law_separator_parts(first: Seq<char>, sep: Seq<char>, rest: Seq<char>)
    requires
        sep.len() > 0,
        !holds_text(first + sep.drop_last(), sep),
    ensures
        parts(first + sep + rest, sep) == seq![first] + parts(rest, sep),
        parts(first, sep) == seq![first],
{
    let s = first + sep + rest;
    let n = first.len() as int;
    let near = first + sep.drop_last();
    lemma_find_at(s, sep);
    lemma_find_at(near, sep);
    lemma_find_at(first, sep);
    assert(s.skip(n).take(sep.len() as int) =~= sep);
    assert(starts(s.skip(n), sep));
    assert forall|j: int| 0 <= j < n implies !starts(#[trigger] s.skip(j), sep) by {
        if starts(s.skip(j), sep) {
            assert(near.skip(j).take(sep.len() as int) =~= s.skip(j).take(sep.len() as int));
            assert(starts(near.skip(j), sep));
        }
    }
    assert(find_at(s, sep) == Some(n)) by {
        let k = find_at(s, sep)->Some_0;
        if k < n {
            assert(!starts(s.skip(k), sep));
        } else if k > n {
            assert(!starts(s.skip(n), sep));
        }
    }
    assert(s.take(n) =~= first);
    assert(s.skip(n + sep.len()) =~= rest);
    if find_at(first, sep) is Some {
        let k = find_at(first, sep)->Some_0;
        assert(near.skip(k).take(sep.len() as int) =~= first.skip(k).take(sep.len() as int));
        assert(starts(near.skip(k), sep));
        assert(!starts(near.skip(k), sep));
    }
}

/// A text is held where it stands between two others, and only there.
pub proof fn law_held_text_stands_somewhere(s: Seq<char>, p: Seq<char>)
    ensures
        holds_text(s, p) <==> exists|a: Seq<char>, b: Seq<char>| s == #[trigger] (a + p + b),
{
    lemma_find_at(s, p);
    if holds_text(s, p) {
        let k = find_at(s, p)->Some_0;
        let a = s.take(k);
        let b = s.skip(k + p.len());
        assert(s.skip(k).take(p.len() as int) == p);
        assert(s =~= a + p + b) by {
            assert forall|i: int| k <= i < k + p.len() implies s[i] == p[i - k] by {
                assert(s.skip(k).take(p.len() as int)[i - k] == s[i]);
            }
        }
    }
    if exists|a: Seq<char>, b: Seq<char>| s == #[trigger] (a + p + b) {
        let (a, b) = choose|a: Seq<char>, b: Seq<char>| s == #[trigger] (a + p + b);
        let k = a.len() as int;
        assert(s.skip(k).take(p.len() as int) =~= p);
        assert(starts(s.skip(k), p));
    }
}

/// The word behind a key is found at the first place of the key, and nowhere else.
pub proof fn law_word_behind_its_key(front: Seq<Seq<char>>, key: Seq<char>, word: Seq<char>, rest: Seq<Seq<char>>)
    requires
        !front.contains(key),
    ensures
        word_after(front + seq![key, word] + rest, key) == Some(word),
        word_after(front, key) is None,
        word_after(front.push(key), key) is None,
    decreases front.len(),
{
    let all = front + seq![key, word] + rest;
    if front.len() == 0 {
        assert(all[0] == key && all[1] == word);
    } else {
        let less = front.skip(1);
        assert forall|i: int| 0 <= i < less.len() implies less[i] != key by {
            assert(front.contains(front[i + 1]));
        }
        law_word_behind_its_key(less, key, word, rest);
        assert(front.contains(front[0]));
        assert(all.skip(1) =~= less + seq![key, word] + rest);
        assert(front.push(key).skip(1) =~= less.push(key));
    }
}

/// The last line of a text is the one behind its last line feed, or before a final one.
pub proof fn law_last_line_is_the_last(front: Seq<char>, line: Seq<char>)
    requires
        line.len() > 0,
        !line.contains('\n'),
        line.last() != '\r',
        front.len() > 0 ==> front.last() == '\n',
    ensures
        last_line(front + line) == line,
        last_line(front + line + seq!['\n']) == line,
    decreases front.len(),
{
    let none: Seq<char> = seq![];
    if front.len() == 0 {
        law_line_feed_ends_a_line(line, none);
        assert(front + line =~= line);
        assert(front + line + seq!['\n'] =~= line + seq!['\n'] + none);
        assert(lines_of(front + line + seq!['\n']) =~= seq![line]);
    } else {
        let n = span(front, Class::Is('\n'), false);
        lemma_span(front, Class::Is('\n'), false);
        assert(front[front.len() - 1] == '\n');
        let head = front.take(n);
        let more = front.skip(n + 1);
        assert forall|i: int| 0 <= i < head.len() implies head[i] != '\n' by {
            assert(head[i] == front[i]);
        }
        if more.len() > 0 {
            assert(more.last() == front.last());
        }
        law_last_line_is_the_last(more, line);
        law_line_feed_ends_a_line(head, more + line);
        law_line_feed_ends_a_line(head, more + line + seq!['\n']);
        assert(head + seq!['\n'] + (more + line) =~= front + line);
        assert(head + seq!['\n'] + (more + line + seq!['\n']) =~= front + line + seq!['\n']);
        lemma_lines_nonempty(more + line);
        lemma_lines_nonempty(more + line + seq!['\n']);
    }
}

proof fn lemma_lines_nonempty(s: Seq<char>)
    requires
        s.len() > 0,
    ensures
        lines_of(s).len() > 0,
{
    lemma_span(s, Class::Is('\n'), false);
}


/// A text that does not occur again behind a place where it stands, not even with its own end,
/// is found from the back at that place.
pub proof fn law_rfind_at_the_last(front: Seq<char>, p: Seq<char>, back: Seq<char>)
    requires
        p.len() > 0,
        !holds_text(p.skip(1) + back, p),
    ensures
        rfind_at(front + p + back, p) == Some(front.len() as int),
{
    let s = front + p + back;
    let later = p.skip(1) + back;
    let k = front.len() as int;
    assert(s.subrange(k, k + p.len()) =~= p);
    law_rfind_is_the_greatest(s, p, k);
    lemma_rfind_at(s, p);
    let j = rfind_at(s, p)->Some_0;
    if j > k {
        lemma_find_at(later, p);
        let i = j - k - 1;
        assert(later.skip(i).take(p.len() as int) =~= s.subrange(j, j + p.len()));
        assert(starts(later.skip(i), p));
        assert(!starts(later.skip(i), p));
    }
}


/// A text that does not occur before a place where it stands, not even with its own front, is
/// found at that place; without it there is none.
pub proof fn law_find_at_the_first(front: Seq<char>, p: Seq<char>, back: Seq<char>)
    requires
        p.len() > 0,
        !holds_text(front + p.drop_last(), p),
    ensures
        find_at(front + p + back, p) == Some(front.len() as int),
        find_at(front, p) is None,
{
    let s = front + p + back;
    let n = front.len() as int;
    let near = front + p.drop_last();
    lemma_find_at(s, p);
    lemma_find_at(near, p);
    lemma_find_at(front, p);
    assert(s.skip(n).take(p.len() as int) =~= p);
    assert(starts(s.skip(n), p));
    let k = find_at(s, p)->Some_0;
    if k < n {
        assert(near.skip(k).take(p.len() as int) =~= s.skip(k).take(p.len() as int));
        assert(starts(near.skip(k), p));
        assert(!starts(near.skip(k), p));
    } else if k > n {
        assert(!starts(s.skip(n), p));
    }
    if find_at(front, p) is Some {
        let j = find_at(front, p)->Some_0;
        assert(near.skip(j).take(p.len() as int) =~= front.skip(j).take(p.len() as int));
        assert(starts(near.skip(j), p));
        assert(!starts(near.skip(j), p));
    }
}


/// Items are joined with the separator between them and nowhere else.
pub proof fn law_separator_stands_between(items: Seq<Seq<char>>, item: Seq<char>, sep: Seq<char>)
    ensures
        joined(seq![], sep) == Seq::<char>::empty(),
        joined(seq![item], sep) == item,
        items.len() > 0 ==> joined(items.push(item), sep) == joined(items, sep) + sep + item,
{
    assert(items.push(item).drop_last() =~= items);
}


/// Every repetition of a text at the front is taken off, one after the other, and nothing where
/// it does not stand.
pub proof fn law_leading_repetitions_are_taken_off(p: Seq<char>, s: Seq<char>)
    requires
        p.len() > 0,
    ensures
        without_leading(p + s, p) == without_leading(s, p),
        !starts(s, p) ==> without_leading(s, p) == s,
        after_prefix(p + s, p) == Some(s),
        !starts(s, p) ==> after_prefix(s, p) is None,
{
    let t = p + s;
    assert(t.take(p.len() as int) =~= p);
    assert(t.skip(p.len() as int) =~= s);
}

/// What is left beyond the first items are the others, and nothing where there are no others.
pub proof fn law_beyond_are_the_others<T>(first: Seq<T>, rest: Seq<T>)
    ensures
        beyond(first + rest, first.len() as int) == rest,
        beyond(first, first.len() as int) == Seq::<T>::empty(),
        beyond(first, first.len() as int + 1) == Seq::<T>::empty(),
{
    assert((first + rest).skip(first.len() as int) =~= rest);
    if rest.len() == 0 {
        assert(rest =~= Seq::<T>::empty());
    }
}


/// Beyond ASCII some twenty characters are white space, all of them below the ideographs.
pub proof fn law_other_white_space(c: char)
    ensures
        is_space('\u{85}') && is_space('\u{a0}') && is_space('\u{1680}') && is_space('\u{2028}') && is_space('\u{2029}'),
        is_space('\u{202f}') && is_space('\u{205f}') && is_space('\u{3000}'),
        0x2000 <= c as int <= 0x200a ==> is_space(c),
        c as int > 0x3000 ==> !is_space(c),
        0xa0 < (c as int) < 0x1680 ==> !is_space(c),
{
}

} // verus!
