//! Text operations on slices of characters, each proved against its meaning in `chars`.
use crate::chars;
use vstd::prelude::*;
use vstd::slice::slice_subrange;

verus! {

/// `String::push` appends the given character to the end of the string.
pub assume_specification[ String::push ](s: &mut String, c: char)
    ensures
        final(s)@ == old(s)@.push(c),
;

/// The characters of a string, in order.
pub fn chars_of(s: &str) -> (r: Vec<char>)
    ensures
        r@ == s@,
{
    let mut r: Vec<char> = Vec::new();
    for c in it: s.chars()
        invariant
            r@ == it.seq().take(it.index() as int),
            it.seq() == s@,
    {
        r.push(c);
    }
    r
}

/// The string that holds the given characters.
pub fn string_of(s: &[char]) -> (r: String)
    ensures
        r@ == s@,
{
    let mut r: String = String::new();
    let mut i: usize = 0;
    while i < s.len()
        invariant
            i <= s@.len(),
            r@ == s@.take(i as int),
        decreases s.len() - i,
    {
        r.push(s[i]);
        i += 1;
        assert(s@.take(i as int) =~= s@.take(i - 1).push(s@[i - 1]));
    }
    assert(s@.take(i as int) =~= s@);
    r
}

/// Appends `s` to `out`.
pub fn put(out: &mut Vec<char>, s: &[char])
    ensures
        final(out)@ == old(out)@ + s@,
{
    let mut i: usize = 0;
    while i < s.len()
        invariant
            i <= s@.len(),
            out@ == old(out)@ + s@.take(i as int),
        decreases s.len() - i,
    {
        out.push(s[i]);
        i += 1;
        assert(s@.take(i as int) =~= s@.take(i - 1).push(s@[i - 1]));
    }
    assert(s@.take(i as int) =~= s@);
}

/// Appends the characters of `s` to `out`.
pub fn put_str(out: &mut Vec<char>, s: &str)
    ensures
        final(out)@ == old(out)@ + s@,
{
    let c: Vec<char> = chars_of(s);
    put(out, c.as_slice());
}

pub fn is_space_char(c: char) -> (r: bool)
    ensures
        r == chars::is_space(c),
{
    let n: u32 = c as u32;
    (0x09 <= n && n <= 0x0d) || n == 0x20 || n == 0x85 || n == 0xa0 || n == 0x1680 || (0x2000 <= n && n <= 0x200a)
        || n == 0x2028 || n == 0x2029 || n == 0x202f || n == 0x205f || n == 0x3000
}

pub fn is_in(k: chars::Class, c: char) -> (r: bool)
    ensures
        r == chars::in_class(k, c),
{
    match k {
        chars::Class::Space => is_space_char(c),
        chars::Class::Digit => '0' <= c && c <= '9',
        chars::Class::Numeral => ('0' <= c && c <= '9') || c == '.',
        chars::Class::Is(x) => c == x,
    }
}

/// The length of the longest run at the front of `s` that is in the class or outside it.
pub fn measure(s: &[char], k: chars::Class, want: bool) -> (r: usize)
    ensures
        r == chars::span(s@, k, want),
        r <= s@.len(),
{
    let mut i: usize = 0;
    while i < s.len() && is_in(k, s[i]) == want
        invariant
            i <= s@.len(),
            forall|j: int| 0 <= j < i ==> chars::in_class(k, #[trigger] s@[j]) == want,
        decreases s.len() - i,
    {
        i += 1;
    }
    proof {
        chars::lemma_span_is(s@, k, want, i as int);
    }
    i
}

/// The length of the longest run at the back of `s` that is in the class or outside it.
pub fn measure_back(s: &[char], k: chars::Class, want: bool) -> (r: usize)
    ensures
        r == chars::span_back(s@, k, want),
        r <= s@.len(),
{
    let mut i: usize = 0;
    while i < s.len() && is_in(k, s[s.len() - i - 1]) == want
        invariant
            i <= s@.len(),
            forall|j: int| s@.len() - i <= j < s@.len() ==> chars::in_class(k, #[trigger] s@[j]) == want,
        decreases s.len() - i,
    {
        i += 1;
    }
    proof {
        chars::lemma_span_back_is(s@, k, want, i as int);
    }
    i
}

/// The first `n` characters.
pub fn front(s: &[char], n: usize) -> (r: &[char])
    requires
        n <= s@.len(),
    ensures
        r@ == s@.take(n as int),
{
    slice_subrange(s, 0, n)
}

/// All but the first `n` characters.
pub fn past(s: &[char], n: usize) -> (r: &[char])
    requires
        n <= s@.len(),
    ensures
        r@ == s@.skip(n as int),
{
    slice_subrange(s, n, s.len())
}

pub fn trim_start(s: &[char]) -> (r: &[char])
    ensures
        r@ == chars::trimmed_start(s@),
{
    past(s, measure(s, chars::Class::Space, true))
}

pub fn trim_end(s: &[char]) -> (r: &[char])
    ensures
        r@ == chars::trimmed_end(s@),
{
    front(s, s.len() - measure_back(s, chars::Class::Space, true))
}

pub fn trim(s: &[char]) -> (r: &[char])
    ensures
        r@ == chars::trimmed(s@),
{
    trim_end(trim_start(s))
}

pub fn trim_end_of(s: &[char], c: char) -> (r: &[char])
    ensures
        r@ == chars::trimmed_of(s@, c),
{
    front(s, s.len() - measure_back(s, chars::Class::Is(c), true))
}

/// Whether two texts are the same.
pub fn same(a: &[char], b: &[char]) -> (r: bool)
    ensures
        r == (a@ == b@),
{
    if a.len() != b.len() {
        return false;
    }
    let mut i: usize = 0;
    while i < a.len()
        invariant
            i <= a@.len(),
            a@.len() == b@.len(),
            forall|j: int| 0 <= j < i ==> a@[j] == b@[j],
        decreases a.len() - i,
    {
        if a[i] != b[i] {
            return false;
        }
        i += 1;
    }
    assert(a@ =~= b@);
    true
}

pub fn equals(a: &[char], b: &str) -> (r: bool)
    ensures
        r == (a@ == b@),
{
    let c: Vec<char> = chars_of(b);
    same(a, c.as_slice())
}

pub fn same_str(a: &str, b: &str) -> (r: bool)
    ensures
        r == (a@ == b@),
{
    let c: Vec<char> = chars_of(a);
    equals(c.as_slice(), b)
}

fn begins(s: &[char], p: &[char]) -> (r: bool)
    ensures
        r == chars::starts(s@, p@),
{
    p.len() <= s.len() && same(front(s, p.len()), p)
}

pub fn starts_with(s: &[char], p: &str) -> (r: bool)
    ensures
        r == chars::starts(s@, p@),
{
    let c: Vec<char> = chars_of(p);
    begins(s, c.as_slice())
}

pub fn strip_prefix<'a>(s: &'a [char], p: &str) -> (r: Option<&'a [char]>)
    ensures
        r is Some == chars::after_prefix(s@, p@) is Some,
        r matches Some(t) ==> t@ == chars::after_prefix(s@, p@)->Some_0,
{
    let c: Vec<char> = chars_of(p);
    if begins(s, c.as_slice()) {
        Some(past(s, c.len()))
    } else {
        None
    }
}

pub fn trim_leading<'a>(s: &'a [char], p: &str) -> (r: &'a [char])
    ensures
        r@ == chars::without_leading(s@, p@),
{
    let c: Vec<char> = chars_of(p);
    let mut t: &'a [char] = s;
    while c.len() > 0 && begins(t, c.as_slice())
        invariant
            c@ == p@,
            chars::without_leading(t@, p@) == chars::without_leading(s@, p@),
        decreases t@.len(),
    {
        t = past(t, c.len());
    }
    t
}

/// The first place at which `p` stands in `s`.
pub fn find(s: &[char], p: &str) -> (r: Option<usize>)
    ensures
        r is Some == chars::find_at(s@, p@) is Some,
        r matches Some(k) ==> k == chars::find_at(s@, p@)->Some_0 && k + p@.len() <= s@.len(),
{
    let c: Vec<char> = chars_of(p);
    let mut i: usize = 0;
    assert(s@.skip(0) =~= s@);
    loop
        invariant
            i <= s@.len(),
            c@ == p@,
            chars::find_at(s@, p@) == chars::moved(chars::find_at(s@.skip(i as int), p@), i as int),
        decreases s@.len() - i,
    {
        let t: &[char] = past(s, i);
        if begins(t, c.as_slice()) {
            return Some(i);
        }
        if i == s.len() {
            return None;
        }
        assert(s@.skip(i as int).skip(1) =~= s@.skip(i + 1));
        i += 1;
    }
}

/// The last place at which `p` stands in `s`.
pub fn rfind(s: &[char], p: &str) -> (r: Option<usize>)
    ensures
        r is Some == chars::rfind_at(s@, p@) is Some,
        r matches Some(k) ==> k == chars::rfind_at(s@, p@)->Some_0 && k + p@.len() <= s@.len(),
{
    let c: Vec<char> = chars_of(p);
    let mut n: usize = s.len();
    assert(s@.take(n as int) =~= s@);
    loop
        invariant
            n <= s@.len(),
            c@ == p@,
            chars::rfind_at(s@, p@) == chars::rfind_at(s@.take(n as int), p@),
        decreases n,
    {
        let t: &[char] = front(s, n);
        if c.len() <= n && same(past(t, n - c.len()), c.as_slice()) {
            return Some(n - c.len());
        }
        if n == 0 {
            return None;
        }
        assert(s@.take(n as int).drop_last() =~= s@.take(n - 1));
        n -= 1;
    }
}

pub fn contains(s: &[char], p: &str) -> (r: bool)
    ensures
        r == chars::holds_text(s@, p@),
{
    find(s, p).is_some()
}

/// How often `c` occurs in `s`.
pub fn count(s: &[char], c: char) -> (r: usize)
    ensures
        r == chars::count_of(s@, c),
        r <= s@.len(),
{
    let mut n: usize = 0;
    let mut i: usize = 0;
    while i < s.len()
        invariant
            i <= s@.len(),
            n <= i,
            n == chars::count_of(s@.take(i as int), c),
        decreases s.len() - i,
    {
        assert(s@.take(i + 1).drop_last() =~= s@.take(i as int));
        if s[i] == c {
            n += 1;
        }
        i += 1;
    }
    assert(s@.take(i as int) =~= s@);
    n
}

pub open spec fn opt_view(s: Option<&[char]>) -> Option<Seq<char>> {
    match s {
        Some(s) => Some(s@),
        None => None,
    }
}

pub open spec fn pair_view(p: Option<(&[char], &[char])>) -> Option<(Seq<char>, Seq<char>)> {
    match p {
        Some((a, b)) => Some((a@, b@)),
        None => None,
    }
}

/// The two sides of the first `c`.
pub fn split_once(s: &[char], c: char) -> (r: Option<(&[char], &[char])>)
    ensures
        pair_view(r) == chars::cut(s@, c),
{
    let n: usize = measure(s, chars::Class::Is(c), false);
    if n < s.len() {
        Some((front(s, n), past(s, n + 1)))
    } else {
        None
    }
}

/// The two sides of the last `c`.
pub fn rsplit_once(s: &[char], c: char) -> (r: Option<(&[char], &[char])>)
    ensures
        pair_view(r) == chars::cut_back(s@, c),
{
    let n: usize = measure_back(s, chars::Class::Is(c), false);
    if n < s.len() {
        Some((front(s, s.len() - n - 1), past(s, s.len() - n)))
    } else {
        None
    }
}

pub fn first_piece(s: &[char], c: char) -> (r: &[char])
    ensures
        r@ == chars::before_first(s@, c),
{
    front(s, measure(s, chars::Class::Is(c), false))
}

pub fn last_piece(s: &[char], c: char) -> (r: &[char])
    ensures
        r@ == chars::after_last(s@, c),
{
    past(s, s.len() - measure_back(s, chars::Class::Is(c), false))
}

proof fn lemma_texts_push(v: Seq<&[char]>, x: &[char])
    ensures
        chars::texts(v.push(x)) == chars::texts(v).push(x@),
{
    assert(chars::texts(v.push(x)) =~= chars::texts(v).push(x@));
}

/// The pieces between the characters `c`.
pub fn split(s: &[char], c: char) -> (r: Vec<&[char]>)
    ensures
        chars::texts(r@) == chars::pieces(s@, c),
{
    let mut out: Vec<&[char]> = Vec::new();
    let mut t: &[char] = s;
    assert(chars::texts(out@) + chars::pieces(s@, c) =~= chars::pieces(s@, c));
    loop
        invariant
            chars::texts(out@) + chars::pieces(t@, c) == chars::pieces(s@, c),
        decreases t@.len(),
    {
        let n: usize = measure(t, chars::Class::Is(c), false);
        let ghost before = chars::texts(out@);
        if n >= t.len() {
            proof {
                lemma_texts_push(out@, t);
            }
            out.push(t);
            assert(chars::texts(out@) =~= before + chars::pieces(t@, c));
            return out;
        }
        let head: &[char] = front(t, n);
        proof {
            lemma_texts_push(out@, head);
        }
        out.push(head);
        let rest: &[char] = past(t, n + 1);
        assert(chars::texts(out@) + chars::pieces(rest@, c) =~= before + chars::pieces(t@, c));
        t = rest;
    }
}

/// The lines of a text.
pub fn lines(s: &[char]) -> (r: Vec<&[char]>)
    ensures
        chars::texts(r@) == chars::lines_of(s@),
{
    let mut out: Vec<&[char]> = Vec::new();
    let mut t: &[char] = s;
    assert(chars::texts(out@) + chars::lines_of(s@) =~= chars::lines_of(s@));
    while t.len() > 0
        invariant
            chars::texts(out@) + chars::lines_of(t@) == chars::lines_of(s@),
        decreases t@.len(),
    {
        let n: usize = measure(t, chars::Class::Is('\n'), false);
        let ghost before = chars::texts(out@);
        if n >= t.len() {
            proof {
                lemma_texts_push(out@, t);
            }
            out.push(t);
            assert(chars::texts(out@) =~= before + chars::lines_of(t@));
            return out;
        }
        let mut line: &[char] = front(t, n);
        if n > 0 && line[n - 1] == '\r' {
            line = front(line, n - 1);
            assert(line@ =~= chars::without_return(t@.take(n as int)));
        }
        proof {
            lemma_texts_push(out@, line);
        }
        out.push(line);
        let rest: &[char] = past(t, n + 1);
        assert(chars::texts(out@) + chars::lines_of(rest@) =~= before + chars::lines_of(t@));
        t = rest;
    }
    assert(chars::texts(out@) =~= chars::lines_of(s@));
    out
}

/// The words of a text.
pub fn words(s: &[char]) -> (r: Vec<&[char]>)
    ensures
        chars::texts(r@) == chars::words_of(s@),
{
    let mut out: Vec<&[char]> = Vec::new();
    let mut t: &[char] = s;
    assert(chars::texts(out@) + chars::words_of(s@) =~= chars::words_of(s@));
    loop
        invariant
            chars::texts(out@) + chars::words_of(t@) == chars::words_of(s@),
        decreases t@.len(),
    {
        let u: &[char] = trim_start(t);
        let n: usize = measure(u, chars::Class::Space, false);
        let ghost before = chars::texts(out@);
        if n == 0 {
            assert(chars::texts(out@) =~= before + chars::words_of(t@));
            return out;
        }
        let word: &[char] = front(u, n);
        proof {
            lemma_texts_push(out@, word);
            chars::lemma_span(t@, chars::Class::Space, true);
        }
        out.push(word);
        let rest: &[char] = past(u, n);
        assert(chars::texts(out@) + chars::words_of(rest@) =~= before + chars::words_of(t@));
        t = rest;
    }
}

/// The parts between the occurrences of a separator.
pub fn split_str<'a>(s: &'a [char], sep: &str) -> (r: Vec<&'a [char]>)
    requires
        sep@.len() > 0,
    ensures
        chars::texts(r@) == chars::parts(s@, sep@),
{
    let c: Vec<char> = chars_of(sep);
    let mut out: Vec<&'a [char]> = Vec::new();
    let mut t: &'a [char] = s;
    assert(chars::texts(out@) + chars::parts(t@, sep@) =~= chars::parts(s@, sep@));
    loop
        invariant
            sep@.len() > 0,
            c@ == sep@,
            chars::texts(out@) + chars::parts(t@, sep@) == chars::parts(s@, sep@),
        ensures
            chars::find_at(t@, sep@) is None,
        decreases t@.len(),
    {
        let k: usize = match find(t, sep) {
            Some(k) => k,
            None => {
                break;
            },
        };
        let ghost done = chars::texts(out@);
        let head: &'a [char] = front(t, k);
        out.push(head);
        assert(chars::texts(out@) =~= done.push(head@));
        assert(k + c@.len() <= t.len());
        let rest: &'a [char] = past(t, k + c.len());
        assert(done + (seq![head@] + chars::parts(rest@, sep@)) =~= done.push(head@) + chars::parts(rest@, sep@));
        t = rest;
    }
    let ghost done = chars::texts(out@);
    out.push(t);
    assert(chars::texts(out@) =~= done + seq![t@]);
    out
}

/// The last line, or nothing.
pub fn last_line(s: &[char]) -> (r: &[char])
    ensures
        r@ == chars::last_line(s@),
{
    let all: Vec<&[char]> = lines(s);
    if all.len() == 0 {
        let none: &[char] = front(s, 0);
        assert(none@ =~= seq![]);
        none
    } else {
        assert(chars::texts(all@).last() == all@.last()@);
        all[all.len() - 1]
    }
}

/// The word that follows the first occurrence of `key`.
pub fn word_after<'a>(words: &Vec<&'a [char]>, key: &str) -> (r: Option<&'a [char]>)
    ensures
        opt_view(r) == chars::word_after(chars::texts(words@), key@),
{
    let ghost all = chars::texts(words@);
    let mut i: usize = 0;
    assert(all.skip(0) =~= all);
    while i < words.len()
        invariant
            i <= words@.len(),
            all == chars::texts(words@),
            chars::word_after(all, key@) == chars::word_after(all.skip(i as int), key@),
        decreases words.len() - i,
    {
        assert(all[i as int] == words@[i as int]@);
        assert(all.skip(i as int).skip(1) =~= all.skip(i + 1));
        if equals(words[i], key) {
            if i + 1 < words.len() {
                assert(all[i + 1] == words@[i + 1]@);
                return Some(words[i + 1]);
            } else {
                return None;
            }
        }
        i += 1;
    }
    None
}

/// A copy of an optional string.
pub fn copy_opt(s: &Option<String>) -> (r: Option<String>)
    ensures
        chars::opt_text(r) == chars::opt_text(*s),
{
    match s {
        Some(t) => Some(t.clone()),
        None => None,
    }
}

} // verus!
