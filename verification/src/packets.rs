//! Captured packets, from what `tcpdump` prints.
use crate::chars;
use crate::command;
use crate::command::CommandOutput;
use crate::numbers;
use crate::text;
use vstd::prelude::*;

verus! {

/// How many packets a capture takes.
pub const PACKET_CAPTURE_COUNT: u32 = 40;

/// A packet as it is shown. What a line does not tell for sure is left unknown.
#[derive(Debug, Clone)]
pub struct PacketRow {
    pub time: String,
    pub source: String,
    pub destination: String,
    pub proto: String,
    pub length: String,
    pub info: String,
}

#[verifier::ext_equal]
pub struct PacketView {
    pub time: Seq<char>,
    pub source: Seq<char>,
    pub destination: Seq<char>,
    pub proto: Seq<char>,
    pub length: Seq<char>,
    pub info: Seq<char>,
}

impl View for PacketRow {
    type V = PacketView;

    open spec fn view(&self) -> PacketView {
        PacketView {
            time: self.time@,
            source: self.source@,
            destination: self.destination@,
            proto: self.proto@,
            length: self.length@,
            info: self.info@,
        }
    }
}

pub open spec fn opt_packet(p: Option<PacketRow>) -> Option<PacketView> {
    match p {
        Some(p) => Some(p@),
        None => None,
    }
}

pub open spec fn packets(v: Seq<PacketRow>) -> Seq<PacketView> {
    v.map_values(|p: PacketRow| p@)
}

/// The two sides of the first `c`; all of it on the left where there is none.
pub open spec fn sides(s: Seq<char>, c: char) -> (Seq<char>, Seq<char>) {
    match chars::cut(s, c) {
        Some(p) => p,
        None => (s, seq![]),
    }
}

pub open spec fn word_or(words: Seq<Seq<char>>, i: int, other: Seq<char>) -> Seq<char> {
    if 0 <= i < words.len() {
        words[i]
    } else {
        other
    }
}

/// The protocol: TCP shows its flags, and what names no protocol is taken for UDP.
pub open spec fn proto_of(family: Seq<char>, after: Seq<char>) -> Seq<char> {
    if chars::holds_text(after, "Flags ["@) {
        "TCP"@
    } else if family == "IP"@ || family == "IP6"@ {
        if chars::holds_text(after, "ICMP"@) {
            "ICMP"@
        } else {
            "UDP"@
        }
    } else {
        crate::format::UNKNOWN@
    }
}

/// Digits, one or more of them.
pub open spec fn is_count(s: Seq<char>) -> bool {
    s.len() > 0 && chars::span(s, chars::Class::Digit, true) == s.len()
}

/// The digits behind the last `length `, if there are any.
pub open spec fn named_length(after: Seq<char>) -> Option<Seq<char>> {
    match chars::rfind_at(after, "length "@) {
        Some(k) => {
            let rest = after.skip(k + 7);
            let digits = rest.take(chars::span(rest, chars::Class::Digit, true));
            if digits.len() > 0 {
                Some(digits)
            } else {
                None
            }
        },
        None => None,
    }
}

/// The digits that stand in brackets at the end.
pub open spec fn bracketed_length(after: Seq<char>) -> Option<Seq<char>> {
    let rest = chars::after_last(after, '(');
    if rest.len() > 0 && rest.last() == ')' && is_count(rest.drop_last()) {
        Some(rest.drop_last())
    } else {
        None
    }
}

/// The length: the one that is named, or else the one in brackets.
pub open spec fn length_of(after: Seq<char>) -> Seq<char> {
    match named_length(after) {
        Some(n) => n,
        None => crate::format::or_unknown(bracketed_length(after)),
    }
}

/// Whether the colon at `k` ends the addresses: a space follows it, or nothing at all. One behind
/// another colon may belong to an address, as in `:: > ff02::16: `: it ends them only where
/// something other than an arrow follows.
pub open spec fn ends_addresses(s: Seq<char>, k: int) -> bool {
    &&& 0 <= k < s.len()
    &&& s[k] == ':'
    &&& if k > 0 && s[k - 1] == ':' {
        k + 2 < s.len() && s[k + 1] == ' ' && s[k + 2] != '>'
    } else {
        k + 1 == s.len() || s[k + 1] == ' '
    }
}

/// Where the first colon from `k` on stands that ends the addresses; the end if there is none.
pub open spec fn addresses_end(s: Seq<char>, k: int) -> int
    decreases s.len() - k,
{
    if k >= s.len() || ends_addresses(s, k) {
        k
    } else {
        addresses_end(s, k + 1)
    }
}

/// A word at the side of an arrow, which is the word at 2.
pub open spec fn address_at(words: Seq<Seq<char>>, i: int) -> Seq<char> {
    if words.len() > 2 && words[2] == ">"@ {
        word_or(words, i, crate::format::UNKNOWN@)
    } else {
        crate::format::UNKNOWN@
    }
}

/// The first word of a text; nothing where there is none.
pub open spec fn first_word(s: Seq<char>) -> Seq<char> {
    word_or(chars::words_of(s), 0, seq![])
}

/// The packet of a line behind its date and time: addresses, a colon, and what is said of it.
/// Protocol and length are looked for behind the first colon, wherever it stands. A destination
/// is not known where the line has colons, but none that ends the addresses.
pub open spec fn packet_from(time: Seq<char>, rest: Seq<char>) -> PacketView {
    let (head, said) = sides(rest, ':');
    let end = addresses_end(rest, 0);
    let words = chars::words_of(rest.take(end));
    PacketView {
        time,
        source: address_at(words, 1),
        destination: if end < rest.len() || head.len() == rest.len() {
            address_at(words, 3)
        } else {
            crate::format::UNKNOWN@
        },
        proto: proto_of(first_word(head), said),
        length: length_of(said),
        info: if end < rest.len() {
            chars::trimmed(rest.skip(end + 1))
        } else {
            chars::trimmed(said)
        },
    }
}

/// The packet of a line, which starts with a date and a time.
pub open spec fn packet_of(line: Seq<char>) -> Option<PacketView> {
    match chars::cut(chars::trimmed(line), ' ') {
        None => None,
        Some((date, rest)) => {
            let (clock, rest) = sides(rest, ' ');
            Some(packet_from(date + seq![' '] + chars::before_first(clock, '.'), rest))
        },
    }
}

/// A line that tells of a packet from `source` to `destination`.
pub open spec fn packet_line(
    date: Seq<char>,
    clock: Seq<char>,
    family: Seq<char>,
    source: Seq<char>,
    destination: Seq<char>,
    info: Seq<char>,
) -> Seq<char> {
    date + seq![' '] + (clock + seq![' '] + (addressed(family, source, destination) + seq![':', ' '] + info))
}

/// The part of such a line that names the two addresses.
pub open spec fn addressed(family: Seq<char>, source: Seq<char>, destination: Seq<char>) -> Seq<char> {
    family + (seq![' '] + (source + (seq![' '] + (">"@ + (seq![' '] + destination)))))
}

/// Characters that are not white space, one or more of them.
pub open spec fn is_word(s: Seq<char>) -> bool {
    s.len() > 0 && forall|i: int| 0 <= i < s.len() ==> !chars::is_space(#[trigger] s[i])
}

proof fn lemma_nothing_to_trim(s: Seq<char>)
    requires
        s.len() > 0,
        !chars::is_space(s[0]),
        !chars::is_space(s.last()),
    ensures
        chars::trimmed(s) == s,
{
    chars::lemma_span_is(s, chars::Class::Space, true, 0);
    assert(s.skip(0) =~= s);
    chars::lemma_span_back_is(s, chars::Class::Space, true, 0);
    assert(s.take(s.len() as int) =~= s);
}

proof fn lemma_cut_behind_word(w: Seq<char>, rest: Seq<char>)
    requires
        is_word(w),
    ensures
        chars::cut(w + seq![' '] + rest, ' ') == Some((w, rest)),
{
    let s = w + seq![' '] + rest;
    let n = w.len() as int;
    chars::lemma_span_is(s, chars::Class::Is(' '), false, n);
    assert(s.take(n) =~= w);
    assert(s.skip(n + 1) =~= rest);
}

proof fn lemma_first_word(w: Seq<char>, rest: Seq<char>)
    requires
        is_word(w),
        rest.len() > 0 ==> chars::is_space(rest[0]),
    ensures
        chars::words_of(w + rest) == seq![w] + chars::words_of(rest),
{
    let s = w + rest;
    chars::lemma_span_is(s, chars::Class::Space, true, 0);
    assert(s.skip(0) =~= s);
    chars::lemma_span_is(s, chars::Class::Space, false, w.len() as int);
    assert(s.take(w.len() as int) =~= w);
    assert(s.skip(w.len() as int) =~= rest);
}

proof fn lemma_space_before_words(s: Seq<char>)
    ensures
        chars::words_of(seq![' '] + s) == chars::words_of(s),
{
    let t = seq![' '] + s;
    chars::lemma_span(s, chars::Class::Space, true);
    let n = chars::span(s, chars::Class::Space, true);
    assert forall|i: int| 0 <= i < n + 1 implies chars::in_class(chars::Class::Space, #[trigger] t[i]) by {
        if i > 0 {
            assert(t[i] == s[i - 1]);
        }
    }
    chars::lemma_span_is(t, chars::Class::Space, true, n + 1);
    assert(t.skip(n + 1) =~= s.skip(n));
}

proof fn lemma_words_of_addresses(family: Seq<char>, source: Seq<char>, destination: Seq<char>)
    requires
        is_word(family),
        is_word(source),
        is_word(destination),
    ensures
        chars::words_of(addressed(family, source, destination)) == seq![family, source, ">"@, destination],
{
    reveal_strlit(">");
    let space = seq![' '];
    let none: Seq<char> = seq![];
    let c = ">"@ + (space + destination);
    let b = source + (space + c);
    lemma_first_word(destination, none);
    assert(destination + none =~= destination);
    chars::lemma_span_is(none, chars::Class::Space, true, 0);
    lemma_space_before_words(destination);
    lemma_first_word(">"@, space + destination);
    lemma_space_before_words(c);
    lemma_first_word(source, space + c);
    lemma_space_before_words(b);
    lemma_first_word(family, space + b);
    assert(chars::words_of(none) =~= seq![]);
    assert(chars::words_of(addressed(family, source, destination)) =~= seq![family, source, ">"@, destination]);
}

proof fn lemma_addresses_end_is(s: Seq<char>, k: int, end: int)
    requires
        0 <= k <= end < s.len(),
        forall|j: int| k <= j < end ==> !#[trigger] ends_addresses(s, j),
        ends_addresses(s, end),
    ensures
        addresses_end(s, k) == end,
    decreases end - k,
{
    if k < end {
        assert(!ends_addresses(s, k));
        lemma_addresses_end_is(s, k + 1, end);
    }
}

proof fn lemma_end_of_addresses(family: Seq<char>, source: Seq<char>, destination: Seq<char>, info: Seq<char>)
    requires
        is_word(family),
        is_word(source),
        is_word(destination),
        family.last() != ':',
        source.last() == ':' ==> source.len() > 1 && source[source.len() - 2] == ':',
        info.len() > 0,
        destination.last() == ':' ==> info[0] != '>',
    ensures
        addresses_end(addressed(family, source, destination) + seq![':', ' '] + info, 0) == addressed(
            family,
            source,
            destination,
        ).len(),
{
    reveal_strlit(">");
    let head = addressed(family, source, destination);
    let rest = head + seq![':', ' '] + info;
    let end = head.len() as int;
    let f = family.len() as int;
    let o = source.len() as int;
    assert forall|k: int| 0 <= k < end implies !#[trigger] ends_addresses(rest, k) by {
        if k < f {
            assert(rest[k] == family[k]);
            if k + 1 < f {
                assert(rest[k + 1] == family[k + 1]);
            }
        } else if k == f {
            assert(rest[k] == ' ');
        } else if k <= f + o {
            assert(rest[k] == source[k - f - 1]);
            if k < f + o {
                assert(rest[k + 1] == source[k - f]);
            } else {
                assert(o > 1 ==> rest[k - 1] == source[o - 2]);
                assert(rest[k + 1] == ' ');
                assert(rest[k + 2] == '>');
            }
        } else if k <= f + o + 3 {
            assert(rest[k] == ' ' || rest[k] == '>');
        } else {
            assert(rest[k] == destination[k - f - o - 4]);
            if k + 1 < end {
                assert(rest[k + 1] == destination[k - f - o - 3]);
            } else {
                assert(rest[k + 1] == ':');
            }
        }
    }
    assert(rest[end - 1] == destination.last());
    assert(rest[end] == ':' && rest[end + 1] == ' ' && rest[end + 2] == info[0]);
    lemma_addresses_end_is(rest, 0, end);
}

proof fn lemma_packet_from(
    time: Seq<char>,
    family: Seq<char>,
    source: Seq<char>,
    destination: Seq<char>,
    info: Seq<char>,
)
    requires
        is_word(family),
        is_word(source),
        is_word(destination),
        family.last() != ':',
        source.last() == ':' ==> source.len() > 1 && source[source.len() - 2] == ':',
        info.len() > 0,
        !chars::is_space(info[0]),
        !chars::is_space(info.last()),
        destination.last() == ':' ==> info[0] != '>',
    ensures
        packet_from(time, addressed(family, source, destination) + seq![':', ' '] + info) == (PacketView {
            time,
            source,
            destination,
            proto: proto_of(
                first_word(sides(addressed(family, source, destination) + seq![':', ' '] + info, ':').0),
                sides(addressed(family, source, destination) + seq![':', ' '] + info, ':').1,
            ),
            length: length_of(sides(addressed(family, source, destination) + seq![':', ' '] + info, ':').1),
            info,
        }),
{
    let head = addressed(family, source, destination);
    let rest = head + seq![':', ' '] + info;
    let after = seq![' '] + info;
    let n = head.len() as int;
    lemma_end_of_addresses(family, source, destination, info);
    lemma_words_of_addresses(family, source, destination);
    assert(rest.take(n) =~= head);
    assert(rest.skip(n + 1) =~= after);
    assert(chars::trimmed(after) == info) by {
        lemma_nothing_to_trim(info);
        chars::lemma_span_is(after, chars::Class::Space, true, 1);
        chars::lemma_span_is(info, chars::Class::Space, true, 0);
        assert(after.skip(1) =~= info.skip(0));
    }
}

/// Both addresses of a line are shown whole, of whichever family they are, and what is said
/// behind them with them; protocol and length are what stands behind the first colon. An address
/// may hold colons and may end in two of them.
pub proof fn law_addresses_are_whole(
    date: Seq<char>,
    clock: Seq<char>,
    family: Seq<char>,
    source: Seq<char>,
    destination: Seq<char>,
    info: Seq<char>,
)
    requires
        is_word(date),
        is_word(clock),
        is_word(family),
        is_word(source),
        is_word(destination),
        family.last() != ':',
        source.last() == ':' ==> source.len() > 1 && source[source.len() - 2] == ':',
        info.len() > 0,
        !chars::is_space(info[0]),
        !chars::is_space(info.last()),
        destination.last() == ':' ==> info[0] != '>',
    ensures
        ({
            let (head, said) = sides(addressed(family, source, destination) + seq![':', ' '] + info, ':');
            packet_of(packet_line(date, clock, family, source, destination, info)) == Some(
                PacketView {
                    time: date + seq![' '] + chars::before_first(clock, '.'),
                    source,
                    destination,
                    proto: proto_of(first_word(head), said),
                    length: length_of(said),
                    info,
                },
            )
        }),
{
    let rest = addressed(family, source, destination) + seq![':', ' '] + info;
    lemma_nothing_to_trim(packet_line(date, clock, family, source, destination, info));
    lemma_cut_behind_word(date, clock + seq![' '] + rest);
    lemma_cut_behind_word(clock, rest);
    lemma_packet_from(date + seq![' '] + chars::before_first(clock, '.'), family, source, destination, info);
}

/// The text behind the first colon of a line is what is said behind the addresses where these
/// hold none, and the family is the first word before it.
pub proof fn law_first_colon_ends_plain_addresses(
    family: Seq<char>,
    source: Seq<char>,
    destination: Seq<char>,
    info: Seq<char>,
)
    requires
        is_word(family),
        is_word(source),
        is_word(destination),
        !family.contains(':'),
        !source.contains(':'),
        !destination.contains(':'),
    ensures
        ({
            let (head, said) = sides(addressed(family, source, destination) + seq![':', ' '] + info, ':');
            first_word(head) == family && said == seq![' '] + info
        }),
{
    reveal_strlit(">");
    let head = addressed(family, source, destination);
    let rest = head + seq![':', ' '] + info;
    let n = head.len() as int;
    let f = family.len() as int;
    let o = source.len() as int;
    assert forall|i: int| 0 <= i < n implies chars::in_class(chars::Class::Is(':'), #[trigger] rest[i]) == false by {
        if i < f {
            assert(rest[i] == family[i]);
        } else if f < i <= f + o {
            assert(rest[i] == source[i - f - 1]);
        } else if f + o + 3 < i {
            assert(rest[i] == destination[i - f - o - 4]);
        } else {
            assert(rest[i] == ' ' || rest[i] == '>');
        }
    }
    chars::lemma_span_is(rest, chars::Class::Is(':'), false, n);
    assert(rest.take(n) =~= head);
    assert(rest.skip(n + 1) =~= seq![' '] + info);
    lemma_words_of_addresses(family, source, destination);
}

/// The protocol of a line is TCP exactly where the text behind its first colon shows flags, and
/// it is one of four in any case.
pub proof fn law_flags_mean_tcp(time: Seq<char>, rest: Seq<char>)
    ensures
        ({
            let proto = packet_from(time, rest).proto;
            &&& proto == "TCP"@ <==> chars::holds_text(sides(rest, ':').1, "Flags ["@)
            &&& proto == "TCP"@ || proto == "ICMP"@ || proto == "UDP"@ || proto == crate::format::UNKNOWN@
        }),
{
    reveal_strlit("TCP");
    reveal_strlit("ICMP");
    reveal_strlit("UDP");
    reveal_strlit("—");
    assert("TCP"@[0] == 'T' && "UDP"@[0] == 'U' && "TCP"@.len() == 3 && "ICMP"@.len() == 4);
    assert(crate::format::UNKNOWN@.len() == 1);
}

/// The protocol of a line by its family and what stands behind its first colon: TCP shows its
/// flags; of the lines of both IP families without flags, those that hold `ICMP` are ICMP and
/// the others are taken for UDP; of any other family it is not known.
pub proof fn law_protocol_by_family(
    date: Seq<char>,
    clock: Seq<char>,
    family: Seq<char>,
    source: Seq<char>,
    destination: Seq<char>,
    info: Seq<char>,
)
    requires
        is_word(date),
        is_word(clock),
        is_word(family),
        is_word(source),
        is_word(destination),
        !family.contains(':'),
        source.last() == ':' ==> source.len() > 1 && source[source.len() - 2] == ':',
        info.len() > 0,
        chars::is_trim(info),
        destination.last() == ':' ==> info[0] != '>',
    ensures
        ({
            let p = packet_of(
                date + seq![' '] + (clock + seq![' '] + (family + seq![' '] + source + seq![' ', '>', ' '] + destination
                    + seq![':', ' '] + info)),
            );
            let said = chars::cut(
                family + seq![' '] + source + seq![' ', '>', ' '] + destination + seq![':', ' '] + info,
                ':',
            )->Some_0.1;
            let is_ip = family == "IP"@ || family == "IP6"@;
            let flags = chars::holds_text(said, "Flags ["@);
            let named = chars::holds_text(said, "ICMP"@);
            &&& p is Some
            &&& flags ==> p->Some_0.proto == "TCP"@
            &&& !flags && is_ip && named ==> p->Some_0.proto == "ICMP"@
            &&& !flags && is_ip && !named ==> p->Some_0.proto == "UDP"@
            &&& !flags && !is_ip ==> p->Some_0.proto == "—"@
        }),
{
    reveal_strlit(">");
    let rest = addressed(family, source, destination) + seq![':', ' '] + info;
    assert(rest =~= family + seq![' '] + source + seq![' ', '>', ' '] + destination + seq![':', ' '] + info);
    assert(family.last() != ':') by {
        assert(family.contains(family[family.len() - 1]));
    }
    law_addresses_are_whole(date, clock, family, source, destination, info);
    let n = addressed(family, source, destination).len() as int;
    let behind = rest.skip(family.len() as int);
    assert(rest[n] == ':');
    assert(behind[n - family.len()] == ':');
    lemma_family_is_first(family, behind);
    assert(rest =~= family + behind);
    chars::lemma_span(rest, chars::Class::Is(':'), false);
    assert(chars::cut(rest, ':') is Some);
}

proof fn lemma_family_is_first(family: Seq<char>, rest: Seq<char>)
    requires
        is_word(family),
        !family.contains(':'),
        rest.len() > 0,
        rest[0] == ' ',
        rest.contains(':'),
    ensures
        first_word(sides(family + rest, ':').0) == family,
{
    let s = family + rest;
    let none: Seq<char> = seq![];
    chars::lemma_span(s, chars::Class::Is(':'), false);
    let n = chars::span(s, chars::Class::Is(':'), false);
    let i = choose|i: int| 0 <= i < rest.len() && rest[i] == ':';
    assert(s[family.len() + i] == ':');
    assert(n > family.len()) by {
        if n < family.len() {
            assert(s[n] == family[n]);
            assert(family.contains(family[n]));
        } else if n == family.len() {
            assert(s[n] == rest[0]);
        }
    }
    let head = s.take(n);
    let more = head.skip(family.len() as int);
    assert(more[0] == ' ');
    assert(head =~= none + family + more);
    chars::law_space_separates_words(none, family, more);
}

/// The length that is named is the run of digits behind the last `length `, up to what is not a
/// digit.
pub proof fn law_named_length_is_shown(front: Seq<char>, digits: Seq<char>, back: Seq<char>)
    requires
        digits.len() > 0,
        numbers::all_digits(digits),
        back.len() > 0 ==> !chars::is_digit(back[0]),
        !chars::holds_text("ength "@ + digits + back, "length "@),
    ensures
        length_of(front + "length "@ + digits + back) == digits,
{
    reveal_strlit("length ");
    reveal_strlit("ength ");
    let mark = "length "@;
    let s = front + mark + digits + back;
    let k = front.len() as int;
    assert(mark.skip(1) + (digits + back) =~= "ength "@ + digits + back);
    chars::law_rfind_at_the_last(front, mark, digits + back);
    assert(front + mark + (digits + back) =~= s);
    let rest = s.skip(k + 7);
    assert(rest =~= digits + back);
    chars::lemma_span_is(rest, chars::Class::Digit, true, digits.len() as int);
    assert(rest.take(digits.len() as int) =~= digits);
}

/// Without a named length it is the digits in brackets at the very end; where neither stands
/// there, it is not known.
pub proof fn law_bracketed_length_is_shown(front: Seq<char>, digits: Seq<char>)
    requires
        digits.len() > 0,
        numbers::all_digits(digits),
        !chars::holds_text(front + seq!['('] + digits + seq![')'], "length "@),
    ensures
        length_of(front + seq!['('] + digits + seq![')']) == digits,
{
    let s = front + seq!['('] + digits + seq![')'];
    let inner = digits + seq![')'];
    chars::lemma_rfind_at(s, "length "@);
    assert forall|i: int| 0 <= i < inner.len() implies inner[i] != '(' by {
        if i < digits.len() {
            assert(chars::is_digit(digits[i]));
        }
    }
    chars::law_cut_at_the_last(front, '(', inner);
    assert(front + seq!['('] + inner =~= s);
    assert(inner.drop_last() =~= digits);
    chars::lemma_span_is(digits, chars::Class::Digit, true, digits.len() as int);
}

/// A length is one or more digits that stand in the line, or it is not known; it is not known
/// where no length is named and the line does not end in a bracket.
pub proof fn law_length_is_digits_or_unknown(said: Seq<char>)
    ensures
        length_of(said) == "—"@ || (length_of(said).len() > 0 && numbers::all_digits(length_of(said))),
        !chars::holds_text(said, "length "@) && (said.len() == 0 || said.last() != ')') ==> length_of(said) == "—"@,
{
    chars::lemma_rfind_at(said, "length "@);
    if let Some(k) = chars::rfind_at(said, "length "@) {
        let rest = said.skip(k + 7);
        chars::lemma_span(rest, chars::Class::Digit, true);
        let digits = rest.take(chars::span(rest, chars::Class::Digit, true));
        assert forall|i: int| 0 <= i < digits.len() implies chars::is_digit(#[trigger] digits[i]) by {
            assert(chars::in_class(chars::Class::Digit, rest[i]));
        }
    }
    let rest = chars::after_last(said, '(');
    chars::lemma_span_back(said, chars::Class::Is('('), false);
    if rest.len() > 0 {
        assert(rest.last() == said.last());
        let inner = rest.drop_last();
        chars::lemma_span(inner, chars::Class::Digit, true);
        if is_count(inner) {
            assert forall|i: int| 0 <= i < inner.len() implies chars::is_digit(#[trigger] inner[i]) by {
                assert(chars::in_class(chars::Class::Digit, inner[i]));
            }
        }
    }
}

/// The time of a packet is its date and the clock up to the fraction of a second.
pub proof fn law_time_without_fraction(date: Seq<char>, clock: Seq<char>, fraction: Seq<char>, rest: Seq<char>)
    requires
        is_word(date),
        is_word(clock),
        is_word(fraction),
        !clock.contains('.'),
        rest.len() > 0,
        !chars::is_space(rest.last()),
    ensures
        packet_of(date + seq![' '] + (clock + seq!['.'] + fraction + seq![' '] + rest)) matches Some(p) && p.time == date
            + seq![' '] + clock,
        packet_of(date + seq![' '] + (clock + seq![' '] + rest)) matches Some(p) && p.time == date + seq![' '] + clock,
{
    let stamp = clock + seq!['.'] + fraction;
    assert forall|i: int| 0 <= i < stamp.len() implies !chars::is_space(#[trigger] stamp[i]) by {
        if i < clock.len() {
            assert(stamp[i] == clock[i]);
        } else if i > clock.len() {
            assert(stamp[i] == fraction[i - clock.len() - 1]);
        }
    }
    let a = stamp + seq![' '] + rest;
    let b = clock + seq![' '] + rest;
    lemma_nothing_to_trim(date + seq![' '] + a);
    lemma_nothing_to_trim(date + seq![' '] + b);
    lemma_cut_behind_word(date, a);
    lemma_cut_behind_word(date, b);
    lemma_cut_behind_word(stamp, rest);
    lemma_cut_behind_word(clock, rest);
    chars::law_cut_at_the_first(clock, '.', fraction);
}

/// A line shows addresses only where the third of its words is an arrow: the words before and
/// behind it.
pub proof fn law_addresses_stand_around_an_arrow(time: Seq<char>, rest: Seq<char>)
    ensures
        ({
            let words = chars::words_of(rest.take(addresses_end(rest, 0)));
            let p = packet_from(time, rest);
            &&& words.len() < 3 || words[2] != ">"@ ==> p.source == "—"@ && p.destination == "—"@
            &&& words.len() >= 3 && words[2] == ">"@ ==> p.source == words[1]
            &&& words.len() >= 4 && words[2] == ">"@ ==> p.destination == words[3] || p.destination == "—"@
            &&& words.len() == 3 ==> p.destination == "—"@
        }),
{
}

/// The protocol of any line, by the first word before its first colon and by what stands behind
/// that colon.
pub proof fn law_protocol_of_any_line(time: Seq<char>, family: Seq<char>, more: Seq<char>, said: Seq<char>)
    requires
        is_word(family),
        more.len() > 0 ==> chars::is_space(more[0]),
        !family.contains(':'),
        !more.contains(':'),
    ensures
        ({
            let proto = packet_from(time, family + more + seq![':'] + said).proto;
            let silent = packet_from(time, family + more).proto;
            let is_ip = family == "IP"@ || family == "IP6"@;
            &&& chars::holds_text(said, "Flags ["@) ==> proto == "TCP"@
            &&& !chars::holds_text(said, "Flags ["@) && is_ip && chars::holds_text(said, "ICMP"@) ==> proto == "ICMP"@
            &&& !chars::holds_text(said, "Flags ["@) && is_ip && !chars::holds_text(said, "ICMP"@) ==> proto == "UDP"@
            &&& !chars::holds_text(said, "Flags ["@) && !is_ip ==> proto == "—"@
            &&& is_ip ==> silent == "UDP"@
            &&& !is_ip ==> silent == "—"@
        }),
{
    let none: Seq<char> = seq![];
    let head = family + more;
    assert(!head.contains(':')) by {
        if head.contains(':') {
            let i = choose|i: int| 0 <= i < head.len() && head[i] == ':';
            if i < family.len() {
                assert(family.contains(family[i]));
            } else {
                assert(more.contains(more[i - family.len()]));
            }
        }
    }
    chars::law_cut_at_the_first(head, ':', said);
    assert(none + family + more =~= head);
    chars::law_space_separates_words(none, family, more);
    reveal_strlit("Flags [");
    reveal_strlit("ICMP");
    chars::lemma_find_at(none, "Flags ["@);
    chars::lemma_find_at(none, "ICMP"@);
}

/// A line of a date and a time alone is a packet of which nothing else is known.
pub proof fn law_bare_line(date: Seq<char>, clock: Seq<char>)
    requires
        is_word(date),
        is_word(clock),
        !clock.contains('.'),
    ensures
        packet_of(date + seq![' '] + clock) == Some(
            PacketView {
                time: date + seq![' '] + clock,
                source: "—"@,
                destination: "—"@,
                proto: "—"@,
                length: "—"@,
                info: seq![],
            },
        ),
        packet_of(date) is None,
{
    let none: Seq<char> = seq![];
    let line = date + seq![' '] + clock;
    lemma_nothing_to_trim(line);
    lemma_nothing_to_trim(date);
    lemma_cut_behind_word(date, clock);
    assert(!clock.contains(' ')) by {
        if clock.contains(' ') {
            let i = choose|i: int| 0 <= i < clock.len() && clock[i] == ' ';
            assert(!chars::is_space(clock[i]));
        }
    }
    assert(!date.contains(' ')) by {
        if date.contains(' ') {
            let i = choose|i: int| 0 <= i < date.len() && date[i] == ' ';
            assert(!chars::is_space(date[i]));
        }
    }
    chars::law_cut_at_the_first(clock, ' ', none);
    chars::law_cut_at_the_first(date, ' ', none);
    chars::law_cut_at_the_first(clock, '.', none);
    chars::law_cut_at_the_first(none, ':', none);
    lemma_no_end(none, 0);
    assert(none.take(0) =~= none);
    let empty: Seq<char> = seq![];
    chars::law_space_separates_words(none, seq!['x'], empty);
    chars::law_trim_text_stays(none);
    reveal_strlit("Flags [");
    reveal_strlit("length ");
    reveal_strlit("IP");
    reveal_strlit("IP6");
    chars::lemma_find_at(none, "Flags ["@);
    chars::lemma_find_at(none, "length "@);
    law_length_is_digits_or_unknown(none);
    assert("IP"@.len() == 2 && "IP6"@.len() == 3);
}

/// The packets of a capture are those of its lines, one for each line with a packet, in order.
pub proof fn law_each_line_has_its_packet(lines: Seq<Seq<char>>, line: Seq<char>)
    ensures
        packets_in(seq![]) == Seq::<PacketView>::empty(),
        packet_of(line) is None ==> packets_in(lines.push(line)) == packets_in(lines),
        packet_of(line) matches Some(p) ==> packets_in(lines.push(line)) == packets_in(lines).push(p),
        packet_of(line) is None <==> !chars::trimmed(line).contains(' '),
{
    assert(lines.push(line).drop_last() =~= lines);
    let t = chars::trimmed(line);
    chars::lemma_span(t, chars::Class::Is(' '), false);
}

fn both_sides<'a>(s: &'a [char], c: char) -> (r: (&'a [char], &'a [char]))
    ensures
        (r.0@, r.1@) == sides(s@, c),
{
    match text::split_once(s, c) {
        Some(p) => p,
        None => {
            let none: &'a [char] = text::front(s, 0);
            assert(none@ =~= seq![]);
            (s, none)
        },
    }
}

fn word_at(words: &Vec<&[char]>, i: usize, other: &str) -> (r: String)
    ensures
        r@ == word_or(chars::texts(words@), i as int, other@),
{
    if i < words.len() {
        assert(chars::texts(words@)[i as int] == words@[i as int]@);
        text::string_of(words[i])
    } else {
        other.to_string()
    }
}

fn read_proto(family: &String, after: &[char]) -> (r: String)
    ensures
        r@ == proto_of(family@, after@),
{
    if text::contains(after, "Flags [") {
        "TCP".to_string()
    } else if text::same_str(family.as_str(), "IP") || text::same_str(family.as_str(), "IP6") {
        if text::contains(after, "ICMP") {
            "ICMP".to_string()
        } else {
            "UDP".to_string()
        }
    } else {
        crate::format::UNKNOWN.to_string()
    }
}

fn read_named_length(after: &[char]) -> (r: Option<String>)
    ensures
        chars::opt_text(r) == named_length(after@),
{
    let k: usize = match text::rfind(after, "length ") {
        Some(k) => k,
        None => {
            return None;
        },
    };
    proof {
        reveal_strlit("length ");
        assert(k + "length "@.len() <= after.len());
    }
    let rest: &[char] = text::past(after, k + 7);
    let n: usize = text::measure(rest, chars::Class::Digit, true);
    if n > 0 {
        Some(text::string_of(text::front(rest, n)))
    } else {
        None
    }
}

fn read_bracketed_length(after: &[char]) -> (r: Option<String>)
    ensures
        chars::opt_text(r) == bracketed_length(after@),
{
    let rest: &[char] = text::last_piece(after, '(');
    if rest.len() == 0 || rest[rest.len() - 1] != ')' {
        return None;
    }
    let inner: &[char] = text::front(rest, rest.len() - 1);
    assert(inner@ =~= rest@.drop_last());
    if inner.len() > 0 && text::measure(inner, chars::Class::Digit, true) == inner.len() {
        Some(text::string_of(inner))
    } else {
        None
    }
}

fn read_length(after: &[char]) -> (r: String)
    ensures
        r@ == length_of(after@),
{
    match read_named_length(after) {
        Some(n) => n,
        None => crate::format::shown(&read_bracketed_length(after)),
    }
}

fn find_addresses_end(s: &[char]) -> (r: usize)
    ensures
        r == addresses_end(s@, 0),
        r <= s@.len(),
{
    let mut k: usize = 0;
    while k < s.len()
        invariant
            k <= s@.len(),
            addresses_end(s@, 0) == addresses_end(s@, k as int),
        decreases s.len() - k,
    {
        if s[k] == ':' {
            let more: usize = s.len() - k;
            let ends: bool = if k > 0 && s[k - 1] == ':' {
                more > 2 && s[k + 1] == ' ' && s[k + 2] != '>'
            } else {
                more == 1 || s[k + 1] == ' '
            };
            if ends {
                return k;
            }
        }
        k += 1;
    }
    k
}

fn read_address(words: &Vec<&[char]>, i: usize) -> (r: String)
    ensures
        r@ == address_at(chars::texts(words@), i as int),
{
    assert(words@.len() > 2 ==> chars::texts(words@)[2] == words@[2]@);
    if words.len() > 2 && text::equals(words[2], ">") {
        word_at(words, i, crate::format::UNKNOWN)
    } else {
        crate::format::UNKNOWN.to_string()
    }
}

fn read_packet(line: &[char]) -> (r: Option<PacketRow>)
    ensures
        opt_packet(r) == packet_of(line@),
{
    let (date, rest): (&[char], &[char]) = match text::split_once(text::trim(line), ' ') {
        Some(p) => p,
        None => {
            return None;
        },
    };
    let (clock, rest): (&[char], &[char]) = both_sides(rest, ' ');
    let (head, said): (&[char], &[char]) = both_sides(rest, ':');
    let end: usize = find_addresses_end(rest);
    let words: Vec<&[char]> = text::words(text::front(rest, end));
    let destination: String = if end < rest.len() || head.len() == rest.len() {
        read_address(&words, 3)
    } else {
        crate::format::UNKNOWN.to_string()
    };
    let info: &[char] = if end < rest.len() {
        text::past(rest, end + 1)
    } else {
        said
    };
    proof {
        reveal_strlit("");
        assert(""@ =~= seq![]);
    }
    let family: String = word_at(&text::words(head), 0, "");
    let mut time: Vec<char> = Vec::new();
    text::put(&mut time, date);
    time.push(' ');
    text::put(&mut time, text::first_piece(clock, '.'));
    assert(time@ =~= date@ + seq![' '] + chars::before_first(clock@, '.'));
    Some(
        PacketRow {
            time: text::string_of(time.as_slice()),
            source: read_address(&words, 1),
            destination,
            proto: read_proto(&family, said),
            length: read_length(said),
            info: text::string_of(text::trim(info)),
        },
    )
}

/// Reads a line of `tcpdump -n -tttt`, such as
/// `2026-08-17 07:31:00.123456 IP 192.168.0.44.443 > 1.2.3.4.55111: Flags [P.], length 99`.
pub fn parse_tcpdump_line(line: &str) -> (r: Option<PacketRow>)
    ensures
        opt_packet(r) == packet_of(line@),
        r is None <==> !chars::trimmed(line@).contains(' '),
{
    proof {
        let t = chars::trimmed(line@);
        chars::lemma_span(t, chars::Class::Is(' '), false);
    }
    let cs: Vec<char> = text::chars_of(line);
    read_packet(cs.as_slice())
}

pub open spec fn packets_in(lines: Seq<Seq<char>>) -> Seq<PacketView>
    decreases lines.len(),
{
    if lines.len() == 0 {
        seq![]
    } else {
        match packet_of(lines.last()) {
            Some(p) => packets_in(lines.drop_last()).push(p),
            None => packets_in(lines.drop_last()),
        }
    }
}

pub open spec fn start_error(e: Seq<char>) -> Seq<char> {
    "couldn't start pkexec — is polkit installed? ("@ + e + ")"@
}

pub open spec fn capture_error(stderr: Seq<char>) -> Seq<char> {
    "capture didn't complete — cancelled, or tcpdump not installed? ["@ + chars::last_line(stderr) + "]"@
}

/// The packets of a capture: one without any did not complete.
pub open spec fn capture_of(run: Result<command::CommandView, Seq<char>>) -> Result<Seq<PacketView>, Seq<char>> {
    match run {
        Err(e) => Err(start_error(e)),
        Ok(o) => {
            let rows = packets_in(chars::lines_of(o.stdout));
            if rows.len() == 0 {
                Err(capture_error(o.stderr))
            } else {
                Ok(rows)
            }
        },
    }
}

pub open spec fn result_view(r: Result<Vec<PacketRow>, String>) -> Result<Seq<PacketView>, Seq<char>> {
    match r {
        Ok(v) => Ok(packets(v@)),
        Err(e) => Err(e@),
    }
}

/// The packets that a run of `pkexec tcpdump` captured, or why there are none.
pub fn capture_result(run: &Result<CommandOutput, String>) -> (r: Result<Vec<PacketRow>, String>)
    ensures
        result_view(r) == capture_of(command::start_view(*run)),
{
    let mut message: Vec<char> = Vec::new();
    let o: &CommandOutput = match run {
        Ok(o) => o,
        Err(e) => {
            text::put_str(&mut message, "couldn't start pkexec — is polkit installed? (");
            text::put_str(&mut message, e.as_str());
            text::put_str(&mut message, ")");
            assert(message@ =~= start_error(e@));
            return Err(text::string_of(message.as_slice()));
        },
    };
    let cs: Vec<char> = text::chars_of(o.stdout.as_str());
    let lines: Vec<&[char]> = text::lines(cs.as_slice());
    let ghost all = chars::lines_of(o.stdout@);
    let mut rows: Vec<PacketRow> = Vec::new();
    assert(packets(rows@) =~= packets_in(all.take(0)));
    let mut i: usize = 0;
    while i < lines.len()
        invariant
            i <= lines@.len(),
            chars::texts(lines@) == all,
            packets(rows@) == packets_in(all.take(i as int)),
        decreases lines.len() - i,
    {
        let ghost before = packets(rows@);
        proof {
            assert(all[i as int] == lines@[i as int]@);
            assert(all.take(i + 1).drop_last() =~= all.take(i as int));
        }
        if let Some(row) = read_packet(lines[i]) {
            let ghost rv = row@;
            rows.push(row);
            assert(packets(rows@) =~= before.push(rv));
        }
        i += 1;
    }
    assert(all.take(all.len() as int) =~= all);
    if rows.len() == 0 {
        let stderr: Vec<char> = text::chars_of(o.stderr.as_str());
        text::put_str(&mut message, "capture didn't complete — cancelled, or tcpdump not installed? [");
        text::put(&mut message, text::last_line(stderr.as_slice()));
        text::put_str(&mut message, "]");
        assert(message@ =~= capture_error(o.stderr@));
        return Err(text::string_of(message.as_slice()));
    }
    Ok(rows)
}

/// The arguments of `pkexec` for a capture.
pub fn capture_args() -> (r: Vec<&'static str>)
    ensures
        r@ == seq!["tcpdump", "-n", "-tttt", "-l", "-i", "any", "-c"],
{
    vec!["tcpdump", "-n", "-tttt", "-l", "-i", "any", "-c"]
}


/// A capture gives its packets, and an error where there are none: the last line of what was
/// complained of, or why it could not be started. How it ended does not matter.
pub proof fn law_capture_needs_packets(o: command::CommandView, e: Seq<char>)
    ensures
        ({
            let rows = packets_in(chars::lines_of(o.stdout));
            &&& rows.len() > 0 ==> capture_of(Ok(o)) == Ok::<Seq<PacketView>, Seq<char>>(rows)
            &&& rows.len() == 0 ==> capture_of(Ok(o)) == Err::<Seq<PacketView>, Seq<char>>(
                "capture didn't complete — cancelled, or tcpdump not installed? ["@ + chars::last_line(o.stderr) + "]"@,
            )
            &&& capture_of(Err(e)) == Err::<Seq<PacketView>, Seq<char>>(
                "couldn't start pkexec — is polkit installed? ("@ + e + ")"@,
            )
        }),
        PACKET_CAPTURE_COUNT == 40,
{
}

/// Where no colon ends the addresses, what is said is what stands behind the first colon, and
/// nothing where there is none.
pub proof fn law_said_without_addresses(time: Seq<char>, head: Seq<char>, said: Seq<char>)
    requires
        !head.contains(':'),
        addresses_end(head + seq![':'] + said, 0) >= (head + seq![':'] + said).len(),
    ensures
        packet_from(time, head + seq![':'] + said).info == chars::trimmed(said),
        packet_from(time, head + seq![':'] + said).destination == "—"@,
        packet_from(time, head + seq![':'] + said).time == time,
{
    chars::law_cut_at_the_first(head, ':', said);
}

/// A line without any colon says nothing, and its addresses are the words around its arrow.
pub proof fn law_line_without_colon(time: Seq<char>, family: Seq<char>, source: Seq<char>, destination: Seq<char>)
    requires
        is_word(family),
        is_word(source),
        is_word(destination),
        !family.contains(':'),
        !source.contains(':'),
        !destination.contains(':'),
    ensures
        ({
            let p = packet_from(time, addressed(family, source, destination));
            &&& p.source == source
            &&& p.destination == destination
            &&& p.info == Seq::<char>::empty()
            &&& p.length == "—"@
        }),
{
    reveal_strlit(">");
    let rest = addressed(family, source, destination);
    let f = family.len() as int;
    let o = source.len() as int;
    assert(!rest.contains(':')) by {
        assert forall|i: int| 0 <= i < rest.len() implies rest[i] != ':' by {
            if i < f {
                assert(family.contains(family[i]));
            } else if f < i <= f + o {
                assert(source.contains(source[i - f - 1]));
            } else if f + o + 3 < i {
                assert(destination.contains(destination[i - f - o - 4]));
            } else {
                assert(rest[i] == ' ' || rest[i] == '>');
            }
        }
    }
    chars::law_cut_at_the_first(rest, ':', rest);
    lemma_no_end(rest, 0);
    assert(rest.take(rest.len() as int) =~= rest);
    lemma_words_of_addresses(family, source, destination);
    let none: Seq<char> = seq![];
    chars::law_trim_text_stays(none);
    reveal_strlit("length ");
    chars::lemma_find_at(none, "length "@);
    law_length_is_digits_or_unknown(none);
}

proof fn lemma_no_end(s: Seq<char>, k: int)
    requires
        !s.contains(':'),
        0 <= k <= s.len(),
    ensures
        addresses_end(s, k) == s.len(),
    decreases s.len() - k,
{
    if k < s.len() {
        assert(s.contains(s[k]));
        lemma_no_end(s, k + 1);
    }
}

} // verus!
