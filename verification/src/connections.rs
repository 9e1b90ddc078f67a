//! Open sockets: the list that `ss -tuinp` prints, and how the sockets in it fare over time.
use crate::chars;
use crate::command;
use crate::command::CommandOutput;
use crate::numbers;
use crate::order;
use crate::pattern;
use crate::pattern::Group;
use crate::text;
use regex::Regex;
use vstd::hash_map::StringHashMap;
use vstd::prelude::*;

verus! {

/// The line of a socket: protocol, state, two queue lengths, local and peer address and,
/// where the process is known, its name and number.
pub const SOCKET_LINE: &'static str =
    r#"^(?P<proto>tcp|udp)\s+(?P<state>\S+)\s+\d+\s+\d+\s+(?P<local>\S+)\s+(?P<peer>\S+)(?:\s+users:\(\("(?P<proc>[^"]+)",pid=(?P<pid>\d+),fd=\d+\)\))?"#;

/// The counters in the indented line that `ss -i` puts below a TCP socket.
pub const INFO_LINE: &'static str = r"bytes_sent:(?P<sent>\d+).*?bytes_received:(?P<recv>\d+)";

/// A TCP or UDP socket. The counters are the bytes sent and received so far: `ss` has them for
/// TCP only, so a UDP socket and a TCP socket without an info line have none.
#[derive(Debug, Clone)]
pub struct Connection {
    pub proto: String,
    pub state: String,
    pub local: String,
    pub peer: String,
    pub proc_name: String,
    pub pid: String,
    pub sent_bytes: Option<u64>,
    pub recv_bytes: Option<u64>,
}

#[verifier::ext_equal]
pub struct ConnectionView {
    pub proto: Seq<char>,
    pub state: Seq<char>,
    pub local: Seq<char>,
    pub peer: Seq<char>,
    pub proc_name: Seq<char>,
    pub pid: Seq<char>,
    pub sent_bytes: Option<u64>,
    pub recv_bytes: Option<u64>,
}

impl View for Connection {
    type V = ConnectionView;

    open spec fn view(&self) -> ConnectionView {
        ConnectionView {
            proto: self.proto@,
            state: self.state@,
            local: self.local@,
            peer: self.peer@,
            proc_name: self.proc_name@,
            pid: self.pid@,
            sent_bytes: self.sent_bytes,
            recv_bytes: self.recv_bytes,
        }
    }
}

pub open spec fn views(conns: Seq<Connection>) -> Seq<ConnectionView> {
    conns.map_values(|c: Connection| c@)
}

/// One line of the list, as far as it matters.
pub enum SsLine {
    /// An indented line with the counters of the socket above it.
    Counters(Option<u64>, Option<u64>),
    /// A line that names a socket.
    Socket(Connection),
    /// An indented line without counters.
    Skipped,
    /// A line that is not indented and names no socket that is known of.
    Unknown,
}

pub enum SsLineView {
    Counters(Option<u64>, Option<u64>),
    Socket(ConnectionView),
    Skipped,
    Unknown,
}

impl View for SsLine {
    type V = SsLineView;

    open spec fn view(&self) -> SsLineView {
        match *self {
            SsLine::Counters(s, r) => SsLineView::Counters(s, r),
            SsLine::Socket(c) => SsLineView::Socket(c@),
            SsLine::Skipped => SsLineView::Skipped,
            SsLine::Unknown => SsLineView::Unknown,
        }
    }
}

pub open spec fn line_views(lines: Seq<SsLine>) -> Seq<SsLineView> {
    lines.map_values(|l: SsLine| l@)
}

/// The socket that the groups of a socket line describe.
pub open spec fn socket_of(gs: pattern::Groups) -> ConnectionView {
    ConnectionView {
        proto: pattern::text_in(gs, 1),
        state: pattern::text_in(gs, 2),
        local: pattern::text_in(gs, 3),
        peer: pattern::text_in(gs, 4),
        proc_name: pattern::text_in(gs, 5),
        pid: pattern::text_in(gs, 6),
        sent_bytes: None,
        recv_bytes: None,
    }
}

/// The counters that the groups of an info line hold.
pub open spec fn counters_of(gs: pattern::Groups) -> (Option<u64>, Option<u64>) {
    (numbers::unsigned_of(pattern::text_in(gs, 1)), numbers::unsigned_of(pattern::text_in(gs, 2)))
}

/// What a line says, from whether it is indented and what its pattern captured: an indented line
/// belongs to the socket above it.
pub open spec fn said_by(indented: bool, found: Option<pattern::Groups>) -> SsLineView {
    match found {
        Some(gs) => if indented {
            SsLineView::Counters(counters_of(gs).0, counters_of(gs).1)
        } else {
            SsLineView::Socket(socket_of(gs))
        },
        None => if indented {
            SsLineView::Skipped
        } else {
            SsLineView::Unknown
        },
    }
}

/// What a line says.
pub open spec fn line_of(line: Seq<char>) -> SsLineView {
    if line.len() > 0 && chars::is_space(line[0]) {
        said_by(true, pattern::captured(INFO_LINE@, line))
    } else {
        said_by(false, pattern::captured(SOCKET_LINE@, chars::trimmed(line)))
    }
}

/// The sockets found so far, whether counters that come next are those of the last one, and
/// whether a further one was left out for the limit.
#[verifier::ext_equal]
pub struct Listing {
    pub rows: Seq<ConnectionView>,
    pub counted: bool,
    pub full: bool,
}

/// Whether a socket can have counters: UDP keeps none.
pub open spec fn keeps_counters(c: ConnectionView) -> bool {
    c.proto == "tcp"@
}

pub open spec fn with_counters(rows: Seq<ConnectionView>, sent: Option<u64>, recv: Option<u64>) -> Seq<ConnectionView> {
    if rows.len() == 0 {
        rows
    } else {
        rows.drop_last().push(ConnectionView { sent_bytes: sent, recv_bytes: recv, ..rows.last() })
    }
}

pub open spec fn list_step(s: Listing, line: SsLineView, limit: int) -> Listing {
    if s.full {
        s
    } else {
        match line {
            SsLineView::Skipped => s,
            SsLineView::Unknown => Listing { counted: false, ..s },
            SsLineView::Counters(sent, recv) => if s.counted {
                Listing { rows: with_counters(s.rows, sent, recv), ..s }
            } else {
                s
            },
            SsLineView::Socket(c) => if s.rows.len() >= limit {
                Listing { full: true, ..s }
            } else {
                Listing { rows: s.rows.push(c), counted: keeps_counters(c), ..s }
            },
        }
    }
}

/// The first `limit` sockets of some lines, each TCP one with the counters of the last info line
/// among the indented lines right below it.
pub open spec fn listing_of(lines: Seq<SsLineView>, limit: int) -> Listing
    decreases lines.len(),
{
    if lines.len() == 0 {
        Listing { rows: seq![], counted: false, full: false }
    } else {
        list_step(listing_of(lines.drop_last(), limit), lines.last(), limit)
    }
}

/// What each line after the header says.
pub open spec fn body_lines(output: Seq<char>) -> Seq<SsLineView> {
    chars::beyond(chars::lines_of(output), 1).map_values(|l: Seq<char>| line_of(l))
}

/// The sockets in the output of `ss -tuinp`; none if one of the patterns is not taken for one.
pub open spec fn connections_of(output: Seq<char>, limit: int) -> Seq<ConnectionView> {
    if pattern::is_pattern(SOCKET_LINE@) && pattern::is_pattern(INFO_LINE@) {
        listing_of(body_lines(output), limit).rows
    } else {
        seq![]
    }
}

proof fn lemma_listing(lines: Seq<SsLineView>, limit: int)
    requires
        limit >= 0,
    ensures
        listing_of(lines, limit).rows.len() <= limit,
        listing_of(lines, limit).full ==> listing_of(lines, limit).rows.len() == limit,
    decreases lines.len(),
{
    if lines.len() > 0 {
        lemma_listing(lines.drop_last(), limit);
    }
}

/// A limit leaves out the sockets beyond it and changes nothing of those before it.
pub proof fn law_limit_takes_the_first(lines: Seq<SsLineView>, few: int, many: int)
    requires
        0 <= few <= many,
    ensures
        listing_of(lines, few).rows == order::at_most(listing_of(lines, many).rows, few),
        listing_of(lines, few).rows.len() <= few,
        !listing_of(lines, few).full ==> listing_of(lines, few) == listing_of(lines, many),
        listing_of(lines, few).full == (listing_of(lines, many).rows.len() > few || (few == many && listing_of(
            lines,
            many,
        ).full)),
    decreases lines.len(),
{
    lemma_listing(lines, few);
    lemma_listing(lines, many);
    if lines.len() > 0 {
        let rest = lines.drop_last();
        law_limit_takes_the_first(rest, few, many);
        lemma_listing(rest, few);
        lemma_listing(rest, many);
        let a = listing_of(rest, few);
        let b = listing_of(rest, many);
        match lines.last() {
            SsLineView::Counters(sent, recv) => {
                if a.full && !b.full && b.counted {
                    assert(with_counters(b.rows, sent, recv).take(few) =~= b.rows.take(few));
                }
            },
            SsLineView::Socket(c) => {
                if !b.full && b.rows.len() < many {
                    if a.full {
                        assert(b.rows.push(c).take(few) =~= b.rows.take(few));
                    } else if a.rows.len() >= few {
                        assert(b.rows.push(c).take(few) =~= b.rows);
                    }
                }
            },
            _ => {},
        }
    }
}

/// A socket without its counters.
pub open spec fn uncounted(c: ConnectionView) -> ConnectionView {
    ConnectionView { sent_bytes: None, recv_bytes: None, ..c }
}

pub open spec fn all_uncounted(rows: Seq<ConnectionView>) -> Seq<ConnectionView> {
    rows.map_values(|c: ConnectionView| uncounted(c))
}

/// The sockets that some lines name, in order.
pub open spec fn sockets_in(lines: Seq<SsLineView>) -> Seq<ConnectionView>
    decreases lines.len(),
{
    if lines.len() == 0 {
        seq![]
    } else {
        match lines.last() {
            SsLineView::Socket(c) => sockets_in(lines.drop_last()).push(c),
            _ => sockets_in(lines.drop_last()),
        }
    }
}

/// A listing is of the first sockets that the lines name, each once and in order: other lines
/// add none, and only the counters come from them.
pub proof fn law_rows_are_the_sockets(lines: Seq<SsLineView>, limit: int)
    requires
        limit >= 0,
    ensures
        all_uncounted(listing_of(lines, limit).rows) == order::at_most(all_uncounted(sockets_in(lines)), limit),
        listing_of(lines, limit).full == (sockets_in(lines).len() > limit),
    decreases lines.len(),
{
    let all = listing_of(lines, limit);
    if lines.len() == 0 {
        assert(all_uncounted(all.rows) =~= all_uncounted(sockets_in(lines)));
    } else {
        let rest = lines.drop_last();
        let some = listing_of(rest, limit);
        law_rows_are_the_sockets(rest, limit);
        lemma_listing(rest, limit);
        assert(all_uncounted(sockets_in(rest)).len() == sockets_in(rest).len());
        assert(all_uncounted(some.rows).len() == some.rows.len());
        match lines.last() {
            SsLineView::Counters(sent, recv) => {
                assert(all_uncounted(all.rows) =~= all_uncounted(some.rows));
            },
            SsLineView::Socket(c) => {
                assert(all_uncounted(sockets_in(lines)) =~= all_uncounted(sockets_in(rest)).push(uncounted(c)));
                if !some.full && some.rows.len() < limit {
                    assert(all_uncounted(all.rows) =~= all_uncounted(some.rows).push(uncounted(c)));
                } else {
                    assert(all.rows == some.rows);
                    assert(all_uncounted(sockets_in(lines)).take(limit) =~= order::at_most(
                        all_uncounted(sockets_in(rest)),
                        limit,
                    ));
                }
            },
            _ => {},
        }
    }
}

/// Whether a socket has no counters.
pub open spec fn has_no_counters(c: ConnectionView) -> bool {
    c.sent_bytes is None && c.recv_bytes is None
}

/// Only TCP sockets are listed with counters, if the lines that name them give none.
pub proof fn law_only_tcp_is_counted(lines: Seq<SsLineView>, limit: int)
    requires
        forall|k: int|
            0 <= k < lines.len() ==> ((#[trigger] lines[k]) matches SsLineView::Socket(c) ==> has_no_counters(c)),
    ensures
        forall|i: int|
            0 <= i < listing_of(lines, limit).rows.len() && !keeps_counters(
                #[trigger] listing_of(lines, limit).rows[i],
            ) ==> has_no_counters(listing_of(lines, limit).rows[i]),
        listing_of(lines, limit).counted ==> listing_of(lines, limit).rows.len() > 0 && keeps_counters(
            listing_of(lines, limit).rows.last(),
        ),
    decreases lines.len(),
{
    if lines.len() > 0 {
        let rest = lines.drop_last();
        assert forall|k: int| 0 <= k < rest.len() implies ((#[trigger] rest[k]) matches SsLineView::Socket(c)
            ==> has_no_counters(c)) by {
            assert(rest[k] == lines[k]);
        }
        law_only_tcp_is_counted(rest, limit);
        let before = listing_of(rest, limit).rows;
        let after = listing_of(lines, limit).rows;
        assert(lines[lines.len() - 1] == lines.last());
        assert forall|i: int| 0 <= i < after.len() && !keeps_counters(#[trigger] after[i]) implies has_no_counters(
            after[i],
        ) by {
            if i < before.len() {
                assert(keeps_counters(before[i]) == keeps_counters(after[i]));
            }
        }
    }
}

/// The indented lines below a line that names no known socket belong to no socket above it.
pub proof fn law_counters_stay_with_their_line(lines: Seq<SsLineView>, indented: Seq<SsLineView>, limit: int)
    requires
        forall|k: int| 0 <= k < indented.len() ==> (#[trigger] indented[k] is Counters || indented[k] is Skipped),
    ensures
        listing_of(lines.push(SsLineView::Unknown) + indented, limit) == listing_of(
            lines.push(SsLineView::Unknown),
            limit,
        ),
        listing_of(lines.push(SsLineView::Unknown), limit).rows == listing_of(lines, limit).rows,
    decreases indented.len(),
{
    let above = lines.push(SsLineView::Unknown);
    assert(above.drop_last() =~= lines);
    assert(above.last() is Unknown);
    if indented.len() == 0 {
        assert(above + indented =~= above);
    } else {
        let rest = indented.drop_last();
        assert forall|k: int| 0 <= k < rest.len() implies (#[trigger] rest[k] is Counters || rest[k] is Skipped) by {
            assert(rest[k] == indented[k]);
        }
        law_counters_stay_with_their_line(lines, rest, limit);
        assert((above + indented).drop_last() =~= above + rest);
        assert((above + indented).last() == indented[indented.len() - 1]);
    }
}

/// The counters in the last info line among the indented lines right below a TCP socket become
/// those of the socket, both of them, and nothing else of the listing changes.
pub proof fn law_counters_reach_their_socket(
    lines: Seq<SsLineView>,
    c: ConnectionView,
    indented: Seq<SsLineView>,
    sent: Option<u64>,
    recv: Option<u64>,
    after: Seq<SsLineView>,
    limit: int,
)
    requires
        c.proto == "tcp"@,
        sockets_in(lines).len() < limit,
        forall|k: int| 0 <= k < indented.len() ==> (#[trigger] indented[k] is Counters || indented[k] is Skipped),
        forall|k: int| 0 <= k < after.len() ==> #[trigger] after[k] is Skipped,
    ensures
        ({
            let all = lines.push(SsLineView::Socket(c)) + indented;
            listing_of(all.push(SsLineView::Counters(sent, recv)) + after, limit).rows == listing_of(
                lines,
                limit,
            ).rows.push(ConnectionView { sent_bytes: sent, recv_bytes: recv, ..c })
        }),
{
    let named = lines.push(SsLineView::Socket(c));
    let all = named + indented;
    let rows = listing_of(lines, limit).rows;
    law_next_socket_is_listed_last(lines, c, limit);
    law_rows_are_the_sockets(lines, limit);
    assert(named.drop_last() =~= lines);
    assert(named.last() == SsLineView::Socket(c));
    assert(listing_of(named, limit) == list_step(listing_of(lines, limit), SsLineView::Socket(c), limit));
    lemma_indented_lines(named, indented, limit);
    let last = all.push(SsLineView::Counters(sent, recv));
    assert(last.drop_last() =~= all);
    let before = listing_of(all, limit).rows;
    assert(before.drop_last() =~= rows);
    assert(with_counters(before, sent, recv) =~= rows.push(ConnectionView { sent_bytes: sent, recv_bytes: recv, ..c }));
    lemma_skipped_lines(last, after, limit);
}

/// Indented lines change nothing but the counters of the last socket.
proof fn lemma_indented_lines(lines: Seq<SsLineView>, indented: Seq<SsLineView>, limit: int)
    requires
        listing_of(lines, limit).counted,
        !listing_of(lines, limit).full,
        listing_of(lines, limit).rows.len() > 0,
        forall|k: int| 0 <= k < indented.len() ==> (#[trigger] indented[k] is Counters || indented[k] is Skipped),
    ensures
        ({
            let a = listing_of(lines, limit);
            let b = listing_of(lines + indented, limit);
            &&& b.counted
            &&& !b.full
            &&& b.rows.len() == a.rows.len()
            &&& b.rows.drop_last() == a.rows.drop_last()
            &&& uncounted(b.rows.last()) == uncounted(a.rows.last())
        }),
    decreases indented.len(),
{
    if indented.len() == 0 {
        assert(lines + indented =~= lines);
    } else {
        let rest = indented.drop_last();
        assert forall|k: int| 0 <= k < rest.len() implies (#[trigger] rest[k] is Counters || rest[k] is Skipped) by {
            assert(rest[k] == indented[k]);
        }
        lemma_indented_lines(lines, rest, limit);
        assert((lines + indented).drop_last() =~= lines + rest);
        assert((lines + indented).last() == indented[indented.len() - 1]);
        let m = listing_of(lines + rest, limit);
        if let SsLineView::Counters(sent, recv) = indented.last() {
            assert(with_counters(m.rows, sent, recv).drop_last() =~= m.rows.drop_last());
        }
    }
}

proof fn lemma_skipped_lines(lines: Seq<SsLineView>, indented: Seq<SsLineView>, limit: int)
    requires
        forall|k: int| 0 <= k < indented.len() ==> #[trigger] indented[k] is Skipped,
    ensures
        listing_of(lines + indented, limit) == listing_of(lines, limit),
    decreases indented.len(),
{
    if indented.len() == 0 {
        assert(lines + indented =~= lines);
    } else {
        let rest = indented.drop_last();
        assert forall|k: int| 0 <= k < rest.len() implies #[trigger] rest[k] is Skipped by {
            assert(rest[k] == indented[k]);
        }
        lemma_skipped_lines(lines, rest, limit);
        assert((lines + indented).drop_last() =~= lines + rest);
        assert((lines + indented).last() == indented[indented.len() - 1]);
    }
}

/// A further socket within the limit is listed last, with no counters of any line above it; what
/// was listed before stays as it is. Beyond the limit nothing more is listed.
pub proof fn law_next_socket_is_listed_last(lines: Seq<SsLineView>, c: ConnectionView, limit: int)
    requires
        limit >= 0,
    ensures
        sockets_in(lines).len() < limit ==> listing_of(lines.push(SsLineView::Socket(c)), limit).rows == listing_of(
            lines,
            limit,
        ).rows.push(c),
        sockets_in(lines).len() >= limit ==> listing_of(lines.push(SsLineView::Socket(c)), limit).rows == listing_of(
            lines,
            limit,
        ).rows,
        sockets_in(lines.push(SsLineView::Socket(c))) == sockets_in(lines).push(c),
{
    let named = lines.push(SsLineView::Socket(c));
    let rows = listing_of(lines, limit).rows;
    law_rows_are_the_sockets(lines, limit);
    lemma_listing(lines, limit);
    assert(all_uncounted(rows).len() == rows.len());
    assert(all_uncounted(sockets_in(lines)).len() == sockets_in(lines).len());
    assert(named.drop_last() =~= lines);
}

/// A line is read as a socket or as counters by whether white space stands at its front; the
/// groups of the pattern are protocol, state, both addresses, program and process of a socket,
/// and the two counters of an info line.
pub proof fn law_groups_have_their_places(
    whole: Seq<char>,
    proto: Seq<char>,
    state: Seq<char>,
    local: Seq<char>,
    peer: Seq<char>,
    proc_name: Seq<char>,
    pid: Seq<char>,
    sent: u64,
    recv: u64,
)
    ensures
        ({
            let group = |t: Seq<char>| Some((Seq::<char>::empty(), t));
            let socket = seq![group(whole), group(proto), group(state), group(local), group(peer)];
            let info = seq![
                group(whole),
                group(numbers::decimal(sent as nat)),
                group(numbers::decimal(recv as nat)),
            ];
            let found = ConnectionView {
                proto,
                state,
                local,
                peer,
                proc_name,
                pid,
                sent_bytes: None,
                recv_bytes: None,
            };
            &&& said_by(false, Some(socket + seq![group(proc_name), group(pid)])) == SsLineView::Socket(found)
            &&& said_by(false, Some(socket + seq![None, None])) == SsLineView::Socket(
                ConnectionView { proc_name: seq![], pid: seq![], ..found },
            )
            &&& said_by(true, Some(info)) == SsLineView::Counters(Some(sent), Some(recv))
        }),
{
    numbers::law_unsigned_round_trip(sent);
    numbers::law_unsigned_round_trip(recv);
}

/// Where the patterns are taken for such, the sockets of an output come from its lines below the
/// first, in their order: each line is read on its own, with white space at its front for the
/// counters of a socket and without it for a socket.
pub proof fn law_header_is_left_out(output: Seq<char>, header: Seq<char>, lines: Seq<Seq<char>>, i: int)
    requires
        chars::lines_of(output) == seq![header] + lines,
        0 <= i < lines.len(),
    ensures
        body_lines(output).len() == lines.len(),
        body_lines(output)[i] == if lines[i].len() > 0 && chars::is_space(lines[i][0]) {
            said_by(true, pattern::captured(INFO_LINE@, lines[i]))
        } else {
            said_by(false, pattern::captured(SOCKET_LINE@, chars::trimmed(lines[i])))
        },
{
    assert(chars::beyond(chars::lines_of(output), 1) =~= lines);
}

/// What is in brackets that are not closed is all that follows them.
pub proof fn law_ip_of_open_bracket(address: Seq<char>)
    requires
        !address.contains(']'),
    ensures
        ip_of(seq!['['] + address) == address,
{
    let peer = seq!['['] + address;
    assert(peer.skip(1) =~= address);
    chars::law_cut_at_the_first(address, ']', address);
}

/// A peer without a colon is taken as it is.
pub proof fn law_ip_without_port(peer: Seq<char>)
    requires
        !peer.contains(':'),
        peer.len() == 0 || peer[0] != '[',
    ensures
        ip_of(peer) == peer,
{
    assert forall|j: int| 0 <= j < peer.len() implies chars::in_class(chars::Class::Is(':'), #[trigger] peer[j])
        == false by {
        assert(peer.contains(peer[j]));
    }
    chars::lemma_span_back_is(peer, chars::Class::Is(':'), false, peer.len() as int);
}

/// The socket that the groups of a socket line describe.
pub fn socket_from(gs: &Vec<Option<Group>>) -> (r: Connection)
    ensures
        r@ == socket_of(pattern::groups_view(gs@)),
{
    Connection {
        proto: pattern::text_of(gs, 1),
        state: pattern::text_of(gs, 2),
        local: pattern::text_of(gs, 3),
        peer: pattern::text_of(gs, 4),
        proc_name: pattern::text_of(gs, 5),
        pid: pattern::text_of(gs, 6),
        sent_bytes: None,
        recv_bytes: None,
    }
}

/// The counters that the groups of an info line hold.
pub fn counters_from(gs: &Vec<Option<Group>>) -> (r: (Option<u64>, Option<u64>))
    ensures
        r == counters_of(pattern::groups_view(gs@)),
{
    let sent: Vec<char> = text::chars_of(pattern::text_of(gs, 1).as_str());
    let recv: Vec<char> = text::chars_of(pattern::text_of(gs, 2).as_str());
    (numbers::parse_unsigned(sent.as_slice()), numbers::parse_unsigned(recv.as_slice()))
}

/// Whether all that is said of a socket stands in a text.
pub open spec fn stands_in(c: ConnectionView, line: Seq<char>) -> bool {
    &&& chars::holds_text(line, c.proto)
    &&& chars::holds_text(line, c.state)
    &&& chars::holds_text(line, c.local)
    &&& chars::holds_text(line, c.peer)
    &&& chars::holds_text(line, c.proc_name)
    &&& chars::holds_text(line, c.pid)
}

/// Nothing of a socket is made up: what is said of it stands in the line it was captured in.
pub proof fn law_socket_stands_in_its_line(gs: pattern::Groups, line: Seq<char>)
    requires
        pattern::drawn_from(gs, line),
    ensures
        stands_in(socket_of(gs), line),
{
    pattern::lemma_text_is_held(gs, line, 1);
    pattern::lemma_text_is_held(gs, line, 2);
    pattern::lemma_text_is_held(gs, line, 3);
    pattern::lemma_text_is_held(gs, line, 4);
    pattern::lemma_text_is_held(gs, line, 5);
    pattern::lemma_text_is_held(gs, line, 6);
}

/// Whether all that is said of a socket stands in one of some lines.
pub open spec fn is_named_in(c: ConnectionView, lines: Seq<Seq<char>>) -> bool {
    exists|k: int| 0 <= k < lines.len() && stands_in(c, chars::trimmed(#[trigger] lines[k]))
}

/// Each socket that some lines name is said by one of them.
proof fn lemma_socket_is_said(lines: Seq<SsLineView>, i: int) -> (k: int)
    requires
        0 <= i < sockets_in(lines).len(),
    ensures
        0 <= k < lines.len(),
        lines[k] == SsLineView::Socket(sockets_in(lines)[i]),
    decreases lines.len(),
{
    let rest = lines.drop_last();
    let some = sockets_in(rest);
    if i < some.len() {
        let k = lemma_socket_is_said(rest, i);
        assert(lines[k] == rest[k]);
        assert(sockets_in(lines)[i] == some[i]);
        k
    } else {
        lines.len() - 1
    }
}

/// Nothing of a listing is made up: if what each line says of a socket stands in it, then what
/// is listed stands in the lines.
pub proof fn law_listing_is_named_in_its_lines(said: Seq<SsLineView>, lines: Seq<Seq<char>>, limit: int, i: int)
    requires
        said.len() == lines.len(),
        forall|k: int|
            0 <= k < said.len() ==> ((#[trigger] said[k]) matches SsLineView::Socket(c) ==> stands_in(
                c,
                chars::trimmed(lines[k]),
            )),
        limit >= 0,
        0 <= i < listing_of(said, limit).rows.len(),
    ensures
        is_named_in(listing_of(said, limit).rows[i], lines),
{
    let rows = listing_of(said, limit).rows;
    law_rows_are_the_sockets(said, limit);
    assert(all_uncounted(rows).len() == rows.len());
    assert(all_uncounted(rows)[i] == uncounted(rows[i]));
    assert(all_uncounted(sockets_in(said))[i] == uncounted(sockets_in(said)[i]));
    let k = lemma_socket_is_said(said, i);
    assert(said[k] matches SsLineView::Socket(c) ==> stands_in(c, chars::trimmed(lines[k])));
    assert(stands_in(rows[i], chars::trimmed(lines[k])));
}

/// What a line says, from whether it is indented and what its pattern captured.
pub fn line_from(indented: bool, found: &Option<Vec<Option<Group>>>) -> (r: SsLine)
    ensures
        r@ == said_by(indented, pattern::opt_groups(*found)),
{
    match found {
        Some(gs) => if indented {
            let (sent, recv): (Option<u64>, Option<u64>) = counters_from(gs);
            SsLine::Counters(sent, recv)
        } else {
            SsLine::Socket(socket_from(gs))
        },
        None => if indented {
            SsLine::Skipped
        } else {
            SsLine::Unknown
        },
    }
}

fn read_line(socket_re: &Regex, info_re: &Regex, line: &[char]) -> (r: SsLine)
    requires
        pattern::pattern_of(*socket_re) == SOCKET_LINE@,
        pattern::pattern_of(*info_re) == INFO_LINE@,
    ensures
        r@ == line_of(line@),
        r@ matches SsLineView::Socket(c) ==> stands_in(c, chars::trimmed(line@)),
{
    let indented: bool = line.len() > 0 && text::is_space_char(line[0]);
    let found: Option<Vec<Option<Group>>> = if indented {
        pattern::captures(info_re, text::string_of(line).as_str())
    } else {
        pattern::captures(socket_re, text::string_of(text::trim(line)).as_str())
    };
    proof {
        if found is Some && !indented {
            law_socket_stands_in_its_line(pattern::groups_view(found->Some_0@), chars::trimmed(line@));
        }
    }
    line_from(indented, &found)
}

/// The first `limit` sockets of some lines, with their counters.
pub fn collect_sockets(lines: Vec<SsLine>, limit: usize) -> (r: Vec<Connection>)
    ensures
        views(r@) == listing_of(line_views(lines@), limit as int).rows,
{
    let mut rows: Vec<Connection> = Vec::new();
    let ghost all = line_views(lines@);
    let mut counted: bool = false;
    let mut full: bool = false;
    assert(Listing { rows: views(rows@), counted: false, full: false } =~= listing_of(all.take(0), limit as int));
    let ghost lines0 = lines@;
    for line in it: lines
        invariant
            it.seq() == lines0,
            all == line_views(lines0),
            (Listing { rows: views(rows@), counted, full }) == listing_of(all.take(it.index() as int), limit as int),
    {
        let ghost n = it.index() as int;
        let ghost before = views(rows@);
        let ghost was = Listing { rows: before, counted, full };
        proof {
            assert(all.take(n + 1).drop_last() =~= all.take(n));
            assert(all[n] == line@);
        }
        if !full {
            match line {
                SsLine::Counters(sent, recv) => {
                    if counted {
                        if let Some(last) = rows.pop() {
                            let mut c: Connection = last;
                            c.sent_bytes = sent;
                            c.recv_bytes = recv;
                            rows.push(c);
                        }
                        assert(views(rows@) =~= with_counters(before, sent, recv));
                    }
                },
                SsLine::Socket(c) => {
                    if rows.len() >= limit {
                        full = true;
                    } else {
                        counted = text::same_str(c.proto.as_str(), "tcp");
                        rows.push(c);
                        assert(views(rows@) =~= before.push(c@));
                    }
                },
                SsLine::Skipped => {},
                SsLine::Unknown => {
                    counted = false;
                },
            }
        }
        assert((Listing { rows: views(rows@), counted, full }) =~= list_step(was, all[n], limit as int));
    }
    assert(all.take(all.len() as int) =~= all);
    rows
}

/// The socket that one line names.
pub fn parse_socket_line(line: &str) -> (r: Option<Connection>)
    ensures
        match r {
            Some(c) => pattern::is_pattern(SOCKET_LINE@) && (pattern::captured(SOCKET_LINE@, line@) matches Some(gs)
                && c@ == socket_of(gs)),
            None => pattern::is_pattern(SOCKET_LINE@) ==> pattern::captured(SOCKET_LINE@, line@) is None,
        },
        r matches Some(c) ==> stands_in(c@, line@),
{
    match pattern::compile(SOCKET_LINE) {
        Some(re) => match pattern::captures(&re, line) {
            Some(gs) => {
                proof {
                    law_socket_stands_in_its_line(pattern::groups_view(gs@), line@);
                }
                Some(socket_from(&gs))
            },
            None => None,
        },
        None => None,
    }
}

/// The counters that one line holds.
pub fn parse_info_line(line: &str) -> (r: Option<(Option<u64>, Option<u64>)>)
    ensures
        match r {
            Some(c) => pattern::is_pattern(INFO_LINE@) && (pattern::captured(INFO_LINE@, line@) matches Some(gs) && c
                == counters_of(gs)),
            None => pattern::is_pattern(INFO_LINE@) ==> pattern::captured(INFO_LINE@, line@) is None,
        },
{
    match pattern::compile(INFO_LINE) {
        Some(re) => match pattern::captures(&re, line) {
            Some(gs) => Some(counters_from(&gs)),
            None => None,
        },
        None => None,
    }
}

/// The sockets in the output of `ss -tuinp`, at most `limit` of them. What is said of each stands
/// in a line of the output, and only TCP sockets have counters.
pub fn parse_connections(output: &str, limit: usize) -> (r: Vec<Connection>)
    ensures
        views(r@) == connections_of(output@, limit as int),
        forall|i: int| 0 <= i < r@.len() ==> is_named_in(#[trigger] r@[i]@, chars::beyond(chars::lines_of(output@), 1)),
        forall|i: int| 0 <= i < r@.len() && !keeps_counters(#[trigger] r@[i]@) ==> has_no_counters(r@[i]@),
{
    let cs: Vec<char> = text::chars_of(output);
    let lines: Vec<&[char]> = text::lines(cs.as_slice());
    match (pattern::compile(SOCKET_LINE), pattern::compile(INFO_LINE)) {
        (Some(socket_re), Some(info_re)) => {
            let ghost body = body_lines(output@);
            let ghost all = chars::lines_of(output@);
            let mut read: Vec<SsLine> = Vec::new();
            let mut i: usize = 1;
            while i < lines.len()
                invariant
                    1 <= i,
                    chars::texts(lines@) == all,
                    body == body_lines(output@),
                    pattern::pattern_of(socket_re) == SOCKET_LINE@,
                    pattern::pattern_of(info_re) == INFO_LINE@,
                    all == chars::lines_of(output@),
                    read@.len() == i - 1,
                    lines@.len() == 0 || i <= lines@.len(),
                    lines@.len() == 0 ==> i == 1,
                    forall|j: int| 0 <= j < read@.len() ==> #[trigger] read@[j]@ == body[j],
                    forall|j: int|
                        0 <= j < read@.len() ==> ((#[trigger] body[j]) matches SsLineView::Socket(c) ==> stands_in(
                            c,
                            chars::trimmed(all[j + 1]),
                        )),
                decreases lines.len() - i,
            {
                let l: SsLine = read_line(&socket_re, &info_re, lines[i]);
                assert(all[i as int] == lines@[i as int]@);
                assert(body[i - 1] == l@);
                read.push(l);
                i += 1;
            }
            assert(line_views(read@) =~= body);
            let ghost tail = chars::beyond(all, 1);
            let r: Vec<Connection> = collect_sockets(read, limit);
            proof {
                assert forall|k: int| 0 <= k < body.len() implies ((#[trigger] body[k]) matches SsLineView::Socket(
                    c,
                ) ==> stands_in(c, chars::trimmed(tail[k]))) by {
                    assert(tail[k] == all[k + 1]);
                }
                assert forall|k: int| 0 <= k < body.len() implies ((#[trigger] body[k]) matches SsLineView::Socket(
                    c,
                ) ==> has_no_counters(c)) by {
                    assert(body[k] == line_of(tail[k]));
                }
                law_only_tcp_is_counted(body, limit as int);
                assert forall|i: int| 0 <= i < r@.len() && !keeps_counters(#[trigger] r@[i]@) implies has_no_counters(
                    r@[i]@,
                ) by {
                    assert(views(r@)[i] == r@[i]@);
                }
                assert forall|i: int| 0 <= i < r@.len() implies is_named_in(#[trigger] r@[i]@, tail) by {
                    law_listing_is_named_in_its_lines(body, tail, limit as int, i);
                    assert(views(r@)[i] == r@[i]@);
                }
            }
            r
        },
        _ => {
            let r: Vec<Connection> = Vec::new();
            assert(views(r@) =~= seq![]);
            r
        },
    }
}

/// What a run of `ss -tuinp` listed: nothing where it could not be started or failed.
pub open spec fn listed(run: Option<command::CommandView>, limit: int) -> Seq<ConnectionView> {
    match command::stdout_of(run) {
        Some(output) => connections_of(output, limit),
        None => seq![],
    }
}

/// A run that failed or was not made lists nothing. One that went well lists the sockets that its
/// lines name, in order and each once, up to the limit; a lower limit takes the first of them.
pub proof fn law_run_lists_its_sockets(o: command::CommandView, few: int, many: int)
    requires
        0 <= few <= many,
        pattern::is_pattern(SOCKET_LINE@),
        pattern::is_pattern(INFO_LINE@),
    ensures
        listed(None, many) == Seq::<ConnectionView>::empty(),
        o.code != Some(0i32) ==> listed(Some(o), many) == Seq::<ConnectionView>::empty(),
        o.code == Some(0i32) ==> {
            &&& all_uncounted(listed(Some(o), many)) == order::at_most(
                all_uncounted(sockets_in(body_lines(o.stdout))),
                many,
            )
            &&& listed(Some(o), few) == order::at_most(listed(Some(o), many), few)
        },
        TOP_LISTING_LIMIT == 1000,
{
    law_rows_are_the_sockets(body_lines(o.stdout), many);
    law_limit_takes_the_first(body_lines(o.stdout), few, many);
}

/// The TCP and UDP sockets that a run of `ss -tuinp` listed, at most `limit` of them. The
/// process is known for the sockets of the current user only, unless `ss` ran as root.
pub fn read_connections(run: &Option<CommandOutput>, limit: usize) -> (r: Vec<Connection>)
    ensures
        views(r@) == listed(command::run_view(*run), limit as int),
{
    match command::successful_stdout(run) {
        Some(output) => parse_connections(output, limit),
        None => {
            let r: Vec<Connection> = Vec::new();
            assert(views(r@) =~= seq![]);
            r
        },
    }
}

/// The address in a peer as `ss` prints it, without the port: what stands in brackets, or what
/// stands before the last colon.
pub open spec fn ip_of(peer: Seq<char>) -> Seq<char> {
    if peer.len() > 0 && peer[0] == '[' {
        chars::before_first(peer.skip(1), ']')
    } else {
        match chars::cut_back(peer, ':') {
            Some((ip, _)) => ip,
            None => peer,
        }
    }
}

/// The address of `address:port` is the address.
pub proof fn law_ip_of_plain(address: Seq<char>, port: Seq<char>)
    requires
        address.len() == 0 || address[0] != '[',
        !port.contains(':'),
    ensures
        ip_of(address + seq![':'] + port) == address,
{
    let peer = address + seq![':'] + port;
    let n = address.len() as int;
    assert(peer[0] != '[');
    assert forall|j: int| n + 1 <= j < peer.len() implies chars::in_class(
        chars::Class::Is(':'),
        #[trigger] peer[j],
    ) == false by {
        assert(peer[j] == port[j - n - 1]);
    }
    assert(peer[n] == ':');
    chars::lemma_span_back_is(peer, chars::Class::Is(':'), false, port.len() as int);
    assert(peer.take(n) =~= address);
}

/// The address of `[address]:port` is the address.
pub proof fn law_ip_of_bracketed(address: Seq<char>, rest: Seq<char>)
    requires
        !address.contains(']'),
    ensures
        ip_of(seq!['['] + address + seq![']'] + rest) == address,
{
    let peer = seq!['['] + address + seq![']'] + rest;
    let tail = peer.skip(1);
    let n = address.len() as int;
    assert forall|j: int| 0 <= j < n implies chars::in_class(
        chars::Class::Is(']'),
        #[trigger] tail[j],
    ) == false by {
        assert(tail[j] == address[j]);
    }
    assert(tail[n] == ']');
    chars::lemma_span_is(tail, chars::Class::Is(']'), false, n);
    assert(tail.take(n) =~= address);
}

/// The bare address of a peer, fit for a lookup of where it is.
pub fn peer_ip(peer: &str) -> (r: &str)
    ensures
        r@ == ip_of(peer@),
{
    let cs: Vec<char> = text::chars_of(peer);
    let s: &[char] = cs.as_slice();
    if s.len() > 0 && s[0] == '[' {
        let n: usize = text::first_piece(text::past(s, 1), ']').len();
        proof {
            chars::lemma_span(peer@.skip(1), chars::Class::Is(']'), false);
            assert(peer@.subrange(1, 1 + n) =~= peer@.skip(1).take(n as int));
        }
        peer.substring_char(1, 1 + n)
    } else {
        match text::rsplit_once(s, ':') {
            Some((ip, _)) => {
                proof {
                    chars::lemma_span_back(peer@, chars::Class::Is(':'), false);
                    assert(peer@.subrange(0, ip@.len() as int) =~= peer@.take(ip@.len() as int));
                }
                peer.substring_char(0, ip.len())
            },
            None => peer,
        }
    }
}

/// A process: its number and its name.
pub type Process = (Seq<char>, Seq<char>);

pub open spec fn process_of(c: ConnectionView) -> Process {
    (c.pid, c.proc_name)
}

/// The known processes that own a socket, each once, in the order they first occur.
pub open spec fn processes_of(conns: Seq<ConnectionView>) -> Seq<Process>
    decreases conns.len(),
{
    if conns.len() == 0 {
        seq![]
    } else {
        let some = processes_of(conns.drop_last());
        let p = process_of(conns.last());
        if conns.last().pid.len() == 0 || some.contains(p) {
            some
        } else {
            some.push(p)
        }
    }
}

/// How many of the sockets belong to a process.
pub open spec fn sockets_of(conns: Seq<ConnectionView>, p: Process) -> int
    decreases conns.len(),
{
    if conns.len() == 0 {
        0
    } else {
        sockets_of(conns.drop_last(), p) + if process_of(conns.last()) == p {
            1int
        } else {
            0
        }
    }
}

/// The processes with the number of their sockets.
pub open spec fn tally_of(conns: Seq<ConnectionView>) -> Seq<(Seq<char>, Seq<char>, int)> {
    processes_of(conns).map_values(|p: Process| (p.0, p.1, sockets_of(conns, p)))
}

pub open spec fn counts_of(rows: Seq<(Seq<char>, Seq<char>, int)>) -> Seq<i128> {
    rows.map_values(|r: (Seq<char>, Seq<char>, int)| r.2 as i128)
}

/// The `limit` processes with the most sockets, first those with the most; of processes with
/// equally many, first the one that occurs first.
pub open spec fn top_of(conns: Seq<ConnectionView>, limit: int) -> Seq<(Seq<char>, Seq<char>, int)> {
    let rows = tally_of(conns);
    order::at_most(order::arranged(rows, counts_of(rows)), limit)
}

pub open spec fn row_view(r: (String, String, usize)) -> (Seq<char>, Seq<char>, int) {
    (r.0@, r.1@, r.2 as int)
}

pub open spec fn row_views(rows: Seq<(String, String, usize)>) -> Seq<(Seq<char>, Seq<char>, int)> {
    rows.map_values(|r: (String, String, usize)| row_view(r))
}

proof fn lemma_sockets_bound(conns: Seq<ConnectionView>, p: Process)
    ensures
        0 <= sockets_of(conns, p) <= conns.len(),
    decreases conns.len(),
{
    if conns.len() > 0 {
        lemma_sockets_bound(conns.drop_last(), p);
    }
}

/// Exactly the processes that own a socket and are known are listed.
pub proof fn law_processes_are_owners(conns: Seq<ConnectionView>, p: Process)
    ensures
        processes_of(conns).contains(p) <==> p.0.len() > 0 && sockets_of(conns, p) > 0,
        processes_of(conns).no_duplicates(),
    decreases conns.len(),
{
    if conns.len() > 0 {
        let rest = conns.drop_last();
        let q = process_of(conns.last());
        let some = processes_of(rest);
        law_processes_are_owners(rest, p);
        lemma_sockets_bound(rest, p);
        if conns.last().pid.len() > 0 && !some.contains(q) {
            let all = some.push(q);
            assert(all[some.len() as int] == q);
            if some.contains(p) {
                let i = choose|i: int| 0 <= i < some.len() && some[i] == p;
                assert(all[i] == p);
            }
            assert forall|i: int, j: int| 0 <= i < all.len() && 0 <= j < all.len() && i != j implies all[i] != all[j] by {
                if i < some.len() && j < some.len() {
                    assert(some[i] != some[j]);
                }
            }
        }
    }
}

/// The listed counts descend.
pub proof fn law_top_descends(conns: Seq<ConnectionView>, limit: int, i: int, j: int)
    requires
        limit >= 0,
        conns.len() <= usize::MAX,
        0 <= i <= j < top_of(conns, limit).len(),
    ensures
        top_of(conns, limit).len() <= limit,
        top_of(conns, limit)[i].2 >= top_of(conns, limit)[j].2,
{
    let rows = tally_of(conns);
    let keys = counts_of(rows);
    order::law_arranged_descends(keys, i, j);
    order::law_arranged_keeps_rows(rows, keys, i);
    order::law_arranged_keeps_rows(rows, keys, j);
    let a = order::rank(keys)[i];
    let b = order::rank(keys)[j];
    lemma_sockets_bound(conns, processes_of(conns)[a]);
    lemma_sockets_bound(conns, processes_of(conns)[b]);
}

/// A socket counts once, for the process with its number and its name, and for no other.
pub proof fn law_socket_counts_for_its_process(conns: Seq<ConnectionView>, c: ConnectionView, pid: Seq<char>, name: Seq<char>)
    ensures
        sockets_of(seq![], (pid, name)) == 0,
        c.pid == pid && c.proc_name == name ==> sockets_of(conns.push(c), (pid, name)) == sockets_of(
            conns,
            (pid, name),
        ) + 1,
        c.pid != pid || c.proc_name != name ==> sockets_of(conns.push(c), (pid, name)) == sockets_of(conns, (pid, name)),
{
    assert(conns.push(c).drop_last() =~= conns);
}

/// Each listed row is of a known process, with the number of its sockets; no process is listed
/// twice, and there are as many rows as there are processes, up to the limit.
pub proof fn law_top_counts_sockets(conns: Seq<ConnectionView>, limit: int, i: int)
    requires
        limit >= 0,
        conns.len() <= usize::MAX,
        0 <= i < top_of(conns, limit).len(),
    ensures
        ({
            let (pid, name, n) = top_of(conns, limit)[i];
            &&& processes_of(conns).contains((pid, name))
            &&& n == sockets_of(conns, (pid, name))
            &&& n > 0
        }),
        forall|j: int|
            0 <= j < top_of(conns, limit).len() && j != i ==> (top_of(conns, limit)[i].0, top_of(conns, limit)[i].1) != (
                (#[trigger] top_of(conns, limit)[j]).0,
                top_of(conns, limit)[j].1,
            ),
        top_of(conns, limit).len() == if processes_of(conns).len() <= limit {
            processes_of(conns).len() as int
        } else {
            limit
        },
{
    let rows = tally_of(conns);
    let keys = counts_of(rows);
    let procs = processes_of(conns);
    order::law_rank_exists(keys);
    order::law_arranged_keeps_rows(rows, keys, i);
    let a = order::rank(keys)[i];
    assert(procs.contains(procs[a]));
    law_processes_are_owners(conns, procs[a]);
    assert forall|j: int| 0 <= j < top_of(conns, limit).len() && j != i implies (
    top_of(conns, limit)[i].0, top_of(conns, limit)[i].1) != ((#[trigger] top_of(conns, limit)[j]).0, top_of(conns, limit)[j].1) by {
        let b = order::rank(keys)[j];
        if i < j {
            assert(order::before(keys, order::rank(keys)[i], order::rank(keys)[j]));
        } else {
            assert(order::before(keys, order::rank(keys)[j], order::rank(keys)[i]));
        }
        assert(0 <= b < procs.len());
        assert(procs[a] != procs[b]);
    }
}

/// A process that is left out for the limit has no more sockets than any that is listed.
pub proof fn law_top_leaves_out_the_least(conns: Seq<ConnectionView>, limit: int, p: Process, i: int)
    requires
        limit >= 0,
        conns.len() <= usize::MAX,
        processes_of(conns).contains(p),
        !top_of(conns, limit).contains((p.0, p.1, sockets_of(conns, p))),
        0 <= i < top_of(conns, limit).len(),
    ensures
        top_of(conns, limit).len() == limit,
        sockets_of(conns, p) <= top_of(conns, limit)[i].2,
{
    let rows = tally_of(conns);
    let keys = counts_of(rows);
    let procs = processes_of(conns);
    let x = choose|x: int| 0 <= x < procs.len() && procs[x] == p;
    order::law_rank_exists(keys);
    order::law_arranged_keeps_rows(rows, keys, x);
    order::law_arranged_keeps_rows(rows, keys, i);
    let k = choose|k: int| 0 <= k < rows.len() && #[trigger] order::rank(keys)[k] == x && order::arranged(rows, keys)[k]
        == rows[x];
    if k < top_of(conns, limit).len() {
        assert(top_of(conns, limit)[k] == (p.0, p.1, sockets_of(conns, p)));
    }
    assert(i < k);
    assert(order::before(keys, order::rank(keys)[i], order::rank(keys)[k]));
    lemma_sockets_bound(conns, procs[x]);
    lemma_sockets_bound(conns, procs[order::rank(keys)[i]]);
}

proof fn lemma_processes_step(conns: Seq<ConnectionView>, at: int)
    requires
        conns.len() > 0,
        conns.last().pid.len() > 0,
        0 <= at <= processes_of(conns.drop_last()).len(),
        at < processes_of(conns.drop_last()).len() ==> processes_of(conns.drop_last())[at] == process_of(conns.last()),
        at == processes_of(conns.drop_last()).len() ==> !processes_of(conns.drop_last()).contains(
            process_of(conns.last()),
        ),
    ensures
        ({
            let old_rows = tally_of(conns.drop_last());
            let p = process_of(conns.last());
            if at < old_rows.len() {
                tally_of(conns) == old_rows.update(at, (p.0, p.1, old_rows[at].2 + 1))
            } else {
                tally_of(conns) == old_rows.push((p.0, p.1, 1))
            }
        }),
{
    let rest = conns.drop_last();
    let some = processes_of(rest);
    let p = process_of(conns.last());
    law_processes_are_owners(rest, p);
    lemma_sockets_bound(rest, p);
    if at < some.len() {
        assert(some.contains(p));
        assert forall|i: int| 0 <= i < some.len() && i != at implies some[i] != p by {
            assert(some[at] == p);
        }
        assert(tally_of(conns) =~= tally_of(rest).update(at, (p.0, p.1, tally_of(rest)[at].2 + 1)));
    } else {
        assert(sockets_of(rest, p) == 0);
        assert forall|i: int| 0 <= i < some.len() implies some[i] != p by {
            assert(some.contains(some[i]));
        }
        assert(tally_of(conns) =~= tally_of(rest).push((p.0, p.1, 1)));
    }
}

fn tally(conns: &[Connection]) -> (r: Vec<(String, String, usize)>)
    ensures
        row_views(r@) == tally_of(views(conns@)),
        r@.len() <= conns@.len(),
{
    let mut rows: Vec<(String, String, usize)> = Vec::new();
    let ghost all = views(conns@);
    assert(row_views(rows@) =~= tally_of(all.take(0)));
    let mut i: usize = 0;
    while i < conns.len()
        invariant
            i <= conns@.len(),
            all == views(conns@),
            row_views(rows@) == tally_of(all.take(i as int)),
            rows@.len() <= i,
        decreases conns.len() - i,
    {
        let ghost seen = all.take(i as int);
        let ghost now = all.take(i + 1);
        let ghost old_rows = row_views(rows@);
        proof {
            assert(now.drop_last() =~= seen);
            assert(now.last() == conns@[i as int]@);
        }
        let c: &Connection = &conns[i];
        if !text::same_str(c.pid.as_str(), "") {
            proof {
                reveal_strlit("");
                if c.pid@.len() == 0 {
                    assert(c.pid@ =~= ""@);
                }
            }
            let mut at: usize = 0;
            while at < rows.len() && !(text::same_str(rows[at].0.as_str(), c.pid.as_str()) && text::same_str(
                rows[at].1.as_str(),
                c.proc_name.as_str(),
            ))
                invariant
                    at <= rows@.len(),
                    forall|j: int| 0 <= j < at ==> #[trigger] rows@[j].0@ != c.pid@ || rows@[j].1@ != c.proc_name@,
                decreases rows.len() - at,
            {
                at += 1;
            }
            let ghost p = process_of(c@);
            let ghost procs = processes_of(seen);
            proof {
                assert(old_rows.len() == procs.len());
                assert forall|j: int| 0 <= j < procs.len() implies procs[j] == (rows@[j].0@, rows@[j].1@)
                    && rows@[j].2 == sockets_of(seen, procs[j]) by {
                    assert(tally_of(seen)[j] == row_view(rows@[j]));
                }
                if at == rows@.len() && procs.contains(p) {
                    let j = choose|j: int| 0 <= j < procs.len() && procs[j] == p;
                    assert(procs[j] == (rows@[j].0@, rows@[j].1@));
                    assert(rows@[j].0@ != c.pid@ || rows@[j].1@ != c.proc_name@);
                    assert(false);
                }
                lemma_processes_step(now, at as int);
                if at < rows@.len() {
                    lemma_sockets_bound(seen, procs[at as int]);
                }
            }
            if at < rows.len() {
                let n: usize = rows[at].2 + 1;
                rows.set(at, (c.pid.clone(), c.proc_name.clone(), n));
                assert(row_views(rows@) =~= old_rows.update(at as int, (p.0, p.1, n as int)));
            } else {
                rows.push((c.pid.clone(), c.proc_name.clone(), 1));
                assert(row_views(rows@) =~= old_rows.push((p.0, p.1, 1)));
            }
        } else {
            proof {
                reveal_strlit("");
                assert(processes_of(now) == processes_of(seen));
                assert forall|j: int| 0 <= j < processes_of(now).len() implies tally_of(now)[j] == tally_of(seen)[j] by {
                    law_processes_are_owners(seen, processes_of(seen)[j]);
                    assert(processes_of(seen).contains(processes_of(seen)[j]));
                }
                assert(tally_of(now) =~= tally_of(seen));
            }
        }
        i += 1;
    }
    assert(all.take(all.len() as int) =~= all);
    rows
}

/// Which processes have the most open sockets: a stand-in for network activity that needs no
/// elevated access. It counts sockets, not bytes.
pub fn top_processes_from(connections: &[Connection], limit: usize) -> (r: Vec<(String, String, usize)>)
    ensures
        row_views(r@) == top_of(views(connections@), limit as int),
{
    let rows: Vec<(String, String, usize)> = tally(connections);
    let mut keys: Vec<i128> = Vec::new();
    let ghost tallied = tally_of(views(connections@));
    let mut i: usize = 0;
    while i < rows.len()
        invariant
            i <= rows@.len(),
            row_views(rows@) == tallied,
            keys@ == counts_of(tallied).take(i as int),
        decreases rows.len() - i,
    {
        assert(tallied[i as int] == row_view(rows@[i as int]));
        keys.push(rows[i].2 as i128);
        i += 1;
        assert(keys@ =~= counts_of(tallied).take(i as int));
    }
    assert(keys@ =~= counts_of(tallied));
    let ghost unsorted = rows@;
    let mut sorted: Vec<(String, String, usize)> = order::arrange(rows, &keys);
    proof {
        order::lemma_arranged_map(unsorted, keys@, |r: (String, String, usize)| row_view(r));
    }
    if sorted.len() > limit {
        sorted.truncate(limit);
    }
    assert(row_views(sorted@) =~= top_of(views(connections@), limit as int));
    sorted
}

/// How many sockets a listing made for `read_top_processes_by_connections` may hold.
pub const TOP_LISTING_LIMIT: usize = 1000;

/// `top_processes_from` on what a run of `ss -tuinp` listed.
pub fn read_top_processes_by_connections(run: &Option<CommandOutput>, limit: usize) -> (r: Vec<(String, String, usize)>)
    ensures
        row_views(r@) == top_of(listed(command::run_view(*run), TOP_LISTING_LIMIT as int), limit as int),
{
    let conns: Vec<Connection> = read_connections(run, TOP_LISTING_LIMIT);
    top_processes_from(conns.as_slice(), limit)
}

/// How much a socket sent and received, and in how many nanoseconds: the quotients are its rates.
#[derive(Debug, Clone, Copy, PartialEq, Eq, Structural)]
pub struct ConnectionRate {
    pub sent_bytes: u64,
    pub recv_bytes: u64,
    pub nanos: u64,
}

/// What is known of a socket across polls: its rate, which takes two samples of its counters,
/// and for how many nanoseconds it has been observed. The latter is not the age of the socket,
/// which `ss` does not tell: a socket that was open before the first poll counts from that poll.
#[derive(Debug, Clone, Copy, PartialEq, Eq, Structural)]
pub struct ConnectionTrack {
    pub rate: Option<ConnectionRate>,
    pub duration_nanos: u64,
}

/// What is kept of a socket between polls.
#[derive(Debug, Clone, Copy)]
pub struct TrackedEntry {
    pub first_seen: u64,
    pub prev_bytes: Option<(u64, u64)>,
    pub prev_time: u64,
    pub last_rate: Option<ConnectionRate>,
}

/// The least time between two samples that are compared. Polls come from a timer, from a click
/// and from a change of page: between two that fall together a few bytes would look like an
/// enormous rate.
pub const MIN_RATE_DT_NANOS: u64 = 250_000_000;

/// The key of a socket: its two addresses.
pub open spec fn key_of(c: ConnectionView) -> Seq<char> {
    c.local + seq!['|'] + c.peer
}

pub open spec fn bytes_of(c: ConnectionView) -> Option<(u64, u64)> {
    match (c.sent_bytes, c.recv_bytes) {
        (Some(s), Some(r)) => Some((s, r)),
        _ => None,
    }
}

/// A counter that went back: another socket has taken the same two addresses.
pub open spec fn went_back(now: Option<(u64, u64)>, before: Option<(u64, u64)>) -> bool {
    match (now, before) {
        (Some((s, r)), Some((ps, pr))) => s < ps || r < pr,
        _ => false,
    }
}

/// The time from one instant to another; none if the second is not later.
pub open spec fn elapsed(from: u64, to: u64) -> u64 {
    if to >= from {
        (to - from) as u64
    } else {
        0
    }
}

/// What a first sighting gives: no rate, and a new baseline.
pub open spec fn fresh(c: ConnectionView, now: u64) -> (ConnectionTrack, TrackedEntry) {
    (
        ConnectionTrack { rate: None, duration_nanos: 0 },
        TrackedEntry { first_seen: now, prev_bytes: bytes_of(c), prev_time: now, last_rate: None },
    )
}

pub open spec fn rate_between(before: Option<(u64, u64)>, now: Option<(u64, u64)>, nanos: u64) -> Option<ConnectionRate> {
    match (now, before) {
        (Some((s, r)), Some((ps, pr))) => Some(
            ConnectionRate { sent_bytes: (s - ps) as u64, recv_bytes: (r - pr) as u64, nanos },
        ),
        _ => None,
    }
}

/// What a sighting gives for a socket of which `prev` is kept.
pub open spec fn sighting(prev: Option<TrackedEntry>, c: ConnectionView, now: u64) -> (ConnectionTrack, TrackedEntry) {
    match prev {
        None => fresh(c, now),
        Some(p) => if went_back(bytes_of(c), p.prev_bytes) {
            fresh(c, now)
        } else if elapsed(p.prev_time, now) < MIN_RATE_DT_NANOS {
            (ConnectionTrack { rate: p.last_rate, duration_nanos: elapsed(p.first_seen, now) }, p)
        } else {
            let rate = rate_between(p.prev_bytes, bytes_of(c), elapsed(p.prev_time, now));
            (
                ConnectionTrack { rate, duration_nanos: elapsed(p.first_seen, now) },
                TrackedEntry {
                    first_seen: p.first_seen,
                    prev_bytes: bytes_of(c),
                    prev_time: now,
                    last_rate: rate,
                },
            )
        },
    }
}

pub open spec fn entry_at(entries: Map<Seq<char>, TrackedEntry>, key: Seq<char>) -> Option<TrackedEntry> {
    if entries.contains_key(key) {
        Some(entries[key])
    } else {
        None
    }
}

/// What a poll gives for each key. Of two sockets with one key the later counts.
pub open spec fn poll(entries: Map<Seq<char>, TrackedEntry>, conns: Seq<ConnectionView>, now: u64) -> Map<
    Seq<char>,
    (ConnectionTrack, TrackedEntry),
>
    decreases conns.len(),
{
    if conns.len() == 0 {
        Map::empty()
    } else {
        let key = key_of(conns.last());
        poll(entries, conns.drop_last(), now).insert(key, sighting(entry_at(entries, key), conns.last(), now))
    }
}

/// What a poll reports for each key.
pub open spec fn tracks_after(entries: Map<Seq<char>, TrackedEntry>, conns: Seq<ConnectionView>, now: u64) -> Map<
    Seq<char>,
    ConnectionTrack,
> {
    poll(entries, conns, now).map_values(|p: (ConnectionTrack, TrackedEntry)| p.0)
}

/// What a poll leaves for the next one.
pub open spec fn entries_after(entries: Map<Seq<char>, TrackedEntry>, conns: Seq<ConnectionView>, now: u64) -> Map<
    Seq<char>,
    TrackedEntry,
> {
    poll(entries, conns, now).map_values(|p: (ConnectionTrack, TrackedEntry)| p.1)
}

/// A poll reports and keeps exactly the sockets it is handed: one that is gone is forgotten.
pub proof fn law_poll_knows_its_sockets(
    entries: Map<Seq<char>, TrackedEntry>,
    conns: Seq<ConnectionView>,
    now: u64,
    key: Seq<char>,
)
    ensures
        tracks_after(entries, conns, now).contains_key(key) <==> exists|i: int|
            0 <= i < conns.len() && key_of(#[trigger] conns[i]) == key,
        entries_after(entries, conns, now).contains_key(key) <==> tracks_after(entries, conns, now).contains_key(key),
    decreases conns.len(),
{
    if conns.len() > 0 {
        let rest = conns.drop_last();
        law_poll_knows_its_sockets(entries, rest, now, key);
        if exists|i: int| 0 <= i < rest.len() && key_of(#[trigger] rest[i]) == key {
            let i = choose|i: int| 0 <= i < rest.len() && key_of(#[trigger] rest[i]) == key;
            assert(conns[i] == rest[i]);
        }
        if exists|i: int| 0 <= i < conns.len() && key_of(#[trigger] conns[i]) == key {
            let i = choose|i: int| 0 <= i < conns.len() && key_of(#[trigger] conns[i]) == key;
            if i < rest.len() {
                assert(rest[i] == conns[i]);
            }
        }
        assert(key_of(conns[conns.len() - 1]) == key_of(conns.last()));
    }
}

/// Whether no socket after `i` has the key of socket `i`.
pub open spec fn is_last_of_its_key(conns: Seq<ConnectionView>, i: int) -> bool {
    0 <= i < conns.len() && forall|j: int| i < j < conns.len() ==> key_of(#[trigger] conns[j]) != key_of(conns[i])
}

/// What a poll gives for a socket is its sighting, unless a later one has the same key.
pub proof fn law_poll_is_a_sighting(
    entries: Map<Seq<char>, TrackedEntry>,
    conns: Seq<ConnectionView>,
    now: u64,
    i: int,
)
    requires
        is_last_of_its_key(conns, i),
    ensures
        tracks_after(entries, conns, now).contains_key(key_of(conns[i])),
        tracks_after(entries, conns, now)[key_of(conns[i])] == sighting(
            entry_at(entries, key_of(conns[i])),
            conns[i],
            now,
        ).0,
        entry_at(entries_after(entries, conns, now), key_of(conns[i])) == Some(
            sighting(entry_at(entries, key_of(conns[i])), conns[i], now).1,
        ),
    decreases conns.len(),
{
    let rest = conns.drop_last();
    if i < rest.len() {
        assert(rest[i] == conns[i]);
        assert forall|j: int| i < j < rest.len() implies key_of(#[trigger] rest[j]) != key_of(rest[i]) by {
            assert(rest[j] == conns[j]);
        }
        law_poll_is_a_sighting(entries, rest, now, i);
        assert(key_of(conns[conns.len() - 1]) != key_of(conns[i]));
    }
}

/// The first sighting of a socket has no rate and no duration; the next one, if it is not too
/// early and no counter went back, has the exact bytes and time between the two.
pub proof fn law_rate_takes_two_samples(first: ConnectionView, second: ConnectionView, t: u64, u: u64)
    requires
        bytes_of(first) is Some,
        bytes_of(second) is Some,
        !went_back(bytes_of(second), bytes_of(first)),
        t + MIN_RATE_DT_NANOS <= u,
    ensures
        sighting(None, first, t).0 == (ConnectionTrack { rate: None, duration_nanos: 0 }),
        sighting(Some(sighting(None, first, t).1), second, u).0 == (ConnectionTrack {
            rate: Some(
                ConnectionRate {
                    sent_bytes: (second.sent_bytes->Some_0 - first.sent_bytes->Some_0) as u64,
                    recv_bytes: (second.recv_bytes->Some_0 - first.recv_bytes->Some_0) as u64,
                    nanos: (u - t) as u64,
                },
            ),
            duration_nanos: (u - t) as u64,
        }),
{
}

/// A sighting too soon after the baseline reports the last rate again and leaves everything
/// that is kept as it is.
pub proof fn law_too_soon_changes_nothing(p: TrackedEntry, c: ConnectionView, now: u64)
    requires
        !went_back(bytes_of(c), p.prev_bytes),
        p.prev_time <= now < p.prev_time + MIN_RATE_DT_NANOS,
    ensures
        sighting(Some(p), c, now).0.rate == p.last_rate,
        sighting(Some(p), c, now).1 == p,
{
}

/// A counter that went back is a new socket: no rate, and its duration starts again.
pub proof fn law_reconnect_starts_again(p: TrackedEntry, c: ConnectionView, now: u64)
    requires
        went_back(bytes_of(c), p.prev_bytes),
    ensures
        sighting(Some(p), c, now) == sighting(None, c, now),
        sighting(Some(p), c, now).0 == (ConnectionTrack { rate: None, duration_nanos: 0 }),
{
}

/// A duration is counted from the first sighting, however many follow.
pub proof fn law_duration_counts_from_first(p: TrackedEntry, c: ConnectionView, now: u64)
    requires
        !went_back(bytes_of(c), p.prev_bytes),
        p.first_seen <= now,
    ensures
        sighting(Some(p), c, now).0.duration_nanos == now - p.first_seen,
        sighting(Some(p), c, now).1.first_seen == p.first_seen,
{
}

/// No time that a sighting keeps is later than the sighting, if no earlier one kept such a time:
/// with a clock that does not go back, no duration is cut off at zero.
pub proof fn law_kept_times_are_past(prev: Option<TrackedEntry>, c: ConnectionView, now: u64)
    requires
        prev matches Some(p) ==> p.first_seen <= now && p.prev_time <= now,
    ensures
        sighting(prev, c, now).1.first_seen <= now,
        sighting(prev, c, now).1.prev_time <= now,
{
}

/// A socket that two polls in a row list, the second late enough and with no counter gone back,
/// is reported with the exact bytes and time between them.
pub proof fn law_second_poll_reports_the_rate(
    first: Seq<ConnectionView>,
    i: int,
    t: u64,
    second: Seq<ConnectionView>,
    j: int,
    u: u64,
)
    requires
        is_last_of_its_key(first, i),
        is_last_of_its_key(second, j),
        key_of(first[i]) == key_of(second[j]),
        bytes_of(first[i]) is Some,
        bytes_of(second[j]) is Some,
        !went_back(bytes_of(second[j]), bytes_of(first[i])),
        t + MIN_RATE_DT_NANOS <= u,
    ensures
        tracks_after(entries_after(Map::empty(), first, t), second, u)[key_of(second[j])] == (ConnectionTrack {
            rate: Some(
                ConnectionRate {
                    sent_bytes: (second[j].sent_bytes->Some_0 - first[i].sent_bytes->Some_0) as u64,
                    recv_bytes: (second[j].recv_bytes->Some_0 - first[i].recv_bytes->Some_0) as u64,
                    nanos: (u - t) as u64,
                },
            ),
            duration_nanos: (u - t) as u64,
        }),
{
    law_poll_is_a_sighting(Map::empty(), first, t, i);
    law_poll_is_a_sighting(entries_after(Map::empty(), first, t), second, u, j);
    law_rate_takes_two_samples(first[i], second[j], t, u);
}

/// A poll that comes too soon leaves what is kept of a socket as it was.
pub proof fn law_early_poll_keeps_the_baseline(
    entries: Map<Seq<char>, TrackedEntry>,
    conns: Seq<ConnectionView>,
    i: int,
    now: u64,
)
    requires
        is_last_of_its_key(conns, i),
        entries.contains_key(key_of(conns[i])),
        !went_back(bytes_of(conns[i]), entries[key_of(conns[i])].prev_bytes),
        entries[key_of(conns[i])].prev_time <= now < entries[key_of(conns[i])].prev_time + MIN_RATE_DT_NANOS,
    ensures
        entry_at(entries_after(entries, conns, now), key_of(conns[i])) == Some(entries[key_of(conns[i])]),
        tracks_after(entries, conns, now)[key_of(conns[i])].rate == entries[key_of(conns[i])].last_rate,
{
    law_poll_is_a_sighting(entries, conns, now, i);
    law_too_soon_changes_nothing(entries[key_of(conns[i])], conns[i], now);
}

/// A sighting late enough after the baseline, with counters that did not go back, makes itself
/// the new baseline: its counters and its time are what the next one is compared with. Its rate
/// is the growth of each counter since the old baseline, over the time since then.
pub proof fn law_late_sighting_is_the_new_baseline(
    p: TrackedEntry,
    c: ConnectionView,
    now: u64,
    sent: u64,
    recv: u64,
    sent_before: u64,
    recv_before: u64,
)
    requires
        c.sent_bytes == Some(sent),
        c.recv_bytes == Some(recv),
        p.prev_bytes == Some((sent_before, recv_before)),
        sent_before <= sent,
        recv_before <= recv,
        p.prev_time + 250_000_000 <= now,
    ensures
        sighting(Some(p), c, now).1.prev_bytes == Some((sent, recv)),
        sighting(Some(p), c, now).1.prev_time == now,
        sighting(Some(p), c, now).1.first_seen == p.first_seen,
        sighting(Some(p), c, now).1.last_rate == sighting(Some(p), c, now).0.rate,
        sighting(Some(p), c, now).0.rate matches Some(rate) && {
            &&& sent_before + rate.sent_bytes == sent
            &&& recv_before + rate.recv_bytes == recv
            &&& p.prev_time + rate.nanos == now
        },
{
}

/// The first sighting of a socket, with counters or without, has no rate and no duration yet, and
/// is what the next one is compared with.
pub proof fn law_first_sighting_is_a_baseline(c: ConnectionView, now: u64)
    ensures
        sighting(None, c, now).0 == (ConnectionTrack { rate: None, duration_nanos: 0 }),
        sighting(None, c, now).1.first_seen == now,
        sighting(None, c, now).1.prev_time == now,
        sighting(None, c, now).1.last_rate is None,
        match (c.sent_bytes, c.recv_bytes) {
            (Some(s), Some(r)) => sighting(None, c, now).1.prev_bytes == Some((s, r)),
            _ => sighting(None, c, now).1.prev_bytes is None,
        },
{
}

/// A socket without both counters has no rate once the last one is too old to be repeated, and
/// the sighting after it has nothing to compare with.
pub proof fn law_no_rate_without_counters(p: TrackedEntry, c: ConnectionView, now: u64)
    requires
        c.sent_bytes is None || c.recv_bytes is None,
        p.prev_time + 250_000_000 <= now,
    ensures
        sighting(Some(p), c, now).0.rate is None,
        sighting(Some(p), c, now).1.prev_bytes is None,
        sighting(Some(p), c, now).1.prev_time == now,
        sighting(Some(p), c, now).1.first_seen == p.first_seen,
{
}

/// A socket whose baseline has no counters gets none of its rates from it, but becomes the
/// baseline itself once that is late enough.
pub proof fn law_first_counters_are_a_baseline(p: TrackedEntry, c: ConnectionView, now: u64, sent: u64, recv: u64)
    requires
        p.prev_bytes is None,
        c.sent_bytes == Some(sent),
        c.recv_bytes == Some(recv),
        p.prev_time + 250_000_000 <= now,
    ensures
        sighting(Some(p), c, now).0.rate is None,
        sighting(Some(p), c, now).1.prev_bytes == Some((sent, recv)),
        sighting(Some(p), c, now).1.prev_time == now,
{
}

/// A counter lower than before, whichever of the two, makes a sighting a first one, however long
/// ago the baseline is; the counters just read are the new baseline.
pub proof fn law_lower_counter_is_another_socket(
    p: TrackedEntry,
    c: ConnectionView,
    now: u64,
    sent: u64,
    recv: u64,
    sent_before: u64,
    recv_before: u64,
)
    requires
        c.sent_bytes == Some(sent),
        c.recv_bytes == Some(recv),
        p.prev_bytes == Some((sent_before, recv_before)),
        sent < sent_before || recv < recv_before,
    ensures
        sighting(Some(p), c, now).0 == (ConnectionTrack { rate: None, duration_nanos: 0 }),
        sighting(Some(p), c, now).1 == (TrackedEntry {
            first_seen: now,
            prev_bytes: Some((sent, recv)),
            prev_time: now,
            last_rate: None,
        }),
{
}

/// A sighting less than a quarter of a second after the baseline repeats the last rate, keeps
/// the baseline, and still lets the duration run.
pub proof fn law_early_sighting_repeats_the_rate(p: TrackedEntry, c: ConnectionView, now: u64)
    requires
        p.prev_time <= now < p.prev_time + 250_000_000,
        p.first_seen <= now,
        match (c.sent_bytes, c.recv_bytes, p.prev_bytes) {
            (Some(s), Some(r), Some((ps, pr))) => ps <= s && pr <= r,
            _ => true,
        },
    ensures
        sighting(Some(p), c, now).0.rate == p.last_rate,
        p.first_seen + sighting(Some(p), c, now).0.duration_nanos == now,
        sighting(Some(p), c, now).1 == p,
{
}

/// What is kept after several polls, one after the other.
pub open spec fn entries_after_all(polls: Seq<(Seq<ConnectionView>, u64)>) -> Map<Seq<char>, TrackedEntry>
    decreases polls.len(),
{
    if polls.len() == 0 {
        Map::empty()
    } else {
        entries_after(entries_after_all(polls.drop_last()), polls.last().0, polls.last().1)
    }
}

/// Whether a poll lists one socket between two addresses, with these counters.
pub open spec fn lists(conns: Seq<ConnectionView>, i: int, local: Seq<char>, peer: Seq<char>, sent: u64, recv: u64) -> bool {
    &&& is_last_of_its_key(conns, i)
    &&& conns[i].local == local
    &&& conns[i].peer == peer
    &&& conns[i].sent_bytes == Some(sent)
    &&& conns[i].recv_bytes == Some(recv)
}

/// However many polls there have been, each at least a quarter of a second after the one before
/// and with counters that never go back: each is compared with the one directly before it, and
/// durations run from the first.
pub proof fn law_every_poll_is_compared_with_the_one_before(
    polls: Seq<(Seq<ConnectionView>, u64)>,
    at: Seq<int>,
    counters: Seq<(u64, u64)>,
    local: Seq<char>,
    peer: Seq<char>,
)
    requires
        polls.len() > 0,
        at.len() == polls.len(),
        counters.len() == polls.len(),
        forall|k: int|
            0 <= k < polls.len() ==> lists(
                (#[trigger] polls[k]).0,
                at[k],
                local,
                peer,
                counters[k].0,
                counters[k].1,
            ),
        forall|k: int|
            1 <= k < polls.len() ==> {
                &&& polls[k - 1].1 + 250_000_000 <= (#[trigger] polls[k]).1
                &&& counters[k - 1].0 <= counters[k].0
                &&& counters[k - 1].1 <= counters[k].1
            },
    ensures
        ({
            let n = polls.len() - 1;
            let (conns, now) = polls[n];
            let tracks = tracks_after(entries_after_all(polls.drop_last()), conns, now);
            let key = local + seq!['|'] + peer;
            &&& tracks.contains_key(key)
            &&& polls[0].1 + tracks[key].duration_nanos == now
            &&& n == 0 ==> tracks[key].rate is None
            &&& n > 0 ==> (tracks[key].rate matches Some(rate) && {
                &&& counters[n - 1].0 + rate.sent_bytes == counters[n].0
                &&& counters[n - 1].1 + rate.recv_bytes == counters[n].1
                &&& polls[n - 1].1 + rate.nanos == now
            })
        }),
        ({
            let n = polls.len() - 1;
            let kept = entries_after_all(polls);
            let key = local + seq!['|'] + peer;
            &&& kept.contains_key(key)
            &&& kept[key].first_seen == polls[0].1
            &&& kept[key].prev_bytes == Some(counters[n])
            &&& kept[key].prev_time == polls[n].1
        }),
    decreases polls.len(),
{
    let n = polls.len() - 1;
    let (conns, now) = polls[n];
    let before = entries_after_all(polls.drop_last());
    assert(lists(polls[n].0, at[n], local, peer, counters[n].0, counters[n].1));
    law_poll_is_a_sighting(before, conns, now, at[n]);
    if n > 0 {
        let less = polls.drop_last();
        assert forall|k: int| 0 <= k < less.len() implies lists(
            (#[trigger] less[k]).0,
            at.drop_last()[k],
            local,
            peer,
            counters.drop_last()[k].0,
            counters.drop_last()[k].1,
        ) by {
            assert(lists(polls[k].0, at[k], local, peer, counters[k].0, counters[k].1));
        }
        assert forall|k: int| 1 <= k < less.len() implies {
            &&& less[k - 1].1 + 250_000_000 <= (#[trigger] less[k]).1
            &&& counters.drop_last()[k - 1].0 <= counters.drop_last()[k].0
            &&& counters.drop_last()[k - 1].1 <= counters.drop_last()[k].1
        } by {
            assert(polls[k - 1].1 + 250_000_000 <= polls[k].1);
        }
        law_every_poll_is_compared_with_the_one_before(less, at.drop_last(), counters.drop_last(), local, peer);
        assert(polls[n - 1].1 + 250_000_000 <= polls[n].1);
        lemma_times_ascend(polls, n - 1);
    }
}

proof fn lemma_times_ascend(polls: Seq<(Seq<ConnectionView>, u64)>, n: int)
    requires
        0 <= n < polls.len(),
        forall|k: int| 1 <= k < polls.len() ==> polls[k - 1].1 + 250_000_000 <= (#[trigger] polls[k]).1,
    ensures
        polls[0].1 <= polls[n].1,
    decreases n,
{
    if n > 0 {
        lemma_times_ascend(polls, n - 1);
        assert(polls[n - 1].1 + 250_000_000 <= polls[n].1);
    }
}

/// Follows sockets from poll to poll: rates and durations come from what the polls before saw.
pub struct ConnectionRateTracker {
    entries: StringHashMap<TrackedEntry>,
}

impl View for ConnectionRateTracker {
    type V = Map<Seq<char>, TrackedEntry>;

    closed spec fn view(&self) -> Map<Seq<char>, TrackedEntry> {
        self.entries@
    }
}

impl Default for ConnectionRateTracker {
    fn default() -> (r: Self)
        ensures
            r@ == Map::<Seq<char>, TrackedEntry>::empty(),
    {
        Self::new()
    }
}

fn bytes_now(c: &Connection) -> (r: Option<(u64, u64)>)
    ensures
        r == bytes_of(c@),
{
    match (c.sent_bytes, c.recv_bytes) {
        (Some(s), Some(r)) => Some((s, r)),
        _ => None,
    }
}

fn time_between(from: u64, to: u64) -> (r: u64)
    ensures
        r == elapsed(from, to),
{
    if to >= from {
        to - from
    } else {
        0
    }
}

/// What a sighting reports of a socket and what it leaves for the next one.
pub fn see(prev: Option<TrackedEntry>, c: &Connection, now: u64) -> (r: (ConnectionTrack, TrackedEntry))
    ensures
        r == sighting(prev, c@, now),
{
    let bytes: Option<(u64, u64)> = bytes_now(c);
    let first: (ConnectionTrack, TrackedEntry) = (
        ConnectionTrack { rate: None, duration_nanos: 0 },
        TrackedEntry { first_seen: now, prev_bytes: bytes, prev_time: now, last_rate: None },
    );
    match prev {
        None => first,
        Some(p) => {
            let is_reconnect: bool = match (bytes, p.prev_bytes) {
                (Some((s, r)), Some((ps, pr))) => s < ps || r < pr,
                _ => false,
            };
            let dt: u64 = time_between(p.prev_time, now);
            let duration_nanos: u64 = time_between(p.first_seen, now);
            if is_reconnect {
                first
            } else if dt < MIN_RATE_DT_NANOS {
                (ConnectionTrack { rate: p.last_rate, duration_nanos }, p)
            } else {
                let rate: Option<ConnectionRate> = match (bytes, p.prev_bytes) {
                    (Some((s, r)), Some((ps, pr))) => Some(
                        ConnectionRate { sent_bytes: s - ps, recv_bytes: r - pr, nanos: dt },
                    ),
                    _ => None,
                };
                (
                    ConnectionTrack { rate, duration_nanos },
                    TrackedEntry { first_seen: p.first_seen, prev_bytes: bytes, prev_time: now, last_rate: rate },
                )
            }
        },
    }
}

impl ConnectionRateTracker {
    pub fn new() -> (r: Self)
        ensures
            r@ == Map::<Seq<char>, TrackedEntry>::empty(),
    {
        ConnectionRateTracker { entries: StringHashMap::new() }
    }

    /// The key under which `update` reports a socket.
    pub fn key(c: &Connection) -> (r: String)
        ensures
            r@ == key_of(c@),
    {
        let mut out: Vec<char> = Vec::new();
        text::put_str(&mut out, c.local.as_str());
        out.push('|');
        text::put_str(&mut out, c.peer.as_str());
        assert(out@ =~= key_of(c@));
        text::string_of(out.as_slice())
    }

    /// To be called once per poll with the sockets just listed and the time on a clock that
    /// counts nanoseconds.
    pub fn update(&mut self, conns: &[Connection], now: u64) -> (r: StringHashMap<ConnectionTrack>)
        ensures
            r@ == tracks_after(old(self)@, views(conns@), now),
            final(self)@ == entries_after(old(self)@, views(conns@), now),
    {
        let ghost all = views(conns@);
        let mut out: StringHashMap<ConnectionTrack> = StringHashMap::new();
        let mut next: StringHashMap<TrackedEntry> = StringHashMap::new();
        let mut i: usize = 0;
        assert(out@ =~= tracks_after(self@, all.take(0), now));
        assert(next@ =~= entries_after(self@, all.take(0), now));
        while i < conns.len()
            invariant
                i <= conns@.len(),
                all == views(conns@),
                self@ == old(self)@,
                out@ == tracks_after(self@, all.take(i as int), now),
                next@ == entries_after(self@, all.take(i as int), now),
            decreases conns.len() - i,
        {
            let c: &Connection = &conns[i];
            let key: String = Self::key(c);
            let prev: Option<TrackedEntry> = match self.entries.get(key.as_str()) {
                Some(e) => Some(*e),
                None => None,
            };
            let (track, entry): (ConnectionTrack, TrackedEntry) = see(prev, c, now);
            proof {
                assert(all.take(i + 1).drop_last() =~= all.take(i as int));
                assert(all.take(i + 1).last() == c@);
            }
            out.insert(key.clone(), track);
            next.insert(key, entry);
            i += 1;
            assert(out@ =~= tracks_after(self@, all.take(i as int), now));
            assert(next@ =~= entries_after(self@, all.take(i as int), now));
        }
        assert(all.take(all.len() as int) =~= all);
        self.entries = next;
        out
    }
}

} // verus!
