//! Traffic by process, from a scan with NetHogs.
use crate::chars;
use crate::command;
use crate::command::CommandOutput;
use crate::numbers;
use crate::order;
use crate::pattern;
use crate::pattern::Group;
use crate::text;
use regex::Regex;
use vstd::prelude::*;
use vstd::utf8::*;

verus! {

/// How long a scan takes.
pub const NETHOGS_SCAN_SECONDS: u32 = 10;

/// The process and user number at the end of a program.
pub const PID_PATTERN: &'static str = r"/(\d+)/\d+$";

#[derive(Debug, Clone)]
pub struct NethogsRow {
    pub pid: Option<String>,
    pub program: String,
    pub sent: String,
    pub received: String,
}

#[verifier::ext_equal]
pub struct NethogsView {
    pub pid: Option<Seq<char>>,
    pub program: Seq<char>,
    pub sent: Seq<char>,
    pub received: Seq<char>,
}

impl View for NethogsRow {
    type V = NethogsView;

    open spec fn view(&self) -> NethogsView {
        NethogsView {
            pid: chars::opt_text(self.pid),
            program: self.program@,
            sent: self.sent@,
            received: self.received@,
        }
    }
}

pub open spec fn opt_row(r: Option<NethogsRow>) -> Option<NethogsView> {
    match r {
        Some(r) => Some(r@),
        None => None,
    }
}

pub open spec fn rows_view(v: Seq<NethogsRow>) -> Seq<NethogsView> {
    v.map_values(|r: NethogsRow| r@)
}

/// The number of the process, from the match of `PID_PATTERN`: number 0 stands for traffic of
/// no known process.
pub open spec fn pid_of(found: Option<pattern::Groups>) -> Option<Seq<char>> {
    match found {
        Some(gs) => if pattern::text_in(gs, 1) == "0"@ {
            None
        } else {
            Some(pattern::text_in(gs, 1))
        },
        None => None,
    }
}

/// The program without the two numbers behind it.
pub open spec fn program_of(field: Seq<char>, found: Option<pattern::Groups>) -> Seq<char> {
    match found {
        Some(gs) => chars::trimmed_of(pattern::before_match(gs), '/'),
        None => field,
    }
}

/// The row of a program, of which `found` is what `PID_PATTERN` captured, and two rates.
pub open spec fn row_of(
    field: Seq<char>,
    sent: Seq<char>,
    received: Seq<char>,
    found: Option<pattern::Groups>,
) -> Option<NethogsView> {
    if numbers::is_real_number(sent) && numbers::is_real_number(received) {
        Some(
            NethogsView {
                pid: pid_of(found),
                program: program_of(field, found),
                sent: sent + " KB/s"@,
                received: received + " KB/s"@,
            },
        )
    } else {
        None
    }
}

/// The three fields of a line in trace mode.
pub open spec fn fields_of(line: Seq<char>) -> Option<(Seq<char>, Seq<char>, Seq<char>)> {
    let p = chars::pieces(chars::trimmed_of(line, '\n'), '\t');
    if p.len() == 3 {
        Some((p[0], p[1], p[2]))
    } else {
        None
    }
}

/// What `PID_PATTERN` captures in a program.
pub open spec fn found_in(field: Seq<char>) -> Option<pattern::Groups> {
    if pattern::is_pattern(PID_PATTERN@) {
        pattern::captured(PID_PATTERN@, field)
    } else {
        None
    }
}

/// Whether an expression is the one for `PID_PATTERN`, where there is one.
pub open spec fn is_pid_expression(re: Option<Regex>) -> bool {
    match re {
        Some(re) => pattern::is_pattern(PID_PATTERN@) && pattern::pattern_of(re) == PID_PATTERN@,
        None => !pattern::is_pattern(PID_PATTERN@),
    }
}

/// The row of a line in trace mode.
pub open spec fn row_in(line: Seq<char>) -> Option<NethogsView> {
    match fields_of(line) {
        Some((field, sent, received)) => row_of(field, sent, received, found_in(field)),
        None => None,
    }
}

fn with_unit(n: &[char]) -> (r: String)
    ensures
        r@ == n@ + " KB/s"@,
{
    let mut out: Vec<char> = Vec::new();
    text::put(&mut out, n);
    text::put_str(&mut out, " KB/s");
    assert(out@ =~= n@ + " KB/s"@);
    text::string_of(out.as_slice())
}

/// The row of a program, of which `found` is what `PID_PATTERN` captured, and two rates.
pub fn row_from(field: &[char], sent: &[char], received: &[char], found: &Option<Vec<Option<Group>>>) -> (r: Option<
    NethogsRow,
>)
    ensures
        opt_row(r) == row_of(field@, sent@, received@, pattern::opt_groups(*found)),
{
    if !numbers::real_number(sent) || !numbers::real_number(received) {
        return None;
    }
    let (pid, program): (Option<String>, String) = match found {
        Some(gs) => {
            let number: String = pattern::text_of(gs, 1);
            let before: Vec<char> = text::chars_of(pattern::before_of(gs).as_str());
            let program: String = text::string_of(text::trim_end_of(before.as_slice(), '/'));
            if text::same_str(number.as_str(), "0") {
                (None, program)
            } else {
                (Some(number), program)
            }
        },
        None => (None, text::string_of(field)),
    };
    Some(NethogsRow { pid, program, sent: with_unit(sent), received: with_unit(received) })
}

/// A program that is shown is the front of its field, and the number of its process stands in
/// that field: neither is made up.
pub proof fn law_program_fronts_its_field(field: Seq<char>, found: Option<pattern::Groups>)
    requires
        found matches Some(gs) ==> pattern::drawn_from(gs, field),
    ensures
        chars::starts(field, program_of(field, found)),
        pid_of(found) matches Some(pid) ==> chars::holds_text(field, pid),
{
    match found {
        Some(gs) => {
            let before = pattern::before_match(gs);
            let program = program_of(field, found);
            chars::lemma_span_back(before, chars::Class::Is('/'), true);
            pattern::lemma_text_is_held(gs, field, 1);
            if gs.len() > 0 && gs[0] is Some {
                let all = before + gs[0]->Some_0.1;
                assert(chars::starts(field, all));
                assert(field.take(program.len() as int) =~= program) by {
                    assert forall|k: int| 0 <= k < program.len() implies field[k] == program[k] by {
                        assert(field.take(all.len() as int)[k] == all[k]);
                    }
                }
            } else {
                assert(field.take(0) =~= program);
            }
        },
        None => {
            assert(field.take(field.len() as int) =~= field);
        },
    }
}

/// Whether a row shows nothing of a line but what stands in it.
pub open spec fn is_front_of(row: NethogsView, line: Seq<char>) -> bool {
    fields_of(line) matches Some((field, _, _)) && chars::starts(field, row.program)
}

fn trace_row(re: &Option<Regex>, line: &[char]) -> (r: Option<NethogsRow>)
    requires
        is_pid_expression(*re),
    ensures
        opt_row(r) == row_in(line@),
        r matches Some(row) ==> is_front_of(row@, line@),
{
    let parts: Vec<&[char]> = text::split(text::trim_end_of(line, '\n'), '\t');
    let ghost p = chars::pieces(chars::trimmed_of(line@, '\n'), '\t');
    if parts.len() != 3 {
        return None;
    }
    proof {
        assert(p[0] == parts@[0]@);
        assert(p[1] == parts@[1]@);
        assert(p[2] == parts@[2]@);
    }
    let found: Option<Vec<Option<Group>>> = match re {
        Some(re) => pattern::captures(re, text::string_of(parts[0]).as_str()),
        None => None,
    };
    proof {
        law_program_fronts_its_field(parts@[0]@, pattern::opt_groups(found));
    }
    row_from(parts[0], parts[1], parts[2], &found)
}

/// Reads a line that `nethogs -t` printed: a program with its process and user number, and the
/// two rates, with tabs between them. Other lines have no row.
pub fn parse_nethogs_trace_line(line: &str) -> (r: Option<NethogsRow>)
    ensures
        opt_row(r) == row_in(line@),
        r matches Some(row) ==> is_front_of(row@, line@),
{
    let re: Option<Regex> = pattern::compile(PID_PATTERN);
    let cs: Vec<char> = text::chars_of(line);
    trace_row(&re, cs.as_slice())
}

pub open spec fn rows_in(lines: Seq<Seq<char>>) -> Seq<NethogsView>
    decreases lines.len(),
{
    if lines.len() == 0 {
        seq![]
    } else {
        match row_in(lines.last()) {
            Some(r) => rows_in(lines.drop_last()).push(r),
            None => rows_in(lines.drop_last()),
        }
    }
}

/// The cycles of a trace that hold anything.
pub open spec fn cycles_of(parts: Seq<Seq<char>>) -> Seq<Seq<char>>
    decreases parts.len(),
{
    if parts.len() == 0 {
        seq![]
    } else if chars::trimmed(parts.last()).len() > 0 {
        cycles_of(parts.drop_last()).push(parts.last())
    } else {
        cycles_of(parts.drop_last())
    }
}

/// The cycle that is shown: the last but one, as the last may be cut short, or the only one.
pub open spec fn shown_cycle(cycles: Seq<Seq<char>>) -> Seq<char> {
    if cycles.len() >= 2 {
        cycles[cycles.len() - 2]
    } else if cycles.len() == 1 {
        cycles[0]
    } else {
        seq![]
    }
}

/// Whether an exit code is one of a scan that went well: `timeout` stops it, and passes on how
/// it ended.
pub open spec fn is_expected(code: Option<i32>) -> bool {
    code == Some(0i32) || code == Some(124i32) || code == Some(130i32) || code == Some(143i32)
}

pub open spec fn start_error(e: Seq<char>) -> Seq<char> {
    "couldn't start pkexec — is policykit installed? ("@ + e + ")"@
}

pub open spec fn scan_error(stderr: Seq<char>) -> Seq<char> {
    "scan didn't complete — cancelled, or nethogs not installed (sudo apt install nethogs)? ["@ + chars::last_line(
        stderr,
    ) + "]"@
}

pub open spec fn no_data_error(stdout: Seq<char>) -> Seq<char> {
    "scan completed but no data parsed ("@ + numbers::decimal(encode_utf8(stdout).len() as usize as nat)
        + " bytes captured)"@
}

/// The rows of a scan, in the order they were printed.
pub open spec fn scan_of(run: Result<command::CommandView, Seq<char>>) -> Result<Seq<NethogsView>, Seq<char>> {
    match run {
        Err(e) => Err(start_error(e)),
        Ok(o) => if !is_expected(o.code) || o.stdout.len() == 0 {
            Err(scan_error(o.stderr))
        } else {
            let rows = rows_in(chars::lines_of(shown_cycle(cycles_of(chars::parts(o.stdout, "\n\n"@)))));
            if rows.len() == 0 {
                Err(no_data_error(o.stdout))
            } else {
                Ok(rows)
            }
        },
    }
}

pub open spec fn result_view(r: Result<Vec<NethogsRow>, String>) -> Result<Seq<NethogsView>, Seq<char>> {
    match r {
        Ok(v) => Ok(rows_view(v@)),
        Err(e) => Err(e@),
    }
}

fn shown_part<'a>(s: &'a [char]) -> (r: &'a [char])
    ensures
        r@ == shown_cycle(cycles_of(chars::parts(s@, "\n\n"@))),
{
    proof {
        reveal_strlit("\n\n");
    }
    let parts: Vec<&'a [char]> = text::split_str(s, "\n\n");
    let ghost all = chars::parts(s@, "\n\n"@);
    let mut cycles: Vec<&'a [char]> = Vec::new();
    assert(chars::texts(cycles@) =~= cycles_of(all.take(0)));
    let mut i: usize = 0;
    while i < parts.len()
        invariant
            i <= parts@.len(),
            chars::texts(parts@) == all,
            chars::texts(cycles@) == cycles_of(all.take(i as int)),
        decreases parts.len() - i,
    {
        let ghost before = chars::texts(cycles@);
        proof {
            assert(all[i as int] == parts@[i as int]@);
            assert(all.take(i + 1).drop_last() =~= all.take(i as int));
        }
        if text::trim(parts[i]).len() > 0 {
            cycles.push(parts[i]);
            assert(chars::texts(cycles@) =~= before.push(parts@[i as int]@));
        }
        i += 1;
    }
    assert(all.take(all.len() as int) =~= all);
    let ghost found = cycles_of(all);
    if cycles.len() >= 2 {
        assert(found[found.len() - 2] == cycles@[cycles@.len() - 2]@);
        cycles[cycles.len() - 2]
    } else if cycles.len() == 1 {
        assert(found[0] == cycles@[0]@);
        cycles[0]
    } else {
        let none: &'a [char] = text::front(s, 0);
        assert(none@ =~= seq![]);
        none
    }
}

fn expected(code: Option<i32>) -> (r: bool)
    ensures
        r == is_expected(code),
{
    match code {
        Some(c) => c == 0 || c == 124 || c == 130 || c == 143,
        None => false,
    }
}

/// The rows of the last complete cycle of a scan, in the order they were printed: from the run
/// of `pkexec`, or the error of starting it.
pub fn scan_rows(run: &Result<CommandOutput, String>) -> (r: Result<Vec<NethogsRow>, String>)
    ensures
        result_view(r) == scan_of(command::start_view(*run)),
{
    let re: Option<Regex> = pattern::compile(PID_PATTERN);
    let mut message: Vec<char> = Vec::new();
    let o: &CommandOutput = match run {
        Ok(o) => o,
        Err(e) => {
            text::put_str(&mut message, "couldn't start pkexec — is policykit installed? (");
            text::put_str(&mut message, e.as_str());
            text::put_str(&mut message, ")");
            assert(message@ =~= start_error(e@));
            return Err(text::string_of(message.as_slice()));
        },
    };
    if !expected(o.code) || o.stdout.as_str().is_empty() {
        let stderr: Vec<char> = text::chars_of(o.stderr.as_str());
        text::put_str(
            &mut message,
            "scan didn't complete — cancelled, or nethogs not installed (sudo apt install nethogs)? [",
        );
        text::put(&mut message, text::last_line(stderr.as_slice()));
        text::put_str(&mut message, "]");
        assert(message@ =~= scan_error(o.stderr@));
        return Err(text::string_of(message.as_slice()));
    }
    let cs: Vec<char> = text::chars_of(o.stdout.as_str());
    let lines: Vec<&[char]> = text::lines(shown_part(cs.as_slice()));
    let ghost all = chars::lines_of(shown_cycle(cycles_of(chars::parts(o.stdout@, "\n\n"@))));
    let mut rows: Vec<NethogsRow> = Vec::new();
    assert(rows_view(rows@) =~= rows_in(all.take(0)));
    let mut i: usize = 0;
    while i < lines.len()
        invariant
            i <= lines@.len(),
            chars::texts(lines@) == all,
            is_pid_expression(re),
            rows_view(rows@) == rows_in(all.take(i as int)),
        decreases lines.len() - i,
    {
        let ghost before = rows_view(rows@);
        proof {
            assert(all[i as int] == lines@[i as int]@);
            assert(all.take(i + 1).drop_last() =~= all.take(i as int));
        }
        if let Some(row) = trace_row(&re, lines[i]) {
            let ghost rv = row@;
            rows.push(row);
            assert(rows_view(rows@) =~= before.push(rv));
        }
        i += 1;
    }
    assert(all.take(all.len() as int) =~= all);
    if rows.len() == 0 {
        text::put_str(&mut message, "scan completed but no data parsed (");
        numbers::put_decimal(&mut message, o.stdout.as_str().len() as u64);
        text::put_str(&mut message, " bytes captured)");
        assert(message@ =~= no_data_error(o.stdout@));
        return Err(text::string_of(message.as_slice()));
    }
    Ok(rows)
}

/// What a scan runs.
pub fn scan_command() -> (r: String)
    ensures
        r@ == "timeout --signal=INT "@ + numbers::decimal(NETHOGS_SCAN_SECONDS as nat) + " nethogs -t -d 1"@,
{
    let mut out: Vec<char> = Vec::new();
    text::put_str(&mut out, "timeout --signal=INT ");
    numbers::put_decimal(&mut out, NETHOGS_SCAN_SECONDS as u64);
    text::put_str(&mut out, " nethogs -t -d 1");
    assert(out@ =~= "timeout --signal=INT "@ + numbers::decimal(NETHOGS_SCAN_SECONDS as nat) + " nethogs -t -d 1"@);
    text::string_of(out.as_slice())
}

pub open spec fn only_rows(v: Seq<(NethogsRow, i128)>) -> Seq<NethogsView> {
    v.map_values(|r: (NethogsRow, i128)| r.0@)
}

pub open spec fn only_keys(v: Seq<(NethogsRow, i128)>) -> Seq<i128> {
    v.map_values(|r: (NethogsRow, i128)| r.1)
}

/// The `limit` rows with the greatest keys, the greatest first; rows with equal keys stay in
/// their order. The keys stand for the sums of the two rates.
pub fn top_rows(rows: Vec<(NethogsRow, i128)>, limit: usize) -> (r: Vec<NethogsRow>)
    ensures
        rows_view(r@) == order::at_most(order::arranged(only_rows(rows@), only_keys(rows@)), limit as int),
{
    let ghost all = rows@;
    let mut bare: Vec<NethogsRow> = Vec::new();
    let mut keys: Vec<i128> = Vec::new();
    for row in it: rows
        invariant
            it.seq() == all,
            rows_view(bare@) == only_rows(all).take(it.index() as int),
            keys@ == only_keys(all).take(it.index() as int),
            bare@.len() == it.index(),
    {
        let ghost n = it.index() as int;
        let ghost before = rows_view(bare@);
        bare.push(row.0);
        keys.push(row.1);
        assert(only_rows(all)[n] == row.0@);
        assert(rows_view(bare@) =~= before.push(row.0@));
        assert(only_rows(all).take(n + 1) =~= before.push(row.0@));
        assert(keys@ =~= only_keys(all).take(n + 1));
    }
    assert(only_rows(all).take(all.len() as int) =~= only_rows(all));
    assert(only_keys(all).take(all.len() as int) =~= only_keys(all));
    proof {
        order::lemma_arranged_map(bare@, keys@, |r: NethogsRow| r@);
    }
    let mut sorted: Vec<NethogsRow> = order::arrange(bare, &keys);
    if sorted.len() > limit {
        sorted.truncate(limit);
    }
    assert(rows_view(sorted@) =~= order::at_most(order::arranged(only_rows(all), only_keys(all)), limit as int));
    sorted
}


/// The cycle that is shown is the one directly before the last, whatever was printed before it;
/// a single cycle is shown itself.
pub proof fn law_last_but_one_cycle_is_shown(cycles: Seq<Seq<char>>, shown: Seq<char>, last: Seq<char>)
    ensures
        shown_cycle(cycles.push(shown).push(last)) == shown,
        shown_cycle(seq![last]) == last,
        shown_cycle(seq![]) == Seq::<char>::empty(),
{
}

/// A part of a trace is a cycle unless it is blank, and the cycles are in the order of the parts.
pub proof fn law_blank_parts_are_no_cycles(parts: Seq<Seq<char>>, part: Seq<char>)
    ensures
        cycles_of(seq![]) == Seq::<Seq<char>>::empty(),
        chars::is_blank(part) ==> cycles_of(parts.push(part)) == cycles_of(parts),
        !chars::is_blank(part) ==> cycles_of(parts.push(part)) == cycles_of(parts).push(part),
{
    assert(parts.push(part).drop_last() =~= parts);
    let none: Seq<char> = seq![];
    if chars::is_blank(part) {
        chars::law_trimming_keeps_the_inside(part, none, none);
        assert(part + none + none =~= part);
    } else {
        chars::law_trimmed_is_trim(part);
        if chars::trimmed(part).len() == 0 {
            let (a, b) = choose|a: Seq<char>, b: Seq<char>|
                #[trigger] (a + chars::trimmed(part) + b) == part && chars::is_blank(a) && chars::is_blank(b);
            assert forall|i: int| 0 <= i < part.len() implies chars::is_space(#[trigger] part[i]) by {
                if i < a.len() {
                    assert(part[i] == a[i]);
                } else {
                    assert(part[i] == b[i - a.len()]);
                }
            }
        }
    }
}

proof fn lemma_cycles_add(a: Seq<Seq<char>>, b: Seq<Seq<char>>)
    ensures
        cycles_of(a + b) == cycles_of(a) + cycles_of(b),
    decreases b.len(),
{
    if b.len() == 0 {
        assert(a + b =~= a);
        assert(cycles_of(a) + cycles_of(b) =~= cycles_of(a));
    } else {
        lemma_cycles_add(a, b.drop_last());
        assert((a + b).drop_last() =~= a + b.drop_last());
        assert(cycles_of(a + b) =~= cycles_of(a) + cycles_of(b));
    }
}

/// The rows of a scan are of the cycle before the last one, if both hold anything: however many
/// cycles came before, and however the last was cut short.
pub proof fn law_earlier_cycles_do_not_matter(earlier: Seq<Seq<char>>, shown: Seq<char>, last: Seq<char>)
    requires
        !chars::is_blank(shown),
        !chars::is_blank(last),
    ensures
        shown_cycle(cycles_of(earlier + seq![shown, last])) == shown,
{
    lemma_cycles_add(earlier, seq![shown, last]);
    let none: Seq<Seq<char>> = seq![];
    law_blank_parts_are_no_cycles(none, shown);
    law_blank_parts_are_no_cycles(none.push(shown), last);
    assert(none.push(shown).push(last) =~= seq![shown, last]);
    let before = cycles_of(earlier);
    assert(cycles_of(earlier + seq![shown, last]) =~= before.push(shown).push(last));
    law_last_but_one_cycle_is_shown(before, shown, last);
}

/// Each line with a row adds it, in the order of the lines; another adds none.
pub proof fn law_each_line_has_its_row(lines: Seq<Seq<char>>, line: Seq<char>)
    ensures
        rows_in(seq![]) == Seq::<NethogsView>::empty(),
        row_in(line) is None ==> rows_in(lines.push(line)) == rows_in(lines),
        row_in(line) matches Some(r) ==> rows_in(lines.push(line)) == rows_in(lines).push(r),
{
    assert(lines.push(line).drop_last() =~= lines);
}

/// A line has three fields with tabs between them, whatever line feeds end it, and no other line
/// has any.
pub proof fn law_fields_stand_between_tabs(field: Seq<char>, sent: Seq<char>, received: Seq<char>, ends: nat)
    requires
        !field.contains('\t'),
        !sent.contains('\t'),
        !received.contains('\t'),
        received.len() > 0,
        received.last() != '\n',
    ensures
        fields_of(field + seq!['\t'] + (sent + seq!['\t'] + received)) == Some((field, sent, received)),
        fields_of(field + seq!['\t'] + (sent + seq!['\t'] + received) + Seq::new(ends, |i: int| '\n')) == Some(
            (field, sent, received),
        ),
        fields_of(received) is None,
        fields_of(field + seq!['\t'] + received) is None,
{
    let line = field + seq!['\t'] + (sent + seq!['\t'] + received);
    let two = field + seq!['\t'] + received;
    assert(line.last() == received.last());
    chars::law_repetitions_are_taken_off(line, '\n', ends);
    assert(two.last() == received.last());
    chars::law_repetitions_are_taken_off(line, '\n', 0);
    chars::law_repetitions_are_taken_off(two, '\n', 0);
    chars::law_repetitions_are_taken_off(received, '\n', 0);
    assert(line + Seq::new(0, |i: int| '\n') =~= line);
    assert(two + Seq::new(0, |i: int| '\n') =~= two);
    assert(received + Seq::new(0, |i: int| '\n') =~= received);
    lemma_pieces_front(field, sent + seq!['\t'] + received);
    lemma_pieces_front(sent, received);
    lemma_pieces_front(field, received);
    lemma_pieces_none(received);
}

proof fn lemma_pieces_front(front: Seq<char>, rest: Seq<char>)
    requires
        !front.contains('\t'),
    ensures
        chars::pieces(front + seq!['\t'] + rest, '\t') == seq![front] + chars::pieces(rest, '\t'),
{
    let s = front + seq!['\t'] + rest;
    let n = front.len() as int;
    assert forall|i: int| 0 <= i < n implies front[i] != '\t' by {
        assert(front.contains(front[i]));
    }
    chars::lemma_span_is(s, chars::Class::Is('\t'), false, n);
    assert(s.take(n) =~= front);
    assert(s.skip(n + 1) =~= rest);
}

proof fn lemma_pieces_none(s: Seq<char>)
    requires
        !s.contains('\t'),
    ensures
        chars::pieces(s, '\t') == seq![s],
{
    assert forall|i: int| 0 <= i < s.len() implies s[i] != '\t' by {
        assert(s.contains(s[i]));
    }
    chars::lemma_span_is(s, chars::Class::Is('\t'), false, s.len() as int);
}

/// The row of a program with its process number: number 0 is of no process, the slashes between
/// are not the program's, and both rates are shown as they stand, in kilobytes. Without two rates
/// there is no row.
pub proof fn law_row_shows_its_fields(
    program: Seq<char>,
    slashes: nat,
    pid: Seq<char>,
    whole: Seq<char>,
    field: Seq<char>,
    sent: Seq<char>,
    received: Seq<char>,
)
    requires
        program.len() > 0 ==> program.last() != '/',
    ensures
        ({
            let before = program + Seq::new(slashes, |i: int| '/');
            let found = seq![Some((before, whole)), Some((before, pid))];
            let rates = numbers::is_real_number(sent) && numbers::is_real_number(received);
            &&& rates ==> row_of(field, sent, received, Some(found)) == Some(
                NethogsView {
                    pid: if pid == "0"@ {
                        None
                    } else {
                        Some(pid)
                    },
                    program,
                    sent: sent + " KB/s"@,
                    received: received + " KB/s"@,
                },
            )
            &&& rates ==> row_of(field, sent, received, None) == Some(
                NethogsView { pid: None, program: field, sent: sent + " KB/s"@, received: received + " KB/s"@ },
            )
            &&& !rates ==> row_of(field, sent, received, Some(found)) is None
            &&& !rates ==> row_of(field, sent, received, None) is None
        }),
{
    chars::law_repetitions_are_taken_off(program, '/', slashes);
}


/// A scan gives rows exactly where it ended as expected, printed something, and the cycle that
/// is shown has rows: those rows. It is expected to end by itself or by its time being up.
pub proof fn law_scan_needs_rows(o: command::CommandView, e: Seq<char>)
    ensures
        ({
            let rows = rows_in(chars::lines_of(shown_cycle(cycles_of(chars::parts(o.stdout, "\n\n"@)))));
            let ended = o.code == Some(0i32) || o.code == Some(124i32) || o.code == Some(130i32) || o.code == Some(143i32);
            &&& ended && o.stdout.len() > 0 && rows.len() > 0 ==> scan_of(Ok(o)) == Ok::<Seq<NethogsView>, Seq<char>>(rows)
            &&& scan_of(Ok(o)) is Ok ==> ended && o.stdout.len() > 0 && rows.len() > 0
            &&& !ended || o.stdout.len() == 0 ==> scan_of(Ok(o)) == Err::<Seq<NethogsView>, Seq<char>>(
                "scan didn't complete — cancelled, or nethogs not installed (sudo apt install nethogs)? ["@
                    + chars::last_line(o.stderr) + "]"@,
            )
            &&& scan_of(Err(e)) == Err::<Seq<NethogsView>, Seq<char>>(
                "couldn't start pkexec — is policykit installed? ("@ + e + ")"@,
            )
        }),
        NETHOGS_SCAN_SECONDS == 10,
{
}

} // verus!
