//! The counters of the local resolver.
use crate::chars;
use crate::command;
use crate::command::CommandOutput;
use crate::numbers;
use crate::text;
use vstd::prelude::*;

verus! {

#[derive(Debug, Clone, Copy, PartialEq, Eq, Structural, Default)]
pub struct DnsStats {
    pub current_transactions: u64,
    pub total_transactions: u64,
    pub cache_size: u64,
    pub cache_hits: u64,
    pub cache_misses: u64,
}

impl DnsStats {
    /// How many lookups were answered from the cache, and how many there were; nothing as long
    /// as there were none.
    pub fn cache_hit_ratio(&self) -> (r: Option<(u64, u128)>)
        ensures
            match r {
                Some((hits, total)) => hits == self.cache_hits && total == self.cache_hits + self.cache_misses
                    && total > 0,
                None => self.cache_hits + self.cache_misses == 0,
            },
    {
        let total: u128 = self.cache_hits as u128 + self.cache_misses as u128;
        if total > 0 {
            Some((self.cache_hits, total))
        } else {
            None
        }
    }
}

pub open spec fn or_zero(n: Option<u64>) -> u64 {
    match n {
        Some(n) => n,
        None => 0,
    }
}

/// The number behind the last colon.
pub open spec fn trailing(line: Seq<char>) -> Option<u64> {
    numbers::unsigned_of(chars::trimmed(chars::after_last(line, ':')))
}

/// The number that follows a label at the front of a line.
pub open spec fn following(line: Seq<char>, label: Seq<char>) -> u64 {
    or_zero(numbers::unsigned_of(chars::trimmed(line.skip(label.len() as int))))
}

/// The counters after a line was read.
pub open spec fn with_line(s: DnsStats, line: Seq<char>) -> DnsStats {
    let t = chars::trimmed(line);
    if chars::starts(t, "Current Transactions:"@) {
        DnsStats { current_transactions: following(t, "Current Transactions:"@), ..s }
    } else if chars::starts(t, "Total Transactions:"@) {
        DnsStats { total_transactions: following(t, "Total Transactions:"@), ..s }
    } else if chars::starts(t, "Current Cache Size:"@) {
        DnsStats { cache_size: or_zero(trailing(t)), ..s }
    } else if chars::starts(t, "Cache Hits:"@) {
        DnsStats { cache_hits: or_zero(trailing(t)), ..s }
    } else if chars::starts(t, "Cache Misses:"@) {
        DnsStats { cache_misses: or_zero(trailing(t)), ..s }
    } else {
        s
    }
}

pub open spec fn stats_in(lines: Seq<Seq<char>>) -> DnsStats
    decreases lines.len(),
{
    if lines.len() == 0 {
        DnsStats {
            current_transactions: 0,
            total_transactions: 0,
            cache_size: 0,
            cache_hits: 0,
            cache_misses: 0,
        }
    } else {
        with_line(stats_in(lines.drop_last()), lines.last())
    }
}

pub open spec fn stats_of(run: Option<command::CommandView>) -> Option<DnsStats> {
    match command::stdout_of(run) {
        Some(output) => Some(stats_in(chars::lines_of(output))),
        None => None,
    }
}

fn zero_if_none(n: Option<u64>) -> (r: u64)
    ensures
        r == or_zero(n),
{
    match n {
        Some(n) => n,
        None => 0,
    }
}

/// The number behind the last colon of a line.
pub fn trailing_number(line: &[char]) -> (r: Option<u64>)
    ensures
        r == trailing(line@),
{
    numbers::parse_unsigned(text::trim(text::last_piece(line, ':')))
}

fn read_line(s: DnsStats, line: &[char]) -> (r: DnsStats)
    ensures
        r == with_line(s, line@),
{
    let t: &[char] = text::trim(line);
    let mut s: DnsStats = s;
    if let Some(rest) = text::strip_prefix(t, "Current Transactions:") {
        s.current_transactions = zero_if_none(numbers::parse_unsigned(text::trim(rest)));
    } else if let Some(rest) = text::strip_prefix(t, "Total Transactions:") {
        s.total_transactions = zero_if_none(numbers::parse_unsigned(text::trim(rest)));
    } else if text::starts_with(t, "Current Cache Size:") {
        s.cache_size = zero_if_none(trailing_number(t));
    } else if text::starts_with(t, "Cache Hits:") {
        s.cache_hits = zero_if_none(trailing_number(t));
    } else if text::starts_with(t, "Cache Misses:") {
        s.cache_misses = zero_if_none(trailing_number(t));
    }
    s
}

/// The counters of the resolver since it was started, from a run of `resolvectl statistics`:
/// nothing where that could not be started or failed.
pub fn read_dns_stats(run: &Option<CommandOutput>) -> (r: Option<DnsStats>)
    ensures
        r == stats_of(command::run_view(*run)),
{
    match command::successful_stdout(run) {
        Some(output) => {
            let cs: Vec<char> = text::chars_of(output);
            let lines: Vec<&[char]> = text::lines(cs.as_slice());
            let ghost all = chars::lines_of(output@);
            let mut s: DnsStats = DnsStats {
                current_transactions: 0,
                total_transactions: 0,
                cache_size: 0,
                cache_hits: 0,
                cache_misses: 0,
            };
            let mut i: usize = 0;
            while i < lines.len()
                invariant
                    i <= lines@.len(),
                    chars::texts(lines@) == all,
                    s == stats_in(all.take(i as int)),
                decreases lines.len() - i,
            {
                proof {
                    assert(all[i as int] == lines@[i as int]@);
                    assert(all.take(i + 1).drop_last() =~= all.take(i as int));
                }
                s = read_line(s, lines[i]);
                i += 1;
            }
            assert(all.take(all.len() as int) =~= all);
            Some(s)
        },
        None => None,
    }
}


proof fn lemma_counter_line(front: Seq<char>, label: Seq<char>, gap: Seq<char>, n: u64)
    requires
        chars::is_blank(front),
        chars::is_blank(gap),
        !gap.contains(':'),
        label.len() > 1,
        !chars::is_space(label[0]),
        label.last() == ':',
    ensures
        ({
            let line = label + gap + numbers::decimal(n as nat);
            &&& chars::trimmed(front + line) == line
            &&& chars::starts(line, label)
            &&& following(line, label) == n
            &&& or_zero(trailing(line)) == n
        }),
{
    let d = numbers::decimal(n as nat);
    let none: Seq<char> = seq![];
    let line = label + gap + d;
    numbers::lemma_decimal_value(n as nat);
    numbers::law_unsigned_round_trip(n);
    assert(chars::is_digit(d[0]) && chars::is_digit(d[d.len() - 1]));
    assert(line[0] == label[0]);
    assert(line.last() == d.last());
    chars::law_trimming_keeps_the_inside(front, line, none);
    assert(front + line + none =~= front + line);
    assert(line.take(label.len() as int) =~= label);
    assert(line.skip(label.len() as int) =~= gap + d + none);
    chars::law_trimming_keeps_the_inside(gap, d, none);
    let tail = gap + d;
    assert(!tail.contains(':')) by {
        if tail.contains(':') {
            let i = choose|i: int| 0 <= i < tail.len() && tail[i] == ':';
            if i < gap.len() {
                assert(gap.contains(gap[i]));
            } else {
                assert(chars::is_digit(d[i - gap.len()]));
            }
        }
    }
    chars::law_cut_at_the_last(label.drop_last(), ':', tail);
    assert(label.drop_last() + seq![':'] + tail =~= line);
    assert(gap + d + none =~= tail);
}

/// Each of the five labels sets its own counter to the number behind it, and leaves the others
/// as they are.
pub proof fn law_label_sets_its_counter(s: DnsStats, front: Seq<char>, gap: Seq<char>, n: u64)
    requires
        chars::is_blank(front),
        chars::is_blank(gap),
        !gap.contains(':'),
    ensures
        with_line(s, front + ("Current Transactions:"@ + gap + numbers::decimal(n as nat))) == (DnsStats {
            current_transactions: n,
            ..s
        }),
        with_line(s, front + ("Total Transactions:"@ + gap + numbers::decimal(n as nat))) == (DnsStats {
            total_transactions: n,
            ..s
        }),
        with_line(s, front + ("Current Cache Size:"@ + gap + numbers::decimal(n as nat))) == (DnsStats {
            cache_size: n,
            ..s
        }),
        with_line(s, front + ("Cache Hits:"@ + gap + numbers::decimal(n as nat))) == (DnsStats { cache_hits: n, ..s }),
        with_line(s, front + ("Cache Misses:"@ + gap + numbers::decimal(n as nat))) == (DnsStats {
            cache_misses: n,
            ..s
        }),
{
    reveal_strlit("Current Transactions:");
    reveal_strlit("Total Transactions:");
    reveal_strlit("Current Cache Size:");
    reveal_strlit("Cache Hits:");
    reveal_strlit("Cache Misses:");
    let a = "Current Transactions:"@;
    let b = "Total Transactions:"@;
    let c = "Current Cache Size:"@;
    let h = "Cache Hits:"@;
    let m = "Cache Misses:"@;
    lemma_counter_line(front, a, gap, n);
    lemma_counter_line(front, b, gap, n);
    lemma_counter_line(front, c, gap, n);
    lemma_counter_line(front, h, gap, n);
    lemma_counter_line(front, m, gap, n);
    lemma_other_label(b, a, gap + numbers::decimal(n as nat), 0);
    lemma_other_label(c, a, gap + numbers::decimal(n as nat), 8);
    lemma_other_label(c, b, gap + numbers::decimal(n as nat), 0);
    lemma_other_label(h, a, gap + numbers::decimal(n as nat), 1);
    lemma_other_label(h, b, gap + numbers::decimal(n as nat), 0);
    lemma_other_label(h, c, gap + numbers::decimal(n as nat), 1);
    lemma_other_label(m, a, gap + numbers::decimal(n as nat), 1);
    lemma_other_label(m, b, gap + numbers::decimal(n as nat), 0);
    lemma_other_label(m, c, gap + numbers::decimal(n as nat), 1);
    lemma_other_label(m, h, gap + numbers::decimal(n as nat), 6);
    let tail = gap + numbers::decimal(n as nat);
    assert(b + gap + numbers::decimal(n as nat) =~= b + tail);
    assert(c + gap + numbers::decimal(n as nat) =~= c + tail);
    assert(h + gap + numbers::decimal(n as nat) =~= h + tail);
    assert(m + gap + numbers::decimal(n as nat) =~= m + tail);
}

proof fn lemma_other_label(label: Seq<char>, other: Seq<char>, tail: Seq<char>, i: int)
    requires
        0 <= i < label.len(),
        i < other.len(),
        label[i] != other[i],
    ensures
        !chars::starts(label + tail, other),
{
    let line = label + tail;
    if chars::starts(line, other) {
        assert(line.take(other.len() as int)[i] == other[i]);
        assert(line[i] == label[i]);
    }
}

/// A line with none of the labels changes nothing, and lines are read one after the other.
pub proof fn law_other_lines_change_nothing(lines: Seq<Seq<char>>, line: Seq<char>, s: DnsStats)
    requires
        !chars::starts(chars::trimmed(line), "Current Transactions:"@),
        !chars::starts(chars::trimmed(line), "Total Transactions:"@),
        !chars::starts(chars::trimmed(line), "Current Cache Size:"@),
        !chars::starts(chars::trimmed(line), "Cache Hits:"@),
        !chars::starts(chars::trimmed(line), "Cache Misses:"@),
    ensures
        with_line(s, line) == s,
        stats_in(lines.push(line)) == stats_in(lines),
{
    assert(lines.push(line).drop_last() =~= lines);
}

/// The counters start at zero, and each line is read in its turn.
pub proof fn law_lines_are_read_in_turn(lines: Seq<Seq<char>>, line: Seq<char>)
    ensures
        stats_in(lines.push(line)) == with_line(stats_in(lines), line),
        ({
            let s = stats_in(seq![]);
            s.current_transactions == 0 && s.total_transactions == 0 && s.cache_size == 0 && s.cache_hits == 0
                && s.cache_misses == 0
        }),
{
    assert(lines.push(line).drop_last() =~= lines);
}


/// The counters are those of the lines that a successful run printed; without such a run there
/// are none.
pub proof fn law_counters_need_a_successful_run(o: command::CommandView)
    ensures
        stats_of(None) is None,
        o.code == Some(0i32) ==> stats_of(Some(o)) == Some(stats_in(chars::lines_of(o.stdout))),
        o.code != Some(0i32) ==> stats_of(Some(o)) is None,
{
}

/// A label that no number follows sets its counter to zero.
pub proof fn law_no_number_counts_as_zero(line: Seq<char>, label: Seq<char>)
    requires
        numbers::unsigned_of(chars::trimmed(line.skip(label.len() as int))) is None,
        numbers::unsigned_of(chars::trimmed(chars::after_last(line, ':'))) is None,
    ensures
        following(line, label) == 0,
        or_zero(trailing(line)) == 0,
{
}

} // verus!
