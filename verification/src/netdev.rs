//! Traffic counters of the network interfaces, and how fast they grow.
use crate::chars;
use crate::command;
use crate::command::CommandOutput;
use crate::numbers;
use crate::table;
use crate::table::Table;
use crate::text;
use vstd::prelude::*;

verus! {

/// Whether an interface is left out of the totals: loopback and virtual bridges carry no network
/// traffic, and what goes through a tunnel is counted by the interface that carries it.
pub open spec fn is_skipped(name: Seq<char>) -> bool {
    ||| chars::starts(name, "lo"@)
    ||| chars::starts(name, "virbr"@)
    ||| chars::starts(name, "docker"@)
    ||| chars::starts(name, "veth"@)
    ||| chars::starts(name, "br-"@)
    ||| chars::starts(name, "tun"@)
    ||| chars::starts(name, "tap"@)
    ||| chars::starts(name, "wg"@)
    ||| chars::starts(name, "ppp"@)
}

pub fn skipped(name: &str) -> (r: bool)
    ensures
        r == is_skipped(name@),
{
    let cs: Vec<char> = text::chars_of(name);
    let s: &[char] = cs.as_slice();
    text::starts_with(s, "lo") || text::starts_with(s, "virbr") || text::starts_with(s, "docker") || text::starts_with(
        s,
        "veth",
    ) || text::starts_with(s, "br-") || text::starts_with(s, "tun") || text::starts_with(s, "tap")
        || text::starts_with(s, "wg") || text::starts_with(s, "ppp")
}

/// The kernel's counters of an interface, since it was last reset.
#[derive(Debug, Clone, Copy, PartialEq, Eq, Structural, Default)]
pub struct Counters {
    pub rx_bytes: u64,
    pub rx_packets: u64,
    pub rx_errs: u64,
    pub rx_drop: u64,
    pub tx_bytes: u64,
    pub tx_packets: u64,
    pub tx_errs: u64,
    pub tx_drop: u64,
}

impl Counters {
    /// Errors and drops in both directions, where their sum can be held.
    pub fn errors_drops(&self) -> (r: Option<u64>)
        ensures
            match r {
                Some(n) => n == self.rx_errs + self.rx_drop + self.tx_errs + self.tx_drop,
                None => self.rx_errs + self.rx_drop + self.tx_errs + self.tx_drop > u64::MAX,
            },
    {
        let n: u128 = self.rx_errs as u128 + self.rx_drop as u128 + self.tx_errs as u128 + self.tx_drop as u128;
        if n <= u64::MAX as u128 {
            Some(n as u64)
        } else {
            None
        }
    }
}

/// The counters of an interface, and by how many bytes they grew since the sample before.
#[derive(Debug, Clone, Copy, PartialEq, Eq, Structural)]
pub struct IfaceRates {
    pub counters: Counters,
    pub rx_delta: u64,
    pub tx_delta: u64,
}

/// What the kernel says of an interface.
#[derive(Debug, Clone)]
pub struct InterfaceInfo {
    pub address: Option<String>,
    pub mtu: Option<String>,
    pub operstate: String,
    pub speed_mbps: Option<i64>,
}

#[verifier::ext_equal]
pub struct InfoView {
    pub address: Option<Seq<char>>,
    pub mtu: Option<Seq<char>>,
    pub operstate: Seq<char>,
    pub speed_mbps: Option<i64>,
}

impl View for InterfaceInfo {
    type V = InfoView;

    open spec fn view(&self) -> InfoView {
        InfoView {
            address: chars::opt_text(self.address),
            mtu: chars::opt_text(self.mtu),
            operstate: self.operstate@,
            speed_mbps: self.speed_mbps,
        }
    }
}

/// What is known where there is no interface to look at.
pub open spec fn no_info() -> InfoView {
    InfoView { address: None, mtu: None, operstate: seq![], speed_mbps: None }
}

impl Default for InterfaceInfo {
    fn default() -> (r: Self)
        ensures
            r@ == no_info(),
    {
        InterfaceInfo { address: None, mtu: None, operstate: String::new(), speed_mbps: None }
    }
}

/// What the files of an interface under `/sys/class/net` hold, where they could be read.
#[derive(Debug, Clone)]
pub struct InterfaceFiles {
    pub address: Option<String>,
    pub mtu: Option<String>,
    pub operstate: Option<String>,
    pub speed: Option<String>,
}

#[verifier::ext_equal]
pub struct FilesView {
    pub address: Option<Seq<char>>,
    pub mtu: Option<Seq<char>>,
    pub operstate: Option<Seq<char>>,
    pub speed: Option<Seq<char>>,
}

impl View for InterfaceFiles {
    type V = FilesView;

    open spec fn view(&self) -> FilesView {
        FilesView {
            address: chars::opt_text(self.address),
            mtu: chars::opt_text(self.mtu),
            operstate: chars::opt_text(self.operstate),
            speed: chars::opt_text(self.speed),
        }
    }
}

pub open spec fn trimmed_opt(s: Option<Seq<char>>) -> Option<Seq<char>> {
    match s {
        Some(t) => Some(chars::trimmed(t)),
        None => None,
    }
}

/// A link speed as far as it is one: wireless interfaces report none or a negative number.
pub open spec fn speed_of(s: Option<Seq<char>>) -> Option<i64> {
    match s {
        Some(t) => match numbers::signed_of(chars::trimmed(t)) {
            Some(n) => if n > 0 {
                Some(n)
            } else {
                None
            },
            None => None,
        },
        None => None,
    }
}

pub open spec fn info_of(f: FilesView) -> InfoView {
    InfoView {
        address: trimmed_opt(f.address),
        mtu: trimmed_opt(f.mtu),
        operstate: match f.operstate {
            Some(t) => chars::trimmed(t),
            None => "unknown"@,
        },
        speed_mbps: speed_of(f.speed),
    }
}

fn trim_opt(s: &Option<String>) -> (r: Option<String>)
    ensures
        chars::opt_text(r) == trimmed_opt(chars::opt_text(*s)),
{
    match s {
        Some(t) => {
            let cs: Vec<char> = text::chars_of(t.as_str());
            Some(text::string_of(text::trim(cs.as_slice())))
        },
        None => None,
    }
}

/// Address, MTU, state and speed of an interface from the files that hold them.
pub fn read_interface_info(files: &InterfaceFiles) -> (r: InterfaceInfo)
    ensures
        r@ == info_of(files@),
{
    let speed_mbps: Option<i64> = match trim_opt(&files.speed) {
        Some(t) => {
            let cs: Vec<char> = text::chars_of(t.as_str());
            match numbers::parse_signed(cs.as_slice()) {
                Some(n) => if n > 0 {
                    Some(n)
                } else {
                    None
                },
                None => None,
            }
        },
        None => None,
    };
    InterfaceInfo {
        address: trim_opt(&files.address),
        mtu: trim_opt(&files.mtu),
        operstate: match trim_opt(&files.operstate) {
            Some(t) => t,
            None => "unknown".to_string(),
        },
        speed_mbps,
    }
}

/// The interface named behind `dev` in the first line that names one.
pub open spec fn default_of(lines: Seq<Seq<char>>) -> Option<Seq<char>>
    decreases lines.len(),
{
    if lines.len() == 0 {
        None
    } else {
        match chars::word_after(chars::words_of(lines[0]), "dev"@) {
            Some(name) => Some(name),
            None => default_of(lines.skip(1)),
        }
    }
}

pub open spec fn default_interface(run: Option<command::CommandView>) -> Option<Seq<char>> {
    match command::stdout_of(run) {
        Some(output) => default_of(chars::lines_of(output)),
        None => None,
    }
}

/// The interface that carries the traffic to the internet, from a run of
/// `ip route show default`.
pub fn get_default_interface(run: &Option<CommandOutput>) -> (r: Option<String>)
    ensures
        chars::opt_text(r) == default_interface(command::run_view(*run)),
{
    let output: &str = match command::successful_stdout(run) {
        Some(o) => o,
        None => {
            return None;
        },
    };
    let cs: Vec<char> = text::chars_of(output);
    let lines: Vec<&[char]> = text::lines(cs.as_slice());
    let ghost all = chars::lines_of(output@);
    assert(all.skip(0) =~= all);
    let mut i: usize = 0;
    while i < lines.len()
        invariant
            i <= lines@.len(),
            chars::texts(lines@) == all,
            default_of(all) == default_of(all.skip(i as int)),
            default_interface(command::run_view(*run)) == default_of(all),
        decreases lines.len() - i,
    {
        assert(all[i as int] == lines@[i as int]@);
        assert(all.skip(i as int).skip(1) =~= all.skip(i + 1));
        let words: Vec<&[char]> = text::words(lines[i]);
        if let Some(name) = text::word_after(&words, "dev") {
            return Some(text::string_of(name));
        }
        i += 1;
    }
    None
}

/// The name before the colon of a line, trimmed; none where there is no colon or no name.
pub open spec fn name_in(line: Seq<char>) -> Option<Seq<char>> {
    match chars::cut(line, ':') {
        Some((name, _)) => if chars::trimmed(name).len() > 0 {
            Some(chars::trimmed(name))
        } else {
            None
        },
        None => None,
    }
}

pub open spec fn names_in(lines: Seq<Seq<char>>) -> Seq<Seq<char>>
    decreases lines.len(),
{
    if lines.len() == 0 {
        seq![]
    } else {
        match name_in(lines.last()) {
            Some(name) => names_in(lines.drop_last()).push(name),
            None => names_in(lines.drop_last()),
        }
    }
}

/// The lines below the two header lines.
pub open spec fn dev_lines(dev: Option<Seq<char>>) -> Seq<Seq<char>> {
    match dev {
        Some(t) => chars::beyond(chars::lines_of(t), 2),
        None => seq![],
    }
}

fn body_of<'a>(cs: &'a Vec<char>) -> (r: Vec<&'a [char]>)
    ensures
        chars::texts(r@) == chars::beyond(chars::lines_of(cs@), 2),
{
    let lines: Vec<&'a [char]> = text::lines(cs.as_slice());
    let ghost all = chars::lines_of(cs@);
    let mut body: Vec<&'a [char]> = Vec::new();
    let mut i: usize = 2;
    while i < lines.len()
        invariant
            2 <= i,
            chars::texts(lines@) == all,
            body@.len() == i - 2,
            i <= 2 || i <= lines@.len(),
            forall|j: int| 0 <= j < body@.len() ==> #[trigger] body@[j]@ == all[j + 2],
        decreases lines.len() - i,
    {
        assert(all[i as int] == lines@[i as int]@);
        body.push(lines[i]);
        i += 1;
    }
    assert(chars::texts(body@) =~= chars::beyond(all, 2));
    body
}

/// The interfaces in the contents of `/proc/net/dev`, in the kernel's order, none left out.
pub fn list_interfaces(dev: Option<&str>) -> (r: Vec<String>)
    ensures
        chars::strings(r@) == names_in(dev_lines(command::opt_str(dev))),
{
    let mut names: Vec<String> = Vec::new();
    let ghost all = dev_lines(command::opt_str(dev));
    assert(chars::strings(names@) =~= names_in(all.take(0)));
    if let Some(t) = dev {
        let cs: Vec<char> = text::chars_of(t);
        let lines: Vec<&[char]> = body_of(&cs);
        let mut i: usize = 0;
        while i < lines.len()
            invariant
                i <= lines@.len(),
                chars::texts(lines@) == all,
                chars::strings(names@) == names_in(all.take(i as int)),
            decreases lines.len() - i,
        {
            let ghost before = chars::strings(names@);
            proof {
                assert(all[i as int] == lines@[i as int]@);
                assert(all.take(i + 1).drop_last() =~= all.take(i as int));
            }
            if let Some((name, _)) = text::split_once(lines[i], ':') {
                let trimmed: &[char] = text::trim(name);
                if trimmed.len() > 0 {
                    names.push(text::string_of(trimmed));
                    assert(chars::strings(names@) =~= before.push(trimmed@));
                }
            }
            i += 1;
        }
        assert(all.take(all.len() as int) =~= all);
    }
    names
}

/// The counters in the fields of a line: all of the eight that matter must be numbers.
pub open spec fn counters_of(f: Seq<Seq<char>>) -> Option<Counters> {
    let n = |i: int| numbers::unsigned_of(f[i]);
    if f.len() < 16 {
        None
    } else {
        match (n(0), n(1), n(2), n(3), n(8), n(9), n(10), n(11)) {
            (
                Some(rx_bytes),
                Some(rx_packets),
                Some(rx_errs),
                Some(rx_drop),
                Some(tx_bytes),
                Some(tx_packets),
                Some(tx_errs),
                Some(tx_drop),
            ) => Some(Counters { rx_bytes, rx_packets, rx_errs, rx_drop, tx_bytes, tx_packets, tx_errs, tx_drop }),
            _ => None,
        }
    }
}

/// The interface and the counters that a line gives.
pub open spec fn dev_row(line: Seq<char>) -> Option<(Seq<char>, Counters)> {
    match chars::cut(line, ':') {
        Some((name, rest)) => match counters_of(chars::words_of(rest)) {
            Some(c) => Some((chars::trimmed(name), c)),
            None => None,
        },
        None => None,
    }
}

/// The counters by interface: of two lines for one interface the later counts.
pub open spec fn dev_rows(lines: Seq<Seq<char>>) -> Seq<(Seq<char>, Counters)>
    decreases lines.len(),
{
    if lines.len() == 0 {
        seq![]
    } else {
        match dev_row(lines.last()) {
            Some((name, c)) => table::with_row(dev_rows(lines.drop_last()), name, c),
            None => dev_rows(lines.drop_last()),
        }
    }
}

fn read_counters(f: &Vec<&[char]>) -> (r: Option<Counters>)
    ensures
        r == counters_of(chars::texts(f@)),
{
    if f.len() < 16 {
        return None;
    }
    proof {
        let t = chars::texts(f@);
        assert forall|i: int| 0 <= i < 16 implies #[trigger] t[i] == f@[i]@ by {}
    }
    match (
        numbers::parse_unsigned(f[0]),
        numbers::parse_unsigned(f[1]),
        numbers::parse_unsigned(f[2]),
        numbers::parse_unsigned(f[3]),
        numbers::parse_unsigned(f[8]),
        numbers::parse_unsigned(f[9]),
        numbers::parse_unsigned(f[10]),
        numbers::parse_unsigned(f[11]),
    ) {
        (
            Some(rx_bytes),
            Some(rx_packets),
            Some(rx_errs),
            Some(rx_drop),
            Some(tx_bytes),
            Some(tx_packets),
            Some(tx_errs),
            Some(tx_drop),
        ) => Some(Counters { rx_bytes, rx_packets, rx_errs, rx_drop, tx_bytes, tx_packets, tx_errs, tx_drop }),
        _ => None,
    }
}

/// The counters in the contents of `/proc/net/dev`; none where it could not be read.
pub fn read_proc_net_dev(dev: Option<&str>) -> (r: Table<Counters>)
    ensures
        r@ == dev_rows(dev_lines(command::opt_str(dev))),
{
    let mut stats: Table<Counters> = Table::new();
    let ghost all = dev_lines(command::opt_str(dev));
    assert(stats@ =~= dev_rows(all.take(0)));
    if let Some(t) = dev {
        let cs: Vec<char> = text::chars_of(t);
        let lines: Vec<&[char]> = body_of(&cs);
        let mut i: usize = 0;
        while i < lines.len()
            invariant
                i <= lines@.len(),
                chars::texts(lines@) == all,
                stats@ == dev_rows(all.take(i as int)),
            decreases lines.len() - i,
        {
            proof {
                assert(all[i as int] == lines@[i as int]@);
                assert(all.take(i + 1).drop_last() =~= all.take(i as int));
            }
            if let Some((name, rest)) = text::split_once(lines[i], ':') {
                let fields: Vec<&[char]> = text::words(rest);
                if let Some(c) = read_counters(&fields) {
                    stats.put(text::string_of(text::trim(name)), c);
                }
            }
            i += 1;
        }
        assert(all.take(all.len() as int) =~= all);
    }
    stats
}

/// By how much a counter grew; one that was reset did not grow.
pub open spec fn growth(from: u64, to: u64) -> u64 {
    if to >= from {
        (to - from) as u64
    } else {
        0
    }
}

/// What an interface moved since the sample before: nothing where there is none to compare
/// with, or where no time has passed.
pub open spec fn rates_of(c: Counters, prev: Option<Counters>, nanos: u64) -> IfaceRates {
    match prev {
        Some(p) => if nanos > 0 {
            IfaceRates {
                counters: c,
                rx_delta: growth(p.rx_bytes, c.rx_bytes),
                tx_delta: growth(p.tx_bytes, c.tx_bytes),
            }
        } else {
            IfaceRates { counters: c, rx_delta: 0, tx_delta: 0 }
        },
        None => IfaceRates { counters: c, rx_delta: 0, tx_delta: 0 },
    }
}

pub open spec fn earlier(prev: Option<Seq<(Seq<char>, Counters)>>, name: Seq<char>) -> Option<Counters> {
    match prev {
        Some(rows) => table::value_of(rows, name),
        None => None,
    }
}

pub open spec fn rate_rows(
    raw: Seq<(Seq<char>, Counters)>,
    prev: Option<Seq<(Seq<char>, Counters)>>,
    nanos: u64,
) -> Seq<(Seq<char>, IfaceRates)> {
    raw.map_values(|r: (Seq<char>, Counters)| (r.0, rates_of(r.1, earlier(prev, r.0), nanos)))
}

pub open spec fn opt_rows(t: Option<Table<Counters>>) -> Option<Seq<(Seq<char>, Counters)>> {
    match t {
        Some(t) => Some(t@),
        None => None,
    }
}

pub open spec fn nanos_of(elapsed: Option<u64>) -> u64 {
    match elapsed {
        Some(n) => n,
        None => 0,
    }
}

fn delta(from: u64, to: u64) -> (r: u64)
    ensures
        r == growth(from, to),
{
    if to >= from {
        to - from
    } else {
        0
    }
}

/// Compares a sample with the one before it, `elapsed` nanoseconds earlier.
pub fn compute_rates(raw: &Table<Counters>, prev: &Option<Table<Counters>>, elapsed: Option<u64>) -> (r: Table<
    IfaceRates,
>)
    ensures
        r@ == rate_rows(raw@, opt_rows(*prev), nanos_of(elapsed)),
{
    let nanos: u64 = match elapsed {
        Some(n) => n,
        None => 0,
    };
    let ghost want = rate_rows(raw@, opt_rows(*prev), nanos);
    let mut rates: Table<IfaceRates> = Table::new();
    let n: usize = raw.len();
    let mut i: usize = 0;
    while i < n
        invariant
            i <= n == raw@.len(),
            table::distinct(raw@),
            nanos == nanos_of(elapsed),
            want == rate_rows(raw@, opt_rows(*prev), nanos),
            rates@ == want.take(i as int),
        decreases n - i,
    {
        let name: &str = raw.name_at(i);
        let c: Counters = *raw.value_at(i);
        let before: Option<Counters> = match prev {
            Some(t) => match t.get(name) {
                Some(p) => Some(*p),
                None => None,
            },
            None => None,
        };
        let row: IfaceRates = match before {
            Some(p) => if nanos > 0 {
                IfaceRates {
                    counters: c,
                    rx_delta: delta(p.rx_bytes, c.rx_bytes),
                    tx_delta: delta(p.tx_bytes, c.tx_bytes),
                }
            } else {
                IfaceRates { counters: c, rx_delta: 0, tx_delta: 0 }
            },
            None => IfaceRates { counters: c, rx_delta: 0, tx_delta: 0 },
        };
        proof {
            assert(want[i as int] == (name@, row));
            table::lemma_place_of(rates@, name@);
            if let Some(k) = table::place_of(rates@, name@) {
                assert(want[k].0 == raw@[k].0);
                assert(raw@[k].0 != raw@[i as int].0);
            }
        }
        rates.put(name.to_string(), row);
        i += 1;
        assert(rates@ =~= want.take(i as int));
    }
    assert(want.take(n as int) =~= want);
    rates
}

/// The rows of the interfaces that count for the totals.
pub open spec fn visible_of(rows: Seq<(Seq<char>, IfaceRates)>) -> Seq<(Seq<char>, IfaceRates)>
    decreases rows.len(),
{
    if rows.len() == 0 {
        seq![]
    } else if is_skipped(rows.last().0) {
        visible_of(rows.drop_last())
    } else {
        visible_of(rows.drop_last()).push(rows.last())
    }
}

/// What some rows add up to.
#[verifier::ext_equal]
pub struct Sums {
    pub rx_delta: int,
    pub tx_delta: int,
    pub rx_bytes: int,
    pub tx_bytes: int,
}

pub open spec fn sums_of(rows: Seq<(Seq<char>, IfaceRates)>) -> Sums
    decreases rows.len(),
{
    if rows.len() == 0 {
        Sums { rx_delta: 0, tx_delta: 0, rx_bytes: 0, tx_bytes: 0 }
    } else {
        let s = sums_of(rows.drop_last());
        let r = rows.last().1;
        Sums {
            rx_delta: s.rx_delta + r.rx_delta,
            tx_delta: s.tx_delta + r.tx_delta,
            rx_bytes: s.rx_bytes + r.counters.rx_bytes,
            tx_bytes: s.tx_bytes + r.counters.tx_bytes,
        }
    }
}

proof fn lemma_visible_names(rows: Seq<(Seq<char>, IfaceRates)>, name: Seq<char>)
    requires
        forall|i: int| 0 <= i < rows.len() ==> #[trigger] rows[i].0 != name,
    ensures
        forall|i: int| 0 <= i < visible_of(rows).len() ==> #[trigger] visible_of(rows)[i].0 != name,
        visible_of(rows).len() <= rows.len(),
    decreases rows.len(),
{
    if rows.len() > 0 {
        let rest = rows.drop_last();
        assert forall|i: int| 0 <= i < rest.len() implies #[trigger] rest[i].0 != name by {
            assert(rows[i].0 != name);
        }
        lemma_visible_names(rest, name);
        assert(rows[rows.len() - 1].0 != name);
    }
}

/// Hiding interfaces hides exactly those that are skipped, and changes nothing of the others.
pub proof fn law_visible_is_the_rest(rows: Seq<(Seq<char>, IfaceRates)>, row: (Seq<char>, IfaceRates))
    ensures
        visible_of(rows).contains(row) <==> rows.contains(row) && !is_skipped(row.0),
    decreases rows.len(),
{
    if rows.len() > 0 {
        let rest = rows.drop_last();
        let some = visible_of(rest);
        law_visible_is_the_rest(rest, row);
        if rest.contains(row) {
            let i = choose|i: int| 0 <= i < rest.len() && rest[i] == row;
            assert(rows[i] == row);
        }
        if rows.contains(row) {
            let i = choose|i: int| 0 <= i < rows.len() && rows[i] == row;
            if i < rest.len() {
                assert(rest[i] == row);
            }
        }
        assert(rows[rows.len() - 1] == rows.last());
        if !is_skipped(rows.last().0) {
            let all = some.push(rows.last());
            assert(all[some.len() as int] == rows.last());
            if some.contains(row) {
                let i = choose|i: int| 0 <= i < some.len() && some[i] == row;
                assert(all[i] == row);
            }
        }
    }
}

/// A tunnel on top of another interface adds nothing to the totals.
pub proof fn law_skipped_adds_nothing(rows: Seq<(Seq<char>, IfaceRates)>, row: (Seq<char>, IfaceRates))
    requires
        is_skipped(row.0),
    ensures
        sums_of(visible_of(rows.push(row))) == sums_of(visible_of(rows)),
{
    assert(rows.push(row).drop_last() =~= rows);
}

/// A reading of all interfaces. Rates are bytes moved in the `nanos` nanoseconds since the
/// reading before: none were moved where there was none.
pub struct Reading {
    pub default_iface: Option<String>,
    pub interfaces: Table<IfaceRates>,
    pub visible_interfaces: Table<IfaceRates>,
    pub nanos: u64,
    pub download_delta: u128,
    pub upload_delta: u128,
    pub total_download_delta: u128,
    pub total_upload_delta: u128,
    pub total_downloaded: u128,
    pub total_uploaded: u128,
    pub primary_info: InterfaceInfo,
}

#[verifier::ext_equal]
pub struct ReadingView {
    pub default_iface: Option<Seq<char>>,
    pub interfaces: Seq<(Seq<char>, IfaceRates)>,
    pub visible_interfaces: Seq<(Seq<char>, IfaceRates)>,
    pub nanos: u64,
    pub download_delta: int,
    pub upload_delta: int,
    pub total_download_delta: int,
    pub total_upload_delta: int,
    pub total_downloaded: int,
    pub total_uploaded: int,
    pub primary_info: InfoView,
}

impl View for Reading {
    type V = ReadingView;

    open spec fn view(&self) -> ReadingView {
        ReadingView {
            default_iface: chars::opt_text(self.default_iface),
            interfaces: self.interfaces@,
            visible_interfaces: self.visible_interfaces@,
            nanos: self.nanos,
            download_delta: self.download_delta as int,
            upload_delta: self.upload_delta as int,
            total_download_delta: self.total_download_delta as int,
            total_upload_delta: self.total_upload_delta as int,
            total_downloaded: self.total_downloaded as int,
            total_uploaded: self.total_uploaded as int,
            primary_info: self.primary_info@,
        }
    }
}

/// The rates of the default interface, where it has any.
pub open spec fn primary_of(rows: Seq<(Seq<char>, IfaceRates)>, default_iface: Option<Seq<char>>) -> Option<IfaceRates> {
    match default_iface {
        Some(name) => table::value_of(rows, name),
        None => None,
    }
}

/// The reading for some rates: the totals are of the visible interfaces, and the rates those of
/// the default interface, or the totals where it is not known.
pub open spec fn reading_of(
    rates: Seq<(Seq<char>, IfaceRates)>,
    nanos: u64,
    default_iface: Option<Seq<char>>,
    primary_info: InfoView,
) -> ReadingView {
    let visible = visible_of(rates);
    let sums = sums_of(visible);
    let primary = primary_of(rates, default_iface);
    ReadingView {
        default_iface,
        interfaces: rates,
        visible_interfaces: visible,
        nanos,
        download_delta: match primary {
            Some(p) => p.rx_delta as int,
            None => sums.rx_delta,
        },
        upload_delta: match primary {
            Some(p) => p.tx_delta as int,
            None => sums.tx_delta,
        },
        total_download_delta: sums.rx_delta,
        total_upload_delta: sums.tx_delta,
        total_downloaded: sums.rx_bytes,
        total_uploaded: sums.tx_bytes,
        primary_info,
    }
}

/// Leaves out the interfaces that are skipped, and adds up the others.
pub fn build_reading(
    rates: Table<IfaceRates>,
    nanos: u64,
    default_iface: Option<String>,
    primary_info: InterfaceInfo,
) -> (r: Reading)
    ensures
        r@ == reading_of(rates@, nanos, chars::opt_text(default_iface), primary_info@),
{
    let ghost all = rates@;
    let mut visible: Table<IfaceRates> = Table::new();
    let mut rx_delta: u128 = 0;
    let mut tx_delta: u128 = 0;
    let mut rx_bytes: u128 = 0;
    let mut tx_bytes: u128 = 0;
    let n: usize = rates.len();
    let mut i: usize = 0;
    assert(visible@ =~= visible_of(all.take(0)));
    while i < n
        invariant
            i <= n == rates@.len(),
            all == rates@,
            table::distinct(all),
            visible@ == visible_of(all.take(i as int)),
            (Sums {
                rx_delta: rx_delta as int,
                tx_delta: tx_delta as int,
                rx_bytes: rx_bytes as int,
                tx_bytes: tx_bytes as int,
            }) == sums_of(visible@),
            rx_delta <= i * 0xffff_ffff_ffff_ffff,
            tx_delta <= i * 0xffff_ffff_ffff_ffff,
            rx_bytes <= i * 0xffff_ffff_ffff_ffff,
            tx_bytes <= i * 0xffff_ffff_ffff_ffff,
        decreases n - i,
    {
        let name: &str = rates.name_at(i);
        let ghost seen = all.take(i as int);
        proof {
            assert(all.take(i + 1).drop_last() =~= seen);
            assert(all.take(i + 1).last() == all[i as int]);
            assert forall|k: int| 0 <= k < seen.len() implies #[trigger] seen[k].0 != name@ by {
                assert(all[k].0 != all[i as int].0);
            }
            lemma_visible_names(seen, name@);
            table::lemma_place_of(visible@, name@);
        }
        if !skipped(name) {
            let row: IfaceRates = *rates.value_at(i);
            visible.put(name.to_string(), row);
            assert(visible@ =~= visible_of(seen).push(all[i as int]));
            assert(visible@.drop_last() =~= visible_of(seen));
            rx_delta = rx_delta + row.rx_delta as u128;
            tx_delta = tx_delta + row.tx_delta as u128;
            rx_bytes = rx_bytes + row.counters.rx_bytes as u128;
            tx_bytes = tx_bytes + row.counters.tx_bytes as u128;
        }
        i += 1;
    }
    assert(all.take(n as int) =~= all);
    let primary: Option<IfaceRates> = match &default_iface {
        Some(name) => match rates.get(name.as_str()) {
            Some(p) => Some(*p),
            None => None,
        },
        None => None,
    };
    let (download_delta, upload_delta): (u128, u128) = match primary {
        Some(p) => (p.rx_delta as u128, p.tx_delta as u128),
        None => (rx_delta, tx_delta),
    };
    Reading {
        default_iface,
        interfaces: rates,
        visible_interfaces: visible,
        nanos,
        download_delta,
        upload_delta,
        total_download_delta: rx_delta,
        total_upload_delta: tx_delta,
        total_downloaded: rx_bytes,
        total_uploaded: tx_bytes,
        primary_info,
    }
}

/// Turns samples of the counters into rates: each is compared with the one before it.
pub struct NetworkReader {
    last_sample: Option<Table<Counters>>,
    last_time: Option<u64>,
}

/// The last sample and its time.
#[verifier::ext_equal]
pub struct ReaderView {
    pub last_sample: Option<Seq<(Seq<char>, Counters)>>,
    pub last_time: Option<u64>,
}

impl View for NetworkReader {
    type V = ReaderView;

    closed spec fn view(&self) -> ReaderView {
        ReaderView { last_sample: opt_rows(self.last_sample), last_time: self.last_time }
    }
}

/// The time since the last sample; none counts as no time.
pub open spec fn since(last: Option<u64>, now: u64) -> u64 {
    match last {
        Some(t) => growth(t, now),
        None => 0,
    }
}

/// What a reader keeps after a reading: this sample, whatever the one before was.
pub open spec fn sampled(dev: Option<Seq<char>>, now: u64) -> ReaderView {
    ReaderView { last_sample: Some(dev_rows(dev_lines(dev))), last_time: Some(now) }
}

/// The rows that a reader reports for a sample.
pub open spec fn reported(v: ReaderView, dev: Option<Seq<char>>, now: u64) -> Seq<(Seq<char>, IfaceRates)> {
    rate_rows(dev_rows(dev_lines(dev)), v.last_sample, since(v.last_time, now))
}

impl NetworkReader {
    /// A reader that has seen no sample.
    pub fn new() -> (r: Self)
        ensures
            r@ == (ReaderView { last_sample: None, last_time: None }),
    {
        NetworkReader { last_sample: None, last_time: None }
    }

    /// A reading at the time `now`, in nanoseconds: from the contents of `/proc/net/dev`, the
    /// default interface and, if there is one, the files of that interface.
    pub fn get(
        &mut self,
        dev: Option<&str>,
        default_iface: Option<String>,
        files: &InterfaceFiles,
        now: u64,
    ) -> (r: Reading)
        ensures
            final(self)@ == sampled(command::opt_str(dev), now),
            r@.interfaces == reported(old(self)@, command::opt_str(dev), now),
            r@.nanos == since(old(self)@.last_time, now),
            final(self)@ == (ReaderView {
                last_sample: Some(dev_rows(dev_lines(command::opt_str(dev)))),
                last_time: Some(now),
            }),
            r@ == reading_of(
                rate_rows(
                    dev_rows(dev_lines(command::opt_str(dev))),
                    old(self)@.last_sample,
                    since(old(self)@.last_time, now),
                ),
                since(old(self)@.last_time, now),
                chars::opt_text(default_iface),
                match default_iface {
                    Some(_) => info_of(files@),
                    None => no_info(),
                },
            ),
    {
        let raw: Table<Counters> = read_proc_net_dev(dev);
        let elapsed: Option<u64> = match self.last_time {
            Some(t) => Some(delta(t, now)),
            None => None,
        };
        let nanos: u64 = match elapsed {
            Some(n) => n,
            None => 0,
        };
        let rates: Table<IfaceRates> = compute_rates(&raw, &self.last_sample, elapsed);
        self.last_sample = Some(raw);
        self.last_time = Some(now);
        let primary_info: InterfaceInfo = match &default_iface {
            Some(_) => read_interface_info(files),
            None => InterfaceInfo::default(),
        };
        build_reading(rates, nanos, default_iface, primary_info)
    }
}

impl Default for NetworkReader {
    fn default() -> (r: Self)
        ensures
            r@ == (ReaderView { last_sample: None, last_time: None }),
    {
        Self::new()
    }
}

/// The first reading of a reader reports no traffic: there is nothing to compare with.
pub proof fn law_first_reading_is_still(raw: Seq<(Seq<char>, Counters)>, nanos: u64, i: int)
    requires
        0 <= i < raw.len(),
    ensures
        rate_rows(raw, None, nanos)[i].1 == (IfaceRates { counters: raw[i].1, rx_delta: 0, tx_delta: 0 }),
{
}

/// Whatever a counter does, no rate is negative, and one that was reset counts as still.
pub proof fn law_reset_is_still(c: Counters, p: Counters, nanos: u64)
    ensures
        c.rx_bytes < p.rx_bytes ==> rates_of(c, Some(p), nanos).rx_delta == 0,
        c.tx_bytes < p.tx_bytes ==> rates_of(c, Some(p), nanos).tx_delta == 0,
        nanos > 0 && c.rx_bytes >= p.rx_bytes ==> p.rx_bytes + rates_of(c, Some(p), nanos).rx_delta == c.rx_bytes,
        nanos > 0 && c.tx_bytes >= p.tx_bytes ==> p.tx_bytes + rates_of(c, Some(p), nanos).tx_delta == c.tx_bytes,
{
}

/// Exactly the interfaces whose names start with one of nine prefixes are left out of the totals.
pub proof fn law_skipped_by_prefix(name: Seq<char>, rest: Seq<char>)
    ensures
        is_skipped("lo"@ + rest) && is_skipped("virbr"@ + rest) && is_skipped("docker"@ + rest),
        is_skipped("veth"@ + rest) && is_skipped("br-"@ + rest) && is_skipped("tun"@ + rest),
        is_skipped("tap"@ + rest) && is_skipped("wg"@ + rest) && is_skipped("ppp"@ + rest),
        is_skipped(name) ==> exists|p: Seq<char>|
            (p == "lo"@ || p == "virbr"@ || p == "docker"@ || p == "veth"@ || p == "br-"@ || p == "tun"@ || p == "tap"@
                || p == "wg"@ || p == "ppp"@) && #[trigger] (p + name.skip(p.len() as int)) == name && p.len() <= name.len(),
{
    assert(("lo"@ + rest).take("lo"@.len() as int) =~= "lo"@);
    assert(("virbr"@ + rest).take("virbr"@.len() as int) =~= "virbr"@);
    assert(("docker"@ + rest).take("docker"@.len() as int) =~= "docker"@);
    assert(("veth"@ + rest).take("veth"@.len() as int) =~= "veth"@);
    assert(("br-"@ + rest).take("br-"@.len() as int) =~= "br-"@);
    assert(("tun"@ + rest).take("tun"@.len() as int) =~= "tun"@);
    assert(("tap"@ + rest).take("tap"@.len() as int) =~= "tap"@);
    assert(("wg"@ + rest).take("wg"@.len() as int) =~= "wg"@);
    assert(("ppp"@ + rest).take("ppp"@.len() as int) =~= "ppp"@);
    if is_skipped(name) {
        let p = if chars::starts(name, "lo"@) {
            "lo"@
        } else if chars::starts(name, "virbr"@) {
            "virbr"@
        } else if chars::starts(name, "docker"@) {
            "docker"@
        } else if chars::starts(name, "veth"@) {
            "veth"@
        } else if chars::starts(name, "br-"@) {
            "br-"@
        } else if chars::starts(name, "tun"@) {
            "tun"@
        } else if chars::starts(name, "tap"@) {
            "tap"@
        } else if chars::starts(name, "wg"@) {
            "wg"@
        } else {
            "ppp"@
        };
        assert(chars::starts(name, p));
        assert(p + name.skip(p.len() as int) =~= name);
    }
}

/// Each visible interface adds its own bytes to every total, whatever the others moved; without
/// interfaces the totals are zero.
pub proof fn law_visible_adds_to_every_total(rows: Seq<(Seq<char>, IfaceRates)>, name: Seq<char>, r: IfaceRates)
    requires
        !is_skipped(name),
    ensures
        sums_of(visible_of(seq![])) == (Sums { rx_delta: 0, tx_delta: 0, rx_bytes: 0, tx_bytes: 0 }),
        sums_of(visible_of(rows.push((name, r)))) == (Sums {
            rx_delta: sums_of(visible_of(rows)).rx_delta + r.rx_delta,
            tx_delta: sums_of(visible_of(rows)).tx_delta + r.tx_delta,
            rx_bytes: sums_of(visible_of(rows)).rx_bytes + r.counters.rx_bytes,
            tx_bytes: sums_of(visible_of(rows)).tx_bytes + r.counters.tx_bytes,
        }),
        visible_of(rows.push((name, r))) == visible_of(rows).push((name, r)),
{
    assert(rows.push((name, r)).drop_last() =~= rows);
    assert(visible_of(rows).push((name, r)).drop_last() =~= visible_of(rows));
}

/// The totals of a reading grow by what one more visible interface moved, and by nothing for one
/// that is left out; the interface itself is listed in any case.
pub proof fn law_reading_counts_each_interface(
    rows: Seq<(Seq<char>, IfaceRates)>,
    name: Seq<char>,
    r: IfaceRates,
    nanos: u64,
    default_iface: Option<Seq<char>>,
    info: InfoView,
)
    ensures
        ({
            let a = reading_of(rows, nanos, default_iface, info);
            let b = reading_of(rows.push((name, r)), nanos, default_iface, info);
            let n: int = if is_skipped(name) {
                0
            } else {
                1
            };
            &&& b.total_downloaded == a.total_downloaded + n * r.counters.rx_bytes
            &&& b.total_uploaded == a.total_uploaded + n * r.counters.tx_bytes
            &&& b.total_download_delta == a.total_download_delta + n * r.rx_delta
            &&& b.total_upload_delta == a.total_upload_delta + n * r.tx_delta
            &&& b.interfaces == rows.push((name, r))
            &&& b.visible_interfaces.len() == a.visible_interfaces.len() + n
            &&& b.nanos == nanos
            &&& b.default_iface == default_iface
            &&& b.primary_info == info
        }),
{
    if is_skipped(name) {
        law_skipped_adds_nothing(rows, (name, r));
        assert(rows.push((name, r)).drop_last() =~= rows);
    } else {
        law_visible_adds_to_every_total(rows, name, r);
    }
}

/// The rates of a reading are those of the default interface, even of one that is left out of
/// the totals; where it has no row or is not known, they are the totals.
pub proof fn law_rates_are_of_the_default_interface(
    rows: Seq<(Seq<char>, IfaceRates)>,
    i: int,
    other: Seq<char>,
    nanos: u64,
    info: InfoView,
)
    requires
        table::distinct(rows),
        0 <= i < rows.len(),
        forall|j: int| 0 <= j < rows.len() ==> (#[trigger] rows[j]).0 != other,
    ensures
        reading_of(rows, nanos, Some(rows[i].0), info).download_delta == rows[i].1.rx_delta,
        reading_of(rows, nanos, Some(rows[i].0), info).upload_delta == rows[i].1.tx_delta,
        ({
            let unknown = reading_of(rows, nanos, None, info);
            let absent = reading_of(rows, nanos, Some(other), info);
            &&& unknown.download_delta == unknown.total_download_delta
            &&& unknown.upload_delta == unknown.total_upload_delta
            &&& absent.download_delta == absent.total_download_delta
            &&& absent.upload_delta == absent.total_upload_delta
        }),
{
    table::law_value_is_of_its_row(rows, i, other);
}

/// An interface is compared with its own row of the sample before, wherever that stands: each
/// of its counters by itself, and a counter that went back counts as still. One that had no row
/// there is still, and so is every one where no time has passed.
pub proof fn law_interface_is_compared_with_itself(
    raw: Seq<(Seq<char>, Counters)>,
    prev: Seq<(Seq<char>, Counters)>,
    nanos: u64,
    i: int,
    j: int,
)
    requires
        table::distinct(prev),
        0 <= i < raw.len(),
        0 <= j < prev.len(),
        prev[j].0 == raw[i].0,
    ensures
        ({
            let (name, r) = rate_rows(raw, Some(prev), nanos)[i];
            let c = raw[i].1;
            let p = prev[j].1;
            &&& name == raw[i].0
            &&& r.counters == c
            &&& nanos > 0 && p.rx_bytes <= c.rx_bytes ==> p.rx_bytes + r.rx_delta == c.rx_bytes
            &&& nanos > 0 && p.tx_bytes <= c.tx_bytes ==> p.tx_bytes + r.tx_delta == c.tx_bytes
            &&& nanos == 0 || c.rx_bytes < p.rx_bytes ==> r.rx_delta == 0
            &&& nanos == 0 || c.tx_bytes < p.tx_bytes ==> r.tx_delta == 0
        }),
        rate_rows(raw, Some(prev), nanos).len() == raw.len(),
{
    table::lemma_place_of(prev, raw[i].0);
    let k = table::place_of(prev, raw[i].0)->Some_0;
    if k < j {
        assert(prev[k].0 != prev[j].0);
    } else if j < k {
        assert(prev[j].0 != prev[k].0);
    }
}

/// An interface that the sample before did not have is still.
pub proof fn law_new_interface_is_still(
    raw: Seq<(Seq<char>, Counters)>,
    prev: Seq<(Seq<char>, Counters)>,
    nanos: u64,
    i: int,
)
    requires
        0 <= i < raw.len(),
        forall|j: int| 0 <= j < prev.len() ==> (#[trigger] prev[j]).0 != raw[i].0,
    ensures
        rate_rows(raw, Some(prev), nanos)[i] == (
            raw[i].0,
            IfaceRates { counters: raw[i].1, rx_delta: 0, tx_delta: 0 },
        ),
{
    table::lemma_place_of(prev, raw[i].0);
}

/// A line of `/proc/net/dev` gives the interface before its colon the counters in its fields: the
/// first four and the ninth to the twelfth of at least sixteen.
pub proof fn law_dev_line_is_read(front: Seq<char>, name: Seq<char>, rest: Seq<char>, c: Counters)
    requires
        chars::is_blank(front),
        !front.contains(':'),
        chars::is_trim(name),
        !name.contains(':'),
        chars::words_of(rest).len() >= 16,
        chars::words_of(rest)[0] == numbers::decimal(c.rx_bytes as nat),
        chars::words_of(rest)[1] == numbers::decimal(c.rx_packets as nat),
        chars::words_of(rest)[2] == numbers::decimal(c.rx_errs as nat),
        chars::words_of(rest)[3] == numbers::decimal(c.rx_drop as nat),
        chars::words_of(rest)[8] == numbers::decimal(c.tx_bytes as nat),
        chars::words_of(rest)[9] == numbers::decimal(c.tx_packets as nat),
        chars::words_of(rest)[10] == numbers::decimal(c.tx_errs as nat),
        chars::words_of(rest)[11] == numbers::decimal(c.tx_drop as nat),
    ensures
        dev_row(front + name + seq![':'] + rest) == Some((name, c)),
        name.len() > 0 ==> name_in(front + name + seq![':'] + rest) == Some(name),
{
    let head = front + name;
    let none: Seq<char> = seq![];
    assert(!head.contains(':')) by {
        if head.contains(':') {
            let i = choose|i: int| 0 <= i < head.len() && head[i] == ':';
            if i < front.len() {
                assert(front.contains(front[i]));
            } else {
                assert(name.contains(name[i - front.len()]));
            }
        }
    }
    chars::law_cut_at_the_first(head, ':', rest);
    chars::law_trimming_keeps_the_inside(front, name, none);
    assert(front + name + none =~= head);
    numbers::law_unsigned_round_trip(c.rx_bytes);
    numbers::law_unsigned_round_trip(c.rx_packets);
    numbers::law_unsigned_round_trip(c.rx_errs);
    numbers::law_unsigned_round_trip(c.rx_drop);
    numbers::law_unsigned_round_trip(c.tx_bytes);
    numbers::law_unsigned_round_trip(c.tx_packets);
    numbers::law_unsigned_round_trip(c.tx_errs);
    numbers::law_unsigned_round_trip(c.tx_drop);
}

/// A line without a colon, with fewer than sixteen fields or with one of the eight that is no
/// number gives no counters.
pub proof fn law_odd_dev_line_is_left_out(line: Seq<char>, name: Seq<char>, rest: Seq<char>, i: int)
    requires
        chars::cut(line, ':') is None || (chars::cut(line, ':') == Some((name, rest)) && (chars::words_of(rest).len() < 16
            || ((0 <= i < 4 || 8 <= i < 12) && numbers::unsigned_of(chars::words_of(rest)[i]) is None))),
    ensures
        dev_row(line) is None,
{
}

proof fn lemma_dev_rows_distinct(lines: Seq<Seq<char>>)
    ensures
        table::distinct(dev_rows(lines)),
    decreases lines.len(),
{
    if lines.len() > 0 {
        lemma_dev_rows_distinct(lines.drop_last());
        if let Some((name, c)) = dev_row(lines.last()) {
            table::law_with_row(dev_rows(lines.drop_last()), name, c, name);
        }
    }
}

/// Each line sets the counters of its interface and of no other, and no interface has two rows.
pub proof fn law_line_sets_its_interface(lines: Seq<Seq<char>>, line: Seq<char>, other: Seq<char>)
    ensures
        table::distinct(dev_rows(lines)),
        dev_rows(seq![]) == Seq::<(Seq<char>, Counters)>::empty(),
        dev_row(line) is None ==> dev_rows(lines.push(line)) == dev_rows(lines),
        dev_row(line) matches Some((name, c)) ==> table::value_of(dev_rows(lines.push(line)), name) == Some(c) && (other
            != name ==> table::value_of(dev_rows(lines.push(line)), other) == table::value_of(dev_rows(lines), other)),
{
    lemma_dev_rows_distinct(lines);
    assert(lines.push(line).drop_last() =~= lines);
    if let Some((name, c)) = dev_row(line) {
        table::law_with_row(dev_rows(lines), name, c, other);
    }
}

/// The interfaces are named in the order of their lines, below the two lines of the header; a
/// line without a name adds none.
pub proof fn law_names_are_in_order(lines: Seq<Seq<char>>, line: Seq<char>, dev: Seq<char>, a: Seq<char>, b: Seq<char>)
    ensures
        names_in(seq![]) == Seq::<Seq<char>>::empty(),
        name_in(line) is None ==> names_in(lines.push(line)) == names_in(lines),
        name_in(line) matches Some(name) ==> names_in(lines.push(line)) == names_in(lines).push(name) && name.len() > 0,
        chars::lines_of(dev) == seq![a, b] + lines ==> dev_lines(Some(dev)) == lines,
        dev_lines(None) == Seq::<Seq<char>>::empty(),
{
    assert(lines.push(line).drop_last() =~= lines);
    if chars::lines_of(dev) == seq![a, b] + lines {
        assert(chars::beyond(chars::lines_of(dev), 2) =~= lines);
    }
}

/// The default interface is the word behind the first `dev` of the first line that has one.
pub proof fn law_default_is_behind_dev(front: Seq<Seq<char>>, line: Seq<char>, rest: Seq<Seq<char>>, name: Seq<char>)
    requires
        forall|i: int| 0 <= i < front.len() ==> chars::word_after(chars::words_of(#[trigger] front[i]), "dev"@) is None,
        chars::word_after(chars::words_of(line), "dev"@) == Some(name),
    ensures
        default_of(front + seq![line] + rest) == Some(name),
        default_of(front) is None,
    decreases front.len(),
{
    let all = front + seq![line] + rest;
    if front.len() == 0 {
        assert(all[0] == line);
    } else {
        let less = front.skip(1);
        assert forall|i: int| 0 <= i < less.len() implies chars::word_after(
            chars::words_of(#[trigger] less[i]),
            "dev"@,
        ) is None by {
            assert(less[i] == front[i + 1]);
        }
        law_default_is_behind_dev(less, line, rest, name);
        assert(all[0] == front[0]);
        assert(all.skip(1) =~= less + seq![line] + rest);
    }
}

/// What is known of an interface is what each of its files holds, without the white space around
/// it and whatever the others hold: a speed counts if it is above zero, and a state that could
/// not be read is unknown.
pub proof fn law_files_are_read(f: FilesView, t: Seq<char>, speed: i64, back: Seq<char>)
    requires
        chars::is_trim(t),
        chars::is_blank(back),
    ensures
        info_of(FilesView { address: Some(t + back), ..f }).address == Some(t),
        info_of(FilesView { mtu: Some(t + back), ..f }).mtu == Some(t),
        info_of(FilesView { operstate: Some(t + back), ..f }).operstate == t,
        speed > 0 ==> info_of(
            FilesView { speed: Some(numbers::signed_decimal(speed as int) + back), ..f },
        ).speed_mbps == Some(speed),
        speed <= 0 ==> info_of(
            FilesView { speed: Some(numbers::signed_decimal(speed as int) + back), ..f },
        ).speed_mbps is None,
        numbers::signed_of(t) is None ==> info_of(FilesView { speed: Some(t + back), ..f }).speed_mbps is None,
        info_of(FilesView { address: None, ..f }).address is None,
        info_of(FilesView { mtu: None, ..f }).mtu is None,
        info_of(FilesView { operstate: None, ..f }).operstate == "unknown"@,
        info_of(FilesView { speed: None, ..f }).speed_mbps is None,
{
    let none: Seq<char> = seq![];
    let n = numbers::signed_decimal(speed as int);
    numbers::law_signed_round_trip(speed);
    numbers::lemma_decimal_value(numbers::magnitude(speed as int));
    assert(chars::is_trim(n)) by {
        let d = numbers::decimal(numbers::magnitude(speed as int));
        assert(chars::is_digit(d[0]) && chars::is_digit(d[d.len() - 1]));
        assert(n.last() == d.last());
    }
    chars::law_trimming_keeps_the_inside(none, t, back);
    chars::law_trimming_keeps_the_inside(none, n, back);
    assert(none + t + back =~= t + back);
    assert(none + n + back =~= n + back);
}

/// The host whose answers are timed.
pub const LATENCY_TARGET: &'static str = "1.1.1.1";

/// The number behind the first `time=`, if it is one.
pub open spec fn latency_in(output: Seq<char>) -> Option<Seq<char>> {
    match chars::find_at(output, "time="@) {
        Some(k) => {
            let rest = output.skip(k + 5);
            let number = rest.take(chars::span(rest, chars::Class::Numeral, true));
            if numbers::is_real_number(number) {
                Some(number)
            } else {
                None
            }
        },
        None => None,
    }
}

pub open spec fn latency_of(run: Option<command::CommandView>) -> Option<Seq<char>> {
    match command::stdout_of(run) {
        Some(output) => latency_in(output),
        None => None,
    }
}

/// The round-trip time in milliseconds that a run of `ping -c 1` printed, as it stands there.
pub fn measure_latency(run: &Option<CommandOutput>) -> (r: Option<String>)
    ensures
        chars::opt_text(r) == latency_of(command::run_view(*run)),
{
    match command::successful_stdout(run) {
        Some(output) => {
            let cs: Vec<char> = text::chars_of(output);
            match text::find(cs.as_slice(), "time=") {
                Some(k) => {
                    proof {
                        reveal_strlit("time=");
                        assert(k + "time="@.len() <= cs.len());
                    }
                    let rest: &[char] = text::past(cs.as_slice(), k + 5);
                    let number: &[char] = text::front(rest, text::measure(rest, chars::Class::Numeral, true));
                    if numbers::real_number(number) {
                        Some(text::string_of(number))
                    } else {
                        None
                    }
                },
                None => None,
            }
        },
        None => None,
    }
}


/// The time that is told is the number behind the first `time=`, up to what belongs to no number;
/// without that mark there is none.
pub proof fn law_latency_is_behind_its_mark(front: Seq<char>, number: Seq<char>, back: Seq<char>)
    requires
        !chars::holds_text(front + "time"@, "time="@),
        forall|i: int| 0 <= i < number.len() ==> chars::is_digit(#[trigger] number[i]) || number[i] == '.',
        back.len() > 0 ==> !chars::is_digit(back[0]) && back[0] != '.',
    ensures
        latency_in(front + "time="@ + number + back) == if numbers::is_real_number(number) {
            Some(number)
        } else {
            None
        },
        latency_in(front) is None,
{
    reveal_strlit("time=");
    reveal_strlit("time");
    let mark = "time="@;
    let s = front + mark + number + back;
    let n = front.len() as int;
    assert(mark.drop_last() =~= "time"@);
    chars::law_find_at_the_first(front, mark, number + back);
    assert(front + mark + (number + back) =~= s);
    let rest = s.skip(n + 5);
    assert(rest =~= number + back);
    assert forall|i: int| 0 <= i < number.len() implies chars::in_class(chars::Class::Numeral, #[trigger] rest[i]) by {
        assert(rest[i] == number[i]);
    }
    chars::lemma_span_is(rest, chars::Class::Numeral, true, number.len() as int);
    assert(rest.take(number.len() as int) =~= number);
}


/// Default interface and latency are those of what a successful run printed; without such a run
/// there are none.
pub proof fn law_readings_need_a_successful_run(o: command::CommandView)
    ensures
        default_interface(None) is None,
        latency_of(None) is None,
        o.code == Some(0i32) ==> default_interface(Some(o)) == default_of(chars::lines_of(o.stdout)),
        o.code == Some(0i32) ==> latency_of(Some(o)) == latency_in(o.stdout),
        o.code != Some(0i32) ==> default_interface(Some(o)) is None,
        o.code != Some(0i32) ==> latency_of(Some(o)) is None,
        LATENCY_TARGET@ == "1.1.1.1"@,
{
}

/// The time of a reading is that since the one before, and none for the first.
pub proof fn law_time_is_since_the_last_reading(t: u64, now: u64)
    ensures
        since(None, now) == 0,
        t <= now ==> t + since(Some(t), now) == now,
        t > now ==> since(Some(t), now) == 0,
        nanos_of(None) == 0,
        nanos_of(Some(t)) == t,
{
}


/// Two readings one after the other: an interface that both list is reported by the second with
/// what it moved since the first, whatever was read before; one that only the second lists is
/// still.
pub proof fn law_reading_follows_the_one_before(
    first: Option<Seq<char>>,
    t: u64,
    second: Option<Seq<char>>,
    u: u64,
    i: int,
    j: int,
)
    requires
        t < u,
        0 <= i < dev_rows(dev_lines(second)).len(),
        0 <= j < dev_rows(dev_lines(first)).len(),
        dev_rows(dev_lines(first))[j].0 == dev_rows(dev_lines(second))[i].0,
    ensures
        ({
            let p = dev_rows(dev_lines(first))[j].1;
            let c = dev_rows(dev_lines(second))[i].1;
            let (name, r) = reported(sampled(first, t), second, u)[i];
            &&& name == dev_rows(dev_lines(second))[i].0
            &&& r.counters == c
            &&& p.rx_bytes <= c.rx_bytes ==> p.rx_bytes + r.rx_delta == c.rx_bytes
            &&& p.tx_bytes <= c.tx_bytes ==> p.tx_bytes + r.tx_delta == c.tx_bytes
            &&& c.rx_bytes < p.rx_bytes ==> r.rx_delta == 0
            &&& c.tx_bytes < p.tx_bytes ==> r.tx_delta == 0
        }),
        t + since(sampled(first, t).last_time, u) == u,
{
    lemma_dev_rows_distinct(dev_lines(first));
    law_interface_is_compared_with_itself(
        dev_rows(dev_lines(second)),
        dev_rows(dev_lines(first)),
        since(sampled(first, t).last_time, u),
        i,
        j,
    );
}

} // verus!
