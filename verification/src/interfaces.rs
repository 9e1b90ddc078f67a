//! The interfaces of the machine, and the bonds between them.
use crate::chars;
use crate::command;
use crate::command::CommandOutput;
use crate::netdev;
use crate::netdev::{Counters, InterfaceFiles, InterfaceInfo};
use crate::table;
use crate::table::Table;
use crate::text;
use vstd::prelude::*;

verus! {

#[derive(Debug, Clone)]
pub struct InterfaceSummary {
    pub name: String,
    pub kind: &'static str,
    pub ipv4: Option<String>,
    pub mac: Option<String>,
    pub mtu: Option<String>,
    pub operstate: String,
    pub speed_mbps: Option<i64>,
    pub rx_bytes: u64,
    pub tx_bytes: u64,
    pub is_default: bool,
}

#[verifier::ext_equal]
pub struct SummaryView {
    pub name: Seq<char>,
    pub kind: Seq<char>,
    pub ipv4: Option<Seq<char>>,
    pub info: netdev::InfoView,
    pub rx_bytes: u64,
    pub tx_bytes: u64,
    pub is_default: bool,
}

impl View for InterfaceSummary {
    type V = SummaryView;

    open spec fn view(&self) -> SummaryView {
        SummaryView {
            name: self.name@,
            kind: self.kind@,
            ipv4: chars::opt_text(self.ipv4),
            info: netdev::InfoView {
                address: chars::opt_text(self.mac),
                mtu: chars::opt_text(self.mtu),
                operstate: self.operstate@,
                speed_mbps: self.speed_mbps,
            },
            rx_bytes: self.rx_bytes,
            tx_bytes: self.tx_bytes,
            is_default: self.is_default,
        }
    }
}

pub open spec fn summaries(v: Seq<InterfaceSummary>) -> Seq<SummaryView> {
    v.map_values(|s: InterfaceSummary| s@)
}

/// What the kernel shows of an interface, as far as it goes: a directory `wireless` marks an
/// 802.11 device, and nothing marks an Ethernet device, so all else counts as one.
pub open spec fn kind_of(name: Seq<char>, wireless: bool) -> Seq<char> {
    if name == "lo"@ {
        "Loopback"@
    } else if wireless {
        "Wi-Fi"@
    } else {
        "Ethernet"@
    }
}

/// What kind of interface one is, from its name and from whether it has a directory `wireless`.
pub fn classify_under(name: &str, wireless: bool) -> (r: &'static str)
    ensures
        r@ == kind_of(name@, wireless),
{
    if text::same_str(name, "lo") {
        "Loopback"
    } else if wireless {
        "Wi-Fi"
    } else {
        "Ethernet"
    }
}

pub open spec fn ipv4_of(run: Option<command::CommandView>) -> Option<Seq<char>> {
    match command::stdout_of(run) {
        Some(output) => chars::word_after(chars::words_of(output), "inet"@),
        None => None,
    }
}

/// The address behind `inet` in a run of `ip -o -4 addr show`.
pub fn read_ipv4(run: &Option<CommandOutput>) -> (r: Option<String>)
    ensures
        chars::opt_text(r) == ipv4_of(command::run_view(*run)),
{
    match command::successful_stdout(run) {
        Some(output) => {
            let cs: Vec<char> = text::chars_of(output);
            let words: Vec<&[char]> = text::words(cs.as_slice());
            match text::word_after(&words, "inet") {
                Some(w) => Some(text::string_of(w)),
                None => None,
            }
        },
        None => None,
    }
}

/// What was found for an interface: its files, whether it has a directory `wireless`, and the
/// run of `ip -o -4 addr show` for it.
#[derive(Debug, Clone)]
pub struct FoundInterface {
    pub name: String,
    pub files: InterfaceFiles,
    pub wireless: bool,
    pub addresses: Option<CommandOutput>,
}

#[verifier::ext_equal]
pub struct FoundView {
    pub name: Seq<char>,
    pub files: netdev::FilesView,
    pub wireless: bool,
    pub addresses: Option<command::CommandView>,
}

impl View for FoundInterface {
    type V = FoundView;

    open spec fn view(&self) -> FoundView {
        FoundView {
            name: self.name@,
            files: self.files@,
            wireless: self.wireless,
            addresses: command::run_view(self.addresses),
        }
    }
}

pub open spec fn founds(v: Seq<FoundInterface>) -> Seq<FoundView> {
    v.map_values(|f: FoundInterface| f@)
}

pub open spec fn summary_of(
    f: FoundView,
    counters: Seq<(Seq<char>, Counters)>,
    default_iface: Option<Seq<char>>,
) -> SummaryView {
    let c = table::value_of(counters, f.name);
    SummaryView {
        name: f.name,
        kind: kind_of(f.name, f.wireless),
        ipv4: ipv4_of(f.addresses),
        info: netdev::info_of(f.files),
        rx_bytes: match c {
            Some(c) => c.rx_bytes,
            None => 0,
        },
        tx_bytes: match c {
            Some(c) => c.tx_bytes,
            None => 0,
        },
        is_default: default_iface == Some(f.name),
    }
}

fn summarize(f: &FoundInterface, counters: &Table<Counters>, default_iface: &Option<String>) -> (r: InterfaceSummary)
    ensures
        r@ == summary_of(f@, counters@, chars::opt_text(*default_iface)),
{
    let info: InterfaceInfo = netdev::read_interface_info(&f.files);
    let (rx_bytes, tx_bytes): (u64, u64) = match counters.get(f.name.as_str()) {
        Some(c) => (c.rx_bytes, c.tx_bytes),
        None => (0, 0),
    };
    let is_default: bool = match default_iface {
        Some(d) => text::same_str(d.as_str(), f.name.as_str()),
        None => false,
    };
    InterfaceSummary {
        name: f.name.clone(),
        kind: classify_under(f.name.as_str(), f.wireless),
        ipv4: read_ipv4(&f.addresses),
        mac: info.address,
        mtu: info.mtu,
        operstate: info.operstate,
        speed_mbps: info.speed_mbps,
        rx_bytes,
        tx_bytes,
        is_default,
    }
}

/// Every interface that was found, with its traffic from the contents of `/proc/net/dev` and
/// marked if a run of `ip route show default` names it.
pub fn list_all_interfaces(
    found: &Vec<FoundInterface>,
    dev: Option<&str>,
    route: &Option<CommandOutput>,
) -> (r: Vec<InterfaceSummary>)
    ensures
        summaries(r@) == founds(found@).map_values(
            |f: FoundView|
                summary_of(
                    f,
                    netdev::dev_rows(netdev::dev_lines(command::opt_str(dev))),
                    netdev::default_interface(command::run_view(*route)),
                ),
        ),
{
    let default_iface: Option<String> = netdev::get_default_interface(route);
    let counters: Table<Counters> = netdev::read_proc_net_dev(dev);
    let mut out: Vec<InterfaceSummary> = Vec::new();
    let ghost want = founds(found@).map_values(
        |f: FoundView| summary_of(f, counters@, chars::opt_text(default_iface)),
    );
    let mut i: usize = 0;
    while i < found.len()
        invariant
            i <= found@.len() == want.len(),
            want == founds(found@).map_values(
                |f: FoundView| summary_of(f, counters@, chars::opt_text(default_iface)),
            ),
            summaries(out@) == want.take(i as int),
        decreases found.len() - i,
    {
        let ghost before = summaries(out@);
        let s: InterfaceSummary = summarize(&found[i], &counters, &default_iface);
        assert(want[i as int] == s@);
        out.push(s);
        assert(summaries(out@) =~= before.push(s@));
        i += 1;
        assert(want.take(i as int) =~= before.push(s@));
    }
    assert(want.take(i as int) =~= want);
    out
}

/// A bond: several interfaces used as one.
#[derive(Debug, Clone)]
pub struct BondGroup {
    pub name: String,
    pub mode: String,
    pub active_slave: Option<String>,
    pub slaves: Vec<String>,
}

#[verifier::ext_equal]
pub struct BondView {
    pub name: Seq<char>,
    pub mode: Seq<char>,
    pub active_slave: Option<Seq<char>>,
    pub slaves: Seq<Seq<char>>,
}

impl View for BondGroup {
    type V = BondView;

    open spec fn view(&self) -> BondView {
        BondView {
            name: self.name@,
            mode: self.mode@,
            active_slave: chars::opt_text(self.active_slave),
            slaves: chars::strings(self.slaves@),
        }
    }
}

pub open spec fn bonds(v: Seq<BondGroup>) -> Seq<BondView> {
    v.map_values(|b: BondGroup| b@)
}

/// What a line says behind its label.
pub open spec fn said(line: Seq<char>, label: Seq<char>) -> Seq<char> {
    chars::trimmed(chars::without_leading(line, label))
}

/// What the lines with a label say, in order.
pub open spec fn labelled(lines: Seq<Seq<char>>, label: Seq<char>) -> Seq<Seq<char>>
    decreases lines.len(),
{
    if lines.len() == 0 {
        seq![]
    } else if chars::starts(lines.last(), label) {
        labelled(lines.drop_last(), label).push(said(lines.last(), label))
    } else {
        labelled(lines.drop_last(), label)
    }
}

/// The bond that a file under `/proc/net/bonding` describes.
pub open spec fn bond_of(name: Seq<char>, contents: Seq<char>) -> BondView {
    let lines = chars::lines_of(contents);
    let modes = labelled(lines, "Bonding Mode:"@);
    let active = labelled(lines, "Currently Active Slave:"@);
    BondView {
        name,
        mode: if modes.len() > 0 {
            modes[0]
        } else {
            "unknown"@
        },
        active_slave: if active.len() > 0 && active[0].len() > 0 && active[0] != "None"@ {
            Some(active[0])
        } else {
            None
        },
        slaves: labelled(lines, "Slave Interface:"@),
    }
}

fn read_labelled(lines: &Vec<&[char]>, label: &str) -> (r: Vec<String>)
    ensures
        chars::strings(r@) == labelled(chars::texts(lines@), label@),
{
    let ghost all = chars::texts(lines@);
    let mut out: Vec<String> = Vec::new();
    assert(chars::strings(out@) =~= labelled(all.take(0), label@));
    let mut i: usize = 0;
    while i < lines.len()
        invariant
            i <= lines@.len(),
            all == chars::texts(lines@),
            chars::strings(out@) == labelled(all.take(i as int), label@),
        decreases lines.len() - i,
    {
        let ghost before = chars::strings(out@);
        proof {
            assert(all[i as int] == lines@[i as int]@);
            assert(all.take(i + 1).drop_last() =~= all.take(i as int));
        }
        if text::starts_with(lines[i], label) {
            let s: &[char] = text::trim(text::trim_leading(lines[i], label));
            out.push(text::string_of(s));
            assert(chars::strings(out@) =~= before.push(s@));
        }
        i += 1;
    }
    assert(all.take(all.len() as int) =~= all);
    out
}

/// Reads a file under `/proc/net/bonding`.
pub fn parse_bond_info(name: String, contents: &str) -> (r: BondGroup)
    ensures
        r@ == bond_of(name@, contents@),
{
    let cs: Vec<char> = text::chars_of(contents);
    let lines: Vec<&[char]> = text::lines(cs.as_slice());
    let modes: Vec<String> = read_labelled(&lines, "Bonding Mode:");
    let active: Vec<String> = read_labelled(&lines, "Currently Active Slave:");
    let slaves: Vec<String> = read_labelled(&lines, "Slave Interface:");
    let mode: String = if modes.len() > 0 {
        assert(chars::strings(modes@)[0] == modes@[0]@);
        modes[0].clone()
    } else {
        "unknown".to_string()
    };
    let active_slave: Option<String> = if active.len() > 0 {
        assert(chars::strings(active@)[0] == active@[0]@);
        let a: &String = &active[0];
        if !a.as_str().is_empty() && !text::same_str(a.as_str(), "None") {
            Some(a.clone())
        } else {
            None
        }
    } else {
        None
    };
    BondGroup { name, mode, active_slave, slaves }
}

/// A file under `/proc/net/bonding`: its name and, if it could be read, its contents.
pub open spec fn file_view(f: (String, Option<String>)) -> (Seq<char>, Option<Seq<char>>) {
    (f.0@, chars::opt_text(f.1))
}

pub open spec fn file_views(v: Seq<(String, Option<String>)>) -> Seq<(Seq<char>, Option<Seq<char>>)> {
    v.map_values(|f: (String, Option<String>)| file_view(f))
}

/// The bonds of the files that could be read.
pub open spec fn bonds_of(files: Seq<(Seq<char>, Option<Seq<char>>)>) -> Seq<BondView>
    decreases files.len(),
{
    if files.len() == 0 {
        seq![]
    } else {
        match files.last().1 {
            Some(contents) => bonds_of(files.drop_last()).push(bond_of(files.last().0, contents)),
            None => bonds_of(files.drop_last()),
        }
    }
}

/// The bonds that the files under `/proc/net/bonding` describe: none where none are set up.
pub fn list_bond_groups(files: &Vec<(String, Option<String>)>) -> (r: Vec<BondGroup>)
    ensures
        bonds(r@) == bonds_of(file_views(files@)),
{
    let ghost all = file_views(files@);
    let mut out: Vec<BondGroup> = Vec::new();
    assert(bonds(out@) =~= bonds_of(all.take(0)));
    let mut i: usize = 0;
    while i < files.len()
        invariant
            i <= files@.len(),
            all == file_views(files@),
            bonds(out@) == bonds_of(all.take(i as int)),
        decreases files.len() - i,
    {
        let ghost before = bonds(out@);
        proof {
            assert(all[i as int] == file_view(files@[i as int]));
            assert(all.take(i + 1).drop_last() =~= all.take(i as int));
        }
        if let Some(contents) = &files[i].1 {
            let b: BondGroup = parse_bond_info(files[i].0.clone(), contents.as_str());
            out.push(b);
            assert(bonds(out@) =~= before.push(b@));
        }
        i += 1;
    }
    assert(all.take(all.len() as int) =~= all);
    out
}

/// An interface as it is shown; the traffic is still in bytes.
#[derive(Debug, Clone)]
pub struct InterfaceRow {
    pub name: String,
    pub kind: String,
    pub ip: String,
    pub mac: String,
    pub status: String,
    pub speed: String,
    pub rx_bytes: u64,
    pub tx_bytes: u64,
    pub is_default: bool,
}

#[verifier::ext_equal]
pub struct InterfaceRowView {
    pub name: Seq<char>,
    pub kind: Seq<char>,
    pub ip: Seq<char>,
    pub mac: Seq<char>,
    pub status: Seq<char>,
    pub speed: Seq<char>,
    pub rx_bytes: u64,
    pub tx_bytes: u64,
    pub is_default: bool,
}

impl View for InterfaceRow {
    type V = InterfaceRowView;

    open spec fn view(&self) -> InterfaceRowView {
        InterfaceRowView {
            name: self.name@,
            kind: self.kind@,
            ip: self.ip@,
            mac: self.mac@,
            status: self.status@,
            speed: self.speed@,
            rx_bytes: self.rx_bytes,
            tx_bytes: self.tx_bytes,
            is_default: self.is_default,
        }
    }
}

pub open spec fn row_of(s: SummaryView) -> InterfaceRowView {
    InterfaceRowView {
        name: s.name,
        kind: s.kind,
        ip: crate::format::or_unknown(s.ipv4),
        mac: crate::format::or_unknown(s.info.address),
        status: crate::format::capitalized(s.info.operstate),
        speed: crate::format::mbits(s.info.speed_mbps),
        rx_bytes: s.rx_bytes,
        tx_bytes: s.tx_bytes,
        is_default: s.is_default,
    }
}

pub fn interface_row(s: &InterfaceSummary) -> (r: InterfaceRow)
    ensures
        r@ == row_of(s@),
{
    InterfaceRow {
        name: s.name.clone(),
        kind: s.kind.to_string(),
        ip: crate::format::shown(&s.ipv4),
        mac: crate::format::shown(&s.mac),
        status: crate::format::capitalize(s.operstate.as_str()),
        speed: crate::format::shown_mbits(s.speed_mbps),
        rx_bytes: s.rx_bytes,
        tx_bytes: s.tx_bytes,
        is_default: s.is_default,
    }
}

/// A bond as it is shown.
#[derive(Debug, Clone)]
pub struct BondRow {
    pub name: String,
    pub mode: String,
    pub active: String,
    pub standby: String,
}

#[verifier::ext_equal]
pub struct BondRowView {
    pub name: Seq<char>,
    pub mode: Seq<char>,
    pub active: Seq<char>,
    pub standby: Seq<char>,
}

impl View for BondRow {
    type V = BondRowView;

    open spec fn view(&self) -> BondRowView {
        BondRowView { name: self.name@, mode: self.mode@, active: self.active@, standby: self.standby@ }
    }
}

/// The members of a bond that do not carry its traffic.
pub open spec fn standby_of(slaves: Seq<Seq<char>>, active: Option<Seq<char>>) -> Seq<Seq<char>> {
    slaves.filter(|s: Seq<char>| Some(s) != active)
}

/// What is shown as standing by is a member, and is not the one that carries the traffic.
pub proof fn law_standby_is_not_active(slaves: Seq<Seq<char>>, active: Option<Seq<char>>, i: int)
    requires
        0 <= i < standby_of(slaves, active).len(),
    ensures
        active != Some(standby_of(slaves, active)[i]),
        slaves.contains(standby_of(slaves, active)[i]),
    decreases slaves.len(),
{
    reveal(Seq::filter);
    let keep = |s: Seq<char>| Some(s) != active;
    let rest = slaves.drop_last();
    let some = rest.filter(keep);
    let s = standby_of(slaves, active)[i];
    if i < some.len() {
        assert(s == standby_of(rest, active)[i]);
        law_standby_is_not_active(rest, active, i);
        let k = choose|k: int| 0 <= k < rest.len() && rest[k] == s;
        assert(slaves[k] == s);
    } else {
        assert(slaves[slaves.len() - 1] == s);
    }
}

pub open spec fn bond_row_of(b: BondView) -> BondRowView {
    let standby = standby_of(b.slaves, b.active_slave);
    BondRowView {
        name: b.name,
        mode: b.mode,
        active: crate::format::or_unknown(b.active_slave),
        standby: if standby.len() == 0 {
            crate::format::UNKNOWN@
        } else {
            chars::joined(standby, ", "@)
        },
    }
}

fn is_active(s: &String, active: &Option<String>) -> (r: bool)
    ensures
        r == (chars::opt_text(*active) == Some(s@)),
{
    match active {
        Some(a) => text::same_str(a.as_str(), s.as_str()),
        None => false,
    }
}

pub fn bond_row(b: &BondGroup) -> (r: BondRow)
    ensures
        r@ == bond_row_of(b@),
{
    let ghost all = chars::strings(b.slaves@);
    let ghost active = chars::opt_text(b.active_slave);
    let ghost keep = |s: Seq<char>| Some(s) != active;
    let mut out: Vec<char> = Vec::new();
    let mut n: usize = 0;
    let mut i: usize = 0;
    assert(all.take(0).filter(keep) =~= seq![]) by {
        reveal(Seq::filter);
    }
    while i < b.slaves.len()
        invariant
            i <= b.slaves@.len(),
            n <= i,
            all == chars::strings(b.slaves@),
            active == chars::opt_text(b.active_slave),
            keep == (|s: Seq<char>| Some(s) != active),
            n == all.take(i as int).filter(keep).len(),
            out@ == chars::joined(all.take(i as int).filter(keep), ", "@),
        decreases b.slaves.len() - i,
    {
        let ghost some = all.take(i as int).filter(keep);
        let s: &String = &b.slaves[i];
        proof {
            assert(all[i as int] == s@);
            assert(all.take(i + 1).drop_last() =~= all.take(i as int));
            assert(all.take(i + 1).last() == s@);
            reveal(Seq::filter);
            if keep(s@) {
                assert(all.take(i + 1).filter(keep) =~= some.push(s@));
                assert(some.push(s@).drop_last() =~= some);
            } else {
                assert(all.take(i + 1).filter(keep) =~= some);
            }
        }
        if !is_active(s, &b.active_slave) {
            if n > 0 {
                text::put_str(&mut out, ", ");
            }
            text::put_str(&mut out, s.as_str());
            n += 1;
            assert(out@ =~= chars::joined(some.push(s@), ", "@));
        }
        i += 1;
    }
    assert(all.take(i as int) =~= all);
    BondRow {
        name: b.name.clone(),
        mode: b.mode.clone(),
        active: crate::format::shown(&b.active_slave),
        standby: if n == 0 {
            crate::format::UNKNOWN.to_string()
        } else {
            text::string_of(out.as_slice())
        },
    }
}


/// The loopback interface is told by its name, whatever else it has; of the others those with a
/// directory `wireless` are Wi-Fi, and the rest Ethernet.
pub proof fn law_kinds_of_interfaces(name: Seq<char>, wireless: bool)
    ensures
        name == "lo"@ ==> kind_of(name, wireless) == "Loopback"@,
        name != "lo"@ && wireless ==> kind_of(name, wireless) == "Wi-Fi"@,
        name != "lo"@ && !wireless ==> kind_of(name, wireless) == "Ethernet"@,
{
}

/// An interface is summed up with its own counters, wherever they stand among those of the
/// others, or with none; it is the default one exactly where the route names it.
pub proof fn law_summary_is_of_its_interface(
    f: FoundView,
    counters: Seq<(Seq<char>, Counters)>,
    i: int,
    default_iface: Option<Seq<char>>,
)
    requires
        table::distinct(counters),
        0 <= i < counters.len(),
        counters[i].0 == f.name,
    ensures
        ({
            let s = summary_of(f, counters, default_iface);
            &&& s.name == f.name
            &&& s.rx_bytes == counters[i].1.rx_bytes
            &&& s.tx_bytes == counters[i].1.tx_bytes
            &&& s.info == netdev::info_of(f.files)
            &&& s.is_default <==> default_iface == Some(f.name)
        }),
        ({
            let s = summary_of(f, seq![], default_iface);
            s.rx_bytes == 0 && s.tx_bytes == 0
        }),
{
    table::lemma_place_of(counters, f.name);
    let k = table::place_of(counters, f.name)->Some_0;
    if k < i {
        assert(counters[k].0 != counters[i].0);
    } else if i < k {
        assert(counters[i].0 != counters[k].0);
    }
}

/// The address of an interface is the word behind the first `inet` of a run that went well.
pub proof fn law_address_is_behind_inet(
    output: Seq<char>,
    stderr: Seq<char>,
    code: Option<i32>,
    front: Seq<Seq<char>>,
    address: Seq<char>,
    rest: Seq<Seq<char>>,
)
    requires
        chars::words_of(output) == front + seq!["inet"@, address] + rest,
        !front.contains("inet"@),
    ensures
        ipv4_of(Some(command::CommandView { code, stdout: output, stderr })) == if code == Some(0i32) {
            Some(address)
        } else {
            None
        },
        ipv4_of(None) is None,
{
    chars::law_word_behind_its_key(front, "inet"@, address, rest);
}

/// Each line that starts with a label says what stands behind it, trimmed, in the order of the
/// lines; another says nothing.
pub proof fn law_label_is_followed_by_what_is_said(
    lines: Seq<Seq<char>>,
    label: Seq<char>,
    front: Seq<char>,
    value: Seq<char>,
    other: Seq<char>,
)
    requires
        label.len() > 0,
        chars::is_blank(front),
        chars::is_trim(value),
        !chars::starts(front + value, label),
        !chars::starts(other, label),
    ensures
        labelled(seq![], label) == Seq::<Seq<char>>::empty(),
        labelled(lines.push(label + (front + value)), label) == labelled(lines, label).push(value),
        labelled(lines.push(other), label) == labelled(lines, label),
{
    let none: Seq<char> = seq![];
    let line = label + (front + value);
    assert(lines.push(line).drop_last() =~= lines);
    assert(lines.push(other).drop_last() =~= lines);
    assert(line.take(label.len() as int) =~= label);
    assert(line.skip(label.len() as int) =~= front + value);
    assert(chars::without_leading(line, label) == chars::without_leading(front + value, label));
    chars::law_trimming_keeps_the_inside(front, value, none);
    assert(front + value + none =~= front + value);
}

/// The mode and the member that carries the traffic are what the first line with their label
/// says, the members what all lines with theirs say; no member carries it where none is named.
pub proof fn law_bond_is_of_its_lines(name: Seq<char>, contents: Seq<char>)
    ensures
        ({
            let lines = chars::lines_of(contents);
            let modes = labelled(lines, "Bonding Mode:"@);
            let active = labelled(lines, "Currently Active Slave:"@);
            let b = bond_of(name, contents);
            &&& b.name == name
            &&& b.slaves == labelled(lines, "Slave Interface:"@)
            &&& modes.len() == 0 ==> b.mode == "unknown"@
            &&& modes.len() > 0 ==> b.mode == modes[0]
            &&& active.len() == 0 ==> b.active_slave is None
            &&& active.len() > 0 && (active[0] == "None"@ || active[0] == Seq::<char>::empty()) ==> b.active_slave is None
            &&& active.len() > 0 && active[0] != "None"@ && active[0] != Seq::<char>::empty() ==> b.active_slave == Some(
                active[0],
            )
        }),
{
    let active = labelled(chars::lines_of(contents), "Currently Active Slave:"@);
    if active.len() > 0 && active[0].len() == 0 {
        assert(active[0] =~= Seq::<char>::empty());
    }
}

/// Each file that could be read is a bond of its name, in the order of the files.
pub proof fn law_each_file_is_a_bond(files: Seq<(Seq<char>, Option<Seq<char>>)>, name: Seq<char>, contents: Seq<char>)
    ensures
        bonds_of(seq![]) == Seq::<BondView>::empty(),
        bonds_of(files.push((name, Some(contents)))) == bonds_of(files).push(bond_of(name, contents)),
        bonds_of(files.push((name, None))) == bonds_of(files),
{
    assert(files.push((name, Some(contents))).drop_last() =~= files);
    assert(files.push((name, None)).drop_last() =~= files);
}

/// Every member but the one that carries the traffic stands by, in order; where nothing carries
/// it, all do.
pub proof fn law_all_others_stand_by(slaves: Seq<Seq<char>>, slave: Seq<char>, active: Option<Seq<char>>)
    ensures
        standby_of(seq![], active) == Seq::<Seq<char>>::empty(),
        active == Some(slave) ==> standby_of(slaves.push(slave), active) == standby_of(slaves, active),
        active != Some(slave) ==> standby_of(slaves.push(slave), active) == standby_of(slaves, active).push(slave),
{
    reveal(Seq::filter);
    assert(slaves.push(slave).drop_last() =~= slaves);
}

/// A bond and an interface are shown with what is known of them and a dash for what is not;
/// those that stand by are listed with commas between them.
pub proof fn law_rows_show_what_is_known(b: BondView, s: SummaryView, a: Seq<char>, x: Seq<char>)
    requires
        a != x,
    ensures
        ({
            let r = bond_row_of(BondView { active_slave: Some(a), slaves: seq![a, x], ..b });
            r.name == b.name && r.mode == b.mode && r.active == a && r.standby == x
        }),
        bond_row_of(BondView { active_slave: None, slaves: seq![a, x], ..b }).standby == a + ", "@ + x,
        ({
            let r = bond_row_of(BondView { active_slave: None, slaves: seq![], ..b });
            r.active == "—"@ && r.standby == "—"@
        }),
        ({
            let r = row_of(s);
            &&& r.name == s.name && r.kind == s.kind && r.rx_bytes == s.rx_bytes && r.tx_bytes == s.tx_bytes
            &&& r.is_default == s.is_default
            &&& s.ipv4 is None ==> r.ip == "—"@
            &&& s.ipv4 matches Some(ip) ==> r.ip == ip
            &&& s.info.address is None ==> r.mac == "—"@
            &&& s.info.address matches Some(mac) ==> r.mac == mac
            &&& s.info.speed_mbps is None ==> r.speed == "—"@
            &&& s.info.speed_mbps matches Some(n) ==> r.speed == crate::numbers::signed_decimal(n as int) + " Mbit/s"@
        }),
{
    let none: Seq<Seq<char>> = seq![];
    assert(none.push(a) =~= seq![a]);
    assert(none.push(a).push(x) =~= seq![a, x]);
    law_all_others_stand_by(none, a, Some(a));
    law_all_others_stand_by(none.push(a), x, Some(a));
    law_all_others_stand_by(none, a, None);
    law_all_others_stand_by(none.push(a), x, None);
    chars::law_separator_stands_between(none, x, ", "@);
    chars::law_separator_stands_between(none.push(a), x, ", "@);
    chars::law_separator_stands_between(none, a, ", "@);
    assert(standby_of(seq![a, x], Some(a)) =~= seq![x]);
}


/// However many members stand by, each further one is listed behind the others, with a comma
/// between them; the name, the mode and the active member are those of the bond.
pub proof fn law_each_standby_is_listed(b: BondView, slave: Seq<char>)
    requires
        b.active_slave != Some(slave),
    ensures
        ({
            let before = bond_row_of(b);
            let after = bond_row_of(BondView { slaves: b.slaves.push(slave), ..b });
            &&& standby_of(b.slaves, b.active_slave).len() > 0 ==> after.standby == before.standby + ", "@ + slave
            &&& standby_of(b.slaves, b.active_slave).len() == 0 ==> before.standby == "—"@ && after.standby == slave
            &&& after.name == b.name
            &&& after.mode == b.mode
            &&& b.active_slave is None ==> after.active == "—"@
            &&& b.active_slave matches Some(a) ==> after.active == a
        }),
{
    let some = standby_of(b.slaves, b.active_slave);
    law_all_others_stand_by(b.slaves, slave, b.active_slave);
    chars::law_separator_stands_between(some, slave, ", "@);
    if some.len() == 0 {
        assert(some.push(slave) =~= seq![slave]);
    }
}

} // verus!
