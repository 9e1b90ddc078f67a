//! Wireless networks, from what `nmcli` prints.
use crate::chars;
use crate::command;
use crate::command::CommandOutput;
use crate::numbers;
use crate::order;
use crate::text;
use vstd::prelude::*;

verus! {

/// The columns that `nmcli dev wifi list` is asked for.
pub const NMCLI_FIELDS: &'static str = "IN-USE,SSID,BSSID,MODE,CHAN,FREQ,RATE,SIGNAL,BARS,SECURITY";

/// The fields of a terse line of `nmcli`, of which `current` has been read of the first. A colon
/// ends a field, unless a backslash stands before it: then it belongs to the field and the
/// backslash does not.
pub open spec fn fields_from(s: Seq<char>, current: Seq<char>) -> Seq<Seq<char>>
    decreases s.len(),
{
    if s.len() == 0 {
        seq![current]
    } else if s[0] == '\\' && s.len() > 1 && s[1] == ':' {
        fields_from(s.skip(2), current.push(':'))
    } else if s[0] == ':' {
        seq![current] + fields_from(s.skip(1), seq![])
    } else {
        fields_from(s.skip(1), current.push(s[0]))
    }
}

/// The fields of a terse line.
pub open spec fn fields_of(line: Seq<char>) -> Seq<Seq<char>> {
    fields_from(line, seq![])
}

/// A field as it is written in a terse line.
pub open spec fn escaped(f: Seq<char>) -> Seq<char>
    decreases f.len(),
{
    if f.len() == 0 {
        seq![]
    } else if f[0] == ':' {
        seq!['\\', ':'] + escaped(f.skip(1))
    } else {
        seq![f[0]] + escaped(f.skip(1))
    }
}

pub open spec fn all_escaped(fields: Seq<Seq<char>>) -> Seq<Seq<char>> {
    fields.map_values(|f: Seq<char>| escaped(f))
}

proof fn lemma_reads_field(f: Seq<char>, rest: Seq<char>, current: Seq<char>)
    requires
        rest.len() == 0 || (rest[0] == ':' && (f.len() == 0 || f.last() != '\\')),
    ensures
        fields_from(escaped(f) + rest, current) == fields_from(rest, current + f),
    decreases f.len(),
{
    let s = escaped(f) + rest;
    if f.len() == 0 {
        assert(s =~= rest);
        assert(current + f =~= current);
    } else {
        let t = f.skip(1);
        if f.len() > 1 {
            assert(t.last() == f.last());
        }
        assert(current.push(f[0]) + t =~= current + f);
        lemma_reads_field(t, rest, current.push(f[0]));
        if f[0] == ':' {
            assert(s.skip(2) =~= escaped(t) + rest);
        } else {
            assert(s.skip(1) =~= escaped(t) + rest);
            if f[0] == '\\' && s.len() > 1 {
                if t.len() > 0 {
                    assert(s[1] == escaped(t)[0]);
                } else {
                    assert(f.last() == '\\');
                    assert(s =~= seq!['\\'] + rest);
                }
            }
        }
    }
}

/// Reading a terse line gives back the fields it was written from, colons and all. A field that
/// ends in a backslash must be the last.
pub proof fn law_terse_round_trip(fields: Seq<Seq<char>>)
    requires
        fields.len() > 0,
        forall|i: int| 0 <= i < fields.len() - 1 ==> (#[trigger] fields[i]).len() == 0 || fields[i].last() != '\\',
    ensures
        fields_of(chars::joined(all_escaped(fields), seq![':'])) == fields,
    decreases fields.len(),
{
    let all = all_escaped(fields);
    if fields.len() == 1 {
        lemma_reads_field(fields[0], seq![], seq![]);
        assert(escaped(fields[0]) + Seq::<char>::empty() =~= escaped(fields[0]));
        assert(seq![] + fields[0] =~= fields[0]);
        assert(fields =~= seq![fields[0]]);
    } else {
        let tail = fields.skip(1);
        chars::lemma_joined_front(escaped(fields[0]), all_escaped(tail), seq![':']);
        assert(all =~= seq![escaped(fields[0])] + all_escaped(tail));
        let more = chars::joined(all_escaped(tail), seq![':']);
        let rest = seq![':'] + more;
        assert(escaped(fields[0]) + seq![':'] + more =~= escaped(fields[0]) + rest);
        assert(fields[0].len() == 0 || fields[0].last() != '\\');
        lemma_reads_field(fields[0], rest, seq![]);
        assert(seq![] + fields[0] =~= fields[0]);
        assert(rest.skip(1) =~= more);
        assert forall|i: int| 0 <= i < tail.len() - 1 implies (#[trigger] tail[i]).len() == 0 || tail[i].last() != '\\' by {
            assert(tail[i] == fields[i + 1]);
        }
        law_terse_round_trip(tail);
        assert(fields =~= seq![fields[0]] + tail);
    }
}

/// Splits a terse line of `nmcli` into its fields.
pub fn parse_nmcli_terse_line(line: &str) -> (r: Vec<String>)
    ensures
        chars::strings(r@) == fields_of(line@),
        r@.len() > 0,
{
    let cs: Vec<char> = text::chars_of(line);
    terse_fields(cs.as_slice())
}

fn terse_fields(s: &[char]) -> (r: Vec<String>)
    ensures
        chars::strings(r@) == fields_of(s@),
        r@.len() > 0,
{
    let mut fields: Vec<String> = Vec::new();
    let mut current: Vec<char> = Vec::new();
    let mut i: usize = 0;
    assert(s@.skip(0) =~= s@);
    assert(chars::strings(fields@) + fields_from(s@, seq![]) =~= fields_of(s@));
    while i < s.len()
        invariant
            i <= s@.len(),
            fields_of(s@) == chars::strings(fields@) + fields_from(s@.skip(i as int), current@),
        decreases s.len() - i,
    {
        let c: char = s[i];
        let ghost t = s@.skip(i as int);
        let ghost done = chars::strings(fields@);
        assert(t.skip(1) =~= s@.skip(i + 1));
        if c == '\\' && i + 1 < s.len() && s[i + 1] == ':' {
            assert(t.skip(2) =~= s@.skip(i + 2));
            current.push(':');
            i += 2;
        } else if c == ':' {
            let field: String = text::string_of(current.as_slice());
            fields.push(field);
            assert(chars::strings(fields@) =~= done.push(current@));
            assert(done + (seq![current@] + fields_from(t.skip(1), seq![])) =~= done.push(current@) + fields_from(
                t.skip(1),
                seq![],
            ));
            current = Vec::new();
            i += 1;
        } else {
            current.push(c);
            i += 1;
        }
    }
    let ghost done = chars::strings(fields@);
    fields.push(text::string_of(current.as_slice()));
    assert(chars::strings(fields@) =~= done + seq![current@]);
    fields
}

/// The first device of type `wifi` among some terse lines.
pub open spec fn wifi_device(lines: Seq<Seq<char>>) -> Option<Seq<char>>
    decreases lines.len(),
{
    if lines.len() == 0 {
        None
    } else {
        let f = fields_of(lines[0]);
        if f.len() >= 2 && f[1] == "wifi"@ {
            Some(f[0])
        } else {
            wifi_device(lines.skip(1))
        }
    }
}

pub open spec fn wifi_interface(run: Option<command::CommandView>) -> Option<Seq<char>> {
    match command::stdout_of(run) {
        Some(output) => wifi_device(chars::lines_of(output)),
        None => None,
    }
}

/// The first device of type `wifi` in a run of `nmcli -t -f DEVICE,TYPE dev status`.
pub fn get_wifi_interface(run: &Option<CommandOutput>) -> (r: Option<String>)
    ensures
        chars::opt_text(r) == wifi_interface(command::run_view(*run)),
{
    let output: &str = match command::successful_stdout(run) {
        Some(o) => o,
        None => {
            return None;
        },
    };
    let cs: Vec<char> = text::chars_of(output);
    let lines: Vec<&[char]> = text::lines(cs.as_slice());
    let ghost all = chars::lines_of(output@);
    assert(all.skip(0) =~= all);
    let mut i: usize = 0;
    while i < lines.len()
        invariant
            i <= lines@.len(),
            chars::texts(lines@) == all,
            wifi_device(all) == wifi_device(all.skip(i as int)),
            wifi_interface(command::run_view(*run)) == wifi_device(all),
        decreases lines.len() - i,
    {
        assert(all[i as int] == lines@[i as int]@);
        assert(all.skip(i as int).skip(1) =~= all.skip(i + 1));
        let f: Vec<String> = terse_fields(lines[i]);
        if f.len() >= 2 {
            proof {
                assert(chars::strings(f@)[0] == f@[0]@);
                assert(chars::strings(f@)[1] == f@[1]@);
            }
            if text::same_str(f[1].as_str(), "wifi") {
                return Some(f[0].clone());
            }
        }
        i += 1;
    }
    None
}

/// The number that the digits at the front of a text make.
pub open spec fn leading_number(s: Seq<char>) -> Option<i64> {
    numbers::signed_of(s.take(chars::span(s, chars::Class::Digit, true)))
}

fn leading_int(s: &String) -> (r: Option<i64>)
    ensures
        r == leading_number(s@),
{
    let cs: Vec<char> = text::chars_of(s.as_str());
    let n: usize = text::measure(cs.as_slice(), chars::Class::Digit, true);
    numbers::parse_signed(text::front(cs.as_slice(), n))
}

fn to_int(s: &String) -> (r: Option<i64>)
    ensures
        r == numbers::signed_of(s@),
{
    let cs: Vec<char> = text::chars_of(s.as_str());
    numbers::parse_signed(cs.as_slice())
}

/// An access point.
#[derive(Debug, Clone)]
pub struct WifiNetwork {
    pub in_use: bool,
    pub ssid: String,
    pub bssid: String,
    pub mode: String,
    pub channel: Option<i64>,
    pub freq_mhz: Option<i64>,
    pub rate_mbps: Option<i64>,
    pub signal_pct: Option<i64>,
    pub bars: String,
    pub security: String,
}

#[verifier::ext_equal]
pub struct NetworkView {
    pub in_use: bool,
    pub ssid: Seq<char>,
    pub bssid: Seq<char>,
    pub mode: Seq<char>,
    pub channel: Option<i64>,
    pub freq_mhz: Option<i64>,
    pub rate_mbps: Option<i64>,
    pub signal_pct: Option<i64>,
    pub bars: Seq<char>,
    pub security: Seq<char>,
}

impl View for WifiNetwork {
    type V = NetworkView;

    open spec fn view(&self) -> NetworkView {
        NetworkView {
            in_use: self.in_use,
            ssid: self.ssid@,
            bssid: self.bssid@,
            mode: self.mode@,
            channel: self.channel,
            freq_mhz: self.freq_mhz,
            rate_mbps: self.rate_mbps,
            signal_pct: self.signal_pct,
            bars: self.bars@,
            security: self.security@,
        }
    }
}

pub open spec fn networks_view(v: Seq<WifiNetwork>) -> Seq<NetworkView> {
    v.map_values(|n: WifiNetwork| n@)
}

/// The security of a network: one without any is open.
pub open spec fn security_of(s: Seq<char>) -> Seq<char> {
    if s.len() == 0 {
        "Open"@
    } else {
        s
    }
}

/// The access point that the fields of a line describe.
pub open spec fn network_of(f: Seq<Seq<char>>) -> NetworkView {
    NetworkView {
        in_use: chars::trimmed(f[0]) == "*"@,
        ssid: f[1],
        bssid: f[2],
        mode: f[3],
        channel: numbers::signed_of(f[4]),
        freq_mhz: leading_number(f[5]),
        rate_mbps: leading_number(f[6]),
        signal_pct: numbers::signed_of(f[7]),
        bars: f[8],
        security: security_of(f[9]),
    }
}

/// The access points of the lines that have all ten fields.
pub open spec fn networks_in(lines: Seq<Seq<char>>) -> Seq<NetworkView>
    decreases lines.len(),
{
    if lines.len() == 0 {
        seq![]
    } else {
        let f = fields_of(lines.last());
        if f.len() < 10 {
            networks_in(lines.drop_last())
        } else {
            networks_in(lines.drop_last()).push(network_of(f))
        }
    }
}

/// By what networks are put in order: one without a signal comes after one with the least.
pub open spec fn signal_key(n: NetworkView) -> i128 {
    match n.signal_pct {
        Some(s) => s as i128,
        None => -1i128,
    }
}

pub open spec fn signal_keys(v: Seq<NetworkView>) -> Seq<i128> {
    v.map_values(|n: NetworkView| signal_key(n))
}

/// The access points in the output of `nmcli dev wifi list`, the strongest first.
pub open spec fn wifi_list(output: Seq<char>) -> Seq<NetworkView> {
    let found = networks_in(chars::lines_of(output));
    order::arranged(found, signal_keys(found))
}

/// No network comes before one with a stronger signal.
pub proof fn law_strongest_first(output: Seq<char>, i: int, j: int)
    requires
        0 <= i <= j < wifi_list(output).len(),
    ensures
        signal_key(wifi_list(output)[i]) >= signal_key(wifi_list(output)[j]),
{
    let found = networks_in(chars::lines_of(output));
    let keys = signal_keys(found);
    order::law_arranged_descends(keys, i, j);
    order::law_arranged_keeps_rows(found, keys, i);
    order::law_arranged_keeps_rows(found, keys, j);
}

fn read_network(f: &Vec<String>) -> (r: WifiNetwork)
    requires
        f@.len() >= 10,
    ensures
        r@ == network_of(chars::strings(f@)),
{
    proof {
        let t = chars::strings(f@);
        assert forall|i: int| 0 <= i < 10 implies #[trigger] t[i] == f@[i]@ by {}
    }
    let used: Vec<char> = text::chars_of(f[0].as_str());
    WifiNetwork {
        in_use: text::equals(text::trim(used.as_slice()), "*"),
        ssid: f[1].clone(),
        bssid: f[2].clone(),
        mode: f[3].clone(),
        channel: to_int(&f[4]),
        freq_mhz: leading_int(&f[5]),
        rate_mbps: leading_int(&f[6]),
        signal_pct: to_int(&f[7]),
        bars: f[8].clone(),
        security: if f[9].as_str().is_empty() {
            "Open".to_string()
        } else {
            f[9].clone()
        },
    }
}

/// Reads the terse output of `nmcli -f {NMCLI_FIELDS} dev wifi list`.
pub fn parse_wifi_list_output(output: &str) -> (r: Vec<WifiNetwork>)
    ensures
        networks_view(r@) == wifi_list(output@),
{
    let cs: Vec<char> = text::chars_of(output);
    let lines: Vec<&[char]> = text::lines(cs.as_slice());
    let ghost all = chars::lines_of(output@);
    let mut networks: Vec<WifiNetwork> = Vec::new();
    let mut keys: Vec<i128> = Vec::new();
    assert(networks_view(networks@) =~= networks_in(all.take(0)));
    assert(keys@ =~= signal_keys(networks_in(all.take(0))));
    let mut i: usize = 0;
    while i < lines.len()
        invariant
            i <= lines@.len(),
            chars::texts(lines@) == all,
            networks_view(networks@) == networks_in(all.take(i as int)),
            keys@ == signal_keys(networks_in(all.take(i as int))),
        decreases lines.len() - i,
    {
        let ghost before = networks_view(networks@);
        let ghost before_keys = keys@;
        proof {
            assert(all[i as int] == lines@[i as int]@);
            assert(all.take(i + 1).drop_last() =~= all.take(i as int));
        }
        let f: Vec<String> = terse_fields(lines[i]);
        assert(chars::strings(f@).len() == f@.len());
        if f.len() >= 10 {
            let n: WifiNetwork = read_network(&f);
            let key: i128 = match n.signal_pct {
                Some(s) => s as i128,
                None => -1,
            };
            let ghost nv = n@;
            networks.push(n);
            keys.push(key);
            assert(networks_view(networks@) =~= before.push(nv));
            assert(keys@ =~= signal_keys(before.push(nv)));
        }
        i += 1;
    }
    assert(all.take(all.len() as int) =~= all);
    proof {
        order::lemma_arranged_map(networks@, keys@, |n: WifiNetwork| n@);
    }
    order::arrange(networks, &keys)
}

pub open spec fn wifi_read(run: Option<command::CommandView>) -> Seq<NetworkView> {
    match command::stdout_of(run) {
        Some(output) => wifi_list(output),
        None => seq![],
    }
}

/// The access points that a run of `nmcli` listed: none where it could not be started, failed
/// or had to be stopped.
pub fn read_wifi_networks(run: &Option<CommandOutput>) -> (r: Vec<WifiNetwork>)
    ensures
        networks_view(r@) == wifi_read(command::run_view(*run)),
{
    match command::successful_stdout(run) {
        Some(output) => parse_wifi_list_output(output),
        None => {
            let r: Vec<WifiNetwork> = Vec::new();
            assert(networks_view(r@) =~= seq![]);
            r
        },
    }
}

/// The arguments of `nmcli` for a list of access points, after a scan if one is asked for.
pub fn list_args(rescan: bool) -> (r: Vec<&'static str>)
    ensures
        rescan ==> r@ == seq!["-t", "-f", NMCLI_FIELDS, "dev", "wifi", "list", "--rescan", "yes"],
        !rescan ==> r@ == seq!["-t", "-f", NMCLI_FIELDS, "dev", "wifi", "list"],
{
    if rescan {
        vec!["-t", "-f", NMCLI_FIELDS, "dev", "wifi", "list", "--rescan", "yes"]
    } else {
        vec!["-t", "-f", NMCLI_FIELDS, "dev", "wifi", "list"]
    }
}

/// What was seen of a command that may still be running.
#[derive(Debug, Clone, Copy, PartialEq, Eq, Structural)]
pub enum Polled {
    Running,
    Ended,
    Failed,
}

/// What to do next with such a command.
#[derive(Debug, Clone, Copy, PartialEq, Eq, Structural)]
pub enum WaitStep {
    /// Read what it wrote.
    Read,
    /// Look again after a pause.
    Wait,
    /// Stop it: its time is up.
    Stop,
    /// Give up on it.
    GiveUp,
}

/// What to do next with a command that may still be running.
pub open spec fn waiting(polled: Polled, now: int, deadline: int) -> WaitStep {
    match polled {
        Polled::Ended => WaitStep::Read,
        Polled::Failed => WaitStep::GiveUp,
        Polled::Running => if now >= deadline {
            WaitStep::Stop
        } else {
            WaitStep::Wait
        },
    }
}

/// A command is waited for only before its deadline and stopped only from then on; one that has
/// ended is read even then.
pub proof fn law_nothing_is_waited_for_past_its_deadline(polled: Polled, now: int, deadline: int)
    ensures
        waiting(polled, now, deadline) == WaitStep::Wait <==> polled == Polled::Running && now < deadline,
        waiting(polled, now, deadline) == WaitStep::Stop <==> polled == Polled::Running && now >= deadline,
        waiting(polled, now, deadline) == WaitStep::Read <==> polled == Polled::Ended,
        waiting(polled, now, deadline) == WaitStep::GiveUp <==> polled == Polled::Failed,
{
}

/// Waits for a command until a deadline.
pub fn wait_step(polled: Polled, now: u64, deadline: u64) -> (r: WaitStep)
    ensures
        r == waiting(polled, now as int, deadline as int),
        r == match polled {
            Polled::Ended => WaitStep::Read,
            Polled::Failed => WaitStep::GiveUp,
            Polled::Running => if now >= deadline {
                WaitStep::Stop
            } else {
                WaitStep::Wait
            },
        },
{
    match polled {
        Polled::Ended => WaitStep::Read,
        Polled::Failed => WaitStep::GiveUp,
        Polled::Running => if now >= deadline {
            WaitStep::Stop
        } else {
            WaitStep::Wait
        },
    }
}

/// Where the first network in use stands.
pub open spec fn first_in_use(v: Seq<NetworkView>) -> Option<int>
    decreases v.len(),
{
    if v.len() == 0 {
        None
    } else if v[0].in_use {
        Some(0)
    } else {
        chars::moved(first_in_use(v.skip(1)), 1)
    }
}

/// The network in use.
pub fn get_active_wifi_network(networks: &[WifiNetwork]) -> (r: Option<&WifiNetwork>)
    ensures
        match r {
            Some(n) => first_in_use(networks_view(networks@)) matches Some(i) && 0 <= i < networks@.len() && *n
                == networks@[i],
            None => first_in_use(networks_view(networks@)) is None,
        },
{
    let ghost all = networks_view(networks@);
    assert(all.skip(0) =~= all);
    let mut i: usize = 0;
    while i < networks.len()
        invariant
            i <= networks@.len(),
            all == networks_view(networks@),
            first_in_use(all) == chars::moved(first_in_use(all.skip(i as int)), i as int),
        decreases networks.len() - i,
    {
        assert(all[i as int] == networks@[i as int]@);
        assert(all.skip(i as int).skip(1) =~= all.skip(i + 1));
        if networks[i].in_use {
            return Some(&networks[i]);
        }
        i += 1;
    }
    None
}

/// A network as it is shown.
#[derive(Debug, Clone)]
pub struct WifiNetworkRow {
    pub in_use: bool,
    pub ssid: String,
    pub security: String,
    pub channel: String,
    pub band: String,
    pub speed: String,
    pub bssid: String,
    pub signal: i64,
}

#[verifier::ext_equal]
pub struct WifiRowView {
    pub in_use: bool,
    pub ssid: Seq<char>,
    pub security: Seq<char>,
    pub channel: Seq<char>,
    pub band: Seq<char>,
    pub speed: Seq<char>,
    pub bssid: Seq<char>,
    pub signal: i64,
}

impl View for WifiNetworkRow {
    type V = WifiRowView;

    open spec fn view(&self) -> WifiRowView {
        WifiRowView {
            in_use: self.in_use,
            ssid: self.ssid@,
            security: self.security@,
            channel: self.channel@,
            band: self.band@,
            speed: self.speed@,
            bssid: self.bssid@,
            signal: self.signal,
        }
    }
}

pub open spec fn band_of(freq_mhz: Option<i64>) -> Seq<char> {
    match freq_mhz {
        Some(f) => if f < 3000 {
            "2.4 GHz"@
        } else {
            "5 GHz"@
        },
        None => crate::format::UNKNOWN@,
    }
}

pub open spec fn wifi_row_of(n: NetworkView) -> WifiRowView {
    WifiRowView {
        in_use: n.in_use,
        ssid: crate::format::unless_empty(n.ssid),
        security: security_of(n.security),
        channel: match n.channel {
            Some(c) => numbers::signed_decimal(c as int),
            None => crate::format::UNKNOWN@,
        },
        band: band_of(n.freq_mhz),
        speed: crate::format::mbits(n.rate_mbps),
        bssid: n.bssid,
        signal: match n.signal_pct {
            Some(s) => s,
            None => 0,
        },
    }
}

pub fn wifi_row(n: &WifiNetwork) -> (r: WifiNetworkRow)
    ensures
        r@ == wifi_row_of(n@),
{
    WifiNetworkRow {
        in_use: n.in_use,
        ssid: crate::format::shown_unless_empty(&n.ssid),
        security: if n.security.as_str().is_empty() {
            "Open".to_string()
        } else {
            n.security.clone()
        },
        channel: match n.channel {
            Some(c) => numbers::signed_string(c),
            None => crate::format::UNKNOWN.to_string(),
        },
        band: match n.freq_mhz {
            Some(f) => if f < 3000 {
                "2.4 GHz".to_string()
            } else {
                "5 GHz".to_string()
            },
            None => crate::format::UNKNOWN.to_string(),
        },
        speed: crate::format::shown_mbits(n.rate_mbps),
        bssid: n.bssid.clone(),
        signal: match n.signal_pct {
            Some(s) => s,
            None => 0,
        },
    }
}


/// The wireless device is the name in the first line whose second field is `wifi`.
pub proof fn law_first_wifi_device_is_taken(front: Seq<Seq<char>>, line: Seq<char>, rest: Seq<Seq<char>>)
    requires
        forall|i: int|
            0 <= i < front.len() ==> fields_of(#[trigger] front[i]).len() < 2 || fields_of(front[i])[1] != "wifi"@,
        fields_of(line).len() >= 2,
        fields_of(line)[1] == "wifi"@,
    ensures
        wifi_device(front + seq![line] + rest) == Some(fields_of(line)[0]),
        wifi_device(front) is None,
    decreases front.len(),
{
    let all = front + seq![line] + rest;
    if front.len() == 0 {
        assert(all[0] == line);
    } else {
        let less = front.skip(1);
        assert forall|i: int| 0 <= i < less.len() implies fields_of(#[trigger] less[i]).len() < 2 || fields_of(less[i])[1]
            != "wifi"@ by {
            assert(less[i] == front[i + 1]);
        }
        law_first_wifi_device_is_taken(less, line, rest);
        assert(all[0] == front[0]);
        assert(all.skip(1) =~= less + seq![line] + rest);
    }
}

/// The number at the front of a text is that of its digits, whatever follows them; a text that
/// starts with anything else has none.
pub proof fn law_leading_digits_are_read(n: i64, unit: Seq<char>)
    requires
        n >= 0,
        unit.len() > 0 ==> !chars::is_digit(unit[0]),
    ensures
        leading_number(numbers::decimal(n as nat) + unit) == Some(n),
        leading_number(unit) is None,
{
    let d = numbers::decimal(n as nat);
    numbers::lemma_decimal_value(n as nat);
    numbers::law_signed_round_trip(n);
    assert(numbers::signed_decimal(n as int) =~= d);
    let s = d + unit;
    chars::lemma_span_is(s, chars::Class::Digit, true, d.len() as int);
    assert(s.take(d.len() as int) =~= d);
    chars::lemma_span_is(unit, chars::Class::Digit, true, 0);
    assert(unit.take(0) =~= seq![]);
}

/// The fields of a network are, in order: whether it is in use, its name, its address, its mode,
/// channel, frequency, rate, signal, bars and security, which is open where none is told.
pub proof fn law_network_has_its_fields(n: NetworkView, channel: i64, freq: i64, rate: i64, signal: i64, more: Seq<Seq<char>>)
    requires
        n.channel == Some(channel),
        n.freq_mhz == Some(freq),
        n.rate_mbps == Some(rate),
        n.signal_pct == Some(signal),
        freq >= 0,
        rate >= 0,
        n.security.len() > 0,
    ensures
        ({
            let named = |used: Seq<char>, security: Seq<char>|
                seq![
                    used,
                    n.ssid,
                    n.bssid,
                    n.mode,
                    numbers::signed_decimal(channel as int),
                    numbers::decimal(freq as nat) + seq![' ', 'M', 'H', 'z'],
                    numbers::decimal(rate as nat) + seq![' ', 'M', 'b', 'i', 't', '/', 's'],
                    numbers::signed_decimal(signal as int),
                    n.bars,
                    security,
                ] + more;
            &&& network_of(named(seq!['*'], n.security)) == (NetworkView { in_use: true, ..n })
            &&& network_of(named(seq![' '], n.security)) == (NetworkView { in_use: false, ..n })
            &&& network_of(named(seq![], seq![])) == (NetworkView { in_use: false, security: "Open"@, ..n })
        }),
{
    numbers::law_signed_round_trip(channel);
    numbers::law_signed_round_trip(signal);
    law_leading_digits_are_read(freq, seq![' ', 'M', 'H', 'z']);
    law_leading_digits_are_read(rate, seq![' ', 'M', 'b', 'i', 't', '/', 's']);
    reveal_strlit("*");
    assert(seq!['*'] =~= "*"@);
    chars::law_trim_text_stays(seq!['*']);
    let none: Seq<char> = seq![];
    chars::law_trim_text_stays(none);
    chars::law_trimming_keeps_the_inside(seq![' '], none, none);
    assert(seq![' '] + none + none =~= seq![' ']);
    assert(none.len() != "*"@.len());
}

/// Each line with all ten fields is a network, and no other line is one.
pub proof fn law_each_line_has_its_network(lines: Seq<Seq<char>>, line: Seq<char>)
    ensures
        networks_in(seq![]) == Seq::<NetworkView>::empty(),
        fields_of(line).len() < 10 ==> networks_in(lines.push(line)) == networks_in(lines),
        fields_of(line).len() >= 10 ==> networks_in(lines.push(line)) == networks_in(lines).push(
            network_of(fields_of(line)),
        ),
{
    assert(lines.push(line).drop_last() =~= lines);
}

/// The list has every network of the output, each as often as there, and no other.
pub proof fn law_list_has_every_network(output: Seq<char>, x: int)
    requires
        0 <= x < networks_in(chars::lines_of(output)).len(),
    ensures
        wifi_list(output).len() == networks_in(chars::lines_of(output)).len(),
        wifi_list(output).contains(networks_in(chars::lines_of(output))[x]),
        networks_in(chars::lines_of(output)).contains(wifi_list(output)[x]),
{
    let found = networks_in(chars::lines_of(output));
    let keys = signal_keys(found);
    order::law_arranged_keeps_rows(found, keys, x);
    let i = choose|i: int| 0 <= i < found.len() && #[trigger] order::rank(keys)[i] == x && order::arranged(found, keys)[i]
        == found[x];
    assert(wifi_list(output)[i] == found[x]);
    assert(found[order::rank(keys)[x]] == wifi_list(output)[x]);
}

/// A network without a signal comes after every one with a signal, and of two with a signal the
/// stronger comes first.
pub proof fn law_signals_descend(output: Seq<char>, i: int, j: int)
    requires
        0 <= i < j < wifi_list(output).len(),
    ensures
        match (wifi_list(output)[i].signal_pct, wifi_list(output)[j].signal_pct) {
            (Some(a), Some(b)) => a >= b,
            (None, Some(b)) => b < 0,
            (Some(a), None) => a >= -1,
            (None, None) => true,
        },
{
    law_strongest_first(output, i, j);
}

/// The network in use is the first that is marked, and there is none only where none is.
pub proof fn law_first_in_use_is_taken(v: Seq<NetworkView>)
    ensures
        match first_in_use(v) {
            Some(i) => 0 <= i < v.len() && v[i].in_use && forall|j: int| 0 <= j < i ==> !(#[trigger] v[j]).in_use,
            None => forall|j: int| 0 <= j < v.len() ==> !(#[trigger] v[j]).in_use,
        },
    decreases v.len(),
{
    if v.len() > 0 && !v[0].in_use {
        let t = v.skip(1);
        law_first_in_use_is_taken(t);
        assert forall|j: int| 1 <= j < v.len() implies #[trigger] v[j] == t[j - 1] by {}
    }
}

/// Each field of a network is read on its own: a number that is none is not known, whatever the
/// other fields hold.
pub proof fn law_fields_are_read_on_their_own(f: Seq<Seq<char>>)
    requires
        f.len() >= 10,
    ensures
        ({
            let n = network_of(f);
            &&& n.ssid == f[1] && n.bssid == f[2] && n.mode == f[3] && n.bars == f[8]
            &&& n.in_use <==> chars::trimmed(f[0]) == seq!['*']
            &&& n.channel == numbers::signed_of(f[4])
            &&& n.signal_pct == numbers::signed_of(f[7])
            &&& n.freq_mhz == leading_number(f[5])
            &&& n.rate_mbps == leading_number(f[6])
            &&& f[9].len() > 0 ==> n.security == f[9]
            &&& f[9].len() == 0 ==> n.security == "Open"@
        }),
{
    reveal_strlit("*");
    assert("*"@ =~= seq!['*']);
}

/// A network is shown with what is known of it, whatever else is; a dash stands for what is not,
/// a signal that is not known counts as none, and the band is told by the frequency.
pub proof fn law_network_is_shown(n: NetworkView)
    ensures
        ({
            let shown = wifi_row_of(n);
            &&& shown.in_use == n.in_use
            &&& shown.bssid == n.bssid
            &&& n.ssid.len() > 0 ==> shown.ssid == n.ssid
            &&& n.ssid.len() == 0 ==> shown.ssid == "—"@
            &&& n.security.len() > 0 ==> shown.security == n.security
            &&& n.security.len() == 0 ==> shown.security == "Open"@
            &&& n.channel is None ==> shown.channel == "—"@
            &&& n.channel matches Some(c) ==> numbers::signed_of(shown.channel) == Some(c)
            &&& n.freq_mhz is None ==> shown.band == "—"@
            &&& n.freq_mhz matches Some(f) ==> (f < 3000 ==> shown.band == "2.4 GHz"@) && (f >= 3000 ==> shown.band
                == "5 GHz"@)
            &&& n.rate_mbps is None ==> shown.speed == "—"@
            &&& n.rate_mbps matches Some(r) ==> shown.speed == numbers::signed_decimal(r as int) + " Mbit/s"@
            &&& n.signal_pct is None ==> shown.signal == 0
            &&& n.signal_pct matches Some(s) ==> shown.signal == s
        }),
{
    if let Some(c) = n.channel {
        numbers::law_signed_round_trip(c);
    }
}

/// Networks and device are those of what a successful run printed; without such a run there are
/// none.
pub proof fn law_networks_need_a_successful_run(o: command::CommandView)
    ensures
        wifi_read(None) == Seq::<NetworkView>::empty(),
        wifi_interface(None) is None,
        o.code == Some(0i32) ==> wifi_read(Some(o)) == wifi_list(o.stdout),
        o.code == Some(0i32) ==> wifi_interface(Some(o)) == wifi_device(chars::lines_of(o.stdout)),
        o.code != Some(0i32) ==> wifi_read(Some(o)) == Seq::<NetworkView>::empty(),
        o.code != Some(0i32) ==> wifi_interface(Some(o)) is None,
{
}

} // verus!
