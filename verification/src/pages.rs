//! What the pages of the application show, but for numbers that are still to be formatted.
use crate::command;
use crate::command::CommandOutput;
use crate::connections;
use crate::connections::{Connection, ConnectionRate, ConnectionRateTracker, ConnectionTrack};
use crate::geoip;
use crate::geoip::Peer;
use crate::interfaces;
use crate::interfaces::{BondGroup, BondRow, FoundInterface, InterfaceRow, InterfaceSummary};
use crate::lan;
use crate::lan::{LanDevice, LanRow};
use crate::netdev;
use crate::netdev::{IfaceRates, Reading};
use crate::text;
use crate::wifi;
use crate::wifi::{WifiNetwork, WifiNetworkRow};
use vstd::hash_map::StringHashMap;
use vstd::prelude::*;

verus! {

/// How many sockets are listed on the page of the connections.
pub const CONNECTIONS_SHOWN: usize = 500;

/// How many processes are listed by their sockets.
pub const PROCESSES_SHOWN: usize = 50;

/// How many processes are listed by their traffic.
pub const NETHOGS_SHOWN: usize = 30;

/// A socket as it is shown: its counters, its rate and its duration are still numbers.
#[derive(Debug, Clone)]
pub struct ConnectionRow {
    pub proto: String,
    pub local: String,
    pub peer: String,
    pub process: String,
    pub state: String,
    pub sent_bytes: Option<u64>,
    pub recv_bytes: Option<u64>,
    pub rate: Option<ConnectionRate>,
    pub duration_nanos: Option<u64>,
}

#[verifier::ext_equal]
pub struct ConnectionRowView {
    pub proto: Seq<char>,
    pub local: Seq<char>,
    pub peer: Seq<char>,
    pub process: Seq<char>,
    pub state: Seq<char>,
    pub sent_bytes: Option<u64>,
    pub recv_bytes: Option<u64>,
    pub rate: Option<ConnectionRate>,
    pub duration_nanos: Option<u64>,
}

impl View for ConnectionRow {
    type V = ConnectionRowView;

    open spec fn view(&self) -> ConnectionRowView {
        ConnectionRowView {
            proto: self.proto@,
            local: self.local@,
            peer: self.peer@,
            process: self.process@,
            state: self.state@,
            sent_bytes: self.sent_bytes,
            recv_bytes: self.recv_bytes,
            rate: self.rate,
            duration_nanos: self.duration_nanos,
        }
    }
}

pub open spec fn row_views(v: Seq<ConnectionRow>) -> Seq<ConnectionRowView> {
    v.map_values(|r: ConnectionRow| r@)
}

/// The process of a socket: its name and its number, if they are known.
pub open spec fn process_text(name: Seq<char>, pid: Seq<char>) -> Seq<char> {
    if name.len() == 0 {
        crate::format::UNKNOWN@
    } else {
        name + " ("@ + pid + ")"@
    }
}

pub open spec fn row_of(c: connections::ConnectionView, track: Option<ConnectionTrack>) -> ConnectionRowView {
    ConnectionRowView {
        proto: crate::format::uppercased(c.proto),
        local: c.local,
        peer: c.peer,
        process: process_text(c.proc_name, c.pid),
        state: c.state,
        sent_bytes: c.sent_bytes,
        recv_bytes: c.recv_bytes,
        rate: match track {
            Some(t) => t.rate,
            None => None,
        },
        duration_nanos: match track {
            Some(t) => Some(t.duration_nanos),
            None => None,
        },
    }
}

pub open spec fn track_at(tracks: Map<Seq<char>, ConnectionTrack>, key: Seq<char>) -> Option<ConnectionTrack> {
    if tracks.contains_key(key) {
        Some(tracks[key])
    } else {
        None
    }
}

/// The rows for some sockets, each with what is known of it across polls.
pub open spec fn rows_of(conns: Seq<connections::ConnectionView>, tracks: Map<Seq<char>, ConnectionTrack>) -> Seq<
    ConnectionRowView,
> {
    conns.map_values(|c: connections::ConnectionView| row_of(c, track_at(tracks, connections::key_of(c))))
}

/// The row for a socket.
pub fn connection_row(c: &Connection, track: Option<ConnectionTrack>) -> (r: ConnectionRow)
    ensures
        r@ == row_of(c@, track),
{
    let process: String = if c.proc_name.as_str().is_empty() {
        crate::format::UNKNOWN.to_string()
    } else {
        let mut out: Vec<char> = Vec::new();
        text::put_str(&mut out, c.proc_name.as_str());
        text::put_str(&mut out, " (");
        text::put_str(&mut out, c.pid.as_str());
        text::put_str(&mut out, ")");
        assert(out@ =~= process_text(c.proc_name@, c.pid@));
        text::string_of(out.as_slice())
    };
    let (rate, duration_nanos): (Option<ConnectionRate>, Option<u64>) = match track {
        Some(t) => (t.rate, Some(t.duration_nanos)),
        None => (None, None),
    };
    ConnectionRow {
        proto: crate::format::to_uppercase(c.proto.as_str()),
        local: c.local.clone(),
        peer: c.peer.clone(),
        process,
        state: c.state.clone(),
        sent_bytes: c.sent_bytes,
        recv_bytes: c.recv_bytes,
        rate,
        duration_nanos,
    }
}

fn connection_rows(conns: &Vec<Connection>, tracks: &StringHashMap<ConnectionTrack>) -> (r: Vec<ConnectionRow>)
    ensures
        row_views(r@) == rows_of(connections::views(conns@), tracks@),
{
    let ghost want = rows_of(connections::views(conns@), tracks@);
    let mut out: Vec<ConnectionRow> = Vec::new();
    let mut i: usize = 0;
    while i < conns.len()
        invariant
            i <= conns@.len() == want.len(),
            want == rows_of(connections::views(conns@), tracks@),
            out@.len() == i,
            forall|j: int| 0 <= j < i ==> #[trigger] out@[j]@ == want[j],
        decreases conns.len() - i,
    {
        let c: &Connection = &conns[i];
        let track: Option<ConnectionTrack> = match tracks.get(ConnectionRateTracker::key(c).as_str()) {
            Some(t) => Some(*t),
            None => None,
        };
        let row: ConnectionRow = connection_row(c, track);
        assert(want[i as int] == row@);
        out.push(row);
        i += 1;
    }
    assert(row_views(out@) =~= want);
    out
}

/// The page of the connections: its rows, and the peers that are to be located.
pub struct ConnectionsPage {
    pub connections: Vec<ConnectionRow>,
    pub peers: Vec<Peer>,
}

/// The page of the connections from a run of `ss -tuinp` at the time `now`, in nanoseconds. One
/// listing serves the rows, the tracker and the peers.
pub fn connections_page(run: &Option<CommandOutput>, tracker: &mut ConnectionRateTracker, now: u64) -> (r: ConnectionsPage)
    ensures
        ({
            let conns = connections::listed(command::run_view(*run), CONNECTIONS_SHOWN as int);
            &&& row_views(r.connections@) == rows_of(conns, connections::tracks_after(old(tracker)@, conns, now))
            &&& geoip::peer_views(r.peers@) == geoip::peers_of(conns)
            &&& final(tracker)@ == connections::entries_after(old(tracker)@, conns, now)
        }),
{
    let conns: Vec<Connection> = connections::read_connections(run, CONNECTIONS_SHOWN);
    let tracks: StringHashMap<ConnectionTrack> = tracker.update(conns.as_slice(), now);
    ConnectionsPage { connections: connection_rows(&conns, &tracks), peers: geoip::unique_peers(conns.as_slice()) }
}

/// Every socket on the page has a duration, from its first sighting on.
pub proof fn law_every_row_has_a_duration(
    entries: Map<Seq<char>, connections::TrackedEntry>,
    conns: Seq<connections::ConnectionView>,
    now: u64,
    i: int,
)
    requires
        0 <= i < conns.len(),
    ensures
        rows_of(conns, connections::tracks_after(entries, conns, now))[i].duration_nanos is Some,
{
    connections::law_poll_knows_its_sockets(entries, conns, now, connections::key_of(conns[i]));
    assert(connections::key_of(conns[i]) == connections::key_of(conns[i]));
}

/// What the dashboard says of the default interface.
#[derive(Debug, Clone)]
pub struct PrimaryText {
    pub default_iface: String,
    pub iface_state: String,
    pub mac: String,
    pub mtu: String,
    pub link_speed: String,
    /// Errors and drops of the interface, where their sum can be held.
    pub errors_drops: Option<u64>,
}

#[verifier::ext_equal]
pub struct PrimaryView {
    pub default_iface: Seq<char>,
    pub iface_state: Seq<char>,
    pub mac: Seq<char>,
    pub mtu: Seq<char>,
    pub link_speed: Seq<char>,
    pub errors_drops: Option<u64>,
}

impl View for PrimaryText {
    type V = PrimaryView;

    open spec fn view(&self) -> PrimaryView {
        PrimaryView {
            default_iface: self.default_iface@,
            iface_state: self.iface_state@,
            mac: self.mac@,
            mtu: self.mtu@,
            link_speed: self.link_speed@,
            errors_drops: self.errors_drops,
        }
    }
}

/// The state of an interface as it is shown.
pub open spec fn state_text(operstate: Seq<char>) -> Seq<char> {
    if operstate.len() == 0 || operstate == "unknown"@ {
        crate::format::UNKNOWN@
    } else {
        crate::format::capitalized(operstate)
    }
}

/// Errors and drops of the default interface; none where there is no such interface.
pub open spec fn troubles_of(primary: Option<IfaceRates>) -> Option<u64> {
    match primary {
        Some(p) => {
            let n = p.counters.rx_errs + p.counters.rx_drop + p.counters.tx_errs + p.counters.tx_drop;
            if n <= u64::MAX {
                Some(n as u64)
            } else {
                None
            }
        },
        None => Some(0),
    }
}

pub open spec fn primary_text_of(r: netdev::ReadingView) -> PrimaryView {
    PrimaryView {
        default_iface: crate::format::or_unknown(r.default_iface),
        iface_state: state_text(r.primary_info.operstate),
        mac: crate::format::or_unknown(r.primary_info.address),
        mtu: crate::format::or_unknown(r.primary_info.mtu),
        link_speed: crate::format::mbits(r.primary_info.speed_mbps),
        errors_drops: troubles_of(netdev::primary_of(r.interfaces, r.default_iface)),
    }
}

/// What the dashboard says of the default interface.
pub fn primary_text(reading: &Reading) -> (r: PrimaryText)
    ensures
        r@ == primary_text_of(reading@),
{
    let operstate: &String = &reading.primary_info.operstate;
    let iface_state: String = if operstate.as_str().is_empty() || text::same_str(operstate.as_str(), "unknown") {
        crate::format::UNKNOWN.to_string()
    } else {
        crate::format::capitalize(operstate.as_str())
    };
    let errors_drops: Option<u64> = match &reading.default_iface {
        Some(name) => match reading.interfaces.get(name.as_str()) {
            Some(p) => p.counters.errors_drops(),
            None => Some(0),
        },
        None => Some(0),
    };
    PrimaryText {
        default_iface: crate::format::shown(&reading.default_iface),
        iface_state,
        mac: crate::format::shown(&reading.primary_info.address),
        mtu: crate::format::shown(&reading.primary_info.mtu),
        link_speed: crate::format::shown_mbits(reading.primary_info.speed_mbps),
        errors_drops,
    }
}

/// The page of the wireless networks: the one in use, and all of them.
pub struct WifiSnapshot {
    pub connected: Option<WifiNetworkRow>,
    pub networks: Vec<WifiNetworkRow>,
}

pub open spec fn wifi_rows(v: Seq<WifiNetworkRow>) -> Seq<wifi::WifiRowView> {
    v.map_values(|r: WifiNetworkRow| r@)
}

pub open spec fn opt_wifi_row(r: Option<WifiNetworkRow>) -> Option<wifi::WifiRowView> {
    match r {
        Some(r) => Some(r@),
        None => None,
    }
}

pub open spec fn connected_of(networks: Seq<wifi::NetworkView>) -> Option<wifi::WifiRowView> {
    match wifi::first_in_use(networks) {
        Some(i) => Some(wifi::wifi_row_of(networks[i])),
        None => None,
    }
}

/// The page of the wireless networks from a run of `nmcli`.
pub fn wifi_page(run: &Option<CommandOutput>) -> (r: WifiSnapshot)
    ensures
        ({
            let networks = wifi::wifi_read(command::run_view(*run));
            &&& opt_wifi_row(r.connected) == connected_of(networks)
            &&& wifi_rows(r.networks@) == networks.map_values(|n: wifi::NetworkView| wifi::wifi_row_of(n))
        }),
{
    let found: Vec<WifiNetwork> = wifi::read_wifi_networks(run);
    let ghost networks = wifi::networks_view(found@);
    let connected: Option<WifiNetworkRow> = match wifi::get_active_wifi_network(found.as_slice()) {
        Some(n) => Some(wifi::wifi_row(n)),
        None => None,
    };
    let ghost want = networks.map_values(|n: wifi::NetworkView| wifi::wifi_row_of(n));
    let mut out: Vec<WifiNetworkRow> = Vec::new();
    let mut i: usize = 0;
    while i < found.len()
        invariant
            i <= found@.len() == want.len(),
            networks == wifi::networks_view(found@),
            want == networks.map_values(|n: wifi::NetworkView| wifi::wifi_row_of(n)),
            out@.len() == i,
            forall|j: int| 0 <= j < i ==> #[trigger] out@[j]@ == want[j],
        decreases found.len() - i,
    {
        let row: WifiNetworkRow = wifi::wifi_row(&found[i]);
        assert(networks[i as int] == found@[i as int]@);
        assert(want[i as int] == row@);
        out.push(row);
        i += 1;
    }
    assert(wifi_rows(out@) =~= want);
    WifiSnapshot { connected, networks: out }
}

/// The page of the interfaces: they, the bonds between them, and the devices around them.
pub struct InterfacesSnapshot {
    pub interfaces: Vec<InterfaceRow>,
    pub bonding: Vec<BondRow>,
    pub lan: Vec<LanRow>,
}

pub open spec fn interface_rows(v: Seq<InterfaceRow>) -> Seq<interfaces::InterfaceRowView> {
    v.map_values(|r: InterfaceRow| r@)
}

pub open spec fn bond_rows(v: Seq<BondRow>) -> Seq<interfaces::BondRowView> {
    v.map_values(|r: BondRow| r@)
}

pub open spec fn lan_rows(v: Seq<LanRow>) -> Seq<lan::LanRowView> {
    v.map_values(|r: LanRow| r@)
}

fn show_interfaces(v: &Vec<InterfaceSummary>) -> (r: Vec<InterfaceRow>)
    ensures
        interface_rows(r@) == interfaces::summaries(v@).map_values(|s: interfaces::SummaryView| interfaces::row_of(s)),
{
    let ghost want = interfaces::summaries(v@).map_values(|s: interfaces::SummaryView| interfaces::row_of(s));
    let mut out: Vec<InterfaceRow> = Vec::new();
    let mut i: usize = 0;
    while i < v.len()
        invariant
            i <= v@.len() == want.len(),
            want == interfaces::summaries(v@).map_values(|s: interfaces::SummaryView| interfaces::row_of(s)),
            out@.len() == i,
            forall|j: int| 0 <= j < i ==> #[trigger] out@[j]@ == want[j],
        decreases v.len() - i,
    {
        let row: InterfaceRow = interfaces::interface_row(&v[i]);
        assert(want[i as int] == row@);
        out.push(row);
        i += 1;
    }
    assert(interface_rows(out@) =~= want);
    out
}

fn show_bonds(v: &Vec<BondGroup>) -> (r: Vec<BondRow>)
    ensures
        bond_rows(r@) == interfaces::bonds(v@).map_values(|b: interfaces::BondView| interfaces::bond_row_of(b)),
{
    let ghost want = interfaces::bonds(v@).map_values(|b: interfaces::BondView| interfaces::bond_row_of(b));
    let mut out: Vec<BondRow> = Vec::new();
    let mut i: usize = 0;
    while i < v.len()
        invariant
            i <= v@.len() == want.len(),
            want == interfaces::bonds(v@).map_values(|b: interfaces::BondView| interfaces::bond_row_of(b)),
            out@.len() == i,
            forall|j: int| 0 <= j < i ==> #[trigger] out@[j]@ == want[j],
        decreases v.len() - i,
    {
        let row: BondRow = interfaces::bond_row(&v[i]);
        assert(want[i as int] == row@);
        out.push(row);
        i += 1;
    }
    assert(bond_rows(out@) =~= want);
    out
}

fn show_lan(v: &Vec<LanDevice>) -> (r: Vec<LanRow>)
    ensures
        lan_rows(r@) == lan::devices(v@).map_values(|d: lan::LanView| lan::row_of(d)),
{
    let ghost want = lan::devices(v@).map_values(|d: lan::LanView| lan::row_of(d));
    let mut out: Vec<LanRow> = Vec::new();
    let mut i: usize = 0;
    while i < v.len()
        invariant
            i <= v@.len() == want.len(),
            want == lan::devices(v@).map_values(|d: lan::LanView| lan::row_of(d)),
            out@.len() == i,
            forall|j: int| 0 <= j < i ==> #[trigger] out@[j]@ == want[j],
        decreases v.len() - i,
    {
        let row: LanRow = lan::lan_row(&v[i]);
        assert(want[i as int] == row@);
        out.push(row);
        i += 1;
    }
    assert(lan_rows(out@) =~= want);
    out
}

/// The page of the interfaces: from what was found for each of them, the contents of
/// `/proc/net/dev`, a run of `ip route show default`, the files under `/proc/net/bonding`, and a
/// run of `ip neighbor show`.
pub fn interfaces_page(
    found: &Vec<FoundInterface>,
    dev: Option<&str>,
    route: &Option<CommandOutput>,
    bonds: &Vec<(String, Option<String>)>,
    neighbors: &Option<CommandOutput>,
) -> (r: InterfacesSnapshot)
    ensures
        interface_rows(r.interfaces@) == interfaces::founds(found@).map_values(
            |f: interfaces::FoundView|
                interfaces::row_of(
                    interfaces::summary_of(
                        f,
                        netdev::dev_rows(netdev::dev_lines(command::opt_str(dev))),
                        netdev::default_interface(command::run_view(*route)),
                    ),
                ),
        ),
        bond_rows(r.bonding@) == interfaces::bonds_of(interfaces::file_views(bonds@)).map_values(
            |b: interfaces::BondView| interfaces::bond_row_of(b),
        ),
        lan_rows(r.lan@) == lan::devices_of(command::run_view(*neighbors)).map_values(|d: lan::LanView| lan::row_of(d)),
{
    let summaries: Vec<InterfaceSummary> = interfaces::list_all_interfaces(found, dev, route);
    let groups: Vec<BondGroup> = interfaces::list_bond_groups(bonds);
    let devices: Vec<LanDevice> = lan::list_lan_devices(neighbors);
    let r: InterfacesSnapshot = InterfacesSnapshot {
        interfaces: show_interfaces(&summaries),
        bonding: show_bonds(&groups),
        lan: show_lan(&devices),
    };
    assert(interface_rows(r.interfaces@) =~= interfaces::founds(found@).map_values(
        |f: interfaces::FoundView|
            interfaces::row_of(
                interfaces::summary_of(
                    f,
                    netdev::dev_rows(netdev::dev_lines(command::opt_str(dev))),
                    netdev::default_interface(command::run_view(*route)),
                ),
            ),
    ));
    r
}


/// Each socket has a row with its own addresses, state and counters, and the rate and duration
/// that are known under its two addresses; its process is shown by name and number, or as a dash.
pub proof fn law_each_socket_has_its_row(
    conns: Seq<connections::ConnectionView>,
    tracks: Map<Seq<char>, ConnectionTrack>,
    i: int,
)
    requires
        0 <= i < conns.len(),
    ensures
        rows_of(conns, tracks).len() == conns.len(),
        ({
            let c = conns[i];
            let r = rows_of(conns, tracks)[i];
            let key = c.local + seq!['|'] + c.peer;
            &&& r.local == c.local
            &&& r.peer == c.peer
            &&& r.state == c.state
            &&& r.sent_bytes == c.sent_bytes
            &&& r.recv_bytes == c.recv_bytes
            &&& r.proto == crate::format::uppercased(c.proto)
            &&& c.proc_name.len() == 0 ==> r.process == "—"@
            &&& c.proc_name.len() > 0 ==> r.process == c.proc_name + " ("@ + c.pid + ")"@
            &&& tracks.contains_key(key) ==> r.rate == tracks[key].rate && r.duration_nanos == Some(
                tracks[key].duration_nanos,
            )
            &&& !tracks.contains_key(key) ==> r.rate is None && r.duration_nanos is None
        }),
{
}

/// The dashboard shows what is known of the default interface, a dash for what is not, and all
/// four of its counters of errors and drops added up.
pub proof fn law_dashboard_is_of_the_default_interface(r: netdev::ReadingView, i: int)
    requires
        crate::table::distinct(r.interfaces),
        0 <= i < r.interfaces.len(),
        r.default_iface == Some(r.interfaces[i].0),
    ensures
        ({
            let c = r.interfaces[i].1.counters;
            let n = c.rx_errs + c.rx_drop + c.tx_errs + c.tx_drop;
            let t = primary_text_of(r);
            &&& t.default_iface == r.interfaces[i].0
            &&& n <= u64::MAX ==> t.errors_drops == Some(n as u64)
            &&& n > u64::MAX ==> t.errors_drops is None
            &&& r.primary_info.address matches Some(mac) ==> t.mac == mac
            &&& r.primary_info.address is None ==> t.mac == "—"@
            &&& r.primary_info.mtu matches Some(mtu) ==> t.mtu == mtu
            &&& r.primary_info.mtu is None ==> t.mtu == "—"@
            &&& r.primary_info.speed_mbps is None ==> t.link_speed == "—"@
            &&& r.primary_info.speed_mbps matches Some(s) ==> t.link_speed == crate::numbers::signed_decimal(s as int)
                + " Mbit/s"@
            &&& r.primary_info.operstate == "unknown"@ || r.primary_info.operstate == Seq::<char>::empty()
                ==> t.iface_state == "—"@
            &&& r.primary_info.operstate != "unknown"@ && r.primary_info.operstate != Seq::<char>::empty()
                ==> t.iface_state == crate::format::capitalized(r.primary_info.operstate)
        }),
        primary_text_of(netdev::ReadingView { default_iface: None, ..r }).default_iface == "—"@,
        primary_text_of(netdev::ReadingView { default_iface: None, ..r }).errors_drops == Some(0u64),
{
    crate::table::lemma_place_of(r.interfaces, r.interfaces[i].0);
    let k = crate::table::place_of(r.interfaces, r.interfaces[i].0)->Some_0;
    if k < i {
        assert(r.interfaces[k].0 != r.interfaces[i].0);
    } else if i < k {
        assert(r.interfaces[i].0 != r.interfaces[k].0);
    }
    if r.primary_info.operstate.len() == 0 {
        assert(r.primary_info.operstate =~= Seq::<char>::empty());
    }
}

/// The network shown as connected is the first that is in use.
pub proof fn law_connected_is_in_use(networks: Seq<wifi::NetworkView>, i: int)
    requires
        0 <= i < networks.len(),
        networks[i].in_use,
        forall|j: int| 0 <= j < i ==> !(#[trigger] networks[j]).in_use,
    ensures
        connected_of(networks) == Some(wifi::wifi_row_of(networks[i])),
        connected_of(networks.take(i)) is None,
{
    wifi::law_first_in_use_is_taken(networks);
    wifi::law_first_in_use_is_taken(networks.take(i));
    if let Some(k) = wifi::first_in_use(networks.take(i)) {
        assert(networks.take(i)[k] == networks[k]);
    }
    let k = wifi::first_in_use(networks)->Some_0;
    if k < i {
        assert(!networks[k].in_use);
    } else if i < k {
        assert(!networks[i].in_use);
    }
}


/// How many rows the pages list at most.
pub proof fn law_limits_of_the_pages()
    ensures
        CONNECTIONS_SHOWN == 500,
        PROCESSES_SHOWN == 50,
        NETHOGS_SHOWN == 30,
{
}

} // verus!
