use netmon_core::command::CommandOutput;
use netmon_core::dns;
use netmon_core::dns::DnsStats;
use netmon_core::interfaces;
use netmon_core::interfaces::FoundInterface;
use netmon_core::lan;
use netmon_core::lan::parse_neighbor_line;
use netmon_core::netdev;
use netmon_core::netdev::{Counters, IfaceRates, InterfaceFiles, InterfaceInfo, NetworkReader};
use netmon_core::pages;
use netmon_core::table::Table;
use netmon_core::vpn;
use netmon_core::vpn::{build_vpn_profiles, is_vpn_type};
use netmon_core::wifi;
use netmon_core::wifi::{parse_nmcli_terse_line, parse_wifi_list_output, Polled, WaitStep};

fn run(stdout: &str) -> Option<CommandOutput> {
    Some(CommandOutput { code: Some(0), stdout: stdout.to_string(), stderr: String::new() })
}

fn failed(stdout: &str) -> Option<CommandOutput> {
    Some(CommandOutput { code: Some(10), stdout: stdout.to_string(), stderr: String::new() })
}

const DEV: &str = "Inter-|   Receive                                                |  Transmit
 face |bytes    packets errs drop fifo frame compressed multicast|bytes    packets errs drop fifo colls carrier compressed
    lo:    1000      10    0    0    0     0          0         0     1000      10    0    0    0     0       0          0
 wlan0:    3000      30    1    2    0     0          0         0     1500      15    3    4    0     0       0          0
  tun0: 9 9 9 9 9 9 9 9 9 9 9 9 9 9 9
   bad:    x      30    1    2    0     0          0         0     1500      15    3    4    0     0       0          0
no colon here
";

#[test]
fn parses_dev_line_fields() {
    let stats = netdev::read_proc_net_dev(Some(DEV));
    for i in 0..stats.len() {
        assert!(!stats.name_at(i).is_empty());
    }
    assert_eq!(stats.len(), 2);
    assert_eq!(
        stats.get("wlan0"),
        Some(&Counters {
            rx_bytes: 3000,
            rx_packets: 30,
            rx_errs: 1,
            rx_drop: 2,
            tx_bytes: 1500,
            tx_packets: 15,
            tx_errs: 3,
            tx_drop: 4,
        })
    );
    assert_eq!(netdev::read_proc_net_dev(None).len(), 0);
    assert_eq!(netdev::read_proc_net_dev(Some("one line")).len(), 0);
}

#[test]
fn interfaces_are_listed_in_the_order_of_the_kernel() {
    assert_eq!(netdev::list_interfaces(Some(DEV)), vec!["lo", "wlan0", "tun0", "bad"]);
    assert!(netdev::list_interfaces(None).is_empty());
    assert!(netdev::list_interfaces(Some("a\nb\n  : 1\n")).is_empty());
}

fn counters(rx_bytes: u64, tx_bytes: u64) -> Counters {
    Counters { rx_bytes, tx_bytes, ..Default::default() }
}

fn table(rows: &[(&str, Counters)]) -> Table<Counters> {
    let mut t = Table::new();
    for (name, c) in rows {
        t.put(name.to_string(), *c);
    }
    t
}

fn per_second(bytes: u64, nanos: u64) -> f64 {
    bytes as f64 / (nanos as f64 / 1e9)
}

#[test]
fn compute_rates_diffs_against_previous_sample() {
    let prev = table(&[("wlan0", counters(1_000, 500))]);
    let raw = table(&[("wlan0", counters(3_000, 1_500))]);

    let rates = netdev::compute_rates(&raw, &Some(prev), Some(2_000_000_000));

    let r = rates.get("wlan0").unwrap();
    assert_eq!(per_second(r.rx_delta, 2_000_000_000), 1_000.0); // (3000-1000)/2s
    assert_eq!(per_second(r.tx_delta, 2_000_000_000), 500.0); // (1500-500)/2s
}

#[test]
fn compute_rates_clamps_a_counter_reset_to_zero_not_negative() {
    let prev = table(&[("wlan0", counters(5_000, 5_000))]);
    let raw = table(&[("wlan0", counters(100, 100))]); // interface reset/flapped

    let rates = netdev::compute_rates(&raw, &Some(prev), Some(1_000_000_000));

    assert_eq!(rates.get("wlan0").unwrap().rx_delta, 0);
    assert_eq!(rates.get("wlan0").unwrap().tx_delta, 0);
}

#[test]
fn compute_rates_is_zero_without_a_previous_sample() {
    let raw = table(&[("wlan0", counters(3_000, 1_500))]);

    let rates = netdev::compute_rates(&raw, &None, None);

    assert_eq!(rates.get("wlan0").unwrap().rx_delta, 0);
    assert_eq!(rates.get("wlan0").unwrap().tx_delta, 0);
    assert_eq!(rates.get("wlan0").unwrap().counters, counters(3_000, 1_500));
}

#[test]
fn an_interface_that_just_appeared_and_an_instant_have_no_rate() {
    let prev = Some(table(&[("eth0", counters(0, 0))]));
    let raw = table(&[("wlan0", counters(10, 10)), ("eth0", counters(7, 8))]);
    let rates = netdev::compute_rates(&raw, &prev, Some(1));
    assert_eq!(rates.get("wlan0").unwrap().rx_delta, 0);
    assert_eq!(rates.get("eth0").unwrap().rx_delta, 7);
    let rates = netdev::compute_rates(&raw, &prev, Some(0));
    assert_eq!(rates.get("eth0").unwrap().rx_delta, 0);
}

fn rates(rows: &[(&str, Counters, u64, u64)]) -> Table<IfaceRates> {
    let mut t = Table::new();
    for (name, counters, rx_delta, tx_delta) in rows {
        t.put(name.to_string(), IfaceRates { counters: *counters, rx_delta: *rx_delta, tx_delta: *tx_delta });
    }
    t
}

#[test]
fn build_reading_excludes_a_vpn_tunnel_from_the_total_so_it_is_not_double_counted() {
    let rows = rates(&[
        // The physical interface carrying the (now encrypted) traffic...
        ("wlan0", counters(10_000, 2_000), 100, 20),
        // ...and the VPN overlay riding on top of it, which must not add
        // its own bytes on top of wlan0's for the total.
        ("tun0", counters(9_500, 1_900), 95, 19),
    ]);

    let reading = netdev::build_reading(rows, 1_000_000_000, None, InterfaceInfo::default());

    assert_eq!(reading.total_downloaded, 10_000); // wlan0 only, not 19_500
    assert_eq!(reading.total_uploaded, 2_000);
    assert!(reading.visible_interfaces.get("tun0").is_none());
    assert!(reading.interfaces.get("tun0").is_some()); // still present, unfiltered
    assert_eq!(reading.download_delta, 100);
    assert_eq!(reading.total_upload_delta, 20);
}

#[test]
fn build_reading_uses_the_default_interface_as_primary_when_present() {
    let rows = rates(&[("wlan0", counters(1_000, 500), 50, 10), ("eth0", counters(2_000, 1_000), 200, 40)]);

    let reading = netdev::build_reading(rows, 1_000_000_000, Some("eth0".to_string()), InterfaceInfo::default());

    assert_eq!(reading.download_delta, 200);
    assert_eq!(reading.upload_delta, 40);
    assert_eq!(reading.total_download_delta, 250);
    assert_eq!(reading.total_upload_delta, 50);
}

#[test]
fn every_skipped_prefix_is_skipped() {
    for name in ["lo", "lo1", "virbr0", "docker0", "veth12", "br-a", "tun0", "tap0", "wg0", "ppp0"] {
        assert!(netdev::skipped(name), "{name}");
    }
    for name in ["wlan0", "eth0", "enp3s0", "br0", "bond0", ""] {
        assert!(!netdev::skipped(name), "{name}");
    }
}

fn files(operstate: Option<&str>, speed: Option<&str>) -> InterfaceFiles {
    InterfaceFiles {
        address: Some("aa:bb\n".to_string()),
        mtu: Some("1500\n".to_string()),
        operstate: operstate.map(|s| s.to_string()),
        speed: speed.map(|s| s.to_string()),
    }
}

#[test]
fn the_files_of_an_interface_are_read() {
    let info = netdev::read_interface_info(&files(Some("up\n"), Some("1000\n")));
    assert_eq!(info.address.as_deref(), Some("aa:bb"));
    assert_eq!(info.mtu.as_deref(), Some("1500"));
    assert_eq!(info.operstate, "up");
    assert_eq!(info.speed_mbps, Some(1000));
    let info = netdev::read_interface_info(&files(None, Some("-1\n")));
    assert_eq!(info.operstate, "unknown");
    assert_eq!(info.speed_mbps, None);
    assert_eq!(netdev::read_interface_info(&files(None, Some("0"))).speed_mbps, None);
    assert_eq!(netdev::read_interface_info(&files(None, Some("fast"))).speed_mbps, None);
    assert_eq!(netdev::read_interface_info(&files(None, None)).speed_mbps, None);
}

#[test]
fn the_default_interface_is_the_first_one_named() {
    let route = "default via 192.168.0.1 dev wlan0 proto dhcp\ndefault via 10.0.0.1 dev eth0\n";
    assert_eq!(netdev::get_default_interface(&run(route)).as_deref(), Some("wlan0"));
    assert_eq!(netdev::get_default_interface(&run("default dev\nx dev eth0")).as_deref(), Some("eth0"));
    assert_eq!(netdev::get_default_interface(&run("")), None);
    assert_eq!(netdev::get_default_interface(&failed(route)), None);
    assert_eq!(netdev::get_default_interface(&None), None);
}

#[test]
fn a_reader_compares_each_sample_with_the_one_before() {
    let mut reader = NetworkReader::new();
    let f = files(Some("up"), Some("100"));
    let first = reader.get(Some(DEV), Some("wlan0".to_string()), &f, 1_000);
    assert_eq!(first.nanos, 0);
    assert_eq!(first.download_delta, 0);
    assert_eq!(first.total_downloaded, 3000);
    assert_eq!(first.primary_info.operstate, "up");
    let more = DEV.replace("3000", "3600");
    let second = reader.get(Some(more.as_str()), Some("wlan0".to_string()), &f, 3_000);
    assert_eq!(second.nanos, 2_000);
    assert_eq!(second.download_delta, 600);
    assert_eq!(second.upload_delta, 0);
    let third = reader.get(None, None, &f, 4_000);
    assert_eq!(third.interfaces.len(), 0);
    assert_eq!(third.primary_info.operstate, "");
    assert_eq!(third.primary_info.address, None);
}

#[test]
fn latency_is_the_number_behind_time() {
    let ping = "64 bytes from 1.1.1.1: icmp_seq=1 ttl=57 time=12.3 ms\n";
    assert_eq!(netdev::measure_latency(&run(ping)).as_deref(), Some("12.3"));
    assert_eq!(netdev::measure_latency(&run("time=5")).as_deref(), Some("5"));
    assert_eq!(netdev::measure_latency(&run("time=<1 ms")), None);
    assert_eq!(netdev::measure_latency(&run("time=1.2.3")), None);
    assert_eq!(netdev::measure_latency(&run("no answer")), None);
    assert_eq!(netdev::measure_latency(&failed(ping)), None);
    assert_eq!(netdev::LATENCY_TARGET, "1.1.1.1");
}

#[test]
fn errors_and_drops_are_summed_where_the_sum_fits() {
    let c = Counters { rx_errs: 1, rx_drop: 2, tx_errs: 3, tx_drop: 4, ..Default::default() };
    assert_eq!(c.errors_drops(), Some(10));
    let c = Counters { rx_errs: u64::MAX, rx_drop: 1, ..Default::default() };
    assert_eq!(c.errors_drops(), None);
}

#[test]
fn the_dashboard_tells_of_the_default_interface() {
    let mut reader = NetworkReader::new();
    let reading = reader.get(Some(DEV), Some("wlan0".to_string()), &files(Some("up"), Some("300")), 0);
    let p = pages::primary_text(&reading);
    assert_eq!(p.default_iface, "wlan0");
    assert_eq!(p.iface_state, "Up");
    assert_eq!(p.mac, "aa:bb");
    assert_eq!(p.mtu, "1500");
    assert_eq!(p.link_speed, "300 Mbit/s");
    assert_eq!(p.errors_drops, Some(10));
    let reading = reader.get(Some(DEV), None, &files(None, None), 0);
    let p = pages::primary_text(&reading);
    assert_eq!((p.default_iface.as_str(), p.iface_state.as_str(), p.mac.as_str()), ("—", "—", "—"));
    assert_eq!(p.errors_drops, Some(0));
    let reading = reader.get(Some(DEV), Some("eth9".to_string()), &files(None, None), 0);
    let p = pages::primary_text(&reading);
    assert_eq!(p.iface_state, "—");
    assert_eq!(p.errors_drops, Some(0));
}

#[test]
fn classify_reports_loopback_by_name_without_touching_the_filesystem() {
    assert_eq!(interfaces::classify_under("lo", false), "Loopback");
}

#[test]
fn classify_reports_wifi_when_the_wireless_subdir_exists() {
    assert_eq!(interfaces::classify_under("wlan0", true), "Wi-Fi");
}

#[test]
fn classify_falls_back_to_ethernet_without_a_wireless_subdir() {
    assert_eq!(interfaces::classify_under("eth0", false), "Ethernet");
}

#[test]
fn parse_bond_info_extracts_mode_active_slave_and_all_slaves() {
    let text = "\
Ethernet Channel Bonding Driver: v6.6.0

Bonding Mode: fault-tolerance (active-backup)
Currently Active Slave: eth0
MII Status: up

Slave Interface: eth0
MII Status: up

Slave Interface: eth1
MII Status: backup
";
    let group = interfaces::parse_bond_info("bond0".to_string(), text);

    assert_eq!(group.name, "bond0");
    assert_eq!(group.mode, "fault-tolerance (active-backup)");
    assert_eq!(group.active_slave.as_deref(), Some("eth0"));
    assert_eq!(group.slaves, vec!["eth0".to_string(), "eth1".to_string()]);

    let row = interfaces::bond_row(&group);
    assert_eq!((row.active.as_str(), row.standby.as_str()), ("eth0", "eth1"));
}

#[test]
fn parse_bond_info_treats_none_active_slave_as_absent() {
    let text = "Bonding Mode: load balancing (round-robin)\nCurrently Active Slave: None\n";
    let group = interfaces::parse_bond_info("bond1".to_string(), text);
    assert_eq!(group.active_slave, None);
}

#[test]
fn a_bond_without_labels_is_unknown() {
    let group = interfaces::parse_bond_info("b".to_string(), "");
    assert_eq!(group.mode, "unknown");
    assert_eq!(group.active_slave, None);
    assert!(group.slaves.is_empty());
    let row = interfaces::bond_row(&group);
    assert_eq!((row.active.as_str(), row.standby.as_str()), ("—", "—"));
    let empty = interfaces::parse_bond_info("b".to_string(), "Currently Active Slave:  \n");
    assert_eq!(empty.active_slave, None);
    let twice = interfaces::parse_bond_info("b".to_string(), "Bonding Mode:Bonding Mode: x\nBonding Mode: y\n");
    assert_eq!(twice.mode, "x");
}

#[test]
fn bonds_are_those_of_the_files_that_could_be_read() {
    let files = vec![
        ("bond0".to_string(), Some("Slave Interface: a\nSlave Interface: b\nSlave Interface: c\n".to_string())),
        ("bond1".to_string(), None),
    ];
    let groups = interfaces::list_bond_groups(&files);
    assert_eq!(groups.len(), 1);
    assert_eq!(interfaces::bond_row(&groups[0]).standby, "a, b, c");
}

#[test]
fn the_page_of_the_interfaces_puts_everything_together() {
    let found = vec![
        FoundInterface { name: "lo".to_string(), files: files(Some("unknown"), None), wireless: false, addresses: None },
        FoundInterface {
            name: "wlan0".to_string(),
            files: files(Some("up"), Some("866")),
            wireless: true,
            addresses: run("3: wlan0    inet 192.168.0.44/24 brd 192.168.0.255 scope global\n"),
        },
        FoundInterface { name: "eth7".to_string(), files: files(None, None), wireless: false, addresses: run("inet") },
    ];
    let route = run("default via 192.168.0.1 dev wlan0\n");
    let neighbors = run("192.168.0.31 dev wlan0 lladdr 8c:c5:d0:cd:ef:52 STALE\n\n10.0.0.1 FAILED\n");
    let page = pages::interfaces_page(&found, Some(DEV), &route, &Vec::new(), &neighbors);
    assert_eq!(page.interfaces.len(), 3);
    let w = &page.interfaces[1];
    assert_eq!((w.name.as_str(), w.kind.as_str(), w.ip.as_str()), ("wlan0", "Wi-Fi", "192.168.0.44/24"));
    assert_eq!((w.status.as_str(), w.speed.as_str(), w.mac.as_str()), ("Up", "866 Mbit/s", "aa:bb"));
    assert_eq!((w.rx_bytes, w.tx_bytes, w.is_default), (3000, 1500, true));
    let e = &page.interfaces[2];
    assert_eq!((e.kind.as_str(), e.ip.as_str(), e.status.as_str()), ("Ethernet", "—", "Unknown"));
    assert_eq!((e.rx_bytes, e.is_default), (0, false));
    assert!(page.bonding.is_empty());
    assert_eq!(page.lan.len(), 2);
    assert_eq!((page.lan[0].iface.as_str(), page.lan[0].mac.as_str()), ("wlan0", "8c:c5:d0:cd:ef:52"));
    assert_eq!((page.lan[1].iface.as_str(), page.lan[1].mac.as_str()), ("—", "—"));
    assert_eq!(page.lan[1].state, "FAILED");
}

#[test]
fn parses_line_with_lladdr() {
    let d = parse_neighbor_line("192.168.0.31 dev wlp0s20f3 lladdr 8c:c5:d0:cd:ef:52 STALE").unwrap();
    assert_eq!(d.ip, "192.168.0.31");
    assert_eq!(d.iface.as_deref(), Some("wlp0s20f3"));
    assert_eq!(d.mac.as_deref(), Some("8c:c5:d0:cd:ef:52"));
    assert_eq!(d.state, "STALE");
}

#[test]
fn parses_line_without_lladdr() {
    let d = parse_neighbor_line("169.254.169.254 dev virbr0  FAILED").unwrap();
    assert_eq!(d.ip, "169.254.169.254");
    assert_eq!(d.iface.as_deref(), Some("virbr0"));
    assert!(d.mac.is_none());
    assert_eq!(d.state, "FAILED");
}

#[test]
fn neighbor_lines_at_the_edges() {
    assert!(parse_neighbor_line("  ").is_none());
    let d = parse_neighbor_line("fe80::1").unwrap();
    assert_eq!((d.ip.as_str(), d.state.as_str()), ("fe80::1", "fe80::1"));
    let d = parse_neighbor_line("a dev").unwrap();
    assert_eq!(d.iface, None);
    let d = parse_neighbor_line("a dev x dev y REACHABLE").unwrap();
    assert_eq!(d.iface.as_deref(), Some("y"));
    assert!(lan::list_lan_devices(&None).is_empty());
    assert!(lan::list_lan_devices(&failed("a b")).is_empty());
}

#[test]
fn is_vpn_type_matches_vpn_and_wireguard_not_ordinary_connections() {
    assert!(is_vpn_type("vpn"));
    assert!(is_vpn_type("wireguard"));
    assert!(!is_vpn_type("802-11-wireless"));
    assert!(!is_vpn_type("ethernet"));
}

#[test]
fn build_vpn_profiles_flags_active_and_filters_non_vpn_types() {
    let active = vec![("work".to_string(), "vpn".to_string())];
    let all = vec![
        ("work".to_string(), "vpn".to_string()),
        ("home-wg".to_string(), "wireguard".to_string()),
        ("Home Wi-Fi".to_string(), "802-11-wireless".to_string()),
    ];

    let profiles = build_vpn_profiles(&active, &all);

    assert_eq!(profiles.len(), 2); // the wireless connection is filtered out
    let work = profiles.iter().find(|p| p.name == "work").unwrap();
    assert!(work.active);
    let home = profiles.iter().find(|p| p.name == "home-wg").unwrap();
    assert!(!home.active);
}

#[test]
fn profiles_come_from_two_listings() {
    let active = run("wg\\:1:wireguard\nHome:802-11-wireless\n");
    let all = run("wg\\:1:wireguard\nwork:vpn\nHome:802-11-wireless\nbroken\n");
    let profiles = vpn::list_vpn_profiles(&active, &all);
    assert_eq!(profiles.len(), 2);
    assert_eq!((profiles[0].name.as_str(), profiles[0].active), ("wg:1", true));
    assert_eq!((profiles[1].name.as_str(), profiles[1].active), ("work", false));
    assert!(vpn::list_vpn_profiles(&active, &None).is_empty());
    assert_eq!(vpn::connection_args(true).last(), Some(&"--active"));
    assert_eq!(vpn::connection_args(false).len(), 5);
}

#[test]
fn a_change_of_a_connection_reports_what_went_wrong() {
    let out = |code, stderr: &str| Ok(CommandOutput { code, stdout: String::new(), stderr: stderr.to_string() });
    assert_eq!(vpn::change_result(&out(Some(0), "warning")), Ok(()));
    assert_eq!(vpn::change_result(&out(Some(4), " no secrets\n")), Err("no secrets".to_string()));
    assert_eq!(vpn::change_result(&out(None, "")), Err(String::new()));
    assert_eq!(vpn::change_result(&Err("gone".to_string())), Err("gone".to_string()));
}

#[test]
fn splits_on_unescaped_colons_only() {
    let line = r"*:MyNet:AA\:BB\:CC\:DD\:EE\:FF:Infra:6:2437:270:80:____:WPA2";
    let fields = parse_nmcli_terse_line(line);
    assert_eq!(fields[0], "*");
    assert_eq!(fields[1], "MyNet");
    assert_eq!(fields[2], "AA:BB:CC:DD:EE:FF");
    assert_eq!(fields[3], "Infra");
}

#[test]
fn terse_lines_give_their_fields_back() {
    assert_eq!(parse_nmcli_terse_line(""), vec![""]);
    assert_eq!(parse_nmcli_terse_line(":"), vec!["", ""]);
    assert_eq!(parse_nmcli_terse_line(r"a\b:\:"), vec![r"a\b", ":"]);
    assert_eq!(parse_nmcli_terse_line(r"a\"), vec![r"a\"]);
    assert_eq!(parse_nmcli_terse_line(r"a\\:b"), vec![r"a\:b"]);
    let fields = ["x:y", "", "::", "plain"];
    let line = fields.iter().map(|f| f.replace(':', "\\:")).collect::<Vec<_>>().join(":");
    assert_eq!(parse_nmcli_terse_line(&line), fields.to_vec());
}

#[test]
fn parses_full_wifi_list_line() {
    let text = r"*:HomeNet:AA\:BB\:CC\:DD\:EE\:FF:Infra:6:2437:270 Mbit/s:80:____:WPA2";
    let networks = parse_wifi_list_output(text);
    assert_eq!(networks.len(), 1);
    let n = &networks[0];
    assert!(n.in_use);
    assert_eq!(n.ssid, "HomeNet");
    assert_eq!(n.channel, Some(6));
    assert_eq!(n.freq_mhz, Some(2437));
    assert_eq!(n.rate_mbps, Some(270));
    assert_eq!(n.signal_pct, Some(80));
}

#[test]
fn empty_security_defaults_to_open() {
    let text = ":OpenNet:AA\\:BB\\:CC\\:DD\\:EE\\:FF:Infra:1:2412:54:40:__:";
    let networks = parse_wifi_list_output(text);
    assert_eq!(networks[0].security, "Open");
}

#[test]
fn networks_come_strongest_first_and_short_lines_are_left_out() {
    let text = " :A:b:m:1:2412 MHz:54:40:_:WPA\n*:B:b:m:36:5180 MHz:x:90:_:WPA\n :C:b:m::::?:_:\nshort:line\n :D:b:m:x:Mhz:1:40:_:W\n";
    let page = pages::wifi_page(&run(text));
    let names: Vec<&str> = page.networks.iter().map(|n| n.ssid.as_str()).collect();
    assert_eq!(names, vec!["B", "A", "D", "C"]);
    let connected = page.connected.unwrap();
    assert_eq!((connected.ssid.as_str(), connected.band.as_str(), connected.channel.as_str()), ("B", "5 GHz", "36"));
    assert_eq!(connected.speed, "—");
    assert_eq!(page.networks[1].band, "2.4 GHz");
    assert_eq!(page.networks[1].speed, "54 Mbit/s");
    assert_eq!(page.networks[3].signal, 0);
    assert_eq!(page.networks[3].security, "Open");
    assert_eq!(page.networks[3].band, "—");
    assert!(pages::wifi_page(&None).networks.is_empty());
    assert!(pages::wifi_page(&failed(text)).connected.is_none());
}

#[test]
fn the_active_network_is_the_first_in_use() {
    let networks = parse_wifi_list_output("*:A:b:m:1:1:1:5:_:W\n*:B:b:m:1:1:1:9:_:W\n");
    assert_eq!(wifi::get_active_wifi_network(&networks).unwrap().ssid, "B");
    assert!(wifi::get_active_wifi_network(&[]).is_none());
}

#[test]
fn the_wireless_device_is_the_first_of_its_type() {
    let status = "lo:loopback\nwlan0:wifi\nwlan1:wifi\n";
    assert_eq!(wifi::get_wifi_interface(&run(status)).as_deref(), Some("wlan0"));
    assert_eq!(wifi::get_wifi_interface(&run("eth0:ethernet\nodd\n")), None);
    assert_eq!(wifi::get_wifi_interface(&failed(status)), None);
    assert_eq!(wifi::get_wifi_interface(&None), None);
}

#[test]
fn a_scan_is_asked_for_and_waited_for() {
    assert_eq!(wifi::list_args(false).len(), 6);
    assert_eq!(wifi::list_args(true)[6..], ["--rescan", "yes"]);
    assert_eq!(wifi::wait_step(Polled::Ended, 9, 5), WaitStep::Read);
    assert_eq!(wifi::wait_step(Polled::Failed, 0, 5), WaitStep::GiveUp);
    assert_eq!(wifi::wait_step(Polled::Running, 4, 5), WaitStep::Wait);
    assert_eq!(wifi::wait_step(Polled::Running, 5, 5), WaitStep::Stop);
}

#[test]
fn hit_rate_from_counts() {
    let stats = DnsStats { cache_hits: 30, cache_misses: 10, ..Default::default() };
    let pct = stats.cache_hit_ratio().map(|(hits, total)| (hits as f64 / total as f64) * 100.0);
    assert_eq!(pct, Some(75.0));
}

#[test]
fn hit_rate_none_when_no_queries_yet() {
    assert_eq!(DnsStats::default().cache_hit_ratio(), None);
    let stats = DnsStats { cache_hits: u64::MAX, cache_misses: u64::MAX, ..Default::default() };
    assert_eq!(stats.cache_hit_ratio(), Some((u64::MAX, 2 * u64::MAX as u128)));
}

#[test]
fn resolver_counters_are_read() {
    let text = "DNSSEC supported by current servers: no\n\nTransactions\n  Current Transactions: 3\n    Total Transactions: 120\n\nCache\n  Current Cache Size: 41\n          Cache Hits: 30\n        Cache Misses: 10\n";
    let s = dns::read_dns_stats(&run(text)).unwrap();
    assert_eq!(
        s,
        DnsStats { current_transactions: 3, total_transactions: 120, cache_size: 41, cache_hits: 30, cache_misses: 10 }
    );
    let s = dns::read_dns_stats(&run("Cache Hits: many\nTotal Transactions: x")).unwrap();
    assert_eq!(s, DnsStats::default());
    assert_eq!(dns::read_dns_stats(&failed(text)), None);
    assert_eq!(dns::read_dns_stats(&None), None);
}
