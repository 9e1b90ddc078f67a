use netmon_core::command::CommandOutput;
use netmon_core::nethogs;
use netmon_core::nethogs::{parse_nethogs_trace_line, NethogsRow};
use netmon_core::packets;
use netmon_core::packets::parse_tcpdump_line;
use netmon_core::pattern::Group;
use netmon_core::ports;
use netmon_core::ports::Probe;
use netmon_core::speedtest;

fn ran(code: Option<i32>, stdout: &str, stderr: &str) -> Result<CommandOutput, String> {
    Ok(CommandOutput { code, stdout: stdout.to_string(), stderr: stderr.to_string() })
}

#[test]
fn parses_trace_line_with_pid() {
    let line = "/usr/bin/firefox/4242/1000\t12.34\t56.78";
    let row = parse_nethogs_trace_line(line).unwrap();
    assert_eq!(row.pid.as_deref(), Some("4242"));
    assert_eq!(row.program, "/usr/bin/firefox");
    assert_eq!(row.sent, "12.34 KB/s");
    assert_eq!(row.received, "56.78 KB/s");
}

#[test]
fn unknown_tcp_bucket_has_no_pid() {
    let line = "unknown TCP/0/0\t0.10\t0.00";
    let row = parse_nethogs_trace_line(line).unwrap();
    assert!(row.pid.is_none());
    assert_eq!(row.program, "unknown TCP");
}

#[test]
fn rejects_malformed_lines() {
    assert!(parse_nethogs_trace_line("Refreshing:").is_none());
    assert!(parse_nethogs_trace_line("").is_none());
    assert!(parse_nethogs_trace_line("a/1/1\tx\t1").is_none());
    assert!(parse_nethogs_trace_line("a/1/1\t1\t").is_none());
    assert!(parse_nethogs_trace_line("a/1/1\t1\t1\t1").is_none());
}

#[test]
fn trace_lines_at_the_edges() {
    let row = parse_nethogs_trace_line("no numbers\t1\t2\n\n").unwrap();
    assert_eq!((row.pid, row.program.as_str()), (None, "no numbers"));
    let row = parse_nethogs_trace_line("a//7/8\tinf\t2").unwrap();
    assert_eq!((row.pid.as_deref(), row.program.as_str()), (Some("7"), "a"));
    let row = parse_nethogs_trace_line("é/7/8\t1\t2").unwrap();
    assert_eq!((row.pid.as_deref(), row.program.as_str()), (Some("7"), "é"));
}

#[test]
fn a_row_is_made_from_what_was_captured() {
    let chars: Vec<char> = "x//5/6".chars().collect();
    let one: Vec<char> = "1".chars().collect();
    let group = |before: &str, matched: &str| Some(Group { before: before.to_string(), matched: matched.to_string() });
    let found = Some(vec![group("x/", "/5/6"), group("x//", "5")]);
    let row = nethogs::row_from(&chars, &one, &one, &found).unwrap();
    assert_eq!((row.pid.as_deref(), row.program.as_str()), (Some("5"), "x"));
    let row = nethogs::row_from(&chars, &one, &one, &None).unwrap();
    assert_eq!((row.pid, row.program.as_str()), (None, "x//5/6"));
}

const TRACE: &str = "Refreshing:\na/1/0\t1\t1\n\nRefreshing:\nb/2/0\t2\t2\nc/3/0\t3\t3\n\nRefreshing:\nd/4/0\t";

#[test]
fn a_scan_shows_its_last_complete_cycle() {
    for code in [0, 124, 130, 143] {
        let rows = nethogs::scan_rows(&ran(Some(code), TRACE, "")).unwrap();
        let programs: Vec<&str> = rows.iter().map(|r| r.program.as_str()).collect();
        assert_eq!(programs, vec!["b", "c"]);
    }
    let rows = nethogs::scan_rows(&ran(Some(0), "x/9/0\t1\t1\n", "")).unwrap();
    assert_eq!(rows[0].program, "x");
}

#[test]
fn a_scan_that_went_wrong_says_how() {
    assert_eq!(
        nethogs::scan_rows(&Err("not found".to_string())).unwrap_err(),
        "couldn't start pkexec — is policykit installed? (not found)"
    );
    let incomplete =
        "scan didn't complete — cancelled, or nethogs not installed (sudo apt install nethogs)? [second]";
    assert_eq!(nethogs::scan_rows(&ran(Some(127), TRACE, "first\nsecond\n")).unwrap_err(), incomplete);
    assert_eq!(nethogs::scan_rows(&ran(Some(0), "", "first\nsecond")).unwrap_err(), incomplete);
    assert_eq!(nethogs::scan_rows(&ran(None, TRACE, "second")).unwrap_err(), incomplete);
    assert_eq!(
        nethogs::scan_rows(&ran(Some(0), "é\n", "")).unwrap_err(),
        "scan completed but no data parsed (3 bytes captured)"
    );
}

#[test]
fn the_greatest_traffic_comes_first() {
    let row = |program: &str| NethogsRow {
        pid: None,
        program: program.to_string(),
        sent: String::new(),
        received: String::new(),
    };
    let rows = vec![(row("a"), 1), (row("b"), 5), (row("c"), 5), (row("d"), 2)];
    let top = nethogs::top_rows(rows, 3);
    let programs: Vec<&str> = top.iter().map(|r| r.program.as_str()).collect();
    assert_eq!(programs, vec!["b", "c", "d"]);
    assert_eq!(nethogs::scan_command(), "timeout --signal=INT 10 nethogs -t -d 1");
}

#[test]
fn a_tcp_packet_is_taken_apart() {
    let line = "2026-08-17 07:31:00.123456 IP 192.168.0.44.443 > 1.2.3.4.55111: Flags [P.], seq 1:100, ack 1, win 502, length 99";
    let p = parse_tcpdump_line(line).unwrap();
    assert_eq!(p.time, "2026-08-17 07:31:00");
    assert_eq!(p.source, "192.168.0.44.443");
    assert_eq!(p.destination, "1.2.3.4.55111");
    assert_eq!(p.proto, "TCP");
    assert_eq!(p.length, "99");
    assert_eq!(p.info, "Flags [P.], seq 1:100, ack 1, win 502, length 99");
}

#[test]
fn other_packets_are_told_apart_as_far_as_they_can_be() {
    let udp = parse_tcpdump_line("d t.1 IP 1.1.1.1.53 > 2.2.2.2.9: 1234 A 9.9.9.9 (44)").unwrap();
    assert_eq!((udp.proto.as_str(), udp.length.as_str()), ("UDP", "44"));
    let icmp = parse_tcpdump_line("d t IP6 a > b: ICMP echo request, id 1, seq 1, length 64").unwrap();
    assert_eq!((icmp.proto.as_str(), icmp.length.as_str(), icmp.time.as_str()), ("ICMP", "64", "d t"));
    let arp = parse_tcpdump_line("d t ARP, Request who-has a tell b, length 28").unwrap();
    assert_eq!((arp.proto.as_str(), arp.length.as_str(), arp.info.as_str()), ("—", "—", ""));
    assert_eq!((arp.source.as_str(), arp.destination.as_str()), ("—", "—"));
    let odd = parse_tcpdump_line("d t IP a > b: length x").unwrap();
    assert_eq!(odd.length, "—");
    let word = parse_tcpdump_line("d t IP a > b: x (y)").unwrap();
    assert_eq!(word.length, "—");
    let none = parse_tcpdump_line("d t IP a > b: x ()").unwrap();
    assert_eq!(none.length, "—");
    let both = parse_tcpdump_line("d t IP a > b: length x (12)").unwrap();
    assert_eq!(both.length, "12");
    let two = parse_tcpdump_line("d t IP a > b: length 5, length 7b").unwrap();
    assert_eq!(two.length, "7");
}

#[test]
fn addresses_with_colons_stay_whole() {
    let ends = |line: &str| {
        let p = parse_tcpdump_line(line).unwrap();
        (p.source, p.destination, p.info)
    };
    let of = |a: &str, b: &str, c: &str| (a.to_string(), b.to_string(), c.to_string());
    assert_eq!(
        ends("2026-08-17 07:31:00.123456 IP6 fe80::1.546 > ff02::1:2.547: dhcp6 solicit"),
        of("fe80::1.546", "ff02::1:2.547", "dhcp6 solicit")
    );
    assert_eq!(
        ends("d t IP6 :: > ff02::16: HBH ICMP6, multicast listener report v2"),
        of("::", "ff02::16", "HBH ICMP6, multicast listener report v2")
    );
    assert_eq!(ends("d t IP6 fe80::1 > fe80::: ICMP6, echo request"), of("fe80::1", "fe80::", "ICMP6, echo request"));
    assert_eq!(ends("d t IP6 fe80::1 > fe80::"), of("fe80::1", "—", ":1 > fe80::"));
    assert_eq!(ends("d t IP 1.1.1.1 > 2.2.2.2"), of("1.1.1.1", "2.2.2.2", ""));
    assert_eq!(ends("d t IP 1.1.1.1 > 2.2.2.2:x"), of("1.1.1.1", "—", "x"));
    assert_eq!(ends("d t IP 1.1.1.1 > 2.2.2.2:"), of("1.1.1.1", "2.2.2.2", ""));
    assert_eq!(ends("d t IP 1.1.1.1 > 2.2.2.2: > x"), of("1.1.1.1", "2.2.2.2", "> x"));
    assert_eq!(ends("d t IP 1.1.1.1 >"), of("1.1.1.1", "—", ""));
}

#[test]
fn what_stands_behind_the_first_colon_is_not_lost() {
    let reply = parse_tcpdump_line("d t ARP, Reply 10.0.0.1 is-at aa:bb:cc:dd:ee:ff, length 46").unwrap();
    assert_eq!((reply.source.as_str(), reply.destination.as_str()), ("—", "—"));
    assert_eq!((reply.proto.as_str(), reply.length.as_str()), ("—", "46"));
    assert_eq!(reply.info, "bb:cc:dd:ee:ff, length 46");
    let flags = parse_tcpdump_line("a b IP c:Flags [").unwrap();
    assert_eq!((flags.proto.as_str(), flags.info.as_str()), ("TCP", "Flags ["));
    let family = parse_tcpdump_line("d t IP:x y").unwrap();
    assert_eq!((family.proto.as_str(), family.info.as_str()), ("UDP", "x y"));
    let tcp6 = parse_tcpdump_line("d t IP6 fe80::1.22 > fe80::2.50: Flags [.], ack 1, length 0").unwrap();
    assert_eq!((tcp6.proto.as_str(), tcp6.length.as_str()), ("TCP", "0"));
    assert_eq!(tcp6.info, "Flags [.], ack 1, length 0");
}

#[test]
fn packet_lines_at_the_edges() {
    assert!(parse_tcpdump_line("").is_none());
    assert!(parse_tcpdump_line("   ").is_none());
    assert!(parse_tcpdump_line("word").is_none());
    let p = parse_tcpdump_line("a b").unwrap();
    assert_eq!((p.time.as_str(), p.source.as_str(), p.proto.as_str()), ("a b", "—", "—"));
    let p = parse_tcpdump_line("a  b").unwrap();
    assert_eq!((p.time.as_str(), p.source.as_str()), ("a ", "—"));
}

#[test]
fn a_capture_gives_packets_or_says_why_not() {
    let out = ran(Some(1), "d t.1 IP a > b: x (1)\n\nnoise\n", "");
    assert_eq!(packets::capture_result(&out).unwrap().len(), 1);
    assert_eq!(
        packets::capture_result(&ran(Some(0), "\n", "a\nb\n")).unwrap_err(),
        "capture didn't complete — cancelled, or tcpdump not installed? [b]"
    );
    assert_eq!(
        packets::capture_result(&ran(Some(0), "", "")).unwrap_err(),
        "capture didn't complete — cancelled, or tcpdump not installed? []"
    );
    assert_eq!(
        packets::capture_result(&Err("e".to_string())).unwrap_err(),
        "couldn't start pkexec — is polkit installed? (e)"
    );
    assert_eq!(packets::capture_args()[0], "tcpdump");
    assert_eq!(packets::PACKET_CAPTURE_COUNT, 40);
}

#[test]
fn the_common_ports_are_tried_one_by_one() {
    let all = ports::common_ports();
    assert_eq!(all.len(), 19);
    assert_eq!(all[0], (21, "ftp"));
    assert_eq!(all[18], (8443, "https-alt"));
    assert_eq!(ports::port_address("host", 443), "host:443");
    let open = ports::port_row("h", 80, "http", &Probe::Open).unwrap();
    assert_eq!((open.port, open.service.as_str(), open.state.as_str()), (80, "http", "Open"));
    assert_eq!(ports::port_row("h", 80, "http", &Probe::Closed).unwrap().state, "Closed");
    assert_eq!(ports::port_row("h", 80, "http", &Probe::NoAddress).unwrap_err(), "couldn't resolve h");
    assert_eq!(
        ports::port_row("h", 80, "http", &Probe::Unresolved("why".to_string())).unwrap_err(),
        "couldn't resolve h: why"
    );
}

#[test]
fn a_speed_test_reports_its_first_error() {
    let e = |s: &str| Some(s.to_string());
    assert_eq!(speedtest::first_error(&e("d"), &e("u")), e("d"));
    assert_eq!(speedtest::first_error(&None, &e("u")), e("u"));
    assert_eq!(speedtest::first_error(&None, &None), None);
    assert_eq!(speedtest::download_url(25_000_000), "https://speed.cloudflare.com/__down?bytes=25000000");
    assert_eq!(speedtest::upload_payload(3), vec![0x5A, 0x5A, 0x5A]);
}
