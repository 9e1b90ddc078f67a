use netmon_core::command::CommandOutput;
use netmon_core::connections;
use netmon_core::connections::{Connection, ConnectionRate, ConnectionRateTracker, SsLine};
use netmon_core::geoip;
use netmon_core::pages;
use netmon_core::pattern::Group;

fn run(stdout: &str) -> Option<CommandOutput> {
    Some(CommandOutput { code: Some(0), stdout: stdout.to_string(), stderr: String::new() })
}

const SECOND: u64 = 1_000_000_000;
const MS: u64 = 1_000_000;

#[test]
fn parses_tcp_line_with_process() {
    let line = r#"tcp   ESTAB  0    0   192.168.1.5:52134   140.82.112.3:443  users:(("firefox",pid=1234,fd=87))"#;
    let c = connections::parse_socket_line(line).expect("should match");
    assert_eq!(c.proto, "tcp");
    assert_eq!(c.state, "ESTAB");
    assert_eq!(c.pid, "1234");
    assert_eq!(c.proc_name, "firefox");
    assert_eq!(c.local, "192.168.1.5:52134");
    assert_eq!(c.peer, "140.82.112.3:443");
}

#[test]
fn parses_udp_line_without_process() {
    let line = "udp   UNCONN  0    0   0.0.0.0:68   0.0.0.0:*";
    let c = connections::parse_socket_line(line).expect("should match");
    assert_eq!(c.proto, "udp");
    assert_eq!(c.pid, "");
    assert_eq!(c.proc_name, "");
}

#[test]
fn other_lines_name_no_socket() {
    assert!(connections::parse_socket_line("").is_none());
    assert!(connections::parse_socket_line("icmp ESTAB 0 0 a b").is_none());
    assert!(connections::parse_socket_line(" tcp ESTAB 0 0 a b").is_none());
    assert!(connections::parse_info_line("cubic rto:205").is_none());
}

#[test]
fn info_line_extracts_real_byte_counters() {
    let line = "\t cubic wscale:6,7 rto:205 rtt:4.442/1.105 ato:40 mss:1448 pmtu:1500 rcvmss:1448 advmss:1448 \
                 cwnd:10 bytes_sent:1708697 bytes_retrans:117 bytes_acked:1708581 bytes_received:1828425 \
                 segs_out:29399 segs_in:14974";
    let (sent, recv) = connections::parse_info_line(line).expect("should match");
    assert_eq!(sent, Some(1708697));
    assert_eq!(recv, Some(1828425));
}

#[test]
fn counters_that_do_not_fit_are_unknown() {
    let line = "bytes_sent:99999999999999999999 bytes_received:5";
    assert_eq!(connections::parse_info_line(line), Some((None, Some(5))));
}

const LISTING: &str = "Netid State Recv-Q Send-Q Local Peer Process
tcp   ESTAB  0    0   10.0.0.1:1   1.1.1.1:443  users:((\"firefox\",pid=1234,fd=87))
\t cubic bytes_sent:100 bytes_retrans:1 bytes_received:200 segs_out:2
garbage
udp   UNCONN  0    0   0.0.0.0:68   0.0.0.0:*
tcp   ESTAB  0    0   10.0.0.1:2   [2606:4700::6810:85e5]:443  users:((\"firefox\",pid=1234,fd=88))
tcp   ESTAB  0    0   10.0.0.1:3   1.1.1.1:80  users:((\"curl\",pid=77,fd=3))
\t cubic bytes_sent:7 bytes_received:8
";

#[test]
fn a_listing_gives_its_sockets_with_their_counters() {
    let conns = connections::read_connections(&run(LISTING), 100);
    assert_eq!(conns.len(), 4);
    assert_eq!((conns[0].sent_bytes, conns[0].recv_bytes), (Some(100), Some(200)));
    assert_eq!((conns[1].sent_bytes, conns[1].recv_bytes), (None, None));
    assert_eq!((conns[2].sent_bytes, conns[2].recv_bytes), (None, None));
    assert_eq!((conns[3].sent_bytes, conns[3].recv_bytes), (Some(7), Some(8)));
    assert_eq!(conns[3].proc_name, "curl");
}

#[test]
fn counters_belong_to_the_tcp_socket_right_above_them() {
    let listing = "header
udp   ESTAB  0    0   10.0.0.1:68   10.0.0.2:67
\t bytes_sent:1 bytes_received:2
tcp   ESTAB  0    0   10.0.0.1:1   1.1.1.1:443
sctp  ESTAB  0    0   10.0.0.1:2   1.1.1.1:443
\t bytes_sent:3 bytes_received:4
tcp   ESTAB  0    0   10.0.0.1:3   1.1.1.1:443
\t skmem:(r0,rb131072)
\t bytes_sent:5 bytes_received:6
";
    let conns = connections::parse_connections(listing, 10);
    let counters: Vec<_> = conns.iter().map(|c| (c.sent_bytes, c.recv_bytes)).collect();
    assert_eq!(counters, vec![(None, None), (None, None), (Some(5), Some(6))]);
}

#[test]
fn a_limit_takes_the_first_sockets_unchanged() {
    let all = connections::parse_connections(LISTING, 100);
    for limit in 0..6 {
        let some = connections::parse_connections(LISTING, limit);
        assert_eq!(some.len(), limit.min(all.len()));
        for (a, b) in some.iter().zip(all.iter()) {
            assert_eq!(a.local, b.local);
            assert_eq!(a.sent_bytes, b.sent_bytes);
        }
    }
}

#[test]
fn a_failed_run_lists_nothing() {
    assert!(connections::read_connections(&None, 10).is_empty());
    let failed = Some(CommandOutput { code: Some(1), stdout: LISTING.to_string(), stderr: String::new() });
    assert!(connections::read_connections(&failed, 10).is_empty());
    assert!(connections::read_connections(&run(""), 10).is_empty());
}

#[test]
fn a_line_says_what_its_pattern_captured() {
    let group = |matched: &str| Some(Group { before: String::new(), matched: matched.to_string() });
    let found = Some(vec![group("all"), group("7"), group("x")]);
    match connections::line_from(true, &found) {
        SsLine::Counters(sent, recv) => assert_eq!((sent, recv), (Some(7), None)),
        _ => panic!("an indented line holds counters"),
    }
    match connections::line_from(false, &Some(vec![group("all"), group("udp"), group("UNCONN"), group("a"), group("b"), None, None])) {
        SsLine::Socket(c) => {
            assert_eq!((c.proto.as_str(), c.state.as_str(), c.local.as_str(), c.peer.as_str()), ("udp", "UNCONN", "a", "b"));
            assert_eq!((c.proc_name.as_str(), c.pid.as_str()), ("", ""));
        }
        _ => panic!("a line names a socket"),
    }
    assert!(matches!(connections::line_from(false, &None), SsLine::Unknown));
    assert!(matches!(connections::line_from(true, &None), SsLine::Skipped));
}

#[test]
fn what_is_said_of_a_socket_stands_in_its_line() {
    for line in LISTING.lines() {
        if let Some(c) = connections::parse_socket_line(line) {
            for part in [&c.proto, &c.state, &c.local, &c.peer, &c.proc_name, &c.pid] {
                assert!(line.contains(part.as_str()));
            }
        }
    }
}

#[test]
fn counters_without_a_socket_are_dropped() {
    let lines = vec![SsLine::Counters(Some(1), Some(2)), SsLine::Skipped, SsLine::Socket(conn("a", "b", 3, 4))];
    let rows = connections::collect_sockets(lines, 5);
    assert_eq!(rows.len(), 1);
    assert_eq!(rows[0].sent_bytes, Some(3));
}

#[test]
fn peer_ip_strips_ipv4_and_bracketed_ipv6_ports() {
    assert_eq!(connections::peer_ip("140.82.112.3:443"), "140.82.112.3");
    assert_eq!(connections::peer_ip("[2606:4700::6810:85e5]:443"), "2606:4700::6810:85e5");
    assert_eq!(connections::peer_ip("192.168.1.5"), "192.168.1.5"); // no port at all
}

#[test]
fn peer_ip_at_the_edges() {
    assert_eq!(connections::peer_ip(""), "");
    assert_eq!(connections::peer_ip(":443"), "");
    assert_eq!(connections::peer_ip("[::1"), "::1");
    assert_eq!(connections::peer_ip("[]:1"), "");
    assert_eq!(connections::peer_ip("é:1"), "é");
    assert_eq!(connections::peer_ip("a:b:c"), "a:b");
}

#[test]
fn processes_are_ranked_by_their_sockets() {
    let conns = connections::parse_connections(LISTING, 100);
    let top = connections::top_processes_from(&conns, 10);
    assert_eq!(
        top,
        vec![("1234".to_string(), "firefox".to_string(), 2), ("77".to_string(), "curl".to_string(), 1)]
    );
    assert_eq!(connections::top_processes_from(&conns, 1).len(), 1);
    assert!(connections::top_processes_from(&conns, 0).is_empty());
    assert_eq!(connections::read_top_processes_by_connections(&run(LISTING), 10), top);
    assert!(connections::read_top_processes_by_connections(&None, 10).is_empty());
}

fn conn(local: &str, peer: &str, sent: u64, recv: u64) -> Connection {
    Connection {
        proto: "tcp".to_string(),
        state: "ESTAB".to_string(),
        local: local.to_string(),
        peer: peer.to_string(),
        proc_name: String::new(),
        pid: String::new(),
        sent_bytes: Some(sent),
        recv_bytes: Some(recv),
    }
}

const KEY: &str = "10.0.0.1:1|1.1.1.1:443";

#[test]
fn rate_tracker_needs_two_samples_before_reporting_a_rate() {
    let mut tracker = ConnectionRateTracker::new();
    let first = tracker.update(&[conn("10.0.0.1:1", "1.1.1.1:443", 1000, 500)], 5 * SECOND);
    let track = first.get(KEY).expect("tracked from the very first sighting");
    assert!(track.rate.is_none(), "no rate on the very first sighting of a connection");
    assert_eq!(track.duration_nanos, 0);

    let second = tracker.update(&[conn("10.0.0.1:1", "1.1.1.1:443", 6000, 3000)], 5 * SECOND + 300 * MS);
    let track = second.get(KEY).expect("tracked on second sample");
    let rate = track.rate.expect("rate present on second sample");
    assert_eq!(rate, ConnectionRate { sent_bytes: 5000, recv_bytes: 2500, nanos: 300 * MS });
    let sent_bps = rate.sent_bytes as f64 / (rate.nanos as f64 / 1e9);
    let recv_bps = rate.recv_bytes as f64 / (rate.nanos as f64 / 1e9);
    assert!(sent_bps > 5_000.0, "sent_bps = {}", sent_bps);
    assert!(recv_bps > 2_000.0, "recv_bps = {}", recv_bps);
    assert!(track.duration_nanos > 250 * MS);
    assert_eq!(track.duration_nanos, 300 * MS);
}

#[test]
fn rate_tracker_reuses_the_last_rate_when_polled_too_soon() {
    let mut tracker = ConnectionRateTracker::new();
    tracker.update(&[conn("10.0.0.1:1", "1.1.1.1:443", 1_000, 500)], 0);
    let stable = tracker.update(&[conn("10.0.0.1:1", "1.1.1.1:443", 31_000, 500)], 300 * MS);
    let stable_rate = stable.get(KEY).unwrap().rate.expect("rate after a real interval");

    let too_soon = tracker.update(&[conn("10.0.0.1:1", "1.1.1.1:443", 1_031_000, 500)], 301 * MS);
    let too_soon_rate = too_soon.get(KEY).unwrap().rate.expect("reuses the last rate, not None");
    assert_eq!(too_soon_rate, stable_rate, "must reuse the last computed rate, not recompute over ~0s");

    // The baseline is still that of the second poll.
    let later = tracker.update(&[conn("10.0.0.1:1", "1.1.1.1:443", 1_032_000, 600)], 800 * MS);
    let rate = later.get(KEY).unwrap().rate.unwrap();
    assert_eq!(rate, ConnectionRate { sent_bytes: 1_001_000, recv_bytes: 100, nanos: 500 * MS });
    assert_eq!(later.get(KEY).unwrap().duration_nanos, 800 * MS);
}

#[test]
fn rate_tracker_treats_a_byte_count_drop_as_a_reconnect_not_a_negative_rate() {
    let mut tracker = ConnectionRateTracker::new();
    tracker.update(&[conn("10.0.0.1:1", "1.1.1.1:443", 5000, 5000)], 0);
    let rates = tracker.update(&[conn("10.0.0.1:1", "1.1.1.1:443", 100, 100)], 60 * MS);
    let track = rates.get(KEY).expect("still tracked");
    assert!(track.rate.is_none(), "a byte-count drop must not produce a rate at all");
    assert_eq!(track.duration_nanos, 0, "should have reset");
}

#[test]
fn a_socket_that_is_gone_is_forgotten() {
    let mut tracker = ConnectionRateTracker::new();
    tracker.update(&[conn("a", "b", 1, 1)], 0);
    let none = tracker.update(&[], SECOND);
    assert!(none.get("a|b").is_none());
    let again = tracker.update(&[conn("a", "b", 5, 5)], 2 * SECOND);
    assert!(again.get("a|b").unwrap().rate.is_none());
    assert_eq!(again.get("a|b").unwrap().duration_nanos, 0);
}

#[test]
fn exactly_the_least_interval_is_long_enough() {
    let mut tracker = ConnectionRateTracker::new();
    tracker.update(&[conn("a", "b", 0, 0)], 0);
    let at = tracker.update(&[conn("a", "b", 10, 20)], 250 * MS);
    assert_eq!(
        at.get("a|b").unwrap().rate,
        Some(ConnectionRate { sent_bytes: 10, recv_bytes: 20, nanos: 250 * MS })
    );
    let mut tracker = ConnectionRateTracker::new();
    tracker.update(&[conn("a", "b", 0, 0)], 0);
    let before = tracker.update(&[conn("a", "b", 10, 20)], 250 * MS - 1);
    assert_eq!(before.get("a|b").unwrap().rate, None);
}

#[test]
fn the_page_of_the_connections_comes_from_one_listing() {
    let mut tracker = ConnectionRateTracker::new();
    let page = pages::connections_page(&run(LISTING), &mut tracker, SECOND);
    assert_eq!(page.connections.len(), 4);
    let first = &page.connections[0];
    assert_eq!(first.proto, "TCP");
    assert_eq!(first.process, "firefox (1234)");
    assert_eq!(first.state, "ESTAB");
    assert_eq!(first.sent_bytes, Some(100));
    assert_eq!(first.rate, None);
    assert_eq!(first.duration_nanos, Some(0));
    assert_eq!(page.connections[1].proto, "UDP");
    assert_eq!(page.connections[1].process, "—");
    let ips: Vec<&str> = page.peers.iter().map(|p| p.ip.as_str()).collect();
    assert_eq!(ips, vec!["1.1.1.1", "0.0.0.0", "2606:4700::6810:85e5"]);
    let processes: Vec<&str> = page.peers.iter().map(|p| p.process.as_str()).collect();
    assert_eq!(processes, vec!["firefox", "—", "firefox"]);

    let later = pages::connections_page(&run(LISTING), &mut tracker, 3 * SECOND);
    assert_eq!(later.connections[0].rate, Some(ConnectionRate { sent_bytes: 0, recv_bytes: 0, nanos: 2 * SECOND }));
    assert_eq!(later.connections[0].duration_nanos, Some(2 * SECOND));
    assert_eq!(later.connections[1].rate, None);
}

#[test]
fn peers_without_an_address_are_left_out() {
    let conns = vec![conn("a", ":5", 0, 0), conn("a", "x:1", 0, 0), conn("b", "x:2", 0, 0)];
    let peers = geoip::unique_peers(&conns);
    assert_eq!(peers.len(), 1);
    assert_eq!(peers[0].ip, "x");
}
