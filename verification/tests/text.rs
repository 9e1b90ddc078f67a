use netmon_core::command;
use netmon_core::command::CommandOutput;
use netmon_core::numbers;
use netmon_core::order;
use netmon_core::paths;
use netmon_core::table::Table;
use netmon_core::text;

fn chars(s: &str) -> Vec<char> {
    s.chars().collect()
}

fn back(v: &[char]) -> String {
    v.iter().collect()
}

fn output(code: Option<i32>, stdout: &str, stderr: &str) -> CommandOutput {
    CommandOutput { code, stdout: stdout.to_string(), stderr: stderr.to_string() }
}

#[test]
fn white_space_is_what_std_takes_for_it() {
    for n in 0u32..0x11_0000 {
        if let Some(c) = char::from_u32(n) {
            assert_eq!(text::is_space_char(c), c.is_whitespace(), "{n:x}");
        }
    }
}

#[test]
fn trimming_agrees_with_std() {
    for s in ["", " ", "  a b\t", "\u{a0}x\u{3000}", "\u{200b}x", "a"] {
        let c = chars(s);
        assert_eq!(back(text::trim(&c)), s.trim());
        assert_eq!(back(text::trim_start(&c)), s.trim_start());
        assert_eq!(back(text::trim_end(&c)), s.trim_end());
    }
}

#[test]
fn splitting_agrees_with_std() {
    for s in ["", ":", "a", "a:b", ":a::b:", "::", "a\nb\r\nc\n", "\n", "\n\n", "x\n\ny\n\n\nz", " a  b ", "\t"] {
        let c = chars(s);
        let pieces: Vec<String> = text::split(&c, ':').iter().map(|p| back(p)).collect();
        assert_eq!(pieces, s.split(':').map(|p| p.to_string()).collect::<Vec<_>>());
        let lines: Vec<String> = text::lines(&c).iter().map(|p| back(p)).collect();
        assert_eq!(lines, s.lines().map(|p| p.to_string()).collect::<Vec<_>>());
        let words: Vec<String> = text::words(&c).iter().map(|p| back(p)).collect();
        assert_eq!(words, s.split_whitespace().map(|p| p.to_string()).collect::<Vec<_>>());
        let parts: Vec<String> = text::split_str(&c, "\n\n").iter().map(|p| back(p)).collect();
        assert_eq!(parts, s.split("\n\n").map(|p| p.to_string()).collect::<Vec<_>>());
        let pair = text::split_once(&c, ':').map(|(a, b)| (back(a), back(b)));
        assert_eq!(pair, s.split_once(':').map(|(a, b)| (a.to_string(), b.to_string())));
        let pair = text::rsplit_once(&c, ':').map(|(a, b)| (back(a), back(b)));
        assert_eq!(pair, s.rsplit_once(':').map(|(a, b)| (a.to_string(), b.to_string())));
        assert_eq!(back(text::last_line(&c)), s.lines().last().unwrap_or(""));
    }
}

#[test]
fn searching_agrees_with_std() {
    for s in ["", "abc", "length 4, length 12", "aaa", "hook"] {
        let c = chars(s);
        for p in ["", "a", "aa", "length ", "c", "zz"] {
            assert_eq!(text::find(&c, p), s.find(p));
            assert_eq!(text::rfind(&c, p), s.rfind(p));
            assert_eq!(text::contains(&c, p), s.contains(p));
            assert_eq!(text::starts_with(&c, p), s.starts_with(p));
        }
        assert_eq!(back(text::trim_leading(&c, "a")), s.trim_start_matches("a"));
    }
    assert_eq!(back(text::trim_leading(&chars("x"), "")), "x");
}

#[test]
fn pieces_joined_give_the_text_back() {
    for s in ["", "a:b::c", ":"] {
        let c = chars(s);
        let pieces: Vec<String> = text::split(&c, ':').iter().map(|p| back(p)).collect();
        assert_eq!(pieces.join(":"), s);
        assert_eq!(pieces.len(), text::count(&c, ':') + 1);
    }
}

#[test]
fn numbers_are_read_as_std_reads_them() {
    for s in [
        "", "0", "7", "+7", "-7", "-0", "007", "18446744073709551615", "18446744073709551616", "9223372036854775807",
        "9223372036854775808", "-9223372036854775808", "-9223372036854775809", "+", "-", "1 ", "a", "1a", "++1", "٣",
    ] {
        assert_eq!(numbers::parse_unsigned(&chars(s)), s.parse::<u64>().ok(), "{s}");
        assert_eq!(numbers::parse_signed(&chars(s)), s.parse::<i64>().ok(), "{s}");
    }
}

#[test]
fn numbers_are_written_as_std_writes_them() {
    for n in [0u64, 1, 9, 10, 99, 1000, u64::MAX] {
        let mut out = Vec::new();
        numbers::put_decimal(&mut out, n);
        assert_eq!(back(&out), n.to_string());
        assert_eq!(numbers::parse_unsigned(&out), Some(n));
    }
    for n in [0i64, -1, 5, i64::MIN, i64::MAX] {
        assert_eq!(numbers::signed_string(n), n.to_string());
        assert_eq!(numbers::parse_signed(&chars(&numbers::signed_string(n))), Some(n));
    }
    for n in [0i64, 7, 12, 2026, -3, -2026, 12345] {
        let mut out = Vec::new();
        numbers::put_padded(&mut out, n, 4);
        assert_eq!(back(&out), format!("{n:04}"));
    }
}

#[test]
fn real_numbers_are_those_that_std_reads() {
    for s in [
        "", ".", "0", "1.5", "1.", ".5", "-.5", "+1e5", "1e", "1e+", "1e-3", "1E9", "e5", ".e5", "inf", "-INF", "+infinity",
        "nan", "-NaN", "infinit", "1_000", " 1", "0x1", "1.2.3", "--1", "12.34", "1e400", "٣",
    ] {
        assert_eq!(numbers::real_number(&chars(s)), s.parse::<f64>().is_ok(), "{s}");
    }
}

#[test]
fn rows_are_arranged_stably_and_descending() {
    let rows = vec!["a", "b", "c", "d", "e"];
    let keys: Vec<i128> = vec![1, 3, 1, 3, 2];
    assert_eq!(order::arrange(rows, &keys), vec!["b", "d", "e", "a", "c"]);
    let none: Vec<u8> = Vec::new();
    assert_eq!(order::arrange(none, &Vec::new()), Vec::<u8>::new());
}

#[test]
fn a_table_keeps_one_row_per_name_in_the_order_of_first_sight() {
    let mut t: Table<u32> = Table::new();
    t.put("b".to_string(), 1);
    t.put("a".to_string(), 2);
    t.put("b".to_string(), 3);
    assert_eq!(t.len(), 2);
    assert_eq!((t.name_at(0), *t.value_at(0)), ("b", 3));
    assert_eq!((t.name_at(1), *t.value_at(1)), ("a", 2));
    assert_eq!(t.get("b"), Some(&3));
    assert_eq!(t.get("a"), Some(&2));
    assert_eq!(t.get("c"), None);
}

#[test]
fn only_a_run_that_ended_well_has_output() {
    assert_eq!(command::successful_stdout(&None), None);
    assert_eq!(command::successful_stdout(&Some(output(Some(1), "x", ""))), None);
    assert_eq!(command::successful_stdout(&Some(output(None, "x", ""))), None);
    assert_eq!(command::successful_stdout(&Some(output(Some(0), "x", ""))), Some("x"));
    assert_eq!(command::full_text(&output(Some(0), "out", "err")), "out");
    assert_eq!(command::full_text(&output(Some(2), "out", "err")), "outerr");
}

#[test]
fn duration_formatting_picks_the_two_biggest_units() {
    assert_eq!(netmon_core::format::format_duration(None), "—");
    assert_eq!(netmon_core::format::format_duration(Some(5)), "5s");
    assert_eq!(netmon_core::format::format_duration(Some(135)), "2m 15s");
    assert_eq!(netmon_core::format::format_duration(Some(3600 + 4 * 60)), "1h 04m");
    assert_eq!(netmon_core::format::format_duration(Some(2 * 86400 + 2 * 3600)), "2d 02h");
}

#[test]
fn durations_at_the_edges_of_their_units() {
    assert_eq!(netmon_core::format::format_duration(Some(0)), "0s");
    assert_eq!(netmon_core::format::format_duration(Some(59)), "59s");
    assert_eq!(netmon_core::format::format_duration(Some(60)), "1m");
    assert_eq!(netmon_core::format::format_duration(Some(3599)), "59m 59s");
    assert_eq!(netmon_core::format::format_duration(Some(3600)), "1h");
    assert_eq!(netmon_core::format::format_duration(Some(86399)), "23h 59m");
    assert_eq!(netmon_core::format::format_duration(Some(86400)), "1d");
    assert_eq!(netmon_core::format::format_duration(Some(86460)), "1d 01m");
    assert_eq!(netmon_core::format::format_duration(Some(86401)), "1d 01s");
    assert_eq!(netmon_core::format::format_duration(Some(3605)), "1h 05s");
    assert_eq!(netmon_core::format::format_duration(Some(86400 + 3600 + 61)), "1d 01h");
    assert_eq!(netmon_core::format::format_duration(Some(u64::MAX)), "213503982334601d 07h");
}

#[test]
fn the_first_character_becomes_a_capital() {
    assert_eq!(netmon_core::format::capitalize(""), "");
    assert_eq!(netmon_core::format::capitalize("up"), "Up");
    assert_eq!(netmon_core::format::capitalize("Down"), "Down");
    assert_eq!(netmon_core::format::capitalize("élan"), "Élan");
    assert_eq!(netmon_core::format::capitalize("ßa"), "SSa");
    assert_eq!(netmon_core::format::capitalize("1a"), "1a");
}

#[test]
fn absent_values_are_shown_as_a_dash() {
    assert_eq!(netmon_core::format::shown(&None), "—");
    assert_eq!(netmon_core::format::shown(&Some("x".to_string())), "x");
    assert_eq!(netmon_core::format::shown_unless_empty(&String::new()), "—");
    assert_eq!(netmon_core::format::shown_mbits(Some(-1)), "-1 Mbit/s");
    assert_eq!(netmon_core::format::shown_mbits(None), "—");
}

#[test]
fn paths_are_joined_with_one_separator() {
    assert_eq!(paths::join(b"/a", "b"), b"/a/b".to_vec());
    assert_eq!(paths::join(b"/a/", "b"), b"/a/b".to_vec());
    assert_eq!(paths::join(b"", "b"), b"b".to_vec());
    assert_eq!(paths::join(b"/", "b"), b"/b".to_vec());
}

#[test]
fn the_parent_of_an_entry_is_its_directory() {
    assert_eq!(paths::parent(b"/a/b"), Some(b"/a".to_vec()));
    assert_eq!(paths::parent(b"/b"), Some(b"/".to_vec()));
    assert_eq!(paths::parent(b"/"), None);
    assert_eq!(paths::parent(b"b"), None);
    assert_eq!(paths::parent(&paths::join(b"/x/y", "z")), Some(b"/x/y".to_vec()));
}

#[test]
fn data_goes_below_the_first_known_directory() {
    let xdg = Some(b"/xdg".to_vec());
    let home = Some(b"/home/u".to_vec());
    assert_eq!(paths::data_dir(&xdg, &home, b"/tmp"), b"/xdg/network-monitor".to_vec());
    assert_eq!(paths::data_dir(&None, &home, b"/tmp"), b"/home/u/.local/share/network-monitor".to_vec());
    assert_eq!(paths::data_dir(&None, &None, b"/tmp"), b"/tmp/network-monitor".to_vec());
    assert_eq!(paths::usable_data_dir(b"/d".to_vec(), true, b"/tmp".to_vec()), b"/d".to_vec());
    assert_eq!(paths::usable_data_dir(b"/d".to_vec(), false, b"/tmp".to_vec()), b"/tmp".to_vec());
}
