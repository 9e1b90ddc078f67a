use netmon_core::command::CommandOutput;
use netmon_core::firewall;
use netmon_core::firewall::{parse_ruleset, split_handle};

#[test]
fn parses_table_chain_and_rules() {
    let sample = r#"
table inet filter {
	chain input {
		type filter hook input priority filter; policy accept;
		iifname "lo" accept # handle 1
		tcp dport 22 accept # handle 3
	}
}
"#;
    let chains = parse_ruleset(sample);
    assert_eq!(chains.len(), 1);
    let chain = &chains[0];
    assert_eq!(chain.table, "inet filter");
    assert_eq!(chain.name, "input");
    assert!(chain.hook_info.as_deref().unwrap().contains("hook input"));
    assert_eq!(chain.rules.len(), 2);
    assert_eq!(chain.rules[0].text, "iifname \"lo\" accept");
    assert_eq!(chain.rules[0].handle.as_deref(), Some("1"));
    assert_eq!(chain.rules[1].handle.as_deref(), Some("3"));
}

#[test]
fn handles_multiple_chains() {
    let sample = r#"
table inet filter {
	chain input {
		type filter hook input priority filter; policy drop;
		tcp dport 443 accept # handle 2
	}
	chain output {
		type filter hook output priority filter; policy accept;
	}
}
"#;
    let chains = parse_ruleset(sample);
    assert_eq!(chains.len(), 2);
    assert_eq!(chains[0].name, "input");
    assert_eq!(chains[1].name, "output");
    assert!(chains[1].rules.is_empty());
}

#[test]
fn a_nested_set_block_does_not_truncate_the_rest_of_the_table() {
    let sample = r#"
table inet filter {
	set blocked_ips {
		type ipv4_addr
		elements = { 10.0.0.1, 10.0.0.2 }
	}
	chain input {
		type filter hook input priority filter; policy accept;
		ip saddr @blocked_ips drop # handle 4
	}
}
"#;
    let chains = parse_ruleset(sample);
    // The closing brace of the set is not that of the table.
    assert_eq!(chains.len(), 1);
    assert_eq!(chains[0].name, "input");
    assert_eq!(chains[0].rules.len(), 1);
    assert_eq!(chains[0].rules[0].text, "ip saddr @blocked_ips drop");
    assert_eq!(chains[0].rules[0].handle.as_deref(), Some("4"));
}

#[test]
fn a_handle_is_taken_off_its_rule() {
    assert_eq!(split_handle("accept # handle 7"), ("accept".to_string(), Some("7".to_string())));
    assert_eq!(split_handle("accept"), ("accept".to_string(), None));
}

#[test]
fn a_block_that_is_no_chain_is_skipped() {
    let before = "table ip t {\nchain a {\nx # handle 1\n}\n";
    let after = "chain b {\ny # handle 2\n}\n}\n";
    let plain = parse_ruleset(&format!("{before}{after}"));
    let with_set = parse_ruleset(&format!("{before}set s {{\nelements = {{ 1, 2 }}\n}}\n{after}"));
    assert_eq!(plain.len(), 2);
    assert_eq!(with_set.len(), 2);
    for (a, b) in plain.iter().zip(with_set.iter()) {
        assert_eq!(a.name, b.name);
        assert_eq!(a.rules.len(), b.rules.len());
    }
}

#[test]
fn chains_outside_a_table_and_chains_left_open_are_no_chains() {
    assert!(parse_ruleset("chain a {\nx\n}\n").is_empty());
    assert!(parse_ruleset("table ip t {\nchain a {\nx\n").is_empty());
    assert!(parse_ruleset("}\n}\n").is_empty());
    assert!(parse_ruleset("").is_empty());
}

#[test]
fn two_tables_give_the_chains_of_both() {
    let a = "table ip a {\nchain one {\ntype filter hook input priority 0;\n}\n}\n";
    let b = "table ip6 b {\nchain two {\ndrop\n}\n}\n";
    let both = parse_ruleset(&format!("{a}{b}"));
    assert_eq!(both.len(), 2);
    assert_eq!((both[0].table.as_str(), both[0].name.as_str()), ("ip a", "one"));
    assert_eq!(both[0].hook_info.as_deref(), Some("type filter hook input priority 0"));
    assert_eq!((both[1].table.as_str(), both[1].name.as_str()), ("ip6 b", "two"));
    assert_eq!(both[1].rules[0].text, "drop");
}

#[test]
fn a_run_of_nft_gives_chains_or_what_it_complained_of() {
    let run = |code, stdout: &str, stderr: &str| {
        Ok(CommandOutput { code: Some(code), stdout: stdout.to_string(), stderr: stderr.to_string() })
    };
    let chains = firewall::read_ruleset(&run(0, "table ip a {\nchain one {\n}\n}\n", "")).unwrap();
    assert_eq!(chains[0].name, "one");
    assert_eq!(firewall::read_ruleset(&run(1, "", " denied \n")).unwrap_err(), "denied");
    assert_eq!(
        firewall::read_ruleset(&run(126, "", " \n")).unwrap_err(),
        "couldn't read the firewall ruleset — cancelled, or nftables not in use on this system"
    );
    assert_eq!(firewall::read_ruleset(&Err("no pkexec".to_string())).unwrap_err(), "no pkexec");
}
