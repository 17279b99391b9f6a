use playtime_tracker::config::Config;
use playtime_tracker::process::{parse_pid, snapshot, trim_name, ProcessEntry, ProcessObservation};

#[test]
fn parse_pid_reads_decimal_digits() {
    assert_eq!(parse_pid("1"), Some(1));
    assert_eq!(parse_pid("0"), Some(0));
    assert_eq!(parse_pid("4242"), Some(4242));
    assert_eq!(parse_pid("007"), Some(7));
    assert_eq!(parse_pid("2147483647"), Some(i32::MAX));
    assert_eq!(parse_pid("0000000000002147483647"), Some(i32::MAX));
}

#[test]
fn parse_pid_takes_one_sign() {
    assert_eq!(parse_pid("+15"), Some(15));
    assert_eq!(parse_pid("-15"), Some(-15));
    assert_eq!(parse_pid("-0"), Some(0));
    assert_eq!(parse_pid("-2147483648"), Some(i32::MIN));
    assert_eq!(parse_pid("+-1"), None);
    assert_eq!(parse_pid("--1"), None);
    assert_eq!(parse_pid("+"), None);
    assert_eq!(parse_pid("-"), None);
}

#[test]
fn parse_pid_refuses_what_is_no_pid() {
    assert_eq!(parse_pid(""), None);
    assert_eq!(parse_pid("self"), None);
    assert_eq!(parse_pid("cpuinfo"), None);
    assert_eq!(parse_pid("12a"), None);
    assert_eq!(parse_pid("a12"), None);
    assert_eq!(parse_pid(" 12"), None);
    assert_eq!(parse_pid("12 "), None);
    assert_eq!(parse_pid("1.5"), None);
    assert_eq!(parse_pid("١٢"), None);
    assert_eq!(parse_pid("2147483648"), None);
    assert_eq!(parse_pid("-2147483649"), None);
    assert_eq!(parse_pid("99999999999999999999999999999999"), None);
    assert_eq!(parse_pid("99999999999999999999999999999999x"), None);
}

#[test]
fn parse_pid_agrees_with_the_standard_parser() {
    for name in ["12", "+12", "-12", "", "x", "2147483647", "2147483648", "-2147483648", "-2147483649", "0012", "1 2"] {
        assert_eq!(parse_pid(name), name.parse::<i32>().ok());
    }
}

#[test]
fn trim_name_drops_the_white_space_around_a_name() {
    assert_eq!(trim_name("game\n"), "game");
    assert_eq!(trim_name("  game \t\r\n"), "game");
    assert_eq!(trim_name("game"), "game");
    assert_eq!(trim_name("my game\n"), "my game");
    assert_eq!(trim_name(""), "");
    assert_eq!(trim_name(" \n\t "), "");
    assert_eq!(trim_name("\u{a0}\u{3000}spiel\u{2003}\u{85}"), "spiel");
    assert_eq!(trim_name("\u{200b}game\u{200b}"), "\u{200b}game\u{200b}");
}

#[test]
fn trim_name_agrees_with_the_standard_trim() {
    for text in ["game\n", " a b ", "\u{1680}x\u{2028}\u{2029}", "\u{202f}\u{205f}y", "\u{b}\u{c}z\u{d}", "\u{1f}k\u{1f}", "é \n"] {
        assert_eq!(trim_name(text), text.trim());
    }
}

#[test]
fn snapshot_keeps_the_tracked_programs() {
    let config = Config { programs: vec!["game".to_string(), "editor".to_string()] };
    let entries = vec![
        ProcessEntry { pid: 1, comm: "init\n".to_string() },
        ProcessEntry { pid: 100, comm: "game\n".to_string() },
        ProcessEntry { pid: 101, comm: "Game\n".to_string() },
        ProcessEntry { pid: 102, comm: "editor".to_string() },
        ProcessEntry { pid: 103, comm: "game server\n".to_string() },
        ProcessEntry { pid: 104, comm: " game ".to_string() },
    ];
    assert_eq!(
        snapshot(&entries, &config),
        vec![
            ProcessObservation { pid: 100, name: "game".to_string() },
            ProcessObservation { pid: 102, name: "editor".to_string() },
            ProcessObservation { pid: 104, name: "game".to_string() },
        ]
    );
}

#[test]
fn snapshot_of_nothing_is_empty() {
    let config = Config { programs: vec!["game".to_string()] };
    assert!(snapshot(&vec![], &config).is_empty());
    let nothing = Config { programs: vec![] };
    assert!(snapshot(&vec![ProcessEntry { pid: 1, comm: "game".to_string() }], &nothing).is_empty());
}
