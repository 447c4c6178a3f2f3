use shellymcshellface::cli::{parse_args, parse_port, port_scan_step, ArgsError, PortScan};

#[test]
fn test_parse_args_extracts_command() {
    let args = parse_args(vec![
        "ShellyMcShellface".into(),
        "echo".into(),
        "hello".into(),
    ]).unwrap();
    assert_eq!(args.command, vec!["echo", "hello"]);
    assert_eq!(args.port, None);
}

#[test]
fn test_parse_args_custom_port() {
    let args = parse_args(vec![
        "ShellyMcShellface".into(),
        "--port".into(),
        "8080".into(),
        "powershell".into(),
    ]).unwrap();
    assert_eq!(args.port, Some(8080));
    assert_eq!(args.command, vec!["powershell"]);
}

#[test]
fn test_parse_args_port_after_command() {
    let args = parse_args(vec![
        "ShellyMcShellface".into(),
        "ssh".into(),
        "user@server".into(),
        "--port".into(),
        "9000".into(),
    ]).unwrap();
    assert_eq!(args.command, vec!["ssh", "user@server"]);
    assert_eq!(args.port, Some(9000));
}

#[test]
fn test_parse_args_no_command_returns_error() {
    let result = parse_args(vec!["ShellyMcShellface".into()]);
    assert!(result.is_err());
}

fn strings(words: &[&str]) -> Vec<String> {
    words.iter().map(|w| w.to_string()).collect()
}

#[test]
fn test_parse_args_error_variants() {
    assert_eq!(
        parse_args(strings(&["prog", "powershell", "--port"])).err(),
        Some(ArgsError::MissingPortValue)
    );
    assert_eq!(
        parse_args(strings(&["prog", "--port", "http", "powershell"])).err(),
        Some(ArgsError::InvalidPort)
    );
    assert_eq!(
        parse_args(strings(&["prog", "--port", "65536", "powershell"])).err(),
        Some(ArgsError::InvalidPort)
    );
    assert_eq!(
        parse_args(strings(&["prog", "--port", "8080"])).err(),
        Some(ArgsError::MissingCommand)
    );
    assert_eq!(parse_args(Vec::new()).err(), Some(ArgsError::MissingCommand));
}

#[test]
fn test_parse_args_port_errors_come_before_missing_command() {
    assert_eq!(
        parse_args(strings(&["prog", "--port", "-1"])).err(),
        Some(ArgsError::InvalidPort)
    );
}

#[test]
fn test_parse_args_later_port_wins_and_flag_like_words_kept() {
    let args = parse_args(strings(&["prog", "--port", "1", "ls", "--port", "2", "-la"])).unwrap();
    assert_eq!(args.port, Some(2));
    assert_eq!(args.command, vec!["ls", "-la"]);
    let args = parse_args(strings(&["prog", "--Port", "--port=3"])).unwrap();
    assert_eq!(args.port, None);
    assert_eq!(args.command, vec!["--Port", "--port=3"]);
}

#[test]
fn test_parse_port_matches_std() {
    for s in ["0", "1", "80", "+80", "0080", "65535", "65536", "99999999999", "", "+", "-1",
              " 80", "80 ", "8o", "++1", "\u{0661}"] {
        assert_eq!(parse_port(s), s.parse::<u16>().ok(), "input {:?}", s);
    }
}

#[test]
fn test_error_messages() {
    assert_eq!(ArgsError::MissingPortValue.message(), "--port requires a value");
    assert_eq!(ArgsError::InvalidPort.message(), "--port must be a number 1-65535");
    assert_eq!(
        ArgsError::MissingCommand.message(),
        "Usage: ShellyMcShellface <command> [args...] [--port <port>]"
    );
}

/// Runs the scan from `start` against a set of taken ports, returning the
/// ports probed and the outcome.
fn scan(start: u16, taken: &dyn Fn(u16) -> bool) -> (Vec<u16>, Option<u16>) {
    let mut probed = Vec::new();
    let mut port = start;
    loop {
        probed.push(port);
        match port_scan_step(start, port, !taken(port)) {
            PortScan::Found(p) => return (probed, Some(p)),
            PortScan::Probe(next) => port = next,
            PortScan::Exhausted => return (probed, None),
        }
    }
}

#[test]
fn test_port_scan_probes_a_hundred_ports() {
    let (probed, found) = scan(7777, &|_| true);
    assert_eq!(probed, (7777..=7876).collect::<Vec<u16>>());
    assert_eq!(found, None);
}

#[test]
fn test_port_scan_finds_the_least_free_port() {
    let (probed, found) = scan(7777, &|p| p < 7780 || p == 7781);
    assert_eq!(probed, vec![7777, 7778, 7779, 7780]);
    assert_eq!(found, Some(7780));
    assert_eq!(scan(7777, &|_| false).1, Some(7777));
    assert_eq!(scan(7777, &|p| p != 7876).1, Some(7876));
}

#[test]
fn test_port_scan_stops_at_the_top_port() {
    let (probed, found) = scan(65500, &|_| true);
    assert_eq!(probed, (65500..=65535).collect::<Vec<u16>>());
    assert_eq!(found, None);
    assert_eq!(scan(65535, &|_| true), (vec![65535], None));
    assert_eq!(port_scan_step(65535, 65535, true), PortScan::Found(65535));
}
