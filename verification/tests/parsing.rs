use portwatch::parser::parse_listener_output;

const HEADER: &str = "COMMAND PID USER FD TYPE DEVICE SIZE/OFF NODE NAME\n";

#[test]
fn one_well_formed_line_yields_one_record() {
    let text = format!(
        "{}nginx 321 root 6u IPv4 0x1 0t0 TCP *:8080 (LISTEN)\n",
        HEADER
    );
    let records = parse_listener_output(&text);
    assert_eq!(records.len(), 1);
    assert_eq!(records[0].hint, "nginx");
    assert_eq!(records[0].pid, 321);
    assert_eq!(records[0].port, 8080);
    assert_eq!(records[0].protocol, "TCP");
}

#[test]
fn header_alone_yields_nothing() {
    assert_eq!(parse_listener_output(HEADER).len(), 0);
    assert_eq!(parse_listener_output("").len(), 0);
}

#[test]
fn first_line_is_always_skipped() {
    // A perfectly well-formed line in header position is not parsed.
    let text = "nginx 321 root 6u IPv4 0x1 0t0 TCP *:8080 (LISTEN)\n";
    assert_eq!(parse_listener_output(text).len(), 0);
}

#[test]
fn malformed_lines_are_dropped_and_scan_continues() {
    let text = format!(
        "{}short line\n\
         nginx nopid root 6u IPv4 0x1 0t0 TCP *:8080 (LISTEN)\n\
         nginx 321 root 6u IPv4 0x1 0t0 TCP nocolon (LISTEN)\n\
         nginx 321 root 6u IPv4 0x1 0t0 TCP *:70000 (LISTEN)\n\
         nginx 321 root 6u IPv4 0x1 0t0 TCP *:none (LISTEN)\n\
         good 77 root 6u IPv4 0x1 0t0 TCP 127.0.0.1:443 (LISTEN)\n",
        HEADER
    );
    let records = parse_listener_output(&text);
    assert_eq!(records.len(), 1);
    assert_eq!(records[0].hint, "good");
    assert_eq!(records[0].pid, 77);
    assert_eq!(records[0].port, 443);
}

#[test]
fn port_takes_leading_digits_after_last_colon() {
    let text = format!(
        "{}svc 9 root 6u IPv6 0x1 0t0 TCP [::1]:8443->x (LISTEN)\n",
        HEADER
    );
    let records = parse_listener_output(&text);
    assert_eq!(records.len(), 1);
    assert_eq!(records[0].port, 8443);
}

#[test]
fn largest_port_is_accepted_and_one_beyond_is_not() {
    let text = format!(
        "{}a 1 root 6u IPv4 0x1 0t0 TCP *:65535 (LISTEN)\n\
         b 2 root 6u IPv4 0x1 0t0 TCP *:65536 (LISTEN)\n",
        HEADER
    );
    let records = parse_listener_output(&text);
    assert_eq!(records.len(), 1);
    assert_eq!(records[0].port, 65535);
}

#[test]
fn pid_beyond_u32_is_dropped() {
    let text = format!(
        "{}a 4294967296 root 6u IPv4 0x1 0t0 TCP *:80 (LISTEN)\n\
         b 4294967295 root 6u IPv4 0x1 0t0 TCP *:81 (LISTEN)\n",
        HEADER
    );
    let records = parse_listener_output(&text);
    assert_eq!(records.len(), 1);
    assert_eq!(records[0].pid, 4294967295);
}

#[test]
fn crlf_terminated_lines_parse_like_lf_lines() {
    let text = format!(
        "{}nginx 321 root 6u IPv4 0x1 0t0 TCP *:8080 (LISTEN)\r\n",
        HEADER
    );
    let records = parse_listener_output(&text);
    assert_eq!(records.len(), 1);
    assert_eq!(records[0].port, 8080);
}
