use portwatch::ports::{PortInfo, ProcessTable, aggregate_ports, get_active_ports,
    ports_from_listing};
use portwatch::resolver::ProcessEntry;

const HEADER: &str = "COMMAND PID USER FD TYPE DEVICE SIZE/OFF NODE NAME\n";

fn info(pid: u32, name: &str, port: u16) -> PortInfo {
    PortInfo { pid, name: name.to_string(), port, protocol: "TCP".to_string() }
}

fn empty_table() -> ProcessTable {
    ProcessTable { entries: Vec::new() }
}

#[test]
fn later_record_wins_for_a_repeated_port() {
    let raw = vec![info(100, "first", 8080), info(200, "second", 8080)];
    let merged = aggregate_ports(&raw);
    assert_eq!(merged.len(), 1);
    assert_eq!(merged[0].pid, 200);
    assert_eq!(merged[0].name, "second");
    assert_eq!(merged[0].port, 8080);
}

#[test]
fn result_is_sorted_ascending_by_port() {
    let raw = vec![info(1, "a", 8443), info(2, "b", 80), info(3, "c", 3000)];
    let merged = aggregate_ports(&raw);
    let ports: Vec<u16> = merged.iter().map(|p| p.port).collect();
    assert_eq!(ports, vec![80, 3000, 8443]);
}

#[test]
fn end_to_end_interpreter_host_unwrapping() {
    let text = format!(
        "{}node 1234 user 23u IPv4 0x0 0t0 TCP *:3000 (LISTEN)\n",
        HEADER
    );
    let table = ProcessTable {
        entries: vec![
            (
                1234,
                ProcessEntry {
                    name: "node".to_string(),
                    args: vec!["node".to_string(), "/home/app/server.js".to_string()],
                },
            ),
        ],
    };
    let result = ports_from_listing(&text, &table);
    assert_eq!(result.len(), 1);
    assert_eq!(result[0].pid, 1234);
    assert_eq!(result[0].name, "server.js");
    assert_eq!(result[0].port, 3000);
    assert_eq!(result[0].protocol, "TCP");
}

#[test]
fn pipeline_dedupes_and_sorts_with_fallback_names() {
    let text = format!(
        "{}alpha 10 u 1u IPv4 0x0 0t0 TCP *:9000 (LISTEN)\n\
         beta 20 u 1u IPv4 0x0 0t0 TCP *:80 (LISTEN)\n\
         gamma 30 u 1u IPv4 0x0 0t0 TCP *:9000 (LISTEN)\n",
        HEADER
    );
    let result = ports_from_listing(&text, &empty_table());
    assert_eq!(result.len(), 2);
    assert_eq!(result[0].port, 80);
    assert_eq!(result[0].pid, 20);
    assert_eq!(result[0].name, "beta");
    assert_eq!(result[1].port, 9000);
    assert_eq!(result[1].pid, 30);
    assert_eq!(result[1].name, "gamma");
}

#[test]
fn live_pipeline_keeps_ports_and_pids() {
    // The display names come from the machine's own process table, so
    // only the name-independent outcome is checked here.
    let text = format!(
        "{}x 11 u 1u IPv4 0x0 0t0 TCP *:8443 (LISTEN)\n\
         y 22 u 1u IPv4 0x0 0t0 TCP *:80 (LISTEN)\n\
         z 33 u 1u IPv4 0x0 0t0 TCP *:80 (LISTEN)\n",
        HEADER
    );
    let result = get_active_ports(&text);
    assert_eq!(result.len(), 2);
    assert_eq!(result[0].port, 80);
    assert_eq!(result[0].pid, 33);
    assert_eq!(result[1].port, 8443);
    assert_eq!(result[1].pid, 11);
    for p in &result {
        assert_eq!(p.protocol, "TCP");
    }
}
