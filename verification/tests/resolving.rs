use portwatch::resolver::{ProcessEntry, resolve_display_name};

fn entry(name: &str, args: &[&str]) -> ProcessEntry {
    ProcessEntry {
        name: name.to_string(),
        args: args.iter().map(|a| a.to_string()).collect(),
    }
}

#[test]
fn table_name_is_cleaned_and_used() {
    let e = entry("Google\\x20Chrome", &["chrome"]);
    assert_eq!(resolve_display_name(Some(&e), "hint"), "Google Chrome");
}

#[test]
fn node_with_script_argument_shows_script_name() {
    let e = entry("node", &["node", "/usr/local/bin/app.js"]);
    assert_eq!(resolve_display_name(Some(&e), "node"), "app.js");
}

#[test]
fn near_miss_host_name_does_not_trigger_override() {
    // "nodeJS" is not an exact member of the host-name set.
    let e = entry("nodeJS", &["nodeJS", "/usr/local/bin/app.js"]);
    assert_eq!(resolve_display_name(Some(&e), "hint"), "nodeJS");
}

#[test]
fn flag_argument_does_not_override() {
    let e = entry("python", &["python", "-m"]);
    assert_eq!(resolve_display_name(Some(&e), "hint"), "python");
}

#[test]
fn both_python_casings_are_hosts() {
    let lower = entry("python", &["python", "/srv/job.py"]);
    let upper = entry("Python", &["Python", "/srv/job.py"]);
    assert_eq!(resolve_display_name(Some(&lower), "hint"), "job.py");
    assert_eq!(resolve_display_name(Some(&upper), "hint"), "job.py");
}

#[test]
fn electron_is_a_host() {
    let e = entry("electron", &["electron", "/opt/app/main.js"]);
    assert_eq!(resolve_display_name(Some(&e), "hint"), "main.js");
}

#[test]
fn host_without_second_argument_keeps_host_name() {
    let e = entry("node", &["node"]);
    assert_eq!(resolve_display_name(Some(&e), "hint"), "node");
}

#[test]
fn argument_without_file_component_keeps_host_name() {
    let e = entry("node", &["node", "/"]);
    assert_eq!(resolve_display_name(Some(&e), "hint"), "node");
}

#[test]
fn bare_script_name_argument_overrides() {
    let e = entry("node", &["node", "server.js"]);
    assert_eq!(resolve_display_name(Some(&e), "hint"), "server.js");
}

#[test]
fn missing_entry_falls_back_to_cleaned_hint() {
    assert_eq!(resolve_display_name(None, "my\\x20svc"), "my svc");
}
