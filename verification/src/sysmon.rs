//! The trusted boundary to the live process and resource counters of
//! the `sysinfo` crate.  Everything a wrapper here returns depends on
//! the machine's state at the moment of the call, so no contract pins
//! a result down; the verified logic takes these results as arguments
//! and is proved for every value they could have.

use vstd::prelude::*;

verus! {

#[verifier::external_type_specification]
#[verifier::external_body]
pub struct ExSystem(sysinfo::System);

#[verifier::external_type_specification]
#[verifier::external_body]
pub struct ExProcess(sysinfo::Process);

/// Relies on sysinfo::System::new_all: a fresh snapshot with
/// everything loaded.
#[verifier::external_body]
pub(crate) fn system_new_all() -> sysinfo::System {
    sysinfo::System::new_all()
}

/// Relies on sysinfo::System::refresh_processes: re-reads the whole
/// process table, dropping dead processes.
#[verifier::external_body]
pub(crate) fn system_refresh_processes(sys: &mut sysinfo::System) {
    sys.refresh_processes(sysinfo::ProcessesToUpdate::All, true);
}

/// Relies on sysinfo::System::process: the table's entry for this
/// process id, if the snapshot holds one.
#[verifier::external_body]
pub(crate) fn system_process<'a>(sys: &'a sysinfo::System, pid: u32) -> Option<&'a sysinfo::Process> {
    sys.process(sysinfo::Pid::from_u32(pid))
}

/// Relies on sysinfo::Process::name: the process name the table
/// reports, as text.
#[verifier::external_body]
pub(crate) fn process_name(p: &sysinfo::Process) -> String {
    p.name().to_string_lossy().to_string()
}

/// Relies on sysinfo::Process::cmd: the second launch argument of the
/// process, as text, if its command line has one.
#[verifier::external_body]
pub(crate) fn process_second_arg(p: &sysinfo::Process) -> Option<String> {
    p.cmd().get(1).map(|a| a.to_string_lossy().to_string())
}

/// Relies on sysinfo::System::refresh_cpu_all: updates the counters
/// behind the global CPU utilization figure.
#[verifier::external_body]
pub(crate) fn system_refresh_cpu_all(sys: &mut sysinfo::System) {
    sys.refresh_cpu_all();
}

/// Relies on sysinfo::System::refresh_memory: updates the RAM
/// counters.
#[verifier::external_body]
pub(crate) fn system_refresh_memory(sys: &mut sysinfo::System) {
    sys.refresh_memory();
}

/// Relies on sysinfo::System::total_memory: the machine's RAM size in
/// bytes, as of the last memory refresh.
#[verifier::external_body]
pub(crate) fn system_total_memory(sys: &sysinfo::System) -> u64 {
    sys.total_memory()
}

/// Relies on sysinfo::System::used_memory: the RAM in use in bytes,
/// as of the last memory refresh.
#[verifier::external_body]
pub(crate) fn system_used_memory(sys: &sysinfo::System) -> u64 {
    sys.used_memory()
}

} // verus!
