use portwatch::kill::kill_outcome;
use portwatch::stats::{memory_snapshot, refresh_global_stats};

#[test]
fn kill_outcome_clean_exit_is_success() {
    assert!(kill_outcome(Ok(true)).is_ok());
}

#[test]
fn kill_outcome_nonzero_exit_is_the_generic_failure() {
    // A kill aimed at a nonexistent pid makes the utility exit
    // non-zero: the caller sees a failure result, not a fault.
    let r = kill_outcome(Ok(false));
    assert_eq!(r, Err("Failed to kill process".to_string()));
}

#[test]
fn kill_outcome_launch_error_is_passed_through() {
    let r = kill_outcome(Err("No such file or directory".to_string()));
    assert_eq!(r, Err("No such file or directory".to_string()));
}

#[test]
fn global_stats_twice_are_sane() {
    let mut sys = sysinfo::System::new_all();
    for _ in 0..2 {
        refresh_global_stats(&mut sys);
        let mem = memory_snapshot(&sys);
        assert!(mem.memory_used <= mem.memory_total);
        let cpu = sys.global_cpu_usage();
        assert!(cpu >= 0.0);
        assert!(cpu.is_finite());
    }
}
