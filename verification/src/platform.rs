//! Trusted platform services: process-table enumeration, liveness checks and
//! signal delivery.
//!
//! Everything here is a thin wrapper over an OS query whose outcome depends
//! on the live machine state, so no wrapper promises anything about the
//! values that come back; the verified callers establish their guarantees
//! for every possible outcome.

use vstd::prelude::*;

verus! {

/// Takes one snapshot of the OS process table as `(pid, parent_pid)` pairs.
/// A process without a known parent is reported with parent 0.
///
/// Relies on sysinfo's `System::new_all`, `System::refresh_all` and
/// `System::processes`: the snapshot may be partial or stale, but the call
/// itself does not fail.
#[verifier::external_body]
pub fn get_all_processes() -> (table: Vec<(u32, u32)>) {
    let mut sys = sysinfo::System::new_all();
    sys.refresh_all();
    let mut table: Vec<(u32, u32)> = Vec::new();
    for (pid, process) in sys.processes() {
        let parent = process.parent().unwrap_or(sysinfo::Pid::from_u32(0));
        table.push((pid.as_u32(), parent.as_u32()));
    }
    table
}

/// Reports whether a process with the given pid currently exists.
///
/// Relies on sysinfo's `System::process`: the answer reflects one snapshot
/// of the machine and can be stale by the time it is used.
#[verifier::external_body]
pub fn is_process_alive(pid: u32) -> (alive: bool) {
    let mut sys = sysinfo::System::new_all();
    sys.refresh_all();
    sys.process(sysinfo::Pid::from_u32(pid)).is_some()
}

/// Sends SIGKILL (when `force`) or SIGTERM to `pid`, returning whether the
/// OS accepted the signal. A negative `pid` addresses the process group with
/// the corresponding id, as the underlying syscall defines.
///
/// Relies on nix's `sys::signal::kill`: delivery can fail (no such process,
/// permission denied) and the result reports only what the OS answered.
#[verifier::external_body]
pub(crate) fn signal_process_raw(pid: i32, force: bool) -> (ok: bool) {
    let sig = if force {
        nix::sys::signal::Signal::SIGKILL
    } else {
        nix::sys::signal::Signal::SIGTERM
    };
    nix::sys::signal::kill(nix::unistd::Pid::from_raw(pid), sig).is_ok()
}

/// The pid of this process's parent.
///
/// Relies on nix's `unistd::getppid`, which always succeeds; the value is
/// whatever parent the OS reports at the moment of the call.
#[verifier::external_body]
pub(crate) fn parent_pid_of_self() -> (pid: u32) {
    nix::unistd::getppid().as_raw() as u32
}

} // verus!
