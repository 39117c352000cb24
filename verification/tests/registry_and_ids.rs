//! The server registry's single-running and idempotent-stop behaviour, the
//! identifier counter, and the stop sequence, on concrete runs.

use mcp_core::ids::RequestIdGen;
use mcp_core::lifecycle::StopAction;
use mcp_core::lifecycle::stop_plan;
use mcp_core::registry::ServerRegistry;

#[test]
fn start_twice_keeps_one_entry() {
    let mut reg: ServerRegistry<u32> = ServerRegistry::new();
    assert!(reg.start("alpha".to_string(), 11).is_none());
    assert_eq!(reg.len(), 1);
    // the second start is refused: the handle comes back, nothing replaced
    let refused = reg.start("alpha".to_string(), 22);
    assert_eq!(refused, Some(22));
    assert_eq!(reg.len(), 1);
    assert!(reg.contains(&"alpha".to_string()));
    // the entry still holds the first handle
    let handle = reg.stop(&"alpha".to_string());
    assert_eq!(handle, Some(11));
    assert_eq!(reg.len(), 0);
}

#[test]
fn distinct_identifiers_run_in_parallel() {
    let mut reg: ServerRegistry<u32> = ServerRegistry::new();
    assert!(reg.start("alpha".to_string(), 1).is_none());
    assert!(reg.start("beta".to_string(), 2).is_none());
    assert_eq!(reg.len(), 2);
    assert!(reg.contains(&"alpha".to_string()));
    assert!(reg.contains(&"beta".to_string()));
    assert_eq!(reg.stop(&"alpha".to_string()), Some(1));
    assert!(reg.contains(&"beta".to_string()));
    assert!(!reg.contains(&"alpha".to_string()));
}

#[test]
fn stop_of_a_stopped_server_is_benign() {
    let mut reg: ServerRegistry<u32> = ServerRegistry::new();
    // never started: stopping reports "not running" and changes nothing
    assert_eq!(reg.stop(&"ghost".to_string()), None);
    assert_eq!(reg.stop(&"ghost".to_string()), None);
    assert_eq!(reg.len(), 0);
    // started once: the second and third stop are still benign
    assert!(reg.start("alpha".to_string(), 5).is_none());
    assert_eq!(reg.stop(&"alpha".to_string()), Some(5));
    assert_eq!(reg.stop(&"alpha".to_string()), None);
    assert_eq!(reg.stop(&"alpha".to_string()), None);
    assert_eq!(reg.len(), 0);
}

#[test]
fn identifiers_are_distinct_and_reach_the_count() {
    let mut gen = RequestIdGen::new();
    let n: u64 = 100;
    let mut seen: Vec<u64> = Vec::new();
    let mut i: u64 = 0;
    while i < n {
        let id = gen.next_id();
        assert!(!seen.contains(&id));
        seen.push(id);
        i += 1;
    }
    assert_eq!(seen.len() as u64, n);
    assert_eq!(seen.iter().copied().max(), Some(n));
    assert_eq!(seen.first().copied(), Some(1));
}

#[test]
fn stop_sequence_kills_and_reaps_after_the_graceful_attempt() {
    let plan = stop_plan();
    assert_eq!(
        plan,
        vec![
            StopAction::RemoveEntry,
            StopAction::SendTerminate,
            StopAction::PauseBriefly,
            StopAction::KillProcess,
            StopAction::ReapProcess,
        ]
    );
    // removal comes first, and the kill and reap follow the graceful
    // attempt unconditionally
    let remove = plan.iter().position(|a| *a == StopAction::RemoveEntry).unwrap();
    let term = plan.iter().position(|a| *a == StopAction::SendTerminate).unwrap();
    let kill = plan.iter().position(|a| *a == StopAction::KillProcess).unwrap();
    let reap = plan.iter().position(|a| *a == StopAction::ReapProcess).unwrap();
    assert!(remove < term);
    assert!(term < kill);
    assert!(kill < reap);
}
