use std::collections::BTreeSet;

use capslock::capmap::CapSet;
use capslock::caps::Capability;
use capslock::cm::Document;
use capslock::seccomp::{Action, ActionDef, CapabilityMap, Error, Policy};

static TESTDATA: &str = "\
safe CAPABILITY_SAFE
files CAPABILITY_FILES
files_network CAPABILITY_FILES CAPABILITY_NETWORK
network_files CAPABILITY_NETWORK CAPABILITY_FILES
read_system_state CAPABILITY_READ_SYSTEM_STATE
all CAPABILITY_FILES CAPABILITY_NETWORK CAPABILITY_READ_SYSTEM_STATE
";

fn test_map() -> CapabilityMap {
    CapabilityMap::new(&Document::from_reader(TESTDATA).unwrap())
}

fn capset(caps: &[Capability]) -> CapSet {
    let mut s = CapSet::new();
    for c in caps {
        s.insert(*c);
    }
    s
}

fn assert_syscalls(map: &CapabilityMap, caps: &[Capability], matches: &[&'static str]) {
    let syscalls: BTreeSet<String> = map.get_syscalls(&capset(caps)).into_iter().collect();
    let expected: BTreeSet<String> = matches.iter().map(|s| s.to_string()).collect();
    assert_eq!(syscalls, expected);
}

#[test]
fn map() {
    let map = test_map();

    // Things that don't match anything.
    assert_syscalls(&map, &[], &["safe"]);
    assert_syscalls(&map, &[Capability::Cgo], &["safe"]);

    // Just one capability.
    assert_syscalls(&map, &[Capability::Files], &["safe", "files"]);

    // Two capabilities together.
    assert_syscalls(
        &map,
        &[Capability::Files, Capability::Network],
        &["safe", "files", "files_network", "network_files"],
    );

    // Two capabilities that match disjoint options.
    assert_syscalls(
        &map,
        &[Capability::Files, Capability::ReadSystemState],
        &["safe", "files", "read_system_state"],
    );

    // Three capabilities.
    assert_syscalls(
        &map,
        &[Capability::Files, Capability::Network, Capability::ReadSystemState],
        &[
            "safe",
            "files",
            "files_network",
            "network_files",
            "read_system_state",
            "all",
        ],
    );
}

#[test]
fn map_lookup_by_name() {
    let map = test_map();
    let caps = map.lookup("files_network").unwrap();
    assert!(caps.contains(Capability::Files));
    assert!(caps.contains(Capability::Network));
    assert!(!caps.contains(Capability::Safe));
    assert!(map.lookup("missing").is_none());
}

fn def(action: &str, errno: Option<i32>, trace: Option<u32>) -> ActionDef {
    ActionDef {
        default_action: action.to_string(),
        default_action_errno: errno,
        default_action_trace: trace,
    }
}

#[test]
fn action_from_definition() {
    assert_eq!(
        Action::try_from_def(def("SCMP_ACT_ALLOW", None, None)),
        Ok(Action::Allow)
    );
    assert_eq!(
        Action::try_from_def(def("SCMP_ACT_KILL_PROCESS", None, None)),
        Ok(Action::KillProcess)
    );
    assert_eq!(
        Action::try_from_def(def("SCMP_ACT_ERRNO", Some(1), None)),
        Ok(Action::Errno(1))
    );
    assert_eq!(
        Action::try_from_def(def("SCMP_ACT_ERRNO", None, None)),
        Err(Error::NoErrno)
    );
    assert_eq!(
        Action::try_from_def(def("SCMP_ACT_TRACE", None, Some(7))),
        Ok(Action::Trace(7))
    );
    assert_eq!(
        Action::try_from_def(def("SCMP_ACT_TRACE", None, None)),
        Err(Error::NoTrace)
    );
    assert_eq!(
        Action::try_from_def(def("SCMP_ACT_NONSENSE", None, None)),
        Err(Error::ActionUnknown("SCMP_ACT_NONSENSE".to_string()))
    );
}

#[test]
fn action_payloads() {
    assert_eq!(Action::Errno(5).errno(), Some(5));
    assert_eq!(Action::Allow.errno(), None);
    assert_eq!(Action::Trace(9).trace(), Some(9));
    assert_eq!(Action::Kill.trace(), None);
    assert_eq!(Action::Log.name(), "SCMP_ACT_LOG");
    assert_eq!(Action::Trap.name(), "SCMP_ACT_TRAP");
}

#[test]
fn policy_accumulates_rules() {
    let mut policy = Policy::new(Action::KillProcess);
    policy.add_architecture("SCMP_ARCH_X86_64".to_string());
    let map = test_map();
    policy.add_syscalls(
        Action::Allow,
        map.get_syscalls(&capset(&[Capability::Files])),
    );
    policy.add_syscalls(
        Action::Log,
        capslock::seccomp::runtime_required_syscalls(),
    );
    assert_eq!(policy.architectures, vec!["SCMP_ARCH_X86_64".to_string()]);
    assert_eq!(policy.syscalls.len(), 2);
    assert_eq!(policy.syscalls[0].action, Action::Allow);
    assert_eq!(policy.syscalls[0].names.len(), 2);
    assert!(policy.syscalls[0].names.contains("safe"));
    assert!(policy.syscalls[0].names.contains("files"));
    assert_eq!(policy.syscalls[1].action, Action::Log);
    assert_eq!(policy.syscalls[1].names.len(), 19);
    assert!(policy.syscalls[1].names.contains("openat"));
    // The rule's name set is sorted.
    assert_eq!(policy.syscalls[1].names.item_at(0), "capget");
    assert_eq!(policy.syscalls[1].names.item_at(18), "write");
}
