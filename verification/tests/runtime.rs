use capslock::capmap::CapSet;
use capslock::caps::Capability;
use capslock::cm::Document;
use capslock::fd::{fdinfo_flags, ioctl_caps, Meta, SockKind, SocketDomain, Table, Type, O_CLOEXEC};
use capslock::process::{Error, Exec, ProcessMap, State};
use capslock::seccomp::CapabilityMap;
use capslock::syscall::{DirFd, Meta as SyscallMeta, SyscallArgs};
use capslock::tracer::{attribute_frames, Frame, GlobalState};

fn caps_of(set: &CapSet) -> Vec<Capability> {
    let mut v = Vec::new();
    for i in 0..set.len() {
        v.push(set.item_at(i));
    }
    v
}

#[test]
fn ioctl_dispatch_by_fd_type() {
    let sock_inet = Type::Socket {
        domain: SocketDomain { raw: 2 },
        ty: SockKind::Stream,
    };
    assert_eq!(caps_of(&ioctl_caps(0, &sock_inet).unwrap()), vec![Capability::Network]);

    let sock_unix = Type::Socket {
        domain: SocketDomain { raw: 1 },
        ty: SockKind::Stream,
    };
    assert_eq!(caps_of(&ioctl_caps(0, &sock_unix).unwrap()), vec![Capability::Files]);

    let file = Type::File {
        path: "/tmp/x".to_string(),
    };
    assert_eq!(caps_of(&ioctl_caps(0, &file).unwrap()), vec![Capability::Files]);

    let tty = Type::Char {
        path: "/dev/tty".to_string(),
    };
    assert_eq!(caps_of(&ioctl_caps(0, &tty).unwrap()), vec![Capability::Safe]);

    assert!(ioctl_caps(0, &Type::Unknown).is_err());
    assert!(ioctl_caps(0, &Type::Fifo).is_err());
}

#[test]
fn fdinfo_flags_parse() {
    let content = "pos:\t0\nflags:\t02004002\nmnt_id:\t29\n";
    assert_eq!(fdinfo_flags(content).unwrap(), Some(0o2004002));
    assert_eq!(fdinfo_flags("pos:\t0\n").unwrap(), None);
    assert!(fdinfo_flags("flags:\tnotoctal\n").is_err());
}

#[test]
fn link_target_classification() {
    match Type::from_link_target("socket:[12345]", None) {
        Type::SocketInode { inode } => assert_eq!(inode, 12345),
        other => panic!("unexpected: {:?}", other),
    }
    assert!(matches!(
        Type::from_link_target("pipe:[67]", None),
        Type::Fifo
    ));
    assert!(matches!(
        Type::from_link_target("anon_inode:[eventpoll]", None),
        Type::Unknown
    ));
    match Type::from_link_target(
        "/tmp/x",
        Some((capslock::fd::HostFileKind::File, "/tmp/x".to_string())),
    ) {
        Type::File { path } => assert_eq!(path, "/tmp/x"),
        other => panic!("unexpected: {:?}", other),
    }
}

#[test]
fn clone_inherits_only_non_cloexec_fds() {
    let mut fds = Table::new();
    fds.insert(
        3,
        Meta::new(
            0,
            Type::File {
                path: "/tmp/a".to_string(),
            },
        ),
    );
    fds.insert(
        4,
        Meta::new(
            O_CLOEXEC,
            Type::Socket {
                domain: SocketDomain { raw: 2 },
                ty: SockKind::Stream,
            },
        ),
    );
    let parent = State::initial(1, Vec::new(), fds, "/work".to_string(), false);
    let mut map = ProcessMap::new(
        1,
        Exec::new("/bin/true".to_string(), Vec::new(), Vec::new()),
        "/work".to_string(),
        false,
    );
    // Give the init process the descriptor table above.
    {
        let st = map.take_active(1).unwrap();
        drop(st);
        map.put_active(1, parent);
    }
    map.spawn(1, 2).unwrap();
    let child = map.get_active(2).unwrap();
    assert_eq!(child.fds.len(), 1);
    assert_eq!(child.fds.entry_at(0).0, 3);
    assert!(child.fds.get(4).is_none());
    assert_eq!(child.wd, "/work");
    assert!(map.spawn(7, 8).is_err());
}

#[test]
fn serialized_capabilities_strip_safe() {
    let mut only_safe = CapSet::new();
    only_safe.insert(Capability::Safe);
    let p = capslock::report::Process {
        path: "/bin/x".to_string(),
        capabilities: only_safe,
        functions: Vec::new(),
        edges: Vec::new(),
    };
    assert_eq!(p.serialized_capabilities(), vec![Capability::Safe]);

    let mut both = CapSet::new();
    both.insert(Capability::Safe);
    both.insert(Capability::Files);
    let p2 = capslock::report::Process {
        path: "/bin/x".to_string(),
        capabilities: both,
        functions: Vec::new(),
        edges: Vec::new(),
    };
    assert_eq!(p2.serialized_capabilities(), vec![Capability::Files]);
}

fn syscall_table() -> CapabilityMap {
    CapabilityMap::new(
        &Document::from_reader(
            "read CAPABILITY_FILES\nioctl CAPABILITY_FILES\nchdir CAPABILITY_FILES\nsocket CAPABILITY_NETWORK\nopenat CAPABILITY_FILES\n",
        )
        .unwrap(),
    )
}

fn fresh_state() -> State {
    State::initial(1, Vec::new(), Table::new(), "/work".to_string(), false)
}

#[test]
fn chdir_moves_the_working_directory() {
    let table = syscall_table();
    let mut st = fresh_state();
    let meta = SyscallMeta::try_from_syscall(
        &st,
        "chdir".to_string(),
        SyscallArgs::Chdir {
            filename: "/elsewhere".to_string(),
        },
    )
    .unwrap();
    let caps = meta.into_capabilities(&mut st, 0, &table, None).unwrap();
    assert_eq!(caps_of(&caps), vec![Capability::Files]);
    assert_eq!(st.wd, "/elsewhere");
}

#[test]
fn openat_resolves_against_the_working_directory() {
    let table = syscall_table();
    let mut st = fresh_state();
    let meta = SyscallMeta::try_from_syscall(
        &st,
        "openat".to_string(),
        SyscallArgs::Openat {
            dfd: DirFd::AtCwd,
            flags: 0,
            filename: "notes.txt".to_string(),
        },
    )
    .unwrap();
    let caps = meta.into_capabilities(&mut st, 5, &table, None).unwrap();
    assert_eq!(caps_of(&caps), vec![Capability::Files]);
    match &st.get_fd(5).unwrap().ty {
        Type::File { path } => assert_eq!(path, "/work/notes.txt"),
        other => panic!("unexpected: {:?}", other),
    }
}

#[test]
fn openat_on_an_unknown_directory_asks_for_inference() {
    let st = fresh_state();
    let r = SyscallMeta::try_from_syscall(
        &st,
        "openat".to_string(),
        SyscallArgs::Openat {
            dfd: DirFd::Fd(9),
            flags: 0,
            filename: "x".to_string(),
        },
    );
    assert!(matches!(r, Err(Error::FdUnknown(9))));
}

#[test]
fn ioctl_uses_the_descriptor_type_before_the_name_table() {
    let table = syscall_table();
    let mut st = fresh_state();
    st.insert_fd(
        3,
        Meta::new(
            0,
            Type::Socket {
                domain: SocketDomain { raw: 2 },
                ty: SockKind::Stream,
            },
        ),
    );
    let meta = SyscallMeta::try_from_syscall(
        &st,
        "ioctl".to_string(),
        SyscallArgs::Ioctl { cmd: 0x5401, fd: 3 },
    )
    .unwrap();
    assert!(meta.needs_fd(&st).is_none());
    let caps = meta.into_capabilities(&mut st, 0, &table, None).unwrap();
    assert_eq!(caps_of(&caps), vec![Capability::Network]);

    // An unclassifiable descriptor type falls back to the name table.
    let mut st2 = fresh_state();
    st2.insert_fd(3, Meta::new(0, Type::Fifo));
    let meta2 = SyscallMeta::try_from_syscall(
        &st2,
        "ioctl".to_string(),
        SyscallArgs::Ioctl { cmd: 0x5401, fd: 3 },
    )
    .unwrap();
    let caps2 = meta2.into_capabilities(&mut st2, 0, &table, None).unwrap();
    assert_eq!(caps_of(&caps2), vec![Capability::Files]);
}

#[test]
fn socket_syscall_records_the_descriptor() {
    let table = syscall_table();
    let mut st = fresh_state();
    // SOCK_STREAM with SOCK_CLOEXEC.
    let meta = SyscallMeta::try_from_syscall(
        &st,
        "socket".to_string(),
        SyscallArgs::Socket {
            family: 2,
            ty: 1 | 0o2000000,
        },
    )
    .unwrap();
    let caps = meta.into_capabilities(&mut st, 7, &table, None).unwrap();
    assert_eq!(caps_of(&caps), vec![Capability::Network]);
    let fd = st.get_fd(7).unwrap();
    assert!(fd.is_cloexec());
    assert!(matches!(
        fd.ty,
        Type::Socket {
            domain: SocketDomain { raw: 2 },
            ty: SockKind::Stream
        }
    ));
    // An unknown style word is an error.
    assert!(SyscallMeta::try_from_syscall(
        &st,
        "socket".to_string(),
        SyscallArgs::Socket { family: 2, ty: 0 },
    )
    .is_err());
}

#[test]
fn missing_syscall_name_is_an_error() {
    let table = syscall_table();
    let mut st = fresh_state();
    let meta = SyscallMeta::try_from_syscall(&st, "reboot".to_string(), SyscallArgs::Other).unwrap();
    assert!(matches!(
        meta.into_capabilities(&mut st, 0, &table, None),
        Err(Error::SyscallMissingFromMap(_))
    ));
}

#[test]
fn attribution_waits_for_start_and_builds_the_graph() {
    let mut st = State::initial(1, Vec::new(), Table::new(), "/".to_string(), true);
    let mut caps = CapSet::new();
    caps.insert(Capability::Files);

    // No _start yet: aggregation only, no attribution.
    let frames = vec![Frame {
        name: "inner".to_string(),
        location: None,
    }];
    attribute_frames(&mut st, &frames, &caps, false, "read");
    assert_eq!(st.functions.len(), 0);
    assert!(st.is_waiting_for_start());

    // A stack that reaches _start: deepest frame is Direct, its callers
    // Transitive, with edges child -> parent.
    let frames = vec![
        Frame {
            name: "inner".to_string(),
            location: None,
        },
        Frame {
            name: "outer".to_string(),
            location: None,
        },
        Frame {
            name: "_start".to_string(),
            location: None,
        },
    ];
    attribute_frames(&mut st, &frames, &caps, true, "read");
    assert!(!st.is_waiting_for_start());
    assert_eq!(st.functions.len(), 3);
    let inner = st.functions.get_index("inner").unwrap();
    let outer = st.functions.get_index("outer").unwrap();
    assert_eq!(
        st.functions.get_cap(inner, Capability::Files),
        Some(capslock::caps::CapabilityType::Direct)
    );
    assert_eq!(
        st.functions.get_cap(outer, Capability::Files),
        Some(capslock::caps::CapabilityType::Transitive)
    );
    assert!(st.functions.get(inner).unwrap().syscalls.contains("read"));
    assert!(!st.functions.get(outer).unwrap().syscalls.contains("read"));
    let edges = st.call_graph.into_edges();
    assert_eq!(edges.len(), 2);
    assert_eq!((edges[0].caller, edges[0].callee), (outer, inner));
}

#[test]
fn tracer_round_trip_builds_a_report() {
    let table = syscall_table();
    let mut gs = GlobalState::new(
        1,
        Exec::new("/bin/demo".to_string(), Vec::new(), Vec::new()),
        "/work".to_string(),
        true,
        false,
    );
    gs.handle_syscall_entry(1, "read".to_string(), SyscallArgs::Other)
        .unwrap();
    let frames = vec![Frame {
        name: "reader".to_string(),
        location: None,
    }];
    gs.handle_syscall_exit(1, 0, &frames, &table, None).unwrap();
    gs.handle_clone(1, 2).unwrap();
    gs.handle_exit(2);
    let report = gs.into_report(true).unwrap();
    assert_eq!(report.process.path, "/bin/demo");
    assert_eq!(
        report.process.serialized_capabilities(),
        vec![Capability::Files]
    );
    assert_eq!(report.process.functions.len(), 1);
    assert_eq!(report.process.functions[0].display_name(), "reader");
    assert_eq!(report.children.len(), 1);
}

#[test]
fn relative_chdir_resolves_against_the_working_directory() {
    let table = syscall_table();
    let mut st = fresh_state();
    let meta = SyscallMeta::try_from_syscall(
        &st,
        "chdir".to_string(),
        SyscallArgs::Chdir {
            filename: "subdir".to_string(),
        },
    )
    .unwrap();
    meta.into_capabilities(&mut st, 0, &table, None).unwrap();
    assert_eq!(st.wd, "/work/subdir");
}

#[test]
fn exec_drops_close_on_exec_descriptors() {
    let table = CapabilityMap::new(
        &Document::from_reader("execve CAPABILITY_RUNTIME\n").unwrap(),
    );
    let mut st = fresh_state();
    st.insert_fd(
        3,
        Meta::new(
            0,
            Type::File {
                path: "/tmp/a".to_string(),
            },
        ),
    );
    st.insert_fd(
        4,
        Meta::new(
            O_CLOEXEC,
            Type::File {
                path: "/tmp/b".to_string(),
            },
        ),
    );
    let meta = SyscallMeta::try_from_syscall(
        &st,
        "execve".to_string(),
        SyscallArgs::Execve {
            filename: "/bin/true".to_string(),
            argv: Vec::new(),
            envp: Vec::new(),
        },
    )
    .unwrap();
    meta.into_capabilities(&mut st, 0, &table, None).unwrap();
    assert_eq!(st.fds.len(), 1);
    assert_eq!(st.fds.entry_at(0).0, 3);
    assert!(st.fds.get(4).is_none());
    assert_eq!(st.execs.len(), 1);
    assert_eq!(st.execs[0].command, "/bin/true");
}
