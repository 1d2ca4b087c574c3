//! Syscall interpretation: entry-side classification of the interesting
//! syscalls into typed records, and exit-side resolution of a syscall to
//! capabilities, applying its state mutation first.
use vstd::prelude::*;

use crate::capmap::CapSet;
use crate::fd::{ioctl_caps, spec_fd_lookup, spec_ioctl_caps, SockKind, SocketDomain, O_CLOEXEC};
use crate::process::{spec_path_join, Error, Exec, State};
use crate::seccomp::CapabilityMap;

verus! {

/// The `SOCK_CLOEXEC` bit of a socket type word.
pub const SOCK_CLOEXEC: i32 = 0o2000000;

/// The stream socket type code.
pub const SOCK_STREAM: i32 = 1;

/// The datagram socket type code.
pub const SOCK_DGRAM: i32 = 2;

/// The raw socket type code.
pub const SOCK_RAW: i32 = 3;

/// The reliable-datagram socket type code.
pub const SOCK_RDM: i32 = 4;

/// The sequenced-packet socket type code.
pub const SOCK_SEQPACKET: i32 = 5;

/// The directory a relative path is resolved against.
#[derive(Debug, Clone, Copy, PartialEq, Eq, Structural)]
pub enum DirFd {
    /// `AT_FDCWD`: the working directory.
    AtCwd,
    /// An open directory descriptor.
    Fd(u64),
}

/// The arguments captured from a syscall at entry, as plain values.
pub enum SyscallArgs {
    Chdir { filename: String },
    Close { fd: u64 },
    CloseRange { fd: u64, max_fd: u64 },
    Open { flags: i32, filename: String },
    Openat { dfd: DirFd, flags: i32, filename: String },
    Openat2 { dfd: DirFd, flags: i32, filename: String },
    Pipe,
    Pipe2 { flags: i32 },
    Socket { family: i32, ty: i32 },
    Ioctl { cmd: u64, fd: u64 },
    Execve { filename: String, argv: Vec<String>, envp: Vec<String> },
    Execveat { filename: String, argv: Vec<String>, envp: Vec<String> },
    Other,
}

/// The typed record an interesting syscall gets at entry.
pub enum Typed {
    Chdir { path: String },
    Close { fd: u64 },
    CloseRange { lo: u64, hi: u64 },
    Exec { path: String, argv: Vec<String>, envp: Vec<String> },
    FdCreate { meta: crate::fd::Meta },
    Ioctl { cmd: u64, fd: u64 },
}

/// A syscall's entry-side record: its name, and its typed record when it
/// is one of the interesting syscalls.
pub struct Meta {
    pub nr_name: String,
    pub typed: Option<Typed>,
}

/// The socket kind a type word decodes to, testing the style bits in the
/// order stream, datagram, sequenced-packet, raw, reliable-datagram.
pub open spec fn spec_sock_kind(t: i32) -> Option<SockKind> {
    if t & SOCK_STREAM == SOCK_STREAM {
        Some(SockKind::Stream)
    } else if t & SOCK_DGRAM == SOCK_DGRAM {
        Some(SockKind::Datagram)
    } else if t & SOCK_SEQPACKET == SOCK_SEQPACKET {
        Some(SockKind::SeqPacket)
    } else if t & SOCK_RAW == SOCK_RAW {
        Some(SockKind::Raw)
    } else if t & SOCK_RDM == SOCK_RDM {
        Some(SockKind::Rdm)
    } else {
        None
    }
}

/// Decode a socket type word, failing on a word with no known style bits.
pub fn decode_sock_kind(t: i32) -> (r: Result<SockKind, Error>)
    ensures
        match r {
            Ok(k) => spec_sock_kind(t) == Some(k),
            Err(e) => spec_sock_kind(t) is None && (e matches Error::SocketTypeUnknown(tt) && tt
                == t),
        },
{
    if t & SOCK_STREAM == SOCK_STREAM {
        Ok(SockKind::Stream)
    } else if t & SOCK_DGRAM == SOCK_DGRAM {
        Ok(SockKind::Datagram)
    } else if t & SOCK_SEQPACKET == SOCK_SEQPACKET {
        Ok(SockKind::SeqPacket)
    } else if t & SOCK_RAW == SOCK_RAW {
        Ok(SockKind::Raw)
    } else if t & SOCK_RDM == SOCK_RDM {
        Ok(SockKind::Rdm)
    } else {
        Err(Error::SocketTypeUnknown(t))
    }
}

/// How a path from an `*at` syscall resolves against the process state:
/// an absolute path stands; a path relative to `AT_FDCWD` joins the working
/// directory; a path relative to a directory or file descriptor joins its
/// path; any other descriptor type cannot anchor a path, and an unknown
/// descriptor asks the caller to infer it first.
pub open spec fn spec_resolved_at(st: State, dfd: DirFd, local: Seq<char>, r: Result<
    String,
    Error,
>) -> bool {
    if local.len() > 0 && local[0] == '/' {
        r matches Ok(p) && p@ == local
    } else {
        match dfd {
            DirFd::AtCwd => r matches Ok(p) && p@ == spec_path_join(st.wd@, local),
            DirFd::Fd(fd) => match spec_fd_lookup(st.fds@, fd) {
                Some(m) => match m.ty {
                    crate::fd::Type::Directory { path } => r matches Ok(p) && p@ == spec_path_join(
                        path@,
                        local,
                    ),
                    crate::fd::Type::File { path } => r matches Ok(p) && p@ == spec_path_join(
                        path@,
                        local,
                    ),
                    _ => r matches Err(e) && (e matches Error::Resolve { fd: efd, path } && (efd
                        == fd && path@ == local)),
                },
                None => r matches Err(e) && (e matches Error::FdUnknown(efd) && efd == fd),
            },
        }
    }
}

/// Resolve a path from an `*at` syscall against the process state.
pub fn resolve_at_syscall(state: &State, dfd: DirFd, local: String) -> (r: Result<String, Error>)
    ensures
        spec_resolved_at(*state, dfd, local@, r),
{
    let llen = local.as_str().unicode_len();
    if llen > 0 && local.as_str().get_char(0) == '/' {
        return Ok(local);
    }
    match dfd {
        DirFd::AtCwd => Ok(state.resolve(local.as_str())),
        DirFd::Fd(fd) => match state.get_fd(fd) {
            Some(meta) => match &meta.ty {
                crate::fd::Type::Directory { path } => Ok(join_paths(path.as_str(), local.as_str())),
                crate::fd::Type::File { path } => Ok(join_paths(path.as_str(), local.as_str())),
                _ => Err(Error::Resolve { fd, path: local }),
            },
            None => Err(Error::FdUnknown(fd)),
        },
    }
}

/// Join `p` onto base path `base`, with a single separator between
/// non-empty parts.
pub fn join_paths(base: &str, p: &str) -> (r: String)
    ensures
        r@ == spec_path_join(base@, p@),
{
    let plen = p.unicode_len();
    if plen > 0 && p.get_char(0) == '/' {
        return String::from_str(p);
    }
    let blen = base.unicode_len();
    if blen == 0 {
        return String::from_str(p);
    }
    let mut r = String::from_str(base);
    if base.get_char(blen - 1) != '/' {
        r.append("/");
    }
    r.append(p);
    r
}

/// What resolving a syscall by name against the capability table yields:
/// the capability set recorded for the name, or a missing-name error
/// carrying the name.
pub open spec fn spec_named_caps(
    records: Seq<(Seq<char>, Seq<crate::caps::Capability>)>,
    name: Seq<char>,
    r: Result<CapSet, Error>,
) -> bool {
    if exists|i: int| 0 <= i < records.len() && (#[trigger] records[i]).0 == name {
        r matches Ok(caps) && exists|i: int|
            0 <= i < records.len() && (#[trigger] records[i]).0 == name && caps@ == records[i].1
    } else {
        r matches Err(e) && (e matches Error::SyscallMissingFromMap(n) && n@ == name)
    }
}

/// What classification makes of one captured syscall.
pub open spec fn spec_classified(st: State, args: SyscallArgs, nr_name: Seq<char>, r: Result<
    Meta,
    Error,
>) -> bool {
    match args {
        SyscallArgs::Chdir { filename } => r matches Ok(m) && (m.nr_name@ == nr_name && (
        m.typed matches Some(Typed::Chdir { path }) && path@ == spec_path_join(
            st.wd@,
            filename@,
        ))),
        SyscallArgs::Close { fd } => r matches Ok(m) && (m.nr_name@ == nr_name && (
        m.typed matches Some(Typed::Close { fd: f }) && f == fd)),
        SyscallArgs::CloseRange { fd, max_fd } => r matches Ok(m) && (m.nr_name@ == nr_name && (
        m.typed matches Some(Typed::CloseRange { lo, hi }) && (lo == fd && hi == max_fd))),
        SyscallArgs::Open { flags, filename } => r matches Ok(m) && (m.nr_name@ == nr_name && (
        m.typed matches Some(Typed::FdCreate { meta }) && (meta.flags == flags && (
        meta.ty matches crate::fd::Type::File { path } && path == filename)))),
        SyscallArgs::Openat { dfd, flags, filename } => (match r {
            Ok(m) => m.nr_name@ == nr_name && (m.typed matches Some(Typed::FdCreate { meta }) && (
            meta.flags == flags && (meta.ty matches crate::fd::Type::File { path }
                && spec_resolved_at(st, dfd, filename@, Ok(path))))),
            Err(e) => spec_resolved_at(st, dfd, filename@, Err(e)),
        }),
        SyscallArgs::Openat2 { dfd, flags, filename } => (match r {
            Ok(m) => m.nr_name@ == nr_name && (m.typed matches Some(Typed::FdCreate { meta }) && (
            meta.flags == flags && (meta.ty matches crate::fd::Type::File { path }
                && spec_resolved_at(st, dfd, filename@, Ok(path))))),
            Err(e) => spec_resolved_at(st, dfd, filename@, Err(e)),
        }),
        SyscallArgs::Pipe => r matches Ok(m) && (m.nr_name@ == nr_name && (m.typed matches Some(
            Typed::FdCreate { meta },
        ) && (meta.flags == 0 && meta.ty matches crate::fd::Type::Fifo))),
        SyscallArgs::Pipe2 { flags } => r matches Ok(m) && (m.nr_name@ == nr_name && (
        m.typed matches Some(Typed::FdCreate { meta }) && (meta.flags == flags
            && meta.ty matches crate::fd::Type::Fifo))),
        SyscallArgs::Socket { family, ty } => (match spec_sock_kind(ty) {
            Some(kind) => r matches Ok(m) && (m.nr_name@ == nr_name && (m.typed matches Some(
                Typed::FdCreate { meta },
            ) && (meta.flags == (if ty & SOCK_CLOEXEC == SOCK_CLOEXEC {
                O_CLOEXEC
            } else {
                0
            }) && (meta.ty matches crate::fd::Type::Socket { domain, ty: k } && (domain
                == (SocketDomain { raw: family }) && k == kind))))),
            None => r matches Err(e) && (e matches Error::SocketTypeUnknown(t) && t == ty),
        }),
        SyscallArgs::Ioctl { cmd, fd } => r matches Ok(m) && (m.nr_name@ == nr_name && (
        m.typed matches Some(Typed::Ioctl { cmd: c, fd: f }) && (c == cmd && f == fd))),
        SyscallArgs::Execve { filename, argv, envp } => r matches Ok(m) && (m.nr_name@ == nr_name
            && (m.typed matches Some(Typed::Exec { path, argv: a, envp: e }) && (path == filename
            && (a == argv && e == envp)))),
        SyscallArgs::Execveat { filename, argv, envp } => r matches Ok(m) && (m.nr_name@ == nr_name
            && (m.typed matches Some(Typed::Exec { path, argv: a, envp: e }) && (path == filename
            && (a == argv && e == envp)))),
        SyscallArgs::Other => r matches Ok(m) && (m.nr_name@ == nr_name && m.typed is None),
    }
}

/// The frame of exit-side resolution: everything about the state except
/// its descriptor table, working directory and exec history is untouched.
pub open spec fn spec_resolution_frame(pre: State, post: State) -> bool {
    &&& post.pid == pre.pid
    &&& post.waiting_for_start == pre.waiting_for_start
    &&& post.caps == pre.caps
    &&& post.functions == pre.functions
    &&& post.call_graph == pre.call_graph
}

/// What exit-side resolution of record `m` does: the state mutation per
/// typed record, and the result — the `ioctl` classification when the
/// descriptor's type carries one, otherwise exactly the name-keyed table's
/// capability set, or a missing-name error.
pub open spec fn spec_resolved(
    m: Meta,
    pre: State,
    post: State,
    sval: i64,
    records: Seq<(Seq<char>, Seq<crate::caps::Capability>)>,
    inferred: Option<crate::fd::Meta>,
    r: Result<CapSet, Error>,
) -> bool {
    &&& spec_resolution_frame(pre, post)
    &&& (match r {
        Ok(caps) => caps.wf(),
        Err(_) => true,
    })
    &&& (match m.typed {
        Some(Typed::Chdir { path }) => {
            &&& post.wd == path
            &&& post.fds == pre.fds
            &&& post.execs == pre.execs
            &&& spec_named_caps(records, m.nr_name@, r)
        },
        Some(Typed::Close { fd }) => {
            &&& spec_fd_lookup(post.fds@, fd) is None
            &&& (forall|d: u64|
                d != fd ==> spec_fd_lookup(post.fds@, d) == spec_fd_lookup(pre.fds@, d))
            &&& post.wd == pre.wd
            &&& post.execs == pre.execs
            &&& spec_named_caps(records, m.nr_name@, r)
        },
        Some(Typed::CloseRange { lo, hi }) => {
            &&& post.fds@ == pre.fds@.filter(|p: (u64, crate::fd::Meta)| !(lo <= p.0 <= hi))
            &&& post.wd == pre.wd
            &&& post.execs == pre.execs
            &&& spec_named_caps(records, m.nr_name@, r)
        },
        Some(Typed::Exec { path, argv, envp }) => {
            &&& post.execs@.len() == pre.execs@.len() + 1
            &&& post.execs@.last().command == path
            &&& post.execs@.last().argv == argv
            &&& post.execs@.last().envp == envp
            &&& (forall|i: int| 0 <= i < pre.execs@.len() ==> post.execs@[i] == pre.execs@[i])
            &&& post.fds@ == pre.fds@.filter(
                |p: (u64, crate::fd::Meta)| !crate::fd::spec_is_cloexec(p.1.flags),
            )
            &&& post.wd == pre.wd
            &&& spec_named_caps(records, m.nr_name@, r)
        },
        Some(Typed::FdCreate { meta }) => {
            &&& spec_fd_lookup(post.fds@, sval as u64) == Some(meta)
            &&& (forall|d: u64|
                d != sval as u64 ==> spec_fd_lookup(post.fds@, d) == spec_fd_lookup(pre.fds@, d))
            &&& post.wd == pre.wd
            &&& post.execs == pre.execs
            &&& spec_named_caps(records, m.nr_name@, r)
        },
        Some(Typed::Ioctl { cmd, fd }) => {
            let meta = if spec_fd_lookup(pre.fds@, fd) is Some {
                spec_fd_lookup(pre.fds@, fd)
            } else {
                inferred
            };
            &&& post.wd == pre.wd
            &&& post.execs == pre.execs
            &&& (match meta {
                Some(mm) => {
                    &&& spec_fd_lookup(post.fds@, fd) == Some(mm)
                    &&& (forall|d: u64|
                        d != fd ==> spec_fd_lookup(post.fds@, d) == spec_fd_lookup(pre.fds@, d))
                    &&& (match crate::fd::spec_ioctl_caps(mm.ty) {
                        Some(c) => r matches Ok(caps) && (caps@.len() == 1 && caps@[0] == c),
                        None => spec_named_caps(records, m.nr_name@, r),
                    })
                },
                None => {
                    &&& post.fds == pre.fds
                    &&& spec_named_caps(records, m.nr_name@, r)
                },
            })
        },
        None => {
            &&& post == pre
            &&& spec_named_caps(records, m.nr_name@, r)
        },
    })
}

impl Meta {
    /// Classify one captured syscall against the current process state,
    /// exactly as `spec_classified` describes. An unknown anchor
    /// descriptor fails with `FdUnknown` so the caller can infer it from
    /// procfs, record it, and retry.
    pub fn try_from_syscall(state: &State, nr_name: String, args: SyscallArgs) -> (r: Result<
        Meta,
        Error,
    >)
        ensures
            spec_classified(*state, args, nr_name@, r),
    {
        match args {
            SyscallArgs::Chdir { filename } => {
                // The new working directory is resolved against the
                // current one, so later joins use an absolute base.
                let path = state.resolve(filename.as_str());
                Ok(Meta { nr_name, typed: Some(Typed::Chdir { path }) })
            },
            SyscallArgs::Close { fd } => Ok(Meta { nr_name, typed: Some(Typed::Close { fd }) }),
            SyscallArgs::CloseRange { fd, max_fd } => Ok(
                Meta { nr_name, typed: Some(Typed::CloseRange { lo: fd, hi: max_fd }) },
            ),
            SyscallArgs::Open { flags, filename } => Ok(
                Meta {
                    nr_name,
                    typed: Some(
                        Typed::FdCreate {
                            meta: crate::fd::Meta::new(
                                flags,
                                crate::fd::Type::File { path: filename },
                            ),
                        },
                    ),
                },
            ),
            SyscallArgs::Openat { dfd, flags, filename } => {
                let path = match resolve_at_syscall(state, dfd, filename) {
                    Ok(path) => path,
                    Err(e) => {
                        return Err(e);
                    },
                };
                Ok(
                    Meta {
                        nr_name,
                        typed: Some(
                            Typed::FdCreate {
                                meta: crate::fd::Meta::new(flags, crate::fd::Type::File { path }),
                            },
                        ),
                    },
                )
            },
            SyscallArgs::Openat2 { dfd, flags, filename } => {
                let path = match resolve_at_syscall(state, dfd, filename) {
                    Ok(path) => path,
                    Err(e) => {
                        return Err(e);
                    },
                };
                Ok(
                    Meta {
                        nr_name,
                        typed: Some(
                            Typed::FdCreate {
                                meta: crate::fd::Meta::new(flags, crate::fd::Type::File { path }),
                            },
                        ),
                    },
                )
            },
            SyscallArgs::Pipe => Ok(
                Meta {
                    nr_name,
                    typed: Some(
                        Typed::FdCreate { meta: crate::fd::Meta::new(0, crate::fd::Type::Fifo) },
                    ),
                },
            ),
            SyscallArgs::Pipe2 { flags } => Ok(
                Meta {
                    nr_name,
                    typed: Some(
                        Typed::FdCreate {
                            meta: crate::fd::Meta::new(flags, crate::fd::Type::Fifo),
                        },
                    ),
                },
            ),
            SyscallArgs::Socket { family, ty } => {
                let kind = match decode_sock_kind(ty) {
                    Ok(kind) => kind,
                    Err(e) => {
                        return Err(e);
                    },
                };
                let flags: i32 = if ty & SOCK_CLOEXEC == SOCK_CLOEXEC {
                    O_CLOEXEC
                } else {
                    0
                };
                Ok(
                    Meta {
                        nr_name,
                        typed: Some(
                            Typed::FdCreate {
                                meta: crate::fd::Meta::new(
                                    flags,
                                    crate::fd::Type::Socket {
                                        domain: SocketDomain { raw: family },
                                        ty: kind,
                                    },
                                ),
                            },
                        ),
                    },
                )
            },
            SyscallArgs::Ioctl { cmd, fd } => Ok(
                Meta { nr_name, typed: Some(Typed::Ioctl { cmd, fd }) },
            ),
            SyscallArgs::Execve { filename, argv, envp } => Ok(
                Meta { nr_name, typed: Some(Typed::Exec { path: filename, argv, envp }) },
            ),
            SyscallArgs::Execveat { filename, argv, envp } => Ok(
                Meta { nr_name, typed: Some(Typed::Exec { path: filename, argv, envp }) },
            ),
            SyscallArgs::Other => Ok(Meta { nr_name, typed: None }),
        }
    }

    /// The descriptor that exit-side resolution will need but the state
    /// does not know, if any: an `ioctl` on an unseen descriptor.
    pub fn needs_fd(&self, state: &State) -> (r: Option<u64>)
        ensures
            match r {
                Some(fd) => self.typed matches Some(Typed::Ioctl { fd: f, .. }) && (f == fd
                    && spec_fd_lookup(state.fds@, fd) is None),
                None => !(self.typed matches Some(Typed::Ioctl { fd, .. }) && spec_fd_lookup(
                    state.fds@,
                    fd,
                ) is None),
            },
    {
        if let Some(Typed::Ioctl { fd, .. }) = &self.typed {
            if state.get_fd(*fd).is_none() {
                return Some(*fd);
            }
        }
        None
    }

    /// Resolve this syscall to capabilities at exit, applying its state
    /// mutation first: `chdir` moves the working directory, closes drop
    /// descriptors, execs are recorded, a created descriptor is entered
    /// under the returned value, and an `ioctl` is classified by its
    /// descriptor's type — inserting `inferred` when the descriptor was
    /// unseen — falling back to the name-keyed capability table when the
    /// type carries no classification. Every other syscall is resolved by
    /// name alone; a name missing from the table is an error.
    pub fn into_capabilities(
        self,
        state: &mut State,
        sval: i64,
        table: &CapabilityMap,
        inferred: Option<crate::fd::Meta>,
    ) -> (r: Result<CapSet, Error>)
        requires
            old(state).wf(),
            table.wf(),
            sval >= 0,
        ensures
            final(state).wf(),
            spec_resolved(
                self,
                *old(state),
                *final(state),
                sval,
                table.records(),
                inferred,
                r,
            ),
    {
        match self.typed {
            Some(Typed::Chdir { path }) => {
                state.set_working_directory(path);
            },
            Some(Typed::Close { fd }) => {
                state.close(fd);
            },
            Some(Typed::CloseRange { lo, hi }) => {
                state.close_range(lo, hi);
            },
            Some(Typed::Exec { path, argv, envp }) => {
                state.add_exec(Exec::new(path, argv, envp));
                // Close-on-exec descriptors do not survive the exec.
                state.drop_cloexec();
            },
            Some(Typed::FdCreate { meta }) => {
                state.insert_fd(sval as u64, meta);
            },
            Some(Typed::Ioctl { cmd, fd }) => {
                let meta_opt: Option<crate::fd::Meta> = match state.get_fd(fd) {
                    Some(m) => Some(m.clone()),
                    None => match inferred {
                        Some(m) => {
                            state.insert_fd(fd, m.clone());
                            Some(m)
                        },
                        None => None,
                    },
                };
                if let Some(m) = meta_opt {
                    match ioctl_caps(cmd, &m.ty) {
                        Ok(caps) => {
                            return Ok(caps);
                        },
                        Err(_) => {
                        },
                    }
                }
            },
            None => {
            },
        }
        match table.lookup(self.nr_name.as_str()) {
            Some(caps) => Ok(caps),
            None => Err(Error::SyscallMissingFromMap(self.nr_name)),
        }
    }
}

} // verus!
