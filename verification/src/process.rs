//! Per-process tracer state: the working directory, the typed descriptor
//! table, exec history, accumulated capabilities, the per-process function
//! map and call graph; and the process map that tracks clones and exits.
use vstd::prelude::*;

use crate::capmap::{spec_set_contains, CapSet};
use crate::fd::{spec_fd_lookup, spec_is_cloexec, Table};
use crate::function::FunctionMap;
use crate::graph::CallGraph;
use crate::report::{Function, Process, Report};

verus! {

/// A failure in process bookkeeping or syscall interpretation.
#[derive(Debug)]
pub enum Error {
    /// The init process was not in the active table at report time.
    ChildMissing(i32),
    /// A descriptor that the state does not know; the caller may infer it
    /// from procfs and retry.
    FdUnknown(u64),
    /// A path relative to a descriptor that is neither directory nor file.
    Resolve { fd: u64, path: String },
    /// The parent of a clone is not an active process.
    ProcessFind(i32),
    /// An event for a pid that is not an active process.
    ProcessUnknown(i32),
    /// A syscall exit with no matching entry record.
    SyscallMetaMissing,
    /// A socket type word matching no known communication style.
    SocketTypeUnknown(i32),
    /// A syscall name absent from the syscall capability map.
    SyscallMissingFromMap(String),
    /// A descriptor's state could not be interpreted.
    Fd(crate::fd::Error),
}

/// One observed `exec`: the command and its arguments and environment.
pub struct Exec {
    pub command: String,
    pub argv: Vec<String>,
    pub envp: Vec<String>,
}

impl Exec {
    /// Bundle an exec record.
    pub fn new(command: String, argv: Vec<String>, envp: Vec<String>) -> (r: Exec)
        ensures
            r.command == command,
            r.argv == argv,
            r.envp == envp,
    {
        Exec { command, argv, envp }
    }
}

/// The state of one traced process.
pub struct State {
    pub execs: Vec<Exec>,
    pub fds: Table,
    pub pid: i32,
    pub waiting_for_start: bool,
    pub wd: String,
    pub call_graph: CallGraph,
    pub caps: CapSet,
    pub functions: FunctionMap,
}

/// Join a path onto a working directory: an absolute path stands alone, and
/// otherwise a single separator is placed between the two non-empty parts.
pub open spec fn spec_path_join(wd: Seq<char>, p: Seq<char>) -> Seq<char> {
    if p.len() > 0 && p[0] == '/' {
        p
    } else if wd.len() == 0 {
        p
    } else if wd.last() == '/' {
        wd + p
    } else {
        wd + "/"@ + p
    }
}

impl State {
    /// All the ordered containers are well formed.
    pub open spec fn wf(&self) -> bool {
        self.fds.wf() && self.caps.wf() && self.functions.wf() && self.call_graph.wf()
    }

    /// A fresh state for a process at `pid`.
    pub fn initial(pid: i32, execs: Vec<Exec>, fds: Table, wd: String, waiting_for_start: bool) -> (r:
        State)
        requires
            fds.wf(),
        ensures
            r.wf(),
            r.pid == pid,
            r.execs == execs,
            r.fds == fds,
            r.wd == wd,
            r.waiting_for_start == waiting_for_start,
            r.caps@ == Seq::<crate::caps::Capability>::empty(),
            r.call_graph.edges() == Seq::<crate::report::Edge>::empty(),
            r.functions.funcs() == Seq::<Function>::empty(),
            r.functions.names() == Seq::<Seq<char>>::empty(),
    {
        State {
            execs,
            fds,
            pid,
            waiting_for_start,
            wd,
            call_graph: CallGraph::new(),
            caps: CapSet::new(),
            functions: FunctionMap::new(),
        }
    }

    /// Record a call edge from `from` to `to`, with no location.
    pub fn add_edge(&mut self, from: usize, to: usize)
        requires
            old(self).wf(),
        ensures
            final(self).wf(),
            final(self).call_graph.edges() == crate::graph::spec_add_edge(
                old(self).call_graph.edges(),
                from,
                to,
                None,
            ),
            final(self).execs == old(self).execs,
            final(self).fds == old(self).fds,
            final(self).pid == old(self).pid,
            final(self).waiting_for_start == old(self).waiting_for_start,
            final(self).wd == old(self).wd,
            final(self).caps == old(self).caps,
            final(self).functions == old(self).functions,
    {
        self.call_graph.add_edge(from, to, None);
    }

    /// Record an observed exec.
    pub fn add_exec(&mut self, exec: Exec)
        ensures
            final(self).execs@ == old(self).execs@.push(exec),
            final(self).fds == old(self).fds,
            final(self).pid == old(self).pid,
            final(self).waiting_for_start == old(self).waiting_for_start,
            final(self).wd == old(self).wd,
            final(self).caps == old(self).caps,
            final(self).functions == old(self).functions,
            final(self).call_graph == old(self).call_graph,
    {
        self.execs.push(exec);
    }

    /// Drop a closed descriptor.
    pub fn close(&mut self, fd: u64)
        requires
            old(self).wf(),
        ensures
            final(self).wf(),
            spec_fd_lookup(final(self).fds@, fd) is None,
            forall|d: u64|
                d != fd ==> spec_fd_lookup(final(self).fds@, d) == spec_fd_lookup(
                    old(self).fds@,
                    d,
                ),
            final(self).execs == old(self).execs,
            final(self).pid == old(self).pid,
            final(self).waiting_for_start == old(self).waiting_for_start,
            final(self).wd == old(self).wd,
            final(self).caps == old(self).caps,
            final(self).functions == old(self).functions,
            final(self).call_graph == old(self).call_graph,
    {
        self.fds.remove(fd);
    }

    /// Drop every descriptor in the inclusive range `lo..=hi`.
    pub fn close_range(&mut self, lo: u64, hi: u64)
        requires
            old(self).wf(),
        ensures
            final(self).wf(),
            final(self).fds@ == old(self).fds@.filter(|p: (u64, crate::fd::Meta)| !(lo <= p.0 <= hi)),
            final(self).execs == old(self).execs,
            final(self).pid == old(self).pid,
            final(self).waiting_for_start == old(self).waiting_for_start,
            final(self).wd == old(self).wd,
            final(self).caps == old(self).caps,
            final(self).functions == old(self).functions,
            final(self).call_graph == old(self).call_graph,
    {
        self.fds.remove_range(lo, hi);
    }

    /// Drop every descriptor marked close-on-exec, as an `exec` does.
    pub fn drop_cloexec(&mut self)
        requires
            old(self).wf(),
        ensures
            final(self).wf(),
            final(self).fds@ == old(self).fds@.filter(
                |p: (u64, crate::fd::Meta)| !spec_is_cloexec(p.1.flags),
            ),
            final(self).execs == old(self).execs,
            final(self).pid == old(self).pid,
            final(self).waiting_for_start == old(self).waiting_for_start,
            final(self).wd == old(self).wd,
            final(self).caps == old(self).caps,
            final(self).functions == old(self).functions,
            final(self).call_graph == old(self).call_graph,
    {
        let kept = self.fds.non_cloexec();
        self.fds = kept;
    }

    /// Fold a capability set into the process-level capabilities.
    pub fn extend_caps(&mut self, caps: &CapSet)
        requires
            old(self).wf(),
        ensures
            final(self).wf(),
            forall|c: crate::caps::Capability|
                #[trigger] spec_set_contains(old(self).caps@, c) ==> spec_set_contains(
                    final(self).caps@,
                    c,
                ),
            forall|c: crate::caps::Capability|
                #[trigger] spec_set_contains(caps@, c) ==> spec_set_contains(
                    final(self).caps@,
                    c,
                ),
            forall|c: crate::caps::Capability|
                #[trigger] spec_set_contains(final(self).caps@, c) ==> spec_set_contains(
                    old(self).caps@,
                    c,
                ) || spec_set_contains(caps@, c),
            final(self).execs == old(self).execs,
            final(self).fds == old(self).fds,
            final(self).pid == old(self).pid,
            final(self).waiting_for_start == old(self).waiting_for_start,
            final(self).wd == old(self).wd,
            final(self).functions == old(self).functions,
            final(self).call_graph == old(self).call_graph,
    {
        let n = caps.len();
        let mut i: usize = 0;
        while i < n
            invariant
                i <= n,
                n == caps@.len(),
                self.caps.wf(),
                self.fds == old(self).fds,
                self.execs == old(self).execs,
                self.pid == old(self).pid,
                self.waiting_for_start == old(self).waiting_for_start,
                self.wd == old(self).wd,
                self.functions == old(self).functions,
                self.call_graph == old(self).call_graph,
                old(self).wf(),
                forall|c: crate::caps::Capability|
                    spec_set_contains(self.caps@, c) <==> (spec_set_contains(old(self).caps@, c)
                        || exists|j: int| 0 <= j < i && caps@[j] == c),
            decreases n - i,
        {
            let c = caps.item_at(i);
            self.caps.insert(c);
            proof {
                assert forall|d: crate::caps::Capability|
                    spec_set_contains(self.caps@, d) <==> (spec_set_contains(old(self).caps@, d)
                        || exists|j: int| 0 <= j < i + 1 && caps@[j] == d) by {
                    if d == c {
                        assert(caps@[i as int] == d);
                    } else {
                        if exists|j: int| 0 <= j < i + 1 && caps@[j] == d {
                            let j = choose|j: int| 0 <= j < i + 1 && caps@[j] == d;
                            assert(j < i);
                        }
                    }
                }
            }
            i += 1;
        }
        proof {
            assert forall|c: crate::caps::Capability|
                spec_set_contains(self.caps@, c) <==> (spec_set_contains(old(self).caps@, c)
                    || spec_set_contains(caps@, c)) by {}
            assert forall|c: crate::caps::Capability|
                #[trigger] spec_set_contains(old(self).caps@, c) implies spec_set_contains(
                self.caps@,
                c,
            ) by {}
            assert forall|c: crate::caps::Capability|
                #[trigger] spec_set_contains(caps@, c) implies spec_set_contains(
                self.caps@,
                c,
            ) by {}
            assert forall|c: crate::caps::Capability|
                #[trigger] spec_set_contains(self.caps@, c) implies spec_set_contains(
                old(self).caps@,
                c,
            ) || spec_set_contains(caps@, c) by {}
        }
    }

    /// The metadata recorded for a descriptor, if any.
    pub fn get_fd(&self, fd: u64) -> (r: Option<&crate::fd::Meta>)
        ensures
            match r {
                Some(m) => spec_fd_lookup(self.fds@, fd) == Some(*m),
                None => spec_fd_lookup(self.fds@, fd) is None,
            },
    {
        self.fds.get(fd)
    }

    /// Record metadata for a descriptor.
    pub fn insert_fd(&mut self, fd: u64, meta: crate::fd::Meta)
        requires
            old(self).wf(),
        ensures
            final(self).wf(),
            spec_fd_lookup(final(self).fds@, fd) == Some(meta),
            forall|d: u64|
                d != fd ==> spec_fd_lookup(final(self).fds@, d) == spec_fd_lookup(
                    old(self).fds@,
                    d,
                ),
            final(self).execs == old(self).execs,
            final(self).pid == old(self).pid,
            final(self).waiting_for_start == old(self).waiting_for_start,
            final(self).wd == old(self).wd,
            final(self).caps == old(self).caps,
            final(self).functions == old(self).functions,
            final(self).call_graph == old(self).call_graph,
    {
        self.fds.insert(fd, meta);
    }

    /// Whether attribution is still suppressed.
    pub fn is_waiting_for_start(&self) -> (r: bool)
        ensures
            r == self.waiting_for_start,
    {
        self.waiting_for_start
    }

    /// The process id this state belongs to.
    pub fn pid(&self) -> (r: i32)
        ensures
            r == self.pid,
    {
        self.pid
    }

    /// Resolve `path` against the working directory.
    pub fn resolve(&self, path: &str) -> (r: String)
        ensures
            r@ == spec_path_join(self.wd@, path@),
    {
        let plen = path.unicode_len();
        if plen > 0 && path.get_char(0) == '/' {
            return String::from_str(path);
        }
        let wdlen = self.wd.as_str().unicode_len();
        if wdlen == 0 {
            return String::from_str(path);
        }
        let mut r = self.wd.clone();
        if self.wd.as_str().get_char(wdlen - 1) != '/' {
            r.append("/");
        }
        r.append(path);
        r
    }

    /// Replace the working directory.
    pub fn set_working_directory(&mut self, path: String)
        ensures
            final(self).wd == path,
            final(self).execs == old(self).execs,
            final(self).fds == old(self).fds,
            final(self).pid == old(self).pid,
            final(self).waiting_for_start == old(self).waiting_for_start,
            final(self).caps == old(self).caps,
            final(self).functions == old(self).functions,
            final(self).call_graph == old(self).call_graph,
    {
        self.wd = path;
    }

    /// Record that the `_start` frame has been observed.
    pub fn start_seen(&mut self)
        ensures
            final(self).waiting_for_start == false,
            final(self).execs == old(self).execs,
            final(self).fds == old(self).fds,
            final(self).pid == old(self).pid,
            final(self).wd == old(self).wd,
            final(self).caps == old(self).caps,
            final(self).functions == old(self).functions,
            final(self).call_graph == old(self).call_graph,
    {
        self.waiting_for_start = false;
    }

    /// Record a function under its mangled name, keeping its index stable.
    pub fn upsert_function(&mut self, mangled: &str, function: Function) -> (idx: usize)
        requires
            old(self).wf(),
            function.wf(),
        ensures
            final(self).wf(),
            idx as int == crate::function::spec_upsert_idx(old(self).functions.names(), mangled@),
            final(self).functions.names() == crate::function::spec_upsert_names(
                old(self).functions.names(),
                mangled@,
            ),
            final(self).functions.funcs() == match crate::function::spec_find_name(
                old(self).functions.names(),
                mangled@,
            ) {
                Some(_) => old(self).functions.funcs(),
                None => old(self).functions.funcs().push(function),
            },
            idx < final(self).functions.funcs().len(),
            final(self).execs == old(self).execs,
            final(self).fds == old(self).fds,
            final(self).pid == old(self).pid,
            final(self).waiting_for_start == old(self).waiting_for_start,
            final(self).wd == old(self).wd,
            final(self).caps == old(self).caps,
            final(self).call_graph == old(self).call_graph,
    {
        self.functions.upsert(mangled, function)
    }

    /// Give up this state as a report process: the path of its first exec,
    /// its capability set, its functions and its call edges.
    pub fn into_process(self) -> (r: Process)
        ensures
            spec_is_process_of(self, r),
    {
        let mut execs = self.execs;
        let path = if execs.len() > 0 {
            let first = execs.remove(0);
            first.command
        } else {
            String::new()
        };
        Process {
            path,
            capabilities: self.caps,
            functions: self.functions.into_functions(),
            edges: self.call_graph.into_edges(),
        }
    }
}

/// `p` is the report process that `st` gives up: its path is the first
/// exec's command (or empty), and its capabilities, functions and edges are
/// the state's.
pub open spec fn spec_is_process_of(st: State, p: Process) -> bool {
    &&& p.path@ == if st.execs@.len() > 0 {
        st.execs@[0].command@
    } else {
        Seq::<char>::empty()
    }
    &&& p.capabilities == st.caps
    &&& p.functions@ == st.functions.funcs()
    &&& p.edges@ == st.call_graph.edges()
}

/// First-match lookup of a process state by pid.
pub open spec fn spec_pid_has(entries: Seq<(i32, State)>, pid: i32) -> bool {
    exists|i: int| 0 <= i < entries.len() && (#[trigger] entries[i]).0 == pid
}

/// The state recorded for `pid`, if any.
pub open spec fn spec_active_state(entries: Seq<(i32, State)>, pid: i32) -> Option<State>
    decreases entries.len(),
{
    if entries.len() == 0 {
        None
    } else if entries[0].0 == pid {
        Some(entries[0].1)
    } else {
        spec_active_state(entries.drop_first(), pid)
    }
}

/// A first match at `k` is what pid lookup finds.
proof fn lemma_active_found(entries: Seq<(i32, State)>, pid: i32, k: int)
    requires
        0 <= k < entries.len(),
        entries[k].0 == pid,
        forall|j: int| 0 <= j < k ==> entries[j].0 != pid,
    ensures
        spec_active_state(entries, pid) == Some(entries[k].1),
    decreases k,
{
    if k > 0 {
        assert forall|j: int| 0 <= j < k - 1 implies entries.drop_first()[j].0 != pid by {
            assert(entries.drop_first()[j] == entries[j + 1]);
        }
        assert(entries.drop_first()[k - 1] == entries[k]);
        lemma_active_found(entries.drop_first(), pid, k - 1);
    }
}

/// A pid out of every entry is absent.
proof fn lemma_active_absent(entries: Seq<(i32, State)>, pid: i32)
    requires
        forall|j: int| 0 <= j < entries.len() ==> entries[j].0 != pid,
    ensures
        spec_active_state(entries, pid) is None,
    decreases entries.len(),
{
    if entries.len() > 0 {
        assert forall|j: int| 0 <= j < entries.drop_first().len() implies entries.drop_first()[j].0
            != pid by {
            assert(entries.drop_first()[j] == entries[j + 1]);
        }
        lemma_active_absent(entries.drop_first(), pid);
    }
}

/// Removing another pid's entry leaves a pid's lookup alone.
proof fn lemma_active_remove_other(entries: Seq<(i32, State)>, i: int, d: i32)
    requires
        0 <= i < entries.len(),
        entries[i].0 != d,
    ensures
        spec_active_state(entries.remove(i), d) == spec_active_state(entries, d),
    decreases entries.len(),
{
    let n = entries.remove(i);
    if i == 0 {
        assert(n =~= entries.drop_first());
    } else {
        assert(n[0] == entries[0]);
        assert(n.drop_first() =~= entries.drop_first().remove(i - 1));
        assert(entries.drop_first()[i - 1] == entries[i]);
        lemma_active_remove_other(entries.drop_first(), i - 1, d);
    }
}

/// Inserting another pid's entry leaves a pid's lookup alone.
proof fn lemma_active_insert_other(entries: Seq<(i32, State)>, k: int, pid: i32, st: State, d: i32)
    requires
        0 <= k <= entries.len(),
        d != pid,
    ensures
        spec_active_state(entries.insert(k, (pid, st)), d) == spec_active_state(entries, d),
    decreases k,
{
    let n = entries.insert(k, (pid, st));
    if k == 0 {
        assert(n[0] == (pid, st));
        assert(n.drop_first() =~= entries);
    } else {
        assert(n[0] == entries[0]);
        assert(n.drop_first() =~= entries.drop_first().insert(k - 1, (pid, st)));
        lemma_active_insert_other(entries.drop_first(), k - 1, pid, st, d);
    }
}

/// The process map: active processes, exited ones, and the init pid whose
/// state anchors the report.
pub struct ProcessMap {
    active: Vec<(i32, State)>,
    inactive: Vec<(i32, State)>,
    include_before_start: bool,
    init_pid: i32,
}

impl ProcessMap {
    /// The active processes, in pid order.
    pub closed spec fn actives(&self) -> Seq<(i32, State)> {
        self.active@
    }

    /// The exited processes, in exit order.
    pub closed spec fn inactives(&self) -> Seq<(i32, State)> {
        self.inactive@
    }

    /// The pid the trace started with.
    pub closed spec fn spec_init_pid(&self) -> i32 {
        self.init_pid
    }

    /// Whether frames before `_start` are attributed.
    pub closed spec fn spec_include_before_start(&self) -> bool {
        self.include_before_start
    }

    /// Active pids are sorted and unique, and all states are well formed.
    pub open spec fn wf(&self) -> bool {
        &&& forall|i: int, j: int|
            0 <= i < j < self.actives().len() ==> (#[trigger] self.actives()[i]).0 < (
            #[trigger] self.actives()[j]).0
        &&& forall|i: int| 0 <= i < self.actives().len() ==> (#[trigger] self.actives()[i]).1.wf()
        &&& forall|i: int|
            0 <= i < self.inactives().len() ==> (#[trigger] self.inactives()[i]).1.wf()
    }

    /// A map holding only the init process, with its first exec, an empty
    /// descriptor table, and the given working directory.
    pub fn new(init_pid: i32, init_exec: Exec, init_wd: String, include_before_start: bool) -> (r:
        ProcessMap)
        ensures
            r.wf(),
            r.spec_init_pid() == init_pid,
            r.spec_include_before_start() == include_before_start,
            r.actives().len() == 1,
            r.actives()[0].0 == init_pid,
            r.actives()[0].1.pid == init_pid,
            r.actives()[0].1.execs@ == seq![init_exec],
            r.actives()[0].1.wd == init_wd,
            r.actives()[0].1.waiting_for_start == !include_before_start,
            r.actives()[0].1.fds@ == Seq::<(u64, crate::fd::Meta)>::empty(),
            r.inactives().len() == 0,
    {
        let mut execs: Vec<Exec> = Vec::new();
        execs.push(init_exec);
        let st = State::initial(init_pid, execs, Table::new(), init_wd, !include_before_start);
        let mut active: Vec<(i32, State)> = Vec::new();
        active.push((init_pid, st));
        ProcessMap { active, inactive: Vec::new(), include_before_start, init_pid }
    }

    /// The state of an active process.
    pub fn get_active(&self, pid: i32) -> (r: Option<&State>)
        ensures
            match r {
                Some(st) => spec_active_state(self.actives(), pid) == Some(*st) && exists|i: int|
                    0 <= i < self.actives().len() && (#[trigger] self.actives()[i]).0 == pid
                        && self.actives()[i].1 == *st,
                None => !spec_pid_has(self.actives(), pid) && spec_active_state(
                    self.actives(),
                    pid,
                ) is None,
            },
    {
        let mut i: usize = 0;
        while i < self.active.len()
            invariant
                i <= self.actives().len(),
                forall|j: int| 0 <= j < i ==> (#[trigger] self.actives()[j]).0 != pid,
            decreases self.actives().len() - i,
        {
            if self.active[i].0 == pid {
                proof {
                    lemma_active_found(self.actives(), pid, i as int);
                }
                return Some(&self.active[i].1);
            }
            i += 1;
        }
        proof {
            lemma_active_absent(self.actives(), pid);
        }
        None
    }

    /// Remove and return the state of an active process, for mutation.
    pub fn take_active(&mut self, pid: i32) -> (r: Option<State>)
        requires
            old(self).wf(),
        ensures
            final(self).wf(),
            final(self).spec_init_pid() == old(self).spec_init_pid(),
            final(self).spec_include_before_start() == old(self).spec_include_before_start(),
            final(self).inactives() == old(self).inactives(),
            match r {
                Some(st) => {
                    &&& st.wf()
                    &&& exists|i: int|
                        0 <= i < old(self).actives().len() && old(self).actives()[i] == (pid, st)
                            && final(self).actives() =~= old(self).actives().remove(i)
                    &&& !spec_pid_has(final(self).actives(), pid)
                    &&& spec_active_state(old(self).actives(), pid) == Some(st)
                    &&& spec_active_state(final(self).actives(), pid) is None
                    &&& forall|d: i32|
                        d != pid ==> spec_active_state(final(self).actives(), d)
                            == spec_active_state(old(self).actives(), d)
                },
                None => {
                    &&& !spec_pid_has(old(self).actives(), pid)
                    &&& final(self).actives() == old(self).actives()
                    &&& spec_active_state(old(self).actives(), pid) is None
                },
            },
    {
        let mut i: usize = 0;
        while i < self.active.len()
            invariant
                i <= self.actives().len(),
                *self == *old(self),
                old(self).wf(),
                forall|j: int| 0 <= j < i ==> (#[trigger] self.actives()[j]).0 != pid,
            decreases self.actives().len() - i,
        {
            if self.active[i].0 == pid {
                let entry = self.active.remove(i);
                proof {
                    let o = old(self).actives();
                    let n = self.actives();
                    assert(n =~= o.remove(i as int));
                    assert forall|j: int| 0 <= j < n.len() implies (#[trigger] n[j]).0 != pid by {
                        if j < i {
                            assert(n[j] == o[j]);
                        } else {
                            assert(n[j] == o[j + 1]);
                            assert(o[i as int].0 < o[j + 1].0);
                        }
                    }
                    assert forall|x: int, y: int| 0 <= x < y < n.len() implies (#[trigger] n[x]).0
                        < (#[trigger] n[y]).0 by {
                        let ox = if x < i {
                            x
                        } else {
                            x + 1
                        };
                        let oy = if y < i {
                            y
                        } else {
                            y + 1
                        };
                        assert(n[x] == o[ox]);
                        assert(n[y] == o[oy]);
                    }
                    assert forall|x: int| 0 <= x < n.len() implies (#[trigger] n[x]).1.wf() by {
                        if x < i {
                            assert(n[x] == o[x]);
                        } else {
                            assert(n[x] == o[x + 1]);
                        }
                    }
                    assert forall|x: int|
                        0 <= x < self.inactives().len() implies (
                    #[trigger] self.inactives()[x]).1.wf() by {
                        assert(self.inactives()[x] == old(self).inactives()[x]);
                    }
                    lemma_active_found(o, pid, i as int);
                    lemma_active_absent(n, pid);
                    assert forall|d: i32| d != pid implies spec_active_state(n, d)
                        == spec_active_state(o, d) by {
                        lemma_active_remove_other(o, i as int, d);
                    }
                }
                return Some(entry.1);
            }
            i += 1;
        }
        proof {
            lemma_active_absent(self.actives(), pid);
        }
        None
    }

    /// Put a process state back under its pid, which must not be active.
    pub fn put_active(&mut self, pid: i32, st: State)
        requires
            old(self).wf(),
            st.wf(),
            !spec_pid_has(old(self).actives(), pid),
        ensures
            final(self).wf(),
            final(self).spec_init_pid() == old(self).spec_init_pid(),
            final(self).spec_include_before_start() == old(self).spec_include_before_start(),
            final(self).inactives() == old(self).inactives(),
            exists|i: int|
                0 <= i < final(self).actives().len() && (#[trigger] final(self).actives()[i]) == (
                pid,
                st,
            ) && final(self).actives() =~= old(self).actives().insert(i, (pid, st)),
            spec_active_state(final(self).actives(), pid) == Some(st),
            forall|d: i32|
                d != pid ==> spec_active_state(final(self).actives(), d) == spec_active_state(
                    old(self).actives(),
                    d,
                ),
    {
        let mut i: usize = 0;
        while i < self.active.len() && self.active[i].0 < pid
            invariant
                i <= self.actives().len(),
                *self == *old(self),
                old(self).wf(),
                !spec_pid_has(old(self).actives(), pid),
                forall|j: int| 0 <= j < i ==> (#[trigger] self.actives()[j]).0 < pid,
            decreases self.actives().len() - i,
        {
            i += 1;
        }
        proof {
            if i < self.actives().len() {
                assert(self.actives()[i as int].0 != pid);
            }
        }
        self.active.insert(i, (pid, st));
        proof {
            let o = old(self).actives();
            let n = self.actives();
            assert(n =~= o.insert(i as int, (pid, st)));
            assert(n[i as int] == (pid, st));
            assert forall|x: int, y: int| 0 <= x < y < n.len() implies (#[trigger] n[x]).0 < (
            #[trigger] n[y]).0 by {
                if y < i {
                } else if x >= i + 1 {
                    assert(n[x] == o[x - 1]);
                    assert(n[y] == o[y - 1]);
                } else if y == i {
                    assert(n[x] == o[x]);
                } else if x == i {
                    assert(n[y] == o[y - 1]);
                    assert(o[y - 1].0 != pid);
                    if y - 1 > i {
                        assert(o[i as int].0 < o[y - 1].0);
                    }
                } else {
                    assert(n[x] == o[x]);
                    assert(n[y] == o[y - 1]);
                    assert(o[y - 1].0 != pid);
                }
            }
            assert forall|x: int| 0 <= x < n.len() implies (#[trigger] n[x]).1.wf() by {
                if x < i {
                    assert(n[x] == o[x]);
                } else if x > i {
                    assert(n[x] == o[x - 1]);
                }
            }
            assert forall|x: int|
                0 <= x < self.inactives().len() implies (#[trigger] self.inactives()[x]).1.wf() by {
                assert(self.inactives()[x] == old(self).inactives()[x]);
            }
            assert forall|j: int| 0 <= j < i implies n[j].0 != pid by {
                assert(n[j] == o[j]);
                assert(o[j].0 < pid);
            }
            lemma_active_found(n, pid, i as int);
            assert forall|d: i32| d != pid implies spec_active_state(n, d) == spec_active_state(
                o,
                d,
            ) by {
                lemma_active_insert_other(o, i as int, pid, st, d);
            }
        }
    }

    /// Mark a process exited: its state moves to the inactive list, except
    /// that the init process stays active to anchor the report.
    pub fn exit(&mut self, pid: i32)
        requires
            old(self).wf(),
        ensures
            final(self).wf(),
            final(self).spec_init_pid() == old(self).spec_init_pid(),
            final(self).spec_include_before_start() == old(self).spec_include_before_start(),
            pid == old(self).spec_init_pid() || !spec_pid_has(old(self).actives(), pid) ==> final(self).actives() == old(self).actives() && final(self).inactives() == old(self).inactives(),
            pid != old(self).spec_init_pid() && spec_pid_has(old(self).actives(), pid) ==> exists|
                i: int,
            |
                0 <= i < old(self).actives().len() && (#[trigger] old(self).actives()[i]).0 == pid
                    && final(self).actives() =~= old(self).actives().remove(i) && final(self).inactives() =~= old(self).inactives().push(old(self).actives()[i]),
    {
        if pid == self.init_pid {
            return ;
        }
        match self.take_active(pid) {
            Some(st) => {
                self.inactive.push((pid, st));
            },
            None => {
            },
        }
    }

    /// Spawn a child at `clone`: it inherits the parent's working directory
    /// and every descriptor without `O_CLOEXEC`, starts with no exec
    /// history, no capabilities, and an empty function map and call graph.
    pub fn spawn(&mut self, parent: i32, child: i32) -> (r: Result<(), Error>)
        requires
            old(self).wf(),
            !spec_pid_has(old(self).actives(), child),
        ensures
            final(self).wf(),
            final(self).spec_init_pid() == old(self).spec_init_pid(),
            final(self).spec_include_before_start() == old(self).spec_include_before_start(),
            final(self).inactives() == old(self).inactives(),
            match r {
                Ok(_) => exists|i: int, k: int|
                    {
                        &&& 0 <= i < old(self).actives().len()
                        &&& (#[trigger] old(self).actives()[i]).0 == parent
                        &&& 0 <= k < final(self).actives().len()
                        &&& (#[trigger] final(self).actives()[k]).0 == child
                        &&& final(self).actives()[k].1.fds@ == old(self).actives()[i].1.fds@.filter(
                            |p: (u64, crate::fd::Meta)| !spec_is_cloexec(p.1.flags),
                        )
                        &&& final(self).actives()[k].1.wd == old(self).actives()[i].1.wd
                        &&& final(self).actives()[k].1.pid == child
                        &&& final(self).actives()[k].1.execs@.len() == 0
                        &&& final(self).actives()[k].1.caps@.len() == 0
                        &&& final(self).actives()[k].1.waiting_for_start == !old(self).spec_include_before_start()
                        &&& final(self).actives() =~= old(self).actives().insert(k, final(self).actives()[k])
                    },
                Err(e) => {
                    &&& !spec_pid_has(old(self).actives(), parent)
                    &&& final(self).actives() == old(self).actives()
                    &&& (e matches Error::ProcessFind(p) && p == parent)
                },
            },
    {
        let ibs = self.include_before_start;
        let (fds, wd) = match self.get_active(parent) {
            Some(p) => (p.fds.non_cloexec(), p.wd.clone()),
            None => {
                return Err(Error::ProcessFind(parent));
            },
        };
        let st = State::initial(child, Vec::new(), fds, wd, !ibs);
        self.put_active(child, st);
        Ok(())
    }

    /// Assemble the final report: the init process is the root; the other
    /// processes, active then exited, are its children when requested.
    pub fn into_report(self, include_children: bool) -> (r: Result<Report, Error>)
        requires
            self.wf(),
        ensures
            match r {
                Ok(rep) => {
                    &&& spec_pid_has(self.actives(), self.spec_init_pid())
                    &&& exists|i: int|
                        0 <= i < self.actives().len() && (#[trigger] self.actives()[i]).0
                            == self.spec_init_pid() && spec_is_process_of(
                            self.actives()[i].1,
                            rep.process,
                        ) && (include_children ==> {
                            let rest = self.actives().remove(i) + self.inactives();
                            &&& rep.children@.len() == rest.len()
                            &&& forall|k: int|
                                0 <= k < rest.len() ==> spec_is_process_of(
                                    rest[k].1,
                                    #[trigger] rep.children@[k],
                                )
                        })
                    &&& (!include_children ==> rep.children@.len() == 0)
                },
                Err(e) => !spec_pid_has(self.actives(), self.spec_init_pid())
                    && (e matches Error::ChildMissing(p) && p == self.spec_init_pid()),
            },
    {
        let mut me = self;
        let init = match me.take_active(me.init_pid) {
            Some(st) => st,
            None => {
                return Err(Error::ChildMissing(me.init_pid));
            },
        };
        let ghost init_idx = choose|i: int|
            0 <= i < self.actives().len() && self.actives()[i] == (self.spec_init_pid(), init)
                && me.actives() =~= self.actives().remove(i);
        let process = init.into_process();
        let mut children: Vec<Process> = Vec::new();
        if include_children {
            let ghost rest = me.actives() + me.inactives();
            let mut actives = me.active;
            let mut inactives = me.inactive;
            let n = actives.len();
            let mut i: usize = 0;
            while i < n
                invariant
                    i <= n,
                    n == actives@.len() + i,
                    rest.len() == actives@.len() + i + inactives@.len(),
                    children@.len() == i,
                    forall|k: int|
                        0 <= k < i ==> spec_is_process_of(rest[k].1, #[trigger] children@[k]),
                    forall|k: int| 0 <= k < actives@.len() ==> rest[i + k] == actives@[k],
                    forall|k: int|
                        0 <= k < inactives@.len() ==> rest[i + actives@.len() + k]
                            == inactives@[k],
                    forall|k: int| 0 <= k < actives@.len() ==> (#[trigger] actives@[k]).1.wf(),
                decreases n - i,
            {
                let entry = actives.remove(0);
                let p = entry.1.into_process();
                children.push(p);
                i += 1;
            }
            let m = inactives.len();
            let mut j: usize = 0;
            while j < m
                invariant
                    j <= m,
                    m == inactives@.len() + j,
                    rest.len() == n + inactives@.len() + j,
                    children@.len() == n + j,
                    forall|k: int|
                        0 <= k < n + j ==> spec_is_process_of(rest[k].1, #[trigger] children@[k]),
                    forall|k: int|
                        0 <= k < inactives@.len() ==> rest[n + j + k] == inactives@[k],
                    forall|k: int| 0 <= k < inactives@.len() ==> (#[trigger] inactives@[k]).1.wf(),
                decreases m - j,
            {
                let entry = inactives.remove(0);
                let p = entry.1.into_process();
                children.push(p);
                j += 1;
            }
        }
        Ok(Report { process, children })
    }
}

} // verus!
