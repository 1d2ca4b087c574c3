//! Seccomp policy emission: actions, the policy document, and the
//! capability-to-syscall table inverted out of a capability map, with the
//! subset-match retrieval that selects the syscalls a capability set allows.
use vstd::prelude::*;

use crate::capmap::{spec_set_contains, CapSet};
use crate::caps::Capability;
use crate::cm::Document;
use crate::strset::StrSet;
use crate::text::str_eq;

verus! {

/// A seccomp action, with its errno or trace payload where one applies.
#[derive(Debug, Clone, Copy, PartialEq, Eq, Structural)]
pub enum Action {
    Allow,
    Kill,
    KillProcess,
    Log,
    Trap,
    Errno(i32),
    Trace(u32),
}

/// The canonical `SCMP_ACT_*` name of an action.
pub open spec fn spec_action_name(a: Action) -> Seq<char> {
    match a {
        Action::Allow => "SCMP_ACT_ALLOW"@,
        Action::Kill => "SCMP_ACT_KILL"@,
        Action::KillProcess => "SCMP_ACT_KILL_PROCESS"@,
        Action::Log => "SCMP_ACT_LOG"@,
        Action::Trap => "SCMP_ACT_TRAP"@,
        Action::Errno(_) => "SCMP_ACT_ERRNO"@,
        Action::Trace(_) => "SCMP_ACT_TRACE"@,
    }
}

impl Action {
    /// The errno payload, for `Errno` actions only.
    pub fn errno(&self) -> (r: Option<i32>)
        ensures
            r == (match *self {
                Action::Errno(errno) => Some(errno),
                _ => None::<i32>,
            }),
    {
        if let Action::Errno(errno) = self {
            Some(*errno)
        } else {
            None
        }
    }

    /// The trace payload, for `Trace` actions only.
    pub fn trace(&self) -> (r: Option<u32>)
        ensures
            r == (match *self {
                Action::Trace(trace) => Some(trace),
                _ => None::<u32>,
            }),
    {
        if let Action::Trace(trace) = self {
            Some(*trace)
        } else {
            None
        }
    }

    /// The canonical `SCMP_ACT_*` name.
    pub fn name(&self) -> (r: &'static str)
        ensures
            r@ == spec_action_name(*self),
    {
        match self {
            Action::Allow => "SCMP_ACT_ALLOW",
            Action::Kill => "SCMP_ACT_KILL",
            Action::KillProcess => "SCMP_ACT_KILL_PROCESS",
            Action::Log => "SCMP_ACT_LOG",
            Action::Trap => "SCMP_ACT_TRAP",
            Action::Errno(_) => "SCMP_ACT_ERRNO",
            Action::Trace(_) => "SCMP_ACT_TRACE",
        }
    }
}

/// A failure to build an action out of a definition.
#[derive(Debug, Clone, PartialEq, Eq)]
pub enum Error {
    /// The action name is not one this tool knows.
    ActionUnknown(String),
    /// `SCMP_ACT_ERRNO` was named without an errno.
    NoErrno,
    /// `SCMP_ACT_TRACE` was named without a trace process.
    NoTrace,
}

/// A default-action definition as the command line supplies it.
pub struct ActionDef {
    pub default_action: String,
    pub default_action_errno: Option<i32>,
    pub default_action_trace: Option<u32>,
}

/// The action a definition names.
pub open spec fn spec_action_of_def(d: ActionDef) -> Result<Action, Error> {
    if d.default_action@ == "SCMP_ACT_ALLOW"@ {
        Ok(Action::Allow)
    } else if d.default_action@ == "SCMP_ACT_KILL"@ {
        Ok(Action::Kill)
    } else if d.default_action@ == "SCMP_ACT_KILL_PROCESS"@ {
        Ok(Action::KillProcess)
    } else if d.default_action@ == "SCMP_ACT_TRAP"@ {
        Ok(Action::Trap)
    } else if d.default_action@ == "SCMP_ACT_ERRNO"@ {
        match d.default_action_errno {
            Some(errno) => Ok(Action::Errno(errno)),
            None => Err(Error::NoErrno),
        }
    } else if d.default_action@ == "SCMP_ACT_TRACE"@ {
        match d.default_action_trace {
            Some(trace) => Ok(Action::Trace(trace)),
            None => Err(Error::NoTrace),
        }
    } else {
        Err(Error::ActionUnknown(d.default_action))
    }
}

impl Action {
    /// Resolve a definition to an action; an `ERRNO` or `TRACE` default
    /// needs its payload, and any other name is unknown.
    pub fn try_from_def(value: ActionDef) -> (r: Result<Action, Error>)
        ensures
            r == spec_action_of_def(value),
    {
        if str_eq(value.default_action.as_str(), "SCMP_ACT_ALLOW") {
            Ok(Action::Allow)
        } else if str_eq(value.default_action.as_str(), "SCMP_ACT_KILL") {
            Ok(Action::Kill)
        } else if str_eq(value.default_action.as_str(), "SCMP_ACT_KILL_PROCESS") {
            Ok(Action::KillProcess)
        } else if str_eq(value.default_action.as_str(), "SCMP_ACT_TRAP") {
            Ok(Action::Trap)
        } else if str_eq(value.default_action.as_str(), "SCMP_ACT_ERRNO") {
            match value.default_action_errno {
                Some(errno) => Ok(Action::Errno(errno)),
                None => Err(Error::NoErrno),
            }
        } else if str_eq(value.default_action.as_str(), "SCMP_ACT_TRACE") {
            match value.default_action_trace {
                Some(trace) => Ok(Action::Trace(trace)),
                None => Err(Error::NoTrace),
            }
        } else {
            Err(Error::ActionUnknown(value.default_action))
        }
    }
}

/// One policy rule: a sorted set of syscall names and the action they get.
pub struct Syscalls {
    pub names: StrSet,
    pub action: Action,
}

/// A seccomp policy: the default action, optional architectures, and the
/// rules in the order they were added.
pub struct Policy {
    pub default_action: Action,
    pub architectures: Vec<String>,
    pub syscalls: Vec<Syscalls>,
}

impl Policy {
    /// An empty policy with the given default action.
    pub fn new(default_action: Action) -> (r: Policy)
        ensures
            r.default_action == default_action,
            r.architectures@.len() == 0,
            r.syscalls@.len() == 0,
    {
        Policy { default_action, architectures: Vec::new(), syscalls: Vec::new() }
    }

    /// Record one architecture the policy applies to.
    pub fn add_architecture(&mut self, arch: String)
        ensures
            final(self).architectures@ == old(self).architectures@.push(arch),
            final(self).default_action == old(self).default_action,
            final(self).syscalls@ == old(self).syscalls@,
    {
        self.architectures.push(arch);
    }

    /// Add one rule: the given syscall names, deduplicated and sorted, at
    /// the given action.
    pub fn add_syscalls(&mut self, action: Action, names: Vec<String>)
        ensures
            final(self).syscalls@.len() == old(self).syscalls@.len() + 1,
            forall|i: int|
                0 <= i < old(self).syscalls@.len() ==> final(self).syscalls@[i] == old(
                    self,
                ).syscalls@[i],
            final(self).syscalls@.last().action == action,
            final(self).syscalls@.last().names.wf(),
            forall|d: Seq<char>|
                crate::strset::spec_strs_contain(final(self).syscalls@.last().names@, d)
                    <==> names.deep_view().contains(d),
            final(self).default_action == old(self).default_action,
            final(self).architectures@ == old(self).architectures@,
    {
        let mut set = StrSet::new();
        let mut i: usize = 0;
        while i < names.len()
            invariant
                i <= names@.len(),
                names.deep_view().len() == names@.len(),
                set.wf(),
                forall|d: Seq<char>|
                    crate::strset::spec_strs_contain(set@, d) <==> exists|j: int|
                        0 <= j < i && names.deep_view()[j] == d,
            decreases names@.len() - i,
        {
            proof {
                assert(names.deep_view()[i as int] == names@[i as int]@);
            }
            set.insert(names[i].clone());
            proof {
                assert forall|d: Seq<char>|
                    crate::strset::spec_strs_contain(set@, d) <==> exists|j: int|
                        0 <= j < i + 1 && names.deep_view()[j] == d by {
                    if crate::strset::spec_strs_contain(set@, d) {
                        if d != names.deep_view()[i as int] {
                            let j = choose|j: int| 0 <= j < i && names.deep_view()[j] == d;
                            assert(0 <= j < i + 1 && names.deep_view()[j] == d);
                        }
                    }
                    if exists|j: int| 0 <= j < i + 1 && names.deep_view()[j] == d {
                        let j = choose|j: int| 0 <= j < i + 1 && names.deep_view()[j] == d;
                        if j < i {
                            assert(crate::strset::spec_strs_contain(set@, d));
                        }
                    }
                }
            }
            i += 1;
        }
        proof {
            assert forall|d: Seq<char>|
                crate::strset::spec_strs_contain(set@, d) <==> names.deep_view().contains(
                d,
            ) by {}
        }
        self.syscalls.push(Syscalls { names: set, action });
    }
}

/// A syscall's capability set is allowed by `required` when it is a subset
/// of it, or when it is exactly the singleton `Safe`.
pub open spec fn spec_allowed(entry: Seq<Capability>, required: Seq<Capability>) -> bool {
    (entry.len() == 1 && entry[0] == Capability::Safe) || (forall|c: Capability|
        spec_set_contains(entry, c) ==> spec_set_contains(required, c))
}

/// The syscall names of the table whose capability sets `required` allows,
/// in table order.
pub open spec fn spec_matching(
    records: Seq<(Seq<char>, Seq<Capability>)>,
    required: Seq<Capability>,
) -> Seq<Seq<char>>
    decreases records.len(),
{
    if records.len() == 0 {
        Seq::empty()
    } else {
        (if spec_allowed(records[0].1, required) {
            seq![records[0].0]
        } else {
            Seq::empty()
        }) + spec_matching(records.drop_first(), required)
    }
}

/// Subset correctness: every syscall the retrieval emits is a key of the
/// table whose capability set is a subset of the required set or exactly
/// the singleton `Safe`.
pub proof fn lemma_matching_subset(
    records: Seq<(Seq<char>, Seq<Capability>)>,
    required: Seq<Capability>,
    k: int,
)
    requires
        0 <= k < spec_matching(records, required).len(),
    ensures
        exists|i: int|
            0 <= i < records.len() && (#[trigger] records[i]).0 == spec_matching(records, required)[k]
                && spec_allowed(records[i].1, required),
    decreases records.len(),
{
    if records.len() > 0 {
        if spec_allowed(records[0].1, required) && k == 0 {
            assert(records[0].0 == spec_matching(records, required)[0] && spec_allowed(
                records[0].1,
                required,
            ));
        } else {
            let k2 = if spec_allowed(records[0].1, required) {
                k - 1
            } else {
                k
            };
            lemma_matching_subset(records.drop_first(), required, k2);
            let i = choose|i: int|
                0 <= i < records.drop_first().len() && (#[trigger] records.drop_first()[i]).0
                    == spec_matching(records.drop_first(), required)[k2] && spec_allowed(
                    records.drop_first()[i].1,
                    required,
                );
            assert(records[i + 1] == records.drop_first()[i]);
        }
    }
}

/// The syscall-to-capabilities table a policy is derived from.
pub struct CapabilityMap {
    records: Vec<(String, CapSet)>,
}

/// A capability set holding exactly the values of `vals`.
fn capset_from_vec(vals: &Vec<Capability>) -> (r: CapSet)
    ensures
        r.wf(),
        forall|c: Capability| spec_set_contains(r@, c) <==> vals@.contains(c),
{
    let mut r = CapSet::new();
    let mut i: usize = 0;
    while i < vals.len()
        invariant
            i <= vals@.len(),
            r.wf(),
            forall|c: Capability|
                spec_set_contains(r@, c) <==> exists|j: int| 0 <= j < i && vals@[j] == c,
        decreases vals@.len() - i,
    {
        r.insert(vals[i]);
        i += 1;
    }
    r
}

impl CapabilityMap {
    /// The table: syscall name to capability set, in document order.
    pub closed spec fn records(&self) -> Seq<(Seq<char>, Seq<Capability>)> {
        Seq::new(self.records@.len(), |i: int| (self.records@[i].0@, self.records@[i].1@))
    }

    /// Build the table out of a parsed capability-map document: each
    /// record's values become a capability set.
    pub fn new(doc: &Document) -> (r: CapabilityMap)
        ensures
            r.wf(),
            r.records().len() == doc@.len(),
            forall|i: int| 0 <= i < doc@.len() ==> (#[trigger] r.records()[i]).0 == doc@[i].0,
            forall|i: int, c: Capability|
                0 <= i < doc@.len() ==> (#[trigger] spec_set_contains(r.records()[i].1, c)
                    <==> doc@[i].1.contains(c)),
    {
        let mut records: Vec<(String, CapSet)> = Vec::new();
        let n = doc.len();
        let mut i: usize = 0;
        while i < n
            invariant
                i <= n,
                n == doc@.len(),
                records@.len() == i,
                forall|k: int| 0 <= k < i ==> (#[trigger] records@[k]).0@ == doc@[k].0,
                forall|k: int| 0 <= k < i ==> (#[trigger] records@[k]).1.wf(),
                forall|k: int, c: Capability|
                    0 <= k < i ==> (#[trigger] spec_set_contains(records@[k].1@, c)
                        <==> doc@[k].1.contains(c)),
            decreases n - i,
        {
            let rec = doc.record_at(i);
            let key = rec.0.clone();
            let caps = capset_from_vec(&rec.1);
            proof {
                assert(rec.deep_view() == doc@[i as int]);
                assert(rec.deep_view().0 == rec.0@);
                assert(rec.deep_view().1 == rec.1.deep_view());
                assert(rec.1.deep_view() =~= rec.1@);
            }
            records.push((key, caps));
            proof {
                assert(records@[i as int].0@ == doc@[i as int].0);
                assert forall|c: Capability|
                    spec_set_contains(records@[i as int].1@, c) <==> doc@[i as int].1.contains(
                    c,
                ) by {}
            }
            i += 1;
        }
        let r = CapabilityMap { records };
        proof {
            assert forall|i: int| 0 <= i < doc@.len() implies (#[trigger] r.records()[i]).0
                == doc@[i].0 by {
                assert(r.records()[i].0 == records@[i].0@);
            }
            assert forall|i: int, c: Capability|
                0 <= i < doc@.len() implies (#[trigger] spec_set_contains(r.records()[i].1, c)
                <==> doc@[i].1.contains(c)) by {
                assert(r.records()[i].1 == records@[i].1@);
                assert(spec_set_contains(records@[i].1@, c) <==> doc@[i].1.contains(c));
            }
        }
        r
    }

    /// Every stored capability set is well formed.
    pub closed spec fn wf(&self) -> bool {
        forall|i: int| 0 <= i < self.records@.len() ==> (#[trigger] self.records@[i]).1.wf()
    }

    /// The capability set recorded for syscall `name`, if any.
    pub fn lookup(&self, name: &str) -> (r: Option<CapSet>)
        requires
            self.wf(),
        ensures
            match r {
                Some(caps) => caps.wf() && exists|i: int|
                    0 <= i < self.records().len() && (#[trigger] self.records()[i]).0 == name@
                        && caps@ == self.records()[i].1,
                None => forall|i: int|
                    0 <= i < self.records().len() ==> (#[trigger] self.records()[i]).0 != name@,
            },
    {
        let mut i: usize = 0;
        while i < self.records.len()
            invariant
                i <= self.records@.len(),
                self.wf(),
                self.records().len() == self.records@.len(),
                forall|j: int| 0 <= j < i ==> (#[trigger] self.records()[j]).0 != name@,
            decreases self.records@.len() - i,
        {
            proof {
                assert(self.records()[i as int].0 == self.records@[i as int].0@);
                assert(self.records()[i as int].1 == self.records@[i as int].1@);
            }
            if crate::text::str_eq(self.records[i].0.as_str(), name) {
                let caps = self.records[i].1.clone();
                return Some(caps);
            }
            i += 1;
        }
        None
    }

    /// The syscalls whose capability sets `caps` allows: exactly the table
    /// keys whose capability set is a subset of `caps` or the singleton
    /// `Safe`, in table order (policy rules sort their name sets when the
    /// names are added to a rule).
    pub fn get_syscalls(&self, caps: &CapSet) -> (r: Vec<String>)
        ensures
            r.deep_view() == spec_matching(self.records(), caps@),
    {
        let n = self.records.len();
        let mut r: Vec<String> = Vec::new();
        let mut i: usize = 0;
        proof {
            assert(self.records().skip(0) =~= self.records());
            assert(r.deep_view() =~= Seq::<Seq<char>>::empty());
        }
        while i < n
            invariant
                i <= n,
                n == self.records@.len(),
                self.records().len() == n,
                spec_matching(self.records(), caps@) == r.deep_view() + spec_matching(
                    self.records().skip(i as int),
                    caps@,
                ),
            decreases n - i,
        {
            proof {
                assert(self.records().skip(i as int)[0] == self.records()[i as int]);
                assert(self.records().skip(i as int).drop_first() =~= self.records().skip(
                    i as int + 1,
                ));
            }
            let entry = &self.records[i];
            let allowed = (entry.1.len() == 1 && entry.1.contains(Capability::Safe))
                || entry.1.is_subset_of(caps);
            proof {
                assert(self.records()[i as int].1 == entry.1@);
                if entry.1@.len() == 1 && spec_set_contains(entry.1@, Capability::Safe) {
                    let w = choose|w: int|
                        0 <= w < entry.1@.len() && entry.1@[w] == Capability::Safe;
                    assert(entry.1@[0] == Capability::Safe);
                }
                if entry.1@.len() == 1 && entry.1@[0] == Capability::Safe {
                    assert(spec_set_contains(entry.1@, Capability::Safe));
                }
            }
            if allowed {
                let ghost old_dv = r.deep_view();
                r.push(entry.0.clone());
                proof {
                    assert(r.deep_view() =~= old_dv.push(entry.0@));
                    assert(old_dv.push(entry.0@) =~= old_dv + seq![self.records()[i as int].0]);
                }
            }
            i += 1;
        }
        proof {
            assert(self.records().skip(n as int) =~= Seq::<(Seq<char>, Seq<Capability>)>::empty());
            assert(r.deep_view() + Seq::<Seq<char>>::empty() =~= r.deep_view());
        }
        r
    }
}

/// The syscalls the container runtime itself needs, always allowed at a
/// logging action so unexpected uses are visible rather than fatal.
pub fn runtime_required_syscalls() -> (r: Vec<String>)
    ensures
        r.deep_view() =~= seq![
            "capget"@,
            "capset"@,
            "chdir"@,
            "close"@,
            "epoll_pwait"@,
            "execve"@,
            "fchown"@,
            "fstat"@,
            "futex"@,
            "getdents64"@,
            "getppid"@,
            "newfstatat"@,
            "openat"@,
            "prctl"@,
            "read"@,
            "setgid"@,
            "setgroups"@,
            "setuid"@,
            "write"@,
        ],
{
    let mut r: Vec<String> = Vec::new();
    r.push(String::from_str("capget"));
    r.push(String::from_str("capset"));
    r.push(String::from_str("chdir"));
    r.push(String::from_str("close"));
    r.push(String::from_str("epoll_pwait"));
    r.push(String::from_str("execve"));
    r.push(String::from_str("fchown"));
    r.push(String::from_str("fstat"));
    r.push(String::from_str("futex"));
    r.push(String::from_str("getdents64"));
    r.push(String::from_str("getppid"));
    r.push(String::from_str("newfstatat"));
    r.push(String::from_str("openat"));
    r.push(String::from_str("prctl"));
    r.push(String::from_str("read"));
    r.push(String::from_str("setgid"));
    r.push(String::from_str("setgroups"));
    r.push(String::from_str("setuid"));
    r.push(String::from_str("write"));
    proof {
        assert(r.deep_view() =~= seq![
            "capget"@,
            "capset"@,
            "chdir"@,
            "close"@,
            "epoll_pwait"@,
            "execve"@,
            "fchown"@,
            "fstat"@,
            "futex"@,
            "getdents64"@,
            "getppid"@,
            "newfstatat"@,
            "openat"@,
            "prctl"@,
            "read"@,
            "setgid"@,
            "setgroups"@,
            "setuid"@,
            "write"@,
        ]);
    }
    r
}

} // verus!
