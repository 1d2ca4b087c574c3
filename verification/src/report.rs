//! The report data model: function identities, source locations, call
//! edges, per-function capability maps, and the per-process shape the
//! analyses emit.
use vstd::prelude::*;

use crate::capmap::{spec_get, CapMap, CapSet};
use crate::caps::{spec_cap_type_max, Capability, CapabilityType};
use crate::strset::StrSet;

verus! {

/// A source location: `directory` is the parent of `filename` when known.
#[derive(Debug)]
pub struct Location {
    pub directory: Option<String>,
    pub filename: String,
    pub line: u64,
    pub column: Option<u64>,
}

impl Clone for Location {
    fn clone(&self) -> (r: Self)
        ensures
            r == *self,
    {
        Location {
            directory: match &self.directory {
                Some(d) => Some(d.clone()),
                None => None,
            },
            filename: self.filename.clone(),
            line: self.line,
            column: self.column,
        }
    }
}

/// Clone an optional location exactly.
pub fn clone_location_opt(loc: &Option<Location>) -> (r: Option<Location>)
    ensures
        r == *loc,
{
    match loc {
        Some(l) => Some(l.clone()),
        None => None,
    }
}

/// The structured form of a demangled Rust symbol.
#[derive(Debug, Clone)]
pub enum RustFunctionName {
    TraitMethod { trait_: String, type_: String, method: String },
    StructMethod { type_: String, method: String },
    Bare { function: String },
}

/// A function's identity: a structured Rust name, or a foreign symbol with
/// the language it came from.
#[derive(Debug, Clone)]
pub enum FunctionName {
    Rust { display_name: String, name: RustFunctionName },
    Other { display_name: String, language: String },
}

/// The mathematical form of a structured Rust name.
pub enum SpecRustName {
    TraitMethod { trait_: Seq<char>, type_: Seq<char>, method: Seq<char> },
    StructMethod { type_: Seq<char>, method: Seq<char> },
    Bare { function: Seq<char> },
}

impl View for RustFunctionName {
    type V = SpecRustName;

    open spec fn view(&self) -> SpecRustName {
        match self {
            RustFunctionName::TraitMethod { trait_, type_, method } => SpecRustName::TraitMethod {
                trait_: trait_@,
                type_: type_@,
                method: method@,
            },
            RustFunctionName::StructMethod { type_, method } => SpecRustName::StructMethod {
                type_: type_@,
                method: method@,
            },
            RustFunctionName::Bare { function } => SpecRustName::Bare { function: function@ },
        }
    }
}

/// The mathematical form of a function identity.
pub enum SpecFunctionName {
    Rust { display_name: Seq<char>, name: SpecRustName },
    Other { display_name: Seq<char>, language: Seq<char> },
}

impl View for FunctionName {
    type V = SpecFunctionName;

    open spec fn view(&self) -> SpecFunctionName {
        match self {
            FunctionName::Rust { display_name, name } => SpecFunctionName::Rust {
                display_name: display_name@,
                name: name@,
            },
            FunctionName::Other { display_name, language } => SpecFunctionName::Other {
                display_name: display_name@,
                language: language@,
            },
        }
    }
}

/// The display name carried by either variant.
pub open spec fn spec_display_name(n: FunctionName) -> Seq<char> {
    match n {
        FunctionName::Rust { display_name, .. } => display_name@,
        FunctionName::Other { display_name, .. } => display_name@,
    }
}

impl FunctionName {
    /// The demangled display name.
    pub fn display_name(&self) -> (r: &str)
        ensures
            r@ == spec_display_name(*self),
    {
        match self {
            FunctionName::Rust { display_name, .. } => display_name.as_str(),
            FunctionName::Other { display_name, .. } => display_name.as_str(),
        }
    }
}

/// A call edge between two function indices, with the call site if known.
#[derive(Debug, Clone)]
pub struct Edge {
    pub caller: usize,
    pub callee: usize,
    pub location: Option<Location>,
}

/// A function in a report: its identity, where it is defined, the
/// capabilities attributed to it, and the syscalls seen to be issued by it.
#[derive(Clone)]
pub struct Function {
    pub name: FunctionName,
    pub location: Option<Location>,
    pub capabilities: CapMap,
    pub syscalls: StrSet,
}

impl Function {
    /// Both ordered containers are well formed.
    pub open spec fn wf(&self) -> bool {
        self.capabilities.wf() && self.syscalls.wf()
    }

    /// A function with no capabilities and no recorded syscalls.
    pub fn new(name: FunctionName, location: Option<Location>) -> (r: Function)
        ensures
            r.wf(),
            r.name == name,
            r.location == location,
            r.capabilities@ == Seq::<(Capability, CapabilityType)>::empty(),
            r.syscalls@ == Seq::<Seq<char>>::empty(),
    {
        Function { name, location, capabilities: CapMap::new(), syscalls: StrSet::new() }
    }

    /// The demangled display name.
    pub fn display_name(&self) -> (r: &str)
        ensures
            r@ == spec_display_name(self.name),
    {
        self.name.display_name()
    }

    /// Record `capability`: a new entry is inserted, an existing one keeps
    /// the more severe of its type and `ty`.
    pub fn insert_capability(&mut self, capability: Capability, ty: CapabilityType)
        requires
            old(self).wf(),
        ensures
            final(self).wf(),
            spec_get(final(self).capabilities@, capability) == Some(
                match spec_get(old(self).capabilities@, capability) {
                    Some(t0) => spec_cap_type_max(t0, ty),
                    None => ty,
                },
            ),
            forall|d: Capability|
                d != capability ==> spec_get(final(self).capabilities@, d) == spec_get(
                    old(self).capabilities@,
                    d,
                ),
            final(self).capabilities@.len() == if spec_get(old(self).capabilities@, capability)
                is Some {
                old(self).capabilities@.len()
            } else {
                old(self).capabilities@.len() + 1
            },
            final(self).name == old(self).name,
            final(self).location == old(self).location,
            final(self).syscalls == old(self).syscalls,
    {
        self.capabilities.insert_max(capability, ty);
    }

    /// Record that this function was seen to issue syscall `name`.
    pub fn insert_syscall(&mut self, name: String)
        requires
            old(self).wf(),
        ensures
            final(self).wf(),
            crate::strset::spec_strs_contain(final(self).syscalls@, name@),
            forall|d: Seq<char>|
                crate::strset::spec_strs_contain(old(self).syscalls@, d) ==> crate::strset::spec_strs_contain(
                    final(self).syscalls@,
                    d,
                ),
            forall|d: Seq<char>|
                crate::strset::spec_strs_contain(final(self).syscalls@, d) ==> d == name@
                    || crate::strset::spec_strs_contain(old(self).syscalls@, d),
            final(self).name == old(self).name,
            final(self).location == old(self).location,
            final(self).capabilities == old(self).capabilities,
    {
        self.syscalls.insert(name);
    }
}

/// One process's report: the program path, the process-level capability
/// set, the functions and the call edges attributed to it.
pub struct Process {
    pub path: String,
    pub capabilities: CapSet,
    pub functions: Vec<Function>,
    pub edges: Vec<Edge>,
}

/// A whole report: the traced or analyzed process, and its children when
/// they are included.
pub struct Report {
    pub process: Process,
    pub children: Vec<Process>,
}

/// The capability list a process serializes: `Safe` is stripped unless it
/// is the only capability (fewer than two entries keep the list as is).
pub open spec fn spec_serialized_caps(caps: Seq<Capability>) -> Seq<Capability> {
    if caps.len() < 2 {
        caps
    } else {
        caps.filter(|c: Capability| c != Capability::Safe)
    }
}

/// A serialized capability list of two or more entries never holds `Safe`.
pub proof fn lemma_safe_stripped(caps: Seq<Capability>)
    ensures
        spec_serialized_caps(caps).len() >= 2 ==> !spec_serialized_caps(caps).contains(
            Capability::Safe,
        ),
{
    let pred = |c: Capability| c != Capability::Safe;
    if caps.len() >= 2 {
        if spec_serialized_caps(caps).contains(Capability::Safe) {
            let i = choose|i: int|
                0 <= i < caps.filter(pred).len() && caps.filter(pred)[i] == Capability::Safe;
            caps.lemma_filter_pred(pred, i);
        }
    }
}

/// Filtering a sequence extended by one element keeps the element exactly
/// when it satisfies the predicate.
pub proof fn lemma_filter_snoc<A>(s: Seq<A>, x: A, pred: spec_fn(A) -> bool)
    ensures
        s.push(x).filter(pred) == if pred(x) {
            s.filter(pred).push(x)
        } else {
            s.filter(pred)
        },
{
    reveal(Seq::filter);
    let t = s.push(x);
    assert(t.len() == s.len() + 1);
    assert(t.drop_last() =~= s);
    assert(t.last() == x);
}

/// The process-level capability set the static analysis aggregates: the
/// union of every function's capability keys.
pub fn union_function_capabilities(functions: &Vec<Function>) -> (r: CapSet)
    requires
        forall|i: int| 0 <= i < functions@.len() ==> (#[trigger] functions@[i]).wf(),
    ensures
        r.wf(),
        forall|c: Capability|
            crate::capmap::spec_set_contains(r@, c) <==> exists|i: int|
                0 <= i < functions@.len() && spec_get(
                    (#[trigger] functions@[i]).capabilities@,
                    c,
                ) is Some,
{
    let mut r = CapSet::new();
    let n = functions.len();
    let mut i: usize = 0;
    while i < n
        invariant
            i <= n,
            n == functions@.len(),
            r.wf(),
            forall|k: int| 0 <= k < n ==> (#[trigger] functions@[k]).wf(),
            forall|c: Capability|
                crate::capmap::spec_set_contains(r@, c) <==> exists|k: int|
                    0 <= k < i && spec_get(
                        (#[trigger] functions@[k]).capabilities@,
                        c,
                    ) is Some,
        decreases n - i,
    {
        let f = &functions[i];
        let m = f.capabilities.len();
        let mut j: usize = 0;
        while j < m
            invariant
                j <= m,
                i < n,
                n == functions@.len(),
                m == functions@[i as int].capabilities@.len(),
                f == &functions@[i as int],
                r.wf(),
                forall|k: int| 0 <= k < n ==> (#[trigger] functions@[k]).wf(),
                forall|c: Capability|
                    crate::capmap::spec_set_contains(r@, c) <==> (exists|k: int|
                        0 <= k < i && spec_get(
                            (#[trigger] functions@[k]).capabilities@,
                            c,
                        ) is Some) || (exists|e: int|
                        0 <= e < j && (#[trigger] functions@[i as int].capabilities@[e]).0 == c),
            decreases m - j,
        {
            let entry = f.capabilities.entry_at(j);
            r.insert(entry.0);
            proof {
                assert(functions@[i as int].capabilities@[j as int].0 == entry.0);
                assert forall|c: Capability|
                    crate::capmap::spec_set_contains(r@, c) <==> ((exists|k: int|
                        0 <= k < i && spec_get(
                            (#[trigger] functions@[k]).capabilities@,
                            c,
                        ) is Some) || (exists|e: int|
                        0 <= e < j + 1 && (#[trigger] functions@[i as int].capabilities@[e]).0
                            == c)) by {
                    if c == entry.0 {
                    } else {
                        if exists|e: int|
                            0 <= e < j + 1 && (#[trigger] functions@[i as int].capabilities@[e]).0
                                == c {
                            let e = choose|e: int|
                                0 <= e < j + 1 && (#[trigger] functions@[
                                    i as int
                                ].capabilities@[e]).0 == c;
                            assert(e < j);
                        }
                    }
                }
            }
            j += 1;
        }
        proof {
            assert forall|c: Capability|
                crate::capmap::spec_set_contains(r@, c) <==> exists|k: int|
                    0 <= k < i + 1 && spec_get(
                        (#[trigger] functions@[k]).capabilities@,
                        c,
                    ) is Some by {
                if crate::capmap::spec_set_contains(r@, c) {
                    if !(exists|k: int|
                        0 <= k < i && spec_get(
                            (#[trigger] functions@[k]).capabilities@,
                            c,
                        ) is Some) {
                        let e = choose|e: int|
                            0 <= e < m && (#[trigger] functions@[i as int].capabilities@[e]).0
                                == c;
                        crate::capmap::lemma_sorted_get_at(
                            functions@[i as int].capabilities@,
                            e,
                        );
                    }
                } else {
                    if exists|k: int|
                        0 <= k < i + 1 && spec_get(
                            (#[trigger] functions@[k]).capabilities@,
                            c,
                        ) is Some {
                        let k = choose|k: int|
                            0 <= k < i + 1 && spec_get(
                                (#[trigger] functions@[k]).capabilities@,
                                c,
                            ) is Some;
                        if k == i {
                            crate::capmap::lemma_get_some_index(
                                functions@[i as int].capabilities@,
                                c,
                            );
                        }
                    }
                }
            }
        }
        i += 1;
    }
    r
}

/// The report-level syscall set: the union of every function's recorded
/// syscalls, omitted by the serializer when empty.
pub fn union_function_syscalls(functions: &Vec<Function>) -> (r: StrSet)
    requires
        forall|i: int| 0 <= i < functions@.len() ==> (#[trigger] functions@[i]).wf(),
    ensures
        r.wf(),
        forall|s: Seq<char>|
            crate::strset::spec_strs_contain(r@, s) <==> exists|i: int|
                0 <= i < functions@.len() && crate::strset::spec_strs_contain(
                    (#[trigger] functions@[i]).syscalls@,
                    s,
                ),
{
    let mut r = StrSet::new();
    let n = functions.len();
    let mut i: usize = 0;
    while i < n
        invariant
            i <= n,
            n == functions@.len(),
            r.wf(),
            forall|k: int| 0 <= k < n ==> (#[trigger] functions@[k]).wf(),
            forall|s: Seq<char>|
                crate::strset::spec_strs_contain(r@, s) <==> exists|k: int|
                    0 <= k < i && crate::strset::spec_strs_contain(
                        (#[trigger] functions@[k]).syscalls@,
                        s,
                    ),
        decreases n - i,
    {
        let f = &functions[i];
        let m = f.syscalls.len();
        let mut j: usize = 0;
        while j < m
            invariant
                j <= m,
                i < n,
                n == functions@.len(),
                m == functions@[i as int].syscalls@.len(),
                f == &functions@[i as int],
                r.wf(),
                forall|k: int| 0 <= k < n ==> (#[trigger] functions@[k]).wf(),
                forall|s: Seq<char>|
                    crate::strset::spec_strs_contain(r@, s) <==> (exists|k: int|
                        0 <= k < i && crate::strset::spec_strs_contain(
                            (#[trigger] functions@[k]).syscalls@,
                            s,
                        )) || (exists|e: int|
                        0 <= e < j && #[trigger] functions@[i as int].syscalls@[e] == s),
            decreases m - j,
        {
            let name = f.syscalls.item_at(j);
            r.insert(name.clone());
            proof {
                assert forall|s: Seq<char>|
                    crate::strset::spec_strs_contain(r@, s) <==> ((exists|k: int|
                        0 <= k < i && crate::strset::spec_strs_contain(
                            (#[trigger] functions@[k]).syscalls@,
                            s,
                        )) || (exists|e: int|
                        0 <= e < j + 1 && #[trigger] functions@[i as int].syscalls@[e]
                            == s)) by {
                    if s == functions@[i as int].syscalls@[j as int] {
                    } else {
                        if exists|e: int|
                            0 <= e < j + 1 && #[trigger] functions@[i as int].syscalls@[e] == s {
                            let e = choose|e: int|
                                0 <= e < j + 1 && #[trigger] functions@[i as int].syscalls@[e]
                                    == s;
                            assert(e < j);
                        }
                    }
                }
            }
            j += 1;
        }
        proof {
            assert forall|s: Seq<char>|
                crate::strset::spec_strs_contain(r@, s) <==> exists|k: int|
                    0 <= k < i + 1 && crate::strset::spec_strs_contain(
                        (#[trigger] functions@[k]).syscalls@,
                        s,
                    ) by {}
        }
        i += 1;
    }
    r
}

impl Process {
    /// The capability list this process serializes, in capability-code
    /// order: its capability set with `Safe` stripped when at least two
    /// capabilities were accumulated.
    pub fn serialized_capabilities(&self) -> (r: Vec<Capability>)
        ensures
            r@ == spec_serialized_caps(self.capabilities@),
    {
        let n = self.capabilities.len();
        let mut r: Vec<Capability> = Vec::new();
        if n < 2 {
            let mut i: usize = 0;
            while i < n
                invariant
                    i <= n,
                    n == self.capabilities@.len(),
                    r@ == self.capabilities@.take(i as int),
                decreases n - i,
            {
                r.push(self.capabilities.item_at(i));
                proof {
                    assert(r@ =~= self.capabilities@.take(i as int + 1));
                }
                i += 1;
            }
            proof {
                assert(self.capabilities@.take(n as int) =~= self.capabilities@);
            }
        } else {
            let ghost pred = |c: Capability| c != Capability::Safe;
            let mut i: usize = 0;
            proof {
                assert(self.capabilities@.take(0).filter(pred) =~= Seq::<Capability>::empty());
            }
            while i < n
                invariant
                    i <= n,
                    n == self.capabilities@.len(),
                    n >= 2,
                    pred == (|c: Capability| c != Capability::Safe),
                    r@ == self.capabilities@.take(i as int).filter(pred),
                decreases n - i,
            {
                let c = self.capabilities.item_at(i);
                if c.code() != 1 {
                    r.push(c);
                    proof {
                        assert(c != Capability::Safe) by {
                            crate::caps::lemma_cap_code_injective(c, Capability::Safe);
                        }
                        lemma_filter_snoc(self.capabilities@.take(i as int), c, pred);
                        assert(self.capabilities@.take(i as int).push(c) =~= self.capabilities@.take(
                            i as int + 1,
                        ));
                    }
                } else {
                    proof {
                        assert(c == Capability::Safe) by {
                            crate::caps::lemma_cap_code_injective(c, Capability::Safe);
                        }
                        lemma_filter_snoc(self.capabilities@.take(i as int), c, pred);
                        assert(self.capabilities@.take(i as int).push(c) =~= self.capabilities@.take(
                            i as int + 1,
                        ));
                    }
                }
                i += 1;
            }
            proof {
                assert(self.capabilities@.take(n as int) =~= self.capabilities@);
            }
        }
        r
    }
}

} // verus!
