//! The function map: a dedup-by-mangled-name table assigning each unique
//! symbol a stable dense index, the indices the call graph speaks of.
use vstd::prelude::*;

use crate::capmap::spec_get;
use crate::caps::{spec_cap_type_max, Capability, CapabilityType};
use crate::report::{Function, FunctionName, RustFunctionName, SpecFunctionName, SpecRustName};
use crate::text::{find_sub, rfind_sub, spec_find, spec_rfind, str_eq};
use symbolic::demangle::Demangle;

verus! {

/// A failure to turn a mangled symbol into a structured name.
#[derive(Debug, Clone, PartialEq, Eq)]
pub enum Error {
    /// The demangler produced nothing for this Rust symbol.
    Demangle(String),
    /// A name opening with `<` but without ` as ` holds no `>::`.
    MalformedMethod(String),
    /// A name opening with `<` and holding ` as ` holds no `>::` after it.
    MalformedTraitMethod(String),
}

/// The mathematical form of a name-parse failure.
pub enum SpecNameError {
    Demangle(Seq<char>),
    MalformedMethod(Seq<char>),
    MalformedTraitMethod(Seq<char>),
}

impl View for Error {
    type V = SpecNameError;

    open spec fn view(&self) -> SpecNameError {
        match self {
            Error::Demangle(s) => SpecNameError::Demangle(s@),
            Error::MalformedMethod(s) => SpecNameError::MalformedMethod(s@),
            Error::MalformedTraitMethod(s) => SpecNameError::MalformedTraitMethod(s@),
        }
    }
}

/// How a demangled Rust display name parses into a structured name:
/// a leading `<` makes it a trait method (split at the first ` as `, then
/// at the last `>::`) or, without ` as `, a method on a bracketed type;
/// otherwise a name that does not end in `>` splits at its last `::` into
/// type and method, and anything else is a bare function.
pub open spec fn spec_parse_rust_name(s: Seq<char>) -> Result<SpecRustName, SpecNameError> {
    if s.len() > 0 && s[0] == '<' {
        let t = s.drop_first();
        match spec_find(t, " as "@) {
            Some(i) => match spec_rfind(t.skip(i + 4), ">::"@) {
                Some(j) => Ok(
                    SpecRustName::TraitMethod {
                        trait_: t.skip(i + 4).take(j),
                        type_: t.take(i),
                        method: t.skip(i + 4).skip(j + 3),
                    },
                ),
                None => Err(SpecNameError::MalformedTraitMethod(t)),
            },
            None => match spec_rfind(t, ">::"@) {
                Some(j) => Ok(
                    SpecRustName::StructMethod { type_: t.take(j), method: t.skip(j + 3) },
                ),
                None => Err(SpecNameError::MalformedMethod(t)),
            },
        }
    } else if !(s.len() > 0 && s.last() == '>') && spec_rfind(s, "::"@) is Some {
        let j = spec_rfind(s, "::"@).unwrap();
        Ok(SpecRustName::StructMethod { type_: s.take(j), method: s.skip(j + 2) })
    } else {
        Ok(SpecRustName::Bare { function: s })
    }
}

/// Parse a demangled Rust display name into its structured form, exactly as
/// `spec_parse_rust_name` describes.
pub fn parse_rust_function_name(function: &str) -> (r: Result<RustFunctionName, Error>)
    ensures
        match (r, spec_parse_rust_name(function@)) {
            (Ok(name), Ok(sname)) => name@ == sname,
            (Err(e), Err(se)) => e@ == se,
            _ => false,
        },
{
    proof {
        reveal_strlit(" as ");
        reveal_strlit(">::");
        reveal_strlit("::");
    }
    let len = function.unicode_len();
    if len > 0 && function.get_char(0) == '<' {
        let t = function.substring_char(1, len);
        proof {
            assert(t@ =~= function@.drop_first());
        }
        let tlen = t.unicode_len();
        match find_sub(t, " as ") {
            Some(i) => {
                proof {
                    crate::text::lemma_spec_find_occurs(t@, " as "@, 0);
                }
                let rem = t.substring_char(i + 4, tlen);
                proof {
                    assert(rem@ =~= t@.skip(i + 4));
                }
                let remlen = rem.unicode_len();
                match rfind_sub(rem, ">::") {
                    Some(j) => {
                        proof {
                            crate::text::lemma_spec_rfind_occurs(rem@, ">::"@, rem@.len() - 3);
                        }
                        let trait_ = String::from_str(rem.substring_char(0, j));
                        let type_ = String::from_str(t.substring_char(0, i));
                        let method = String::from_str(rem.substring_char(j + 3, remlen));
                        proof {
                            assert(trait_@ =~= rem@.take(j as int));
                            assert(type_@ =~= t@.take(i as int));
                            assert(method@ =~= rem@.skip(j + 3));
                        }
                        Ok(RustFunctionName::TraitMethod { trait_, type_, method })
                    },
                    None => Err(Error::MalformedTraitMethod(String::from_str(t))),
                }
            },
            None => {
                match rfind_sub(t, ">::") {
                    Some(j) => {
                        proof {
                            crate::text::lemma_spec_rfind_occurs(t@, ">::"@, t@.len() - 3);
                        }
                        let type_ = String::from_str(t.substring_char(0, j));
                        let method = String::from_str(t.substring_char(j + 3, tlen));
                        proof {
                            assert(type_@ =~= t@.take(j as int));
                            assert(method@ =~= t@.skip(j + 3));
                        }
                        Ok(RustFunctionName::StructMethod { type_, method })
                    },
                    None => Err(Error::MalformedMethod(String::from_str(t))),
                }
            },
        }
    } else if !(len > 0 && function.get_char(len - 1) == '>') {
        match rfind_sub(function, "::") {
            Some(j) => {
                proof {
                    crate::text::lemma_spec_rfind_occurs(function@, "::"@, function@.len() - 2);
                }
                let type_ = String::from_str(function.substring_char(0, j));
                let method = String::from_str(function.substring_char(j + 2, len));
                proof {
                    assert(type_@ =~= function@.take(j as int));
                    assert(method@ =~= function@.skip(j + 2));
                }
                Ok(RustFunctionName::StructMethod { type_, method })
            },
            None => Ok(RustFunctionName::Bare { function: String::from_str(function) }),
        }
    } else {
        Ok(RustFunctionName::Bare { function: String::from_str(function) })
    }
}

/// The language name that the demangler infers for a symbol; a function of
/// the symbol text alone.
pub uninterp spec fn sym_language_of(s: Seq<char>) -> Seq<char>;

/// The demangler's name-only demangling of a symbol, when it succeeds; a
/// function of the symbol text alone.
pub uninterp spec fn sym_demangled(s: Seq<char>) -> Option<Seq<char>>;

/// The demangler's best-effort display form of a symbol; a function of the
/// symbol text alone.
pub uninterp spec fn sym_display_of(s: Seq<char>) -> Seq<char>;

/// Relies on symbolic's `Demangle::detect_language` on a `Name` built with
/// unknown mangling and language: the language is inferred from the symbol
/// text alone, and rendered through `Language`'s display form, which is
/// `"Rust"` exactly for Rust symbols.
#[verifier::external_body]
fn symbol_language(mangled: &str) -> (r: String)
    ensures
        r@ == sym_language_of(mangled@),
{
    Demangle::detect_language(&symbolic::common::Name::new(
        mangled,
        symbolic::common::NameMangling::Mangled,
        symbolic::common::Language::Unknown,
    )).to_string()
}

/// Relies on symbolic's `Demangle::demangle` with name-only options: the
/// result depends on the symbol text alone, and is `None` when the
/// demangler fails.
#[verifier::external_body]
fn demangle_name(mangled: &str) -> (r: Option<String>)
    ensures
        match r {
            Some(d) => sym_demangled(mangled@) == Some(d@),
            None => sym_demangled(mangled@) is None,
        },
{
    Demangle::demangle(&symbolic::common::Name::new(
        mangled,
        symbolic::common::NameMangling::Mangled,
        symbolic::common::Language::Unknown,
    ), symbolic::demangle::DemangleOptions::name_only())
}

/// Relies on symbolic's `Demangle::try_demangle` with name-only options: a
/// best-effort demangling that falls back to the symbol itself, a function
/// of the symbol text alone.
#[verifier::external_body]
fn demangle_display(mangled: &str) -> (r: String)
    ensures
        r@ == sym_display_of(mangled@),
{
    Demangle::try_demangle(&symbolic::common::Name::new(
        mangled,
        symbolic::common::NameMangling::Mangled,
        symbolic::common::Language::Unknown,
    ), symbolic::demangle::DemangleOptions::name_only()).to_string()
}

/// What `parse_mangled_name` returns: a Rust symbol is demangled and parsed
/// into a structured name (failing when the demangler or the structure
/// fails); any other symbol keeps its best-effort display form and its
/// language.
pub open spec fn spec_parsed_mangled(m: Seq<char>, r: Result<FunctionName, Error>) -> bool {
    if sym_language_of(m) == "Rust"@ {
        match sym_demangled(m) {
            Some(d) => match spec_parse_rust_name(d) {
                Ok(sname) => r matches Ok(n) && n@ == (SpecFunctionName::Rust {
                    display_name: d,
                    name: sname,
                }),
                Err(se) => r matches Err(e) && e@ == se,
            },
            None => r matches Err(e) && e@ == SpecNameError::Demangle(m),
        }
    } else {
        r matches Ok(n) && n@ == (SpecFunctionName::Other {
            display_name: sym_display_of(m),
            language: sym_language_of(m),
        })
    }
}

/// Whether a mangled symbol canonicalizes successfully: a foreign symbol
/// always does, a Rust symbol when it demangles and its display form has a
/// valid structure.
pub open spec fn spec_mangled_parses(m: Seq<char>) -> bool {
    if sym_language_of(m) == "Rust"@ {
        match sym_demangled(m) {
            Some(d) => spec_parse_rust_name(d) is Ok,
            None => false,
        }
    } else {
        true
    }
}

/// A name present anywhere in the table is found.
pub proof fn lemma_find_name_exists(names: Seq<Seq<char>>, m: Seq<char>)
    requires
        exists|i: int| 0 <= i < names.len() && names[i] == m,
    ensures
        spec_find_name(names, m) is Some,
    decreases names.len(),
{
    if names.len() > 0 && names[0] != m {
        let i = choose|i: int| 0 <= i < names.len() && names[i] == m;
        assert(names.drop_first()[i - 1] == names[i]);
        lemma_find_name_exists(names.drop_first(), m);
    }
}

/// A found name stays found, at the same index, when the table is extended
/// without disturbing existing entries.
pub proof fn lemma_find_name_extend(names1: Seq<Seq<char>>, names2: Seq<Seq<char>>, m: Seq<char>)
    requires
        names1.len() <= names2.len(),
        forall|i: int| 0 <= i < names1.len() ==> names2[i] == names1[i],
        spec_find_name(names1, m) is Some,
    ensures
        spec_find_name(names2, m) == spec_find_name(names1, m),
{
    lemma_find_name_props(names1, m);
    let i = spec_find_name(names1, m).unwrap();
    assert(names2[i] == m);
    assert forall|j: int| 0 <= j < i implies names2[j] != m by {
        assert(names2[j] == names1[j]);
    }
    lemma_find_name_at(names2, m, i);
}

/// The identity a symbol canonicalizes to, when it canonicalizes: the
/// demangled Rust display form with its structure, or the foreign display
/// form with its language.
pub open spec fn spec_parsed_view(m: Seq<char>) -> SpecFunctionName {
    if sym_language_of(m) == "Rust"@ {
        SpecFunctionName::Rust {
            display_name: sym_demangled(m).unwrap(),
            name: match spec_parse_rust_name(sym_demangled(m).unwrap()) {
                Ok(n) => n,
                Err(_) => SpecRustName::Bare { function: sym_demangled(m).unwrap() },
            },
        }
    } else {
        SpecFunctionName::Other { display_name: sym_display_of(m), language: sym_language_of(m) }
    }
}

/// Canonicalize a mangled symbol into a function identity.
pub fn parse_mangled_name(mangled: &str) -> (r: Result<FunctionName, Error>)
    ensures
        spec_parsed_mangled(mangled@, r),
{
    let lang = symbol_language(mangled);
    if str_eq(lang.as_str(), "Rust") {
        match demangle_name(mangled) {
            Some(demangled) => match parse_rust_function_name(demangled.as_str()) {
                Ok(name) => Ok(FunctionName::Rust { display_name: demangled, name }),
                Err(e) => Err(e),
            },
            None => Err(Error::Demangle(String::from_str(mangled))),
        }
    } else {
        Ok(FunctionName::Other { display_name: demangle_display(mangled), language: lang })
    }
}

/// The capability map seeded from the dictionary for a function name:
/// every capability the dictionary lists for its display name, as `Direct`.
pub open spec fn spec_direct_caps_ok(
    dict: Seq<(Seq<char>, crate::fncaps::Function)>,
    name: FunctionName,
    caps: Seq<(Capability, CapabilityType)>,
) -> bool {
    match crate::fncaps::spec_dict_lookup(dict, crate::report::spec_display_name(name)) {
        Some(entry) => forall|c: Capability|
            #[trigger] spec_get(caps, c) == if crate::capmap::spec_set_contains(entry.caps@, c) {
                Some(CapabilityType::Direct)
            } else {
                None::<CapabilityType>
            },
        None => caps == Seq::<(Capability, CapabilityType)>::empty(),
    }
}

/// The direct capabilities the dictionary assigns to `name`, each recorded
/// as `Direct`; empty when the display name is not in the dictionary.
pub fn direct_fn_caps(function_caps: &crate::fncaps::FunctionCaps, name: &FunctionName) -> (r:
    crate::capmap::CapMap)
    requires
        function_caps.wf(),
    ensures
        r.wf(),
        spec_direct_caps_ok(function_caps.records(), *name, r@),
{
    let mut m = crate::capmap::CapMap::new();
    match function_caps.get(name.display_name()) {
        Some(entry) => {
            let n = entry.caps.len();
            let mut i: usize = 0;
            while i < n
                invariant
                    i <= n,
                    n == entry.caps@.len(),
                    m.wf(),
                    entry.wf(),
                    forall|c: Capability|
                        #[trigger] spec_get(m@, c) == if exists|j: int|
                            0 <= j < i && entry.caps@[j] == c {
                            Some(CapabilityType::Direct)
                        } else {
                            None::<CapabilityType>
                        },
                decreases n - i,
            {
                let c = entry.caps.item_at(i);
                m.insert_max(c, CapabilityType::Direct);
                proof {
                    assert forall|d: Capability| true implies #[trigger] spec_get(m@, d) == (
                    if exists|j: int| 0 <= j < i + 1 && entry.caps@[j] == d {
                        Some(CapabilityType::Direct)
                    } else {
                        None::<CapabilityType>
                    }) by {
                        if d == c {
                            assert(entry.caps@[i as int] == d);
                        } else {
                            if exists|j: int| 0 <= j < i + 1 && entry.caps@[j] == d {
                                let j = choose|j: int| 0 <= j < i + 1 && entry.caps@[j] == d;
                                assert(j < i);
                            }
                        }
                    }
                }
                i += 1;
            }
            proof {
                assert forall|c: Capability| true implies #[trigger] spec_get(m@, c) == (
                if crate::capmap::spec_set_contains(entry.caps@, c) {
                    Some(CapabilityType::Direct)
                } else {
                    None::<CapabilityType>
                }) by {}
            }
        },
        None => {
        },
    }
    m
}

/// The first position of `m` in `names`, if it occurs.
pub open spec fn spec_find_name(names: Seq<Seq<char>>, m: Seq<char>) -> Option<int>
    decreases names.len(),
{
    if names.len() == 0 {
        None
    } else if names[0] == m {
        Some(0)
    } else {
        match spec_find_name(names.drop_first(), m) {
            Some(i) => Some(i + 1),
            None => None,
        }
    }
}

/// The index an upsert of `m` yields: its current position, or the end.
pub open spec fn spec_upsert_idx(names: Seq<Seq<char>>, m: Seq<char>) -> int {
    match spec_find_name(names, m) {
        Some(i) => i,
        None => names.len() as int,
    }
}

/// The name table after an upsert of `m`: unchanged when present, else
/// extended by `m`.
pub open spec fn spec_upsert_names(names: Seq<Seq<char>>, m: Seq<char>) -> Seq<Seq<char>> {
    match spec_find_name(names, m) {
        Some(_) => names,
        None => names.push(m),
    }
}

/// What `spec_find_name` finds is a first occurrence.
pub proof fn lemma_find_name_props(names: Seq<Seq<char>>, m: Seq<char>)
    ensures
        match spec_find_name(names, m) {
            Some(i) => 0 <= i < names.len() && names[i] == m && forall|j: int|
                0 <= j < i ==> names[j] != m,
            None => forall|j: int| 0 <= j < names.len() ==> names[j] != m,
        },
    decreases names.len(),
{
    if names.len() > 0 && names[0] != m {
        lemma_find_name_props(names.drop_first(), m);
        assert forall|j: int| 0 <= j < names.len() implies names.drop_first()[j - 1] == names[j]
            || j == 0 by {
            if j > 0 {
                assert(names.drop_first()[j - 1] == names[j]);
            }
        }
    }
}

/// A first occurrence is what `spec_find_name` finds.
pub proof fn lemma_find_name_at(names: Seq<Seq<char>>, m: Seq<char>, k: int)
    requires
        0 <= k < names.len(),
        names[k] == m,
        forall|j: int| 0 <= j < k ==> names[j] != m,
    ensures
        spec_find_name(names, m) == Some(k),
    decreases k,
{
    if k > 0 {
        assert forall|j: int| 0 <= j < k - 1 implies names.drop_first()[j] != m by {
            assert(names.drop_first()[j] == names[j + 1]);
        }
        assert(names.drop_first()[k - 1] == names[k]);
        lemma_find_name_at(names.drop_first(), m, k - 1);
    }
}

/// A name absent everywhere is not found.
pub proof fn lemma_find_name_absent(names: Seq<Seq<char>>, m: Seq<char>)
    requires
        forall|j: int| 0 <= j < names.len() ==> names[j] != m,
    ensures
        spec_find_name(names, m) is None,
    decreases names.len(),
{
    if names.len() > 0 {
        assert forall|j: int| 0 <= j < names.drop_first().len() implies names.drop_first()[j]
            != m by {
            assert(names.drop_first()[j] == names[j + 1]);
        }
        lemma_find_name_absent(names.drop_first(), m);
    }
}

/// Map stability: upserting a name twice yields the same index both times,
/// and the second upsert leaves the table unchanged; the table only ever
/// grows at the end.
pub proof fn lemma_upsert_stable(names: Seq<Seq<char>>, m: Seq<char>)
    ensures
        spec_upsert_idx(spec_upsert_names(names, m), m) == spec_upsert_idx(names, m),
        spec_upsert_names(spec_upsert_names(names, m), m) == spec_upsert_names(names, m),
        names.is_prefix_of(spec_upsert_names(names, m)),
{
    lemma_find_name_props(names, m);
    match spec_find_name(names, m) {
        Some(i) => {
            assert(names.is_prefix_of(names)) by {
                assert(names.take(names.len() as int) =~= names);
            }
        },
        None => {
            let names1 = names.push(m);
            lemma_find_name_at(names1, m, names.len() as int);
            assert(names.is_prefix_of(names1)) by {
                assert(names1.take(names.len() as int) =~= names);
            }
        },
    }
}

/// A dedup table of functions: each unique mangled name is assigned the
/// next dense index, and keeps it forever.
pub struct FunctionMap {
    functions: Vec<Function>,
    names: Vec<String>,
}

impl FunctionMap {
    /// The functions, by index.
    pub closed spec fn funcs(&self) -> Seq<Function> {
        self.functions@
    }

    /// The mangled names, by the same indices.
    pub closed spec fn names(&self) -> Seq<Seq<char>> {
        self.names.deep_view()
    }

    /// Names are unique, indices line up, and every function's ordered
    /// containers are well formed.
    pub open spec fn wf(&self) -> bool {
        &&& self.funcs().len() == self.names().len()
        &&& forall|i: int, j: int|
            0 <= i < j < self.names().len() ==> self.names()[i] != self.names()[j]
        &&& forall|i: int| 0 <= i < self.funcs().len() ==> (#[trigger] self.funcs()[i]).wf()
    }

    /// An empty map.
    pub fn new() -> (r: FunctionMap)
        ensures
            r.wf(),
            r.funcs() == Seq::<Function>::empty(),
            r.names() == Seq::<Seq<char>>::empty(),
    {
        let functions: Vec<Function> = Vec::new();
        let names: Vec<String> = Vec::new();
        proof {
            assert(names.deep_view() =~= Seq::<Seq<char>>::empty());
        }
        FunctionMap { functions, names }
    }

    /// The number of functions.
    pub fn len(&self) -> (r: usize)
        ensures
            r == self.funcs().len(),
    {
        self.functions.len()
    }

    /// The function at index `idx`, if any.
    pub fn get(&self, idx: usize) -> (r: Option<&Function>)
        ensures
            match r {
                Some(f) => idx < self.funcs().len() && *f == self.funcs()[idx as int],
                None => idx >= self.funcs().len(),
            },
    {
        if idx < self.functions.len() {
            Some(&self.functions[idx])
        } else {
            None
        }
    }

    /// The index assigned to `mangled`, if it has been recorded.
    pub fn get_index(&self, mangled: &str) -> (r: Option<usize>)
        ensures
            match r {
                Some(i) => spec_find_name(self.names(), mangled@) == Some(i as int),
                None => spec_find_name(self.names(), mangled@) is None,
            },
    {
        proof {
            assert(self.names.deep_view().len() == self.names@.len());
        }
        let mut i: usize = 0;
        while i < self.names.len()
            invariant
                i <= self.names@.len(),
                self.names().len() == self.names@.len(),
                forall|j: int| 0 <= j < i ==> self.names()[j] != mangled@,
            decreases self.names@.len() - i,
        {
            proof {
                assert(self.names()[i as int] == self.names@[i as int]@);
            }
            if str_eq(self.names[i].as_str(), mangled) {
                proof {
                    lemma_find_name_at(self.names(), mangled@, i as int);
                }
                return Some(i);
            }
            i += 1;
        }
        proof {
            lemma_find_name_absent(self.names(), mangled@);
        }
        None
    }

    /// Give up the map, keeping the dense function array.
    pub fn into_functions(self) -> (r: Vec<Function>)
        ensures
            r@ == self.funcs(),
    {
        self.functions
    }

    /// Record `function` under `mangled`. A name already present keeps its
    /// index and its recorded function; a new name is appended and assigned
    /// the next index.
    pub fn upsert(&mut self, mangled: &str, function: Function) -> (idx: usize)
        requires
            old(self).wf(),
            function.wf(),
        ensures
            final(self).wf(),
            idx as int == spec_upsert_idx(old(self).names(), mangled@),
            final(self).names() == spec_upsert_names(old(self).names(), mangled@),
            final(self).funcs() == match spec_find_name(old(self).names(), mangled@) {
                Some(_) => old(self).funcs(),
                None => old(self).funcs().push(function),
            },
            idx < final(self).funcs().len(),
    {
        proof {
            assert(self.names.deep_view().len() == self.names@.len());
        }
        let existing = self.get_index(mangled);
        match existing {
            Some(i) => {
                proof {
                    lemma_find_name_props(self.names(), mangled@);
                }
                i
            },
            None => {
                let idx = self.functions.len();
                self.functions.push(function);
                let ghost old_names = self.names();
                self.names.push(String::from_str(mangled));
                proof {
                    assert(self.names() =~= old_names.push(mangled@)) by {
                        assert(self.names@.len() == old(self).names@.len() + 1);
                        assert forall|k: int| 0 <= k < self.names@.len() implies self.names()[k]
                            == old_names.push(mangled@)[k] by {
                            assert(self.names()[k] == self.names@[k]@);
                            if k < old(self).names@.len() {
                                assert(self.names@[k] == old(self).names@[k]);
                                assert(old_names[k] == old(self).names@[k]@);
                            }
                        }
                    }
                    lemma_find_name_props(old(self).names(), mangled@);
                    assert forall|i: int, j: int|
                        0 <= i < j < self.names().len() implies self.names()[i]
                        != self.names()[j] by {
                        if j == self.names().len() - 1 {
                            assert(self.names()[j] == mangled@);
                            assert(self.names()[i] == old_names[i]);
                        }
                    }
                }
                idx
            },
        }
    }

    /// A clone of the capability map of the function at `idx`.
    pub fn caps_of(&self, idx: usize) -> (r: crate::capmap::CapMap)
        requires
            idx < self.funcs().len(),
        ensures
            r@ == self.funcs()[idx as int].capabilities@,
    {
        self.functions[idx].capabilities.clone()
    }

    /// The type recorded for capability `c` on the function at `idx`.
    pub fn get_cap(&self, idx: usize, c: Capability) -> (r: Option<CapabilityType>)
        requires
            idx < self.funcs().len(),
        ensures
            r == spec_get(self.funcs()[idx as int].capabilities@, c),
    {
        self.functions[idx].capabilities.get(c)
    }

    /// Record a capability on the function at `idx`, combining as max with
    /// any type already present.
    pub fn insert_capability_at(&mut self, idx: usize, c: Capability, ty: CapabilityType)
        requires
            old(self).wf(),
            idx < old(self).funcs().len(),
        ensures
            final(self).wf(),
            final(self).names() == old(self).names(),
            final(self).funcs().len() == old(self).funcs().len(),
            forall|i: int|
                0 <= i < final(self).funcs().len() && i != idx ==> final(self).funcs()[i] == old(
                    self,
                ).funcs()[i],
            final(self).funcs()[idx as int].name == old(self).funcs()[idx as int].name,
            final(self).funcs()[idx as int].location == old(self).funcs()[idx as int].location,
            final(self).funcs()[idx as int].syscalls == old(self).funcs()[idx as int].syscalls,
            spec_get(final(self).funcs()[idx as int].capabilities@, c) == Some(
                match spec_get(old(self).funcs()[idx as int].capabilities@, c) {
                    Some(t0) => spec_cap_type_max(t0, ty),
                    None => ty,
                },
            ),
            forall|d: Capability|
                d != c ==> spec_get(final(self).funcs()[idx as int].capabilities@, d) == spec_get(
                    old(self).funcs()[idx as int].capabilities@,
                    d,
                ),
            final(self).funcs()[idx as int].capabilities@.len() == if spec_get(
                old(self).funcs()[idx as int].capabilities@,
                c,
            ) is Some {
                old(self).funcs()[idx as int].capabilities@.len()
            } else {
                old(self).funcs()[idx as int].capabilities@.len() + 1
            },
    {
        let f = &mut self.functions[idx];
        f.insert_capability(c, ty);
    }

    /// Canonicalize `mangled` and record it with the direct capabilities
    /// the dictionary assigns to its display name; a name already present
    /// keeps its index and recorded function.
    pub fn upsert_with_caps(
        &mut self,
        function_caps: &crate::fncaps::FunctionCaps,
        mangled: &str,
        location: Option<crate::report::Location>,
    ) -> (r: Result<usize, Error>)
        requires
            old(self).wf(),
            function_caps.wf(),
        ensures
            final(self).wf(),
            match r {
                Ok(idx) => {
                    &&& final(self).names() == spec_upsert_names(old(self).names(), mangled@)
                    &&& idx as int == spec_upsert_idx(old(self).names(), mangled@)
                    &&& idx < final(self).funcs().len()
                    &&& (spec_find_name(old(self).names(), mangled@) is Some ==> final(self).funcs()
                        == old(self).funcs())
                    &&& (spec_find_name(old(self).names(), mangled@) is None ==> {
                        let f = final(self).funcs().last();
                        &&& final(self).funcs().len() == old(self).funcs().len() + 1
                        &&& forall|i: int|
                            0 <= i < old(self).funcs().len() ==> final(self).funcs()[i] == old(
                                self,
                            ).funcs()[i]
                        &&& spec_parsed_mangled(mangled@, Ok(f.name))
                        &&& f.location == location
                        &&& spec_direct_caps_ok(function_caps.records(), f.name, f.capabilities@)
                        &&& f.syscalls@ == Seq::<Seq<char>>::empty()
                    })
                },
                Err(e) => {
                    &&& *final(self) == *old(self)
                    &&& spec_parsed_mangled(mangled@, Err(e))
                },
            },
    {
        let name = match parse_mangled_name(mangled) {
            Ok(name) => name,
            Err(e) => {
                return Err(e);
            },
        };
        let capabilities = direct_fn_caps(function_caps, &name);
        let f = Function {
            name,
            location,
            capabilities,
            syscalls: crate::strset::StrSet::new(),
        };
        Ok(self.upsert(mangled, f))
    }
}

} // verus!
