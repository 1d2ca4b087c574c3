//! The capability taxonomy: the closed set of coarse privilege classes a
//! program may exercise, and the strength with which a function holds one.
use vstd::prelude::*;

use crate::text::str_eq;

verus! {

/// A coarse privilege class. `Safe` is the distinguished value meaning
/// "requires no capability".
#[derive(Debug, Clone, Copy, PartialEq, Eq, Structural, Hash)]
pub enum Capability {
    Unspecified,
    Safe,
    Files,
    Network,
    Runtime,
    ReadSystemState,
    ModifySystemState,
    OperatingSystem,
    SystemCalls,
    ArbitraryExecution,
    Cgo,
    Unanalyzed,
    UnsafePointer,
    Reflect,
    Exec,
    DynamicLoading,
    Instrumentation,
    NativeCode,
}

impl DeepView for Capability {
    type V = Capability;

    open spec fn deep_view(&self) -> Capability {
        *self
    }
}

/// The stable integer code of a capability; also its canonical sort order.
pub open spec fn spec_cap_code(c: Capability) -> u32 {
    match c {
        Capability::Unspecified => 0,
        Capability::Safe => 1,
        Capability::Files => 2,
        Capability::Network => 3,
        Capability::Runtime => 4,
        Capability::ReadSystemState => 5,
        Capability::ModifySystemState => 6,
        Capability::OperatingSystem => 7,
        Capability::SystemCalls => 8,
        Capability::ArbitraryExecution => 9,
        Capability::Cgo => 10,
        Capability::Unanalyzed => 11,
        Capability::UnsafePointer => 12,
        Capability::Reflect => 13,
        Capability::Exec => 14,
        Capability::DynamicLoading => 15,
        Capability::Instrumentation => 16,
        Capability::NativeCode => 17,
    }
}

/// The canonical string name of a capability.
pub open spec fn spec_cap_name(c: Capability) -> Seq<char> {
    match c {
        Capability::Unspecified => "CAPABILITY_UNSPECIFIED"@,
        Capability::Safe => "CAPABILITY_SAFE"@,
        Capability::Files => "CAPABILITY_FILES"@,
        Capability::Network => "CAPABILITY_NETWORK"@,
        Capability::Runtime => "CAPABILITY_RUNTIME"@,
        Capability::ReadSystemState => "CAPABILITY_READ_SYSTEM_STATE"@,
        Capability::ModifySystemState => "CAPABILITY_MODIFY_SYSTEM_STATE"@,
        Capability::OperatingSystem => "CAPABILITY_OPERATING_SYSTEM"@,
        Capability::SystemCalls => "CAPABILITY_SYSTEM_CALLS"@,
        Capability::ArbitraryExecution => "CAPABILITY_ARBITRARY_EXECUTION"@,
        Capability::Cgo => "CAPABILITY_CGO"@,
        Capability::Unanalyzed => "CAPABILITY_UNANALYZED"@,
        Capability::UnsafePointer => "CAPABILITY_UNSAFE_POINTER"@,
        Capability::Reflect => "CAPABILITY_REFLECT"@,
        Capability::Exec => "CAPABILITY_EXEC"@,
        Capability::DynamicLoading => "CAPABILITY_DYNAMIC_LOADING"@,
        Capability::Instrumentation => "CAPABILITY_INSTRUMENTATION"@,
        Capability::NativeCode => "CAPABILITY_NATIVE_CODE"@,
    }
}

/// The capability whose canonical name is `s`, if any.
pub open spec fn spec_cap_parse(s: Seq<char>) -> Option<Capability> {
    if s == spec_cap_name(Capability::Unspecified) {
        Some(Capability::Unspecified)
    } else if s == spec_cap_name(Capability::Safe) {
        Some(Capability::Safe)
    } else if s == spec_cap_name(Capability::Files) {
        Some(Capability::Files)
    } else if s == spec_cap_name(Capability::Network) {
        Some(Capability::Network)
    } else if s == spec_cap_name(Capability::Runtime) {
        Some(Capability::Runtime)
    } else if s == spec_cap_name(Capability::ReadSystemState) {
        Some(Capability::ReadSystemState)
    } else if s == spec_cap_name(Capability::ModifySystemState) {
        Some(Capability::ModifySystemState)
    } else if s == spec_cap_name(Capability::OperatingSystem) {
        Some(Capability::OperatingSystem)
    } else if s == spec_cap_name(Capability::SystemCalls) {
        Some(Capability::SystemCalls)
    } else if s == spec_cap_name(Capability::ArbitraryExecution) {
        Some(Capability::ArbitraryExecution)
    } else if s == spec_cap_name(Capability::Cgo) {
        Some(Capability::Cgo)
    } else if s == spec_cap_name(Capability::Unanalyzed) {
        Some(Capability::Unanalyzed)
    } else if s == spec_cap_name(Capability::UnsafePointer) {
        Some(Capability::UnsafePointer)
    } else if s == spec_cap_name(Capability::Reflect) {
        Some(Capability::Reflect)
    } else if s == spec_cap_name(Capability::Exec) {
        Some(Capability::Exec)
    } else if s == spec_cap_name(Capability::DynamicLoading) {
        Some(Capability::DynamicLoading)
    } else if s == spec_cap_name(Capability::Instrumentation) {
        Some(Capability::Instrumentation)
    } else if s == spec_cap_name(Capability::NativeCode) {
        Some(Capability::NativeCode)
    } else {
        None
    }
}

/// Parse failure: the string is not the canonical name of any capability.
#[derive(Debug, Clone, Copy, PartialEq, Eq, Structural)]
pub enum ParseError {
    VariantNotFound,
}

impl Capability {
    /// The stable integer code, which also orders capabilities canonically.
    pub fn code(&self) -> (r: u32)
        ensures
            r == spec_cap_code(*self),
    {
        match self {
            Capability::Unspecified => 0,
            Capability::Safe => 1,
            Capability::Files => 2,
            Capability::Network => 3,
            Capability::Runtime => 4,
            Capability::ReadSystemState => 5,
            Capability::ModifySystemState => 6,
            Capability::OperatingSystem => 7,
            Capability::SystemCalls => 8,
            Capability::ArbitraryExecution => 9,
            Capability::Cgo => 10,
            Capability::Unanalyzed => 11,
            Capability::UnsafePointer => 12,
            Capability::Reflect => 13,
            Capability::Exec => 14,
            Capability::DynamicLoading => 15,
            Capability::Instrumentation => 16,
            Capability::NativeCode => 17,
        }
    }

    /// The canonical string name, `CAPABILITY_`-prefixed.
    pub fn name(&self) -> (r: &'static str)
        ensures
            r@ == spec_cap_name(*self),
    {
        match self {
            Capability::Unspecified => "CAPABILITY_UNSPECIFIED",
            Capability::Safe => "CAPABILITY_SAFE",
            Capability::Files => "CAPABILITY_FILES",
            Capability::Network => "CAPABILITY_NETWORK",
            Capability::Runtime => "CAPABILITY_RUNTIME",
            Capability::ReadSystemState => "CAPABILITY_READ_SYSTEM_STATE",
            Capability::ModifySystemState => "CAPABILITY_MODIFY_SYSTEM_STATE",
            Capability::OperatingSystem => "CAPABILITY_OPERATING_SYSTEM",
            Capability::SystemCalls => "CAPABILITY_SYSTEM_CALLS",
            Capability::ArbitraryExecution => "CAPABILITY_ARBITRARY_EXECUTION",
            Capability::Cgo => "CAPABILITY_CGO",
            Capability::Unanalyzed => "CAPABILITY_UNANALYZED",
            Capability::UnsafePointer => "CAPABILITY_UNSAFE_POINTER",
            Capability::Reflect => "CAPABILITY_REFLECT",
            Capability::Exec => "CAPABILITY_EXEC",
            Capability::DynamicLoading => "CAPABILITY_DYNAMIC_LOADING",
            Capability::Instrumentation => "CAPABILITY_INSTRUMENTATION",
            Capability::NativeCode => "CAPABILITY_NATIVE_CODE",
        }
    }

    /// Parse a capability from its canonical name; fails on any other string.
    pub fn parse(s: &str) -> (r: Result<Capability, ParseError>)
        ensures
            match r {
                Ok(c) => spec_cap_parse(s@) == Some(c),
                Err(_) => spec_cap_parse(s@) is None,
            },
    {
        if str_eq(s, "CAPABILITY_UNSPECIFIED") {
            Ok(Capability::Unspecified)
        } else if str_eq(s, "CAPABILITY_SAFE") {
            Ok(Capability::Safe)
        } else if str_eq(s, "CAPABILITY_FILES") {
            Ok(Capability::Files)
        } else if str_eq(s, "CAPABILITY_NETWORK") {
            Ok(Capability::Network)
        } else if str_eq(s, "CAPABILITY_RUNTIME") {
            Ok(Capability::Runtime)
        } else if str_eq(s, "CAPABILITY_READ_SYSTEM_STATE") {
            Ok(Capability::ReadSystemState)
        } else if str_eq(s, "CAPABILITY_MODIFY_SYSTEM_STATE") {
            Ok(Capability::ModifySystemState)
        } else if str_eq(s, "CAPABILITY_OPERATING_SYSTEM") {
            Ok(Capability::OperatingSystem)
        } else if str_eq(s, "CAPABILITY_SYSTEM_CALLS") {
            Ok(Capability::SystemCalls)
        } else if str_eq(s, "CAPABILITY_ARBITRARY_EXECUTION") {
            Ok(Capability::ArbitraryExecution)
        } else if str_eq(s, "CAPABILITY_CGO") {
            Ok(Capability::Cgo)
        } else if str_eq(s, "CAPABILITY_UNANALYZED") {
            Ok(Capability::Unanalyzed)
        } else if str_eq(s, "CAPABILITY_UNSAFE_POINTER") {
            Ok(Capability::UnsafePointer)
        } else if str_eq(s, "CAPABILITY_REFLECT") {
            Ok(Capability::Reflect)
        } else if str_eq(s, "CAPABILITY_EXEC") {
            Ok(Capability::Exec)
        } else if str_eq(s, "CAPABILITY_DYNAMIC_LOADING") {
            Ok(Capability::DynamicLoading)
        } else if str_eq(s, "CAPABILITY_INSTRUMENTATION") {
            Ok(Capability::Instrumentation)
        } else if str_eq(s, "CAPABILITY_NATIVE_CODE") {
            Ok(Capability::NativeCode)
        } else {
            Err(ParseError::VariantNotFound)
        }
    }
}

/// Capability codes are distinct, so the code determines the capability.
pub proof fn lemma_cap_code_injective(a: Capability, b: Capability)
    ensures
        spec_cap_code(a) == spec_cap_code(b) ==> a == b,
{
}

/// Round trip: parsing the canonical name of any capability gives it back.
pub proof fn lemma_cap_name_round_trip(c: Capability)
    ensures
        spec_cap_parse(spec_cap_name(c)) == Some(c),
{
    reveal_strlit("CAPABILITY_UNSPECIFIED");
    reveal_strlit("CAPABILITY_SAFE");
    reveal_strlit("CAPABILITY_FILES");
    reveal_strlit("CAPABILITY_NETWORK");
    reveal_strlit("CAPABILITY_RUNTIME");
    reveal_strlit("CAPABILITY_READ_SYSTEM_STATE");
    reveal_strlit("CAPABILITY_MODIFY_SYSTEM_STATE");
    reveal_strlit("CAPABILITY_OPERATING_SYSTEM");
    reveal_strlit("CAPABILITY_SYSTEM_CALLS");
    reveal_strlit("CAPABILITY_ARBITRARY_EXECUTION");
    reveal_strlit("CAPABILITY_CGO");
    reveal_strlit("CAPABILITY_UNANALYZED");
    reveal_strlit("CAPABILITY_UNSAFE_POINTER");
    reveal_strlit("CAPABILITY_REFLECT");
    reveal_strlit("CAPABILITY_EXEC");
    reveal_strlit("CAPABILITY_DYNAMIC_LOADING");
    reveal_strlit("CAPABILITY_INSTRUMENTATION");
    reveal_strlit("CAPABILITY_NATIVE_CODE");
    assert("CAPABILITY_UNSPECIFIED"@.len() == 22);
    assert("CAPABILITY_SAFE"@.len() == 15);
    assert("CAPABILITY_FILES"@.len() == 16);
    assert("CAPABILITY_NETWORK"@.len() == 18);
    assert("CAPABILITY_RUNTIME"@.len() == 18);
    assert("CAPABILITY_READ_SYSTEM_STATE"@.len() == 28);
    assert("CAPABILITY_MODIFY_SYSTEM_STATE"@.len() == 30);
    assert("CAPABILITY_OPERATING_SYSTEM"@.len() == 27);
    assert("CAPABILITY_SYSTEM_CALLS"@.len() == 23);
    assert("CAPABILITY_ARBITRARY_EXECUTION"@.len() == 30);
    assert("CAPABILITY_CGO"@.len() == 14);
    assert("CAPABILITY_UNANALYZED"@.len() == 21);
    assert("CAPABILITY_UNSAFE_POINTER"@.len() == 25);
    assert("CAPABILITY_REFLECT"@.len() == 18);
    assert("CAPABILITY_EXEC"@.len() == 15);
    assert("CAPABILITY_DYNAMIC_LOADING"@.len() == 26);
    assert("CAPABILITY_INSTRUMENTATION"@.len() == 26);
    assert("CAPABILITY_NATIVE_CODE"@.len() == 22);
    assert("CAPABILITY_UNSPECIFIED"@[11] == 'U');
    assert("CAPABILITY_NATIVE_CODE"@[11] == 'N');
    assert("CAPABILITY_SAFE"@[11] == 'S');
    assert("CAPABILITY_EXEC"@[11] == 'E');
    assert("CAPABILITY_NETWORK"@[11] == 'N');
    assert("CAPABILITY_RUNTIME"@[11] == 'R');
    assert("CAPABILITY_RUNTIME"@[12] == 'U');
    assert("CAPABILITY_REFLECT"@[11] == 'R');
    assert("CAPABILITY_REFLECT"@[12] == 'E');
    assert("CAPABILITY_MODIFY_SYSTEM_STATE"@[11] == 'M');
    assert("CAPABILITY_ARBITRARY_EXECUTION"@[11] == 'A');
    assert("CAPABILITY_DYNAMIC_LOADING"@[11] == 'D');
    assert("CAPABILITY_INSTRUMENTATION"@[11] == 'I');
}

/// How a function came to hold a capability. Severity orders the variants:
/// `Unspecified < Transitive < Direct`, independent of declaration order.
#[derive(Debug, Clone, Copy, PartialEq, Eq, Structural, Hash)]
pub enum CapabilityType {
    Unspecified,
    Direct,
    Transitive,
}

impl DeepView for CapabilityType {
    type V = CapabilityType;

    open spec fn deep_view(&self) -> CapabilityType {
        *self
    }
}

/// Severity of a capability type: `Direct` outranks `Transitive`, which
/// outranks `Unspecified`.
pub open spec fn spec_cap_type_severity(t: CapabilityType) -> u32 {
    match t {
        CapabilityType::Unspecified => 0,
        CapabilityType::Transitive => 1,
        CapabilityType::Direct => 2,
    }
}

/// The canonical string name of a capability type.
pub open spec fn spec_cap_type_name(t: CapabilityType) -> Seq<char> {
    match t {
        CapabilityType::Unspecified => "CAPABILITY_TYPE_UNSPECIFIED"@,
        CapabilityType::Direct => "CAPABILITY_TYPE_DIRECT"@,
        CapabilityType::Transitive => "CAPABILITY_TYPE_TRANSITIVE"@,
    }
}

/// The capability type whose canonical name is `s`, if any.
pub open spec fn spec_cap_type_parse(s: Seq<char>) -> Option<CapabilityType> {
    if s == spec_cap_type_name(CapabilityType::Unspecified) {
        Some(CapabilityType::Unspecified)
    } else if s == spec_cap_type_name(CapabilityType::Direct) {
        Some(CapabilityType::Direct)
    } else if s == spec_cap_type_name(CapabilityType::Transitive) {
        Some(CapabilityType::Transitive)
    } else {
        None
    }
}

impl CapabilityType {
    /// Severity rank used for ordering and for combine-as-max.
    pub fn severity(&self) -> (r: u32)
        ensures
            r == spec_cap_type_severity(*self),
    {
        match self {
            CapabilityType::Unspecified => 0,
            CapabilityType::Transitive => 1,
            CapabilityType::Direct => 2,
        }
    }

    /// The canonical string name, `CAPABILITY_TYPE_`-prefixed.
    pub fn name(&self) -> (r: &'static str)
        ensures
            r@ == spec_cap_type_name(*self),
    {
        match self {
            CapabilityType::Unspecified => "CAPABILITY_TYPE_UNSPECIFIED",
            CapabilityType::Direct => "CAPABILITY_TYPE_DIRECT",
            CapabilityType::Transitive => "CAPABILITY_TYPE_TRANSITIVE",
        }
    }

    /// Parse a capability type from its canonical name.
    pub fn parse(s: &str) -> (r: Result<CapabilityType, ParseError>)
        ensures
            match r {
                Ok(t) => spec_cap_type_parse(s@) == Some(t),
                Err(_) => spec_cap_type_parse(s@) is None,
            },
    {
        if str_eq(s, "CAPABILITY_TYPE_UNSPECIFIED") {
            Ok(CapabilityType::Unspecified)
        } else if str_eq(s, "CAPABILITY_TYPE_DIRECT") {
            Ok(CapabilityType::Direct)
        } else if str_eq(s, "CAPABILITY_TYPE_TRANSITIVE") {
            Ok(CapabilityType::Transitive)
        } else {
            Err(ParseError::VariantNotFound)
        }
    }

    /// The more severe of two capability types.
    pub fn max(self, other: CapabilityType) -> (r: CapabilityType)
        ensures
            r == spec_cap_type_max(self, other),
    {
        if self.severity() >= other.severity() {
            self
        } else {
            other
        }
    }
}

/// Combine-as-max over the severity order.
pub open spec fn spec_cap_type_max(a: CapabilityType, b: CapabilityType) -> CapabilityType {
    if spec_cap_type_severity(a) >= spec_cap_type_severity(b) {
        a
    } else {
        b
    }
}

/// Round trip: parsing the canonical name of any capability type gives it
/// back.
pub proof fn lemma_cap_type_name_round_trip(t: CapabilityType)
    ensures
        spec_cap_type_parse(spec_cap_type_name(t)) == Some(t),
{
    reveal_strlit("CAPABILITY_TYPE_UNSPECIFIED");
    reveal_strlit("CAPABILITY_TYPE_DIRECT");
    reveal_strlit("CAPABILITY_TYPE_TRANSITIVE");
    assert("CAPABILITY_TYPE_UNSPECIFIED"@.len() == 27);
    assert("CAPABILITY_TYPE_DIRECT"@.len() == 22);
    assert("CAPABILITY_TYPE_TRANSITIVE"@.len() == 26);
}

impl PartialOrd for CapabilityType {
    /// Capability types are totally ordered by severity, not declaration
    /// order.
    fn partial_cmp(&self, other: &Self) -> (r: Option<core::cmp::Ordering>) {
        if self.severity() < other.severity() {
            Some(core::cmp::Ordering::Less)
        } else if self.severity() == other.severity() {
            Some(core::cmp::Ordering::Equal)
        } else {
            Some(core::cmp::Ordering::Greater)
        }
    }
}

impl vstd::std_specs::cmp::PartialOrdSpecImpl for CapabilityType {
    open spec fn obeys_partial_cmp_spec() -> bool {
        true
    }

    open spec fn partial_cmp_spec(&self, other: &Self) -> Option<core::cmp::Ordering> {
        if spec_cap_type_severity(*self) < spec_cap_type_severity(*other) {
            Some(core::cmp::Ordering::Less)
        } else if spec_cap_type_severity(*self) == spec_cap_type_severity(*other) {
            Some(core::cmp::Ordering::Equal)
        } else {
            Some(core::cmp::Ordering::Greater)
        }
    }
}

} // verus!
