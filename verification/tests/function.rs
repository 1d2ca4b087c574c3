use capslock::caps::{Capability, CapabilityType};
use capslock::function::{parse_mangled_name, parse_rust_function_name, Error, FunctionMap};
use capslock::report::{Function, FunctionName, RustFunctionName};

#[test]
fn rust_demangling() {
    // Success cases.
    match parse_rust_function_name("no_mangle").unwrap() {
        RustFunctionName::Bare { function } => assert_eq!(function, "no_mangle"),
        other => panic!("unexpected: {:?}", other),
    }
    match parse_rust_function_name("foo::bar").unwrap() {
        RustFunctionName::StructMethod { type_, method } => {
            assert_eq!(type_, "foo");
            assert_eq!(method, "bar");
        }
        other => panic!("unexpected: {:?}", other),
    }
    match parse_rust_function_name(
        "<axum::extract::path::Path<T> as axum_core::extract::FromRequestParts<S>>::from_request_parts",
    )
    .unwrap()
    {
        RustFunctionName::TraitMethod {
            trait_,
            type_,
            method,
        } => {
            assert_eq!(trait_, "axum_core::extract::FromRequestParts<S>");
            assert_eq!(type_, "axum::extract::path::Path<T>");
            assert_eq!(method, "from_request_parts");
        }
        other => panic!("unexpected: {:?}", other),
    }
    match parse_rust_function_name(
        "tower::util::map_err::_::<impl tower::util::map_err::MapErrFuture<F,N>>::project",
    )
    .unwrap()
    {
        RustFunctionName::StructMethod { type_, method } => {
            assert_eq!(
                type_,
                "tower::util::map_err::_::<impl tower::util::map_err::MapErrFuture<F,N>>"
            );
            assert_eq!(method, "project");
        }
        other => panic!("unexpected: {:?}", other),
    }

    // Failure cases.
    match parse_rust_function_name("<foo as bar") {
        Err(Error::MalformedTraitMethod(s)) => assert_eq!(s, "foo as bar"),
        other => panic!("unexpected: {:?}", other),
    }
    match parse_rust_function_name("<foo>") {
        Err(Error::MalformedMethod(s)) => assert_eq!(s, "foo>"),
        other => panic!("unexpected: {:?}", other),
    }
}

#[test]
fn demangles_a_legacy_rust_symbol() {
    // A legacy-mangled Rust symbol: the demangler must produce the
    // double-colon display form, not hand the input back.
    let name = parse_mangled_name("_ZN4test3foo17h329f4e3f5f0e6a53E").unwrap();
    match name {
        FunctionName::Rust {
            display_name,
            name: RustFunctionName::StructMethod { type_, method },
        } => {
            assert_eq!(display_name, "test::foo");
            assert_eq!(type_, "test");
            assert_eq!(method, "foo");
        }
        other => panic!("unexpected: {:?}", other),
    }
}

#[test]
fn foreign_symbols_keep_their_display_form() {
    match parse_mangled_name("printf").unwrap() {
        FunctionName::Other { display_name, .. } => assert_eq!(display_name, "printf"),
        other => panic!("unexpected: {:?}", other),
    }
    // A mangled C++ symbol is demangled for display but stays foreign.
    match parse_mangled_name("_Z3foov").unwrap() {
        FunctionName::Other {
            display_name,
            language,
        } => {
            assert_eq!(display_name, "foo");
            assert_eq!(language, "C++");
        }
        other => panic!("unexpected: {:?}", other),
    }
}

fn other(name: &str) -> Function {
    Function::new(
        FunctionName::Other {
            display_name: name.to_string(),
            language: "unknown".to_string(),
        },
        None,
    )
}

#[test]
fn upsert_is_stable_and_append_only() {
    let mut map = FunctionMap::new();
    let a = map.upsert("a", other("a"));
    let b = map.upsert("b", other("b"));
    assert_eq!(a, 0);
    assert_eq!(b, 1);
    // Re-upserting the same mangled name yields the same index, and the
    // array does not grow.
    let a2 = map.upsert("a", other("a again"));
    assert_eq!(a2, a);
    assert_eq!(map.len(), 2);
    assert_eq!(map.get_index("a"), Some(0));
    assert_eq!(map.get_index("b"), Some(1));
    assert_eq!(map.get_index("c"), None);
    // The first record wins.
    assert_eq!(map.get(0).unwrap().display_name(), "a");
}

#[test]
fn direct_caps_come_from_the_dictionary() {
    let mut dict = capslock::fncaps::FunctionCaps::new();
    let mut caps = capslock::capmap::CapSet::new();
    caps.insert(Capability::Network);
    dict.insert(
        "test::foo".to_string(),
        capslock::fncaps::Function {
            caps,
            syscalls: capslock::strset::StrSet::new(),
        },
    );
    let mut map = FunctionMap::new();
    let idx = map
        .upsert_with_caps(&dict, "_ZN4test3foo17h329f4e3f5f0e6a53E", None)
        .unwrap();
    let f = map.get(idx).unwrap();
    assert_eq!(f.display_name(), "test::foo");
    assert_eq!(
        f.capabilities.get(Capability::Network),
        Some(CapabilityType::Direct)
    );
    assert_eq!(f.capabilities.get(Capability::Files), None);

    let unknown = map.upsert_with_caps(&dict, "printf", None).unwrap();
    assert_eq!(map.get(unknown).unwrap().capabilities.len(), 0);
}

#[test]
fn process_capabilities_and_syscalls_union_over_functions() {
    let mut f1 = other("f1");
    f1.insert_capability(Capability::Files, CapabilityType::Direct);
    f1.insert_syscall("openat".to_string());
    let mut f2 = other("f2");
    f2.insert_capability(Capability::Network, CapabilityType::Transitive);
    f2.insert_capability(Capability::Files, CapabilityType::Transitive);
    f2.insert_syscall("socket".to_string());
    let functions = vec![f1, f2, other("f3")];

    let caps = capslock::report::union_function_capabilities(&functions);
    assert!(caps.contains(Capability::Files));
    assert!(caps.contains(Capability::Network));
    assert!(!caps.contains(Capability::Runtime));

    let syscalls = capslock::report::union_function_syscalls(&functions);
    assert!(syscalls.contains("openat"));
    assert!(syscalls.contains("socket"));
    assert!(!syscalls.contains("chdir"));
    assert_eq!(syscalls.len(), 2);
}
