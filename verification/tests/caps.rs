use capslock::caps::{Capability, CapabilityType, ParseError};

#[test]
fn type_ordering() {
    assert!(CapabilityType::Direct == CapabilityType::Direct);
    assert!(CapabilityType::Direct > CapabilityType::Transitive);
    assert!(CapabilityType::Direct > CapabilityType::Unspecified);

    assert!(CapabilityType::Transitive == CapabilityType::Transitive);
    assert!(CapabilityType::Transitive < CapabilityType::Direct);
    assert!(CapabilityType::Transitive > CapabilityType::Unspecified);

    assert!(CapabilityType::Unspecified == CapabilityType::Unspecified);
    assert!(CapabilityType::Unspecified < CapabilityType::Direct);
    assert!(CapabilityType::Unspecified < CapabilityType::Transitive);
}

#[test]
fn capability_name_round_trip() {
    let all = [
        Capability::Unspecified,
        Capability::Safe,
        Capability::Files,
        Capability::Network,
        Capability::Runtime,
        Capability::ReadSystemState,
        Capability::ModifySystemState,
        Capability::OperatingSystem,
        Capability::SystemCalls,
        Capability::ArbitraryExecution,
        Capability::Cgo,
        Capability::Unanalyzed,
        Capability::UnsafePointer,
        Capability::Reflect,
        Capability::Exec,
        Capability::DynamicLoading,
        Capability::Instrumentation,
        Capability::NativeCode,
    ];
    for c in all {
        assert_eq!(Capability::parse(c.name()), Ok(c));
    }
    assert_eq!(Capability::parse("CAPABILITY_FILES"), Ok(Capability::Files));
    assert_eq!(Capability::parse("files"), Err(ParseError::VariantNotFound));
    assert_eq!(Capability::parse(""), Err(ParseError::VariantNotFound));
}

#[test]
fn capability_type_name_round_trip() {
    for t in [
        CapabilityType::Unspecified,
        CapabilityType::Direct,
        CapabilityType::Transitive,
    ] {
        assert_eq!(CapabilityType::parse(t.name()), Ok(t));
    }
    assert_eq!(
        CapabilityType::parse("CAPABILITY_TYPE_DIRECT"),
        Ok(CapabilityType::Direct)
    );
    assert!(CapabilityType::parse("CAPABILITY_DIRECT").is_err());
}

#[test]
fn capability_codes_are_stable() {
    assert_eq!(Capability::Unspecified.code(), 0);
    assert_eq!(Capability::Safe.code(), 1);
    assert_eq!(Capability::Files.code(), 2);
    assert_eq!(Capability::Network.code(), 3);
    assert_eq!(Capability::NativeCode.code(), 17);
}

#[test]
fn capability_type_max_is_severity_max() {
    assert_eq!(
        CapabilityType::Direct.max(CapabilityType::Transitive),
        CapabilityType::Direct
    );
    assert_eq!(
        CapabilityType::Transitive.max(CapabilityType::Direct),
        CapabilityType::Direct
    );
    assert_eq!(
        CapabilityType::Unspecified.max(CapabilityType::Transitive),
        CapabilityType::Transitive
    );
}
