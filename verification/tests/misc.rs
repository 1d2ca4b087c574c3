use capslock::annotate::{Affected, Matcher};
use capslock::cargo::ExecutableSet;
use capslock::location::location_from_debug;

#[test]
fn locations_are_rebuilt_from_split_debug_info() {
    let loc = location_from_debug(Some("/path/to/project"), "src/main.rs", 42, Some(7));
    assert_eq!(loc.directory.as_deref(), Some("/path/to/project/src"));
    assert_eq!(loc.filename, "main.rs");
    assert_eq!(loc.line, 42);
    assert_eq!(loc.column, Some(7));

    // A separator-free name parents to the empty path, as Path::parent
    // does.
    let bare = location_from_debug(None, "lib.rs", 1, None);
    assert_eq!(bare.directory.as_deref(), Some(""));
    assert_eq!(bare.filename, "lib.rs");

    let absolute = location_from_debug(Some("/a"), "/b/c.rs", 3, None);
    assert_eq!(absolute.directory.as_deref(), Some("/b"));
    assert_eq!(absolute.filename, "c.rs");

    // Trailing separators are ignored, as Path::file_name does.
    let trailing = location_from_debug(Some("x"), "y/", 5, None);
    assert_eq!(trailing.directory.as_deref(), Some("x"));
    assert_eq!(trailing.filename, "y");

    // A single component under the root keeps the root as its parent.
    let rooted = location_from_debug(None, "/main.rs", 9, None);
    assert_eq!(rooted.directory.as_deref(), Some("/"));
    assert_eq!(rooted.filename, "main.rs");

    // An empty path has no parent and no file name.
    let empty = location_from_debug(None, "", 1, None);
    assert_eq!(empty.directory, None);
    assert_eq!(empty.filename, "..");
}

#[test]
fn executable_names_are_normalised_and_prefix_matched() {
    let mut exes = ExecutableSet::new();
    exes.insert("/target/debug/my-tool").unwrap();
    assert!(exes.contains_prefix_match("my_tool-8c2e4.bc"));
    assert!(exes.contains_prefix_match("my-tool"));
    assert!(!exes.contains_prefix_match("other-tool"));
    assert!(exes.insert("/target/debug/").is_err());
}

#[test]
fn advisories_are_indexed_by_function() {
    let mut matcher = Matcher::new();
    matcher.add(
        "foo::bar".to_string(),
        Affected {
            id: "RUSTSEC-0001".to_string(),
            package: "foo".to_string(),
        },
    );
    matcher.add(
        "foo::bar".to_string(),
        Affected {
            id: "RUSTSEC-0002".to_string(),
            package: "foo".to_string(),
        },
    );
    matcher.add(
        "baz::qux".to_string(),
        Affected {
            id: "RUSTSEC-0003".to_string(),
            package: "baz".to_string(),
        },
    );
    // A duplicate id and package changes nothing; insertion out of order
    // still yields the ascending (id, package) order.
    matcher.add(
        "foo::bar".to_string(),
        Affected {
            id: "RUSTSEC-0001".to_string(),
            package: "foo".to_string(),
        },
    );
    matcher.add(
        "foo::bar".to_string(),
        Affected {
            id: "RUSTSEC-0000".to_string(),
            package: "foo".to_string(),
        },
    );
    let hits = matcher.iter_advisories_for_function("foo::bar").unwrap();
    assert_eq!(hits.len(), 3);
    assert_eq!(hits[0].id, "RUSTSEC-0000");
    assert_eq!(hits[1].id, "RUSTSEC-0001");
    assert_eq!(hits[2].id, "RUSTSEC-0002");
    assert!(matcher.iter_advisories_for_function("nope").is_none());
}

#[test]
fn non_ascii_characters_widen_to_one_underscore_per_byte() {
    let mut exes = ExecutableSet::new();
    // 'é' encodes as two bytes in UTF-8, so it normalises to two
    // underscores, not one.
    exes.insert("/target/release/caf\u{e9}-cli").unwrap();
    assert!(exes.contains_prefix_match("caf__-cli"));
    assert!(exes.contains_prefix_match("caf___cli-4b2e.bc"));
    assert!(!exes.contains_prefix_match("caf_-cli"));
}
