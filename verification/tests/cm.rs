use capslock::caps::Capability;
use capslock::cm::{Document, Error};

static TABLE: &str = "# one line per syscall\n\
read        CAPABILITY_FILES\n\
write       CAPABILITY_FILES\n\
sendto      CAPABILITY_NETWORK\n\
openat      CAPABILITY_FILES\n\
socket      CAPABILITY_NETWORK\n\
exit_group  CAPABILITY_SAFE\n";

#[test]
fn parses_comments_blanks_and_records() {
    let doc = Document::from_reader("\n# comment\n   \nread CAPABILITY_FILES\n").unwrap();
    assert_eq!(doc.len(), 1);
    let rec = doc.record_at(0);
    assert_eq!(rec.0, "read");
    assert_eq!(rec.1, vec![Capability::Files]);
}

#[test]
fn parses_the_example_table() {
    let doc = Document::from_reader(TABLE).unwrap();
    assert_eq!(doc.len(), 6);
    assert_eq!(doc.record_at(0).0, "read");
    assert_eq!(doc.record_at(5).0, "exit_group");
    assert_eq!(doc.get("sendto"), Some(&vec![Capability::Network]));
    assert_eq!(doc.get("missing"), None);
}

#[test]
fn error_on_line_one_reports_line_one() {
    match Document::from_reader("justonefield\n") {
        Err(Error::InsufficientFields { line }) => assert_eq!(line, 1),
        other => panic!("unexpected result: {:?}", other),
    }
}

#[test]
fn one_field_record_is_insufficient() {
    match Document::from_reader("read CAPABILITY_FILES\nlonely\n") {
        Err(Error::InsufficientFields { line }) => assert_eq!(line, 2),
        other => panic!("unexpected result: {:?}", other),
    }
}

#[test]
fn unknown_capability_reports_value_and_line() {
    match Document::from_reader("read CAPABILITY_FILES\nwrite CAPABILITY_BOGUS\n") {
        Err(Error::Value { value, field, line }) => {
            assert_eq!(value, "CAPABILITY_BOGUS");
            assert_eq!(field, 1);
            assert_eq!(line, 2);
        }
        other => panic!("unexpected result: {:?}", other),
    }
}

#[test]
fn duplicate_key_overwrites_in_place() {
    let doc =
        Document::from_reader("a CAPABILITY_FILES\nb CAPABILITY_SAFE\na CAPABILITY_NETWORK\n")
            .unwrap();
    assert_eq!(doc.len(), 2);
    assert_eq!(doc.record_at(0).0, "a");
    assert_eq!(doc.record_at(0).1, vec![Capability::Network]);
    assert_eq!(doc.record_at(1).0, "b");
}

#[test]
fn render_parse_round_trip() {
    let doc = Document::from_reader(TABLE).unwrap();
    let text = doc.render();
    let doc2 = Document::from_reader(&text).unwrap();
    assert_eq!(doc.len(), doc2.len());
    for i in 0..doc.len() {
        assert_eq!(doc.record_at(i), doc2.record_at(i));
    }
}

#[test]
fn crlf_line_endings_are_tolerated() {
    let doc = Document::from_reader("read CAPABILITY_FILES\r\nwrite CAPABILITY_SAFE\r\n").unwrap();
    assert_eq!(doc.len(), 2);
    assert_eq!(doc.record_at(1).1, vec![Capability::Safe]);
}
