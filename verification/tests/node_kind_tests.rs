use core_needle::representation::node_kind::NodeKind;

#[test]
fn test_from_str_valid_inputs() {
    assert_eq!(NodeKind::from_str("person"), NodeKind::Person);
    assert_eq!(NodeKind::from_str("team"), NodeKind::Team);
    assert_eq!(NodeKind::from_str("arch"), NodeKind::Arch);
    assert_eq!(NodeKind::from_str("swarch"), NodeKind::Swarch);
    assert_eq!(NodeKind::from_str("req"), NodeKind::Req);
}

#[test]
fn test_from_str_case_insensitive() {
    assert_eq!(NodeKind::from_str("PERSON"), NodeKind::Person);
    assert_eq!(NodeKind::from_str("TeAm"), NodeKind::Team);
    assert_eq!(NodeKind::from_str(" test "), NodeKind::Test);
}

#[test]
fn test_from_str_unknown() {
    assert_eq!(NodeKind::from_str("invalid"), NodeKind::Unknown);
    assert_eq!(NodeKind::from_str(""), NodeKind::Unknown);
}

#[test]
fn test_as_str() {
    assert_eq!(NodeKind::Person.as_str(), "person");
    assert_eq!(NodeKind::Team.as_str(), "team");
    assert_eq!(NodeKind::Unknown.as_str(), "unknown");
}

#[test]
fn test_display() {
    assert_eq!(NodeKind::Person.to_string(), "person");
    assert_eq!(NodeKind::Team.to_string(), "team");
    assert_eq!(NodeKind::Unknown.to_string(), "unknown");
}

#[test]
fn remaining_kinds_round_trip() {
    for raw in [
        "swreq",
        "spec",
        "test",
        "testsuite",
        "testrun",
        "impl",
        "need",
        "release",
    ] {
        assert_eq!(NodeKind::from_str(raw).as_str(), raw);
    }
}
