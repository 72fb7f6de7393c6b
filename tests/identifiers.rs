use tc_snmp::{render_signed, render_unsigned, AgentError, OID};

fn oid(s: &str) -> OID {
    OID::from_string(s).unwrap()
}

#[test]
fn ordering_follows_components() {
    assert!(oid(".1.2.3").is_less(&oid(".1.3.1")));
    assert!(oid(".1.3.1").is_less(&oid(".1.3.1.1")));
    assert!(oid(".1.2.3").is_less(&oid(".1.3.1.1")));
    assert!(oid(".1.99.99").is_less(&oid(".2")));
    assert!(!oid(".2").is_less(&oid(".1.99.99")));
    assert!(!oid(".1.2").is_less(&oid(".1.2")));
    assert!(oid(".9").is_less(&oid(".10")));
}

#[test]
fn same_compares_components() {
    assert!(oid(".1.2").is_same(&oid("1.2")));
    assert!(!oid(".1.2").is_same(&oid(".1.2.0")));
}

#[test]
fn parse_with_and_without_leading_dot() {
    assert_eq!(oid(".1.3.6.1").0, vec![1, 3, 6, 1]);
    assert_eq!(oid("1.3.6.1").0, vec![1, 3, 6, 1]);
    assert_eq!(oid("65535").0, vec![65535]);
    assert_eq!(oid("007").0, vec![7]);
}

#[test]
fn round_trip_normalizes() {
    assert_eq!(oid(".1.3.6.1.3.2020").to_string(), ".1.3.6.1.3.2020");
    assert_eq!(oid("1.3.6.1.3.2020").to_string(), ".1.3.6.1.3.2020");
    assert_eq!(oid("0").to_string(), ".0");
}

#[test]
fn parse_rejects_malformed_text() {
    for bad in ["", ".", "1..2", "1.", "..1", "a", "1.x.3", "-1", "+1", "1.65536", "99999", " 1"] {
        assert_eq!(OID::from_string(bad).err(), Some(AgentError::MalformedIdentifier), "{}", bad);
    }
}

#[test]
fn append_leaves_receiver_unchanged() {
    let base = oid(".1.3");
    let longer = base.append(7);
    assert_eq!(base.0, vec![1, 3]);
    assert_eq!(longer.0, vec![1, 3, 7]);
    assert_eq!(longer.to_string(), ".1.3.7");
}

#[test]
fn empty_identifier_renders_as_separator() {
    assert_eq!(OID(vec![]).to_string(), ".");
}

#[test]
fn decimal_rendering() {
    assert_eq!(render_unsigned(0), "0");
    assert_eq!(render_unsigned(1234567890), "1234567890");
    assert_eq!(render_unsigned(u64::MAX), "18446744073709551615");
    assert_eq!(render_signed(-5), "-5");
    assert_eq!(render_signed(42), "42");
    assert_eq!(render_signed(i64::MIN), "-9223372036854775808");
}
