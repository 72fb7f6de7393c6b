use tc_snmp::{
    build_results, find_next, find_oid, AgentError, Entry, Qdisc, QdiscAttr, QdiscStats,
    ValueType, OID,
};

const PREFIX: &str = ".1.3.6.1.3.2020";

fn pfifo() -> Qdisc {
    Qdisc {
        index: 5,
        handle: 0x10,
        parent: 0xFFFF_FFFF,
        attrs: vec![
            QdiscAttr::HwOffload(0),
            QdiscAttr::Kind("pfifo".to_string()),
            QdiscAttr::Stats(QdiscStats {
                bytes: 100,
                packets: 10,
                drops: 0,
                overlimits: 0,
                bps: 0,
                pps: 0,
                qlen: 0,
                backlog: 0,
            }),
        ],
    }
}

fn plain(index: i32) -> Qdisc {
    Qdisc { index, handle: 0, parent: 1, attrs: vec![] }
}

fn id(s: &str) -> OID {
    OID::from_string(s).unwrap()
}

fn is_strictly_ascending(t: &[Entry]) -> bool {
    t.windows(2).all(|w| w[0].oid.is_less(&w[1].oid))
}

#[test]
fn one_object_gives_fourteen_records() {
    let table = build_results(&vec![pfifo()]).unwrap();
    assert_eq!(table.len(), 14);
    assert!(is_strictly_ascending(&table));
    for (k, e) in table.iter().enumerate() {
        assert_eq!(e.oid.to_string(), format!("{}.1.1.{}.1", PREFIX, k + 1));
    }
    let kind = find_oid(&table, &id(&format!("{}.1.1.6.1", PREFIX))).unwrap();
    assert_eq!(kind.kind.name(), "STRING");
    assert_eq!(kind.value, "pfifo");
    let index = find_oid(&table, &id(&format!("{}.1.1.1.1", PREFIX))).unwrap();
    assert_eq!(index.kind, ValueType::Unsigned32);
    assert_eq!(index.value, "5");
    let if_index = find_oid(&table, &id(&format!("{}.1.1.2.1", PREFIX))).unwrap();
    assert_eq!(if_index.kind.name(), "Integer32");
    assert_eq!(if_index.value, "5");
    let handle = find_oid(&table, &id(&format!("{}.1.1.3.1", PREFIX))).unwrap();
    assert_eq!(handle.value, "16");
    let parent = find_oid(&table, &id(&format!("{}.1.1.4.1", PREFIX))).unwrap();
    assert_eq!(parent.value, "4294967295");
    let bytes = find_oid(&table, &id(&format!("{}.1.1.7.1", PREFIX))).unwrap();
    assert_eq!(bytes.kind.name(), "Counter64");
    assert_eq!(bytes.value, "100");
    let packets = find_oid(&table, &id(&format!("{}.1.1.8.1", PREFIX))).unwrap();
    assert_eq!(packets.value, "10");
    let hw = find_oid(&table, &id(&format!("{}.1.1.5.1", PREFIX))).unwrap();
    assert_eq!(hw.value, "0");
    let backlog = find_oid(&table, &id(&format!("{}.1.1.14.1", PREFIX))).unwrap();
    assert_eq!(backlog.kind, ValueType::Integer32);
    assert_eq!(backlog.value, "0");
}

#[test]
fn rows_are_numbered_in_report_order_and_sorted_by_column() {
    let table = build_results(&vec![plain(3), plain(-2)]).unwrap();
    assert_eq!(table.len(), 8);
    assert!(is_strictly_ascending(&table));
    let rendered: Vec<String> = table.iter().map(|e| e.oid.to_string()).collect();
    assert_eq!(rendered[0], format!("{}.1.1.1.1", PREFIX));
    assert_eq!(rendered[1], format!("{}.1.1.1.2", PREFIX));
    assert_eq!(rendered[2], format!("{}.1.1.2.1", PREFIX));
    assert_eq!(table[1].value, "-2");
}

#[test]
fn hardware_offload_and_unknown_attributes() {
    let q = Qdisc { index: 1, handle: 2, parent: 3, attrs: vec![QdiscAttr::Other, QdiscAttr::HwOffload(1)] };
    let table = build_results(&vec![q]).unwrap();
    assert_eq!(table.len(), 5);
    let hw = find_oid(&table, &id(&format!("{}.1.1.5.1", PREFIX))).unwrap();
    assert_eq!(hw.kind, ValueType::Integer32);
    assert_eq!(hw.value, "1");
}

#[test]
fn empty_report_gives_empty_table() {
    let table = build_results(&vec![]).unwrap();
    assert!(table.is_empty());
    assert!(find_next(&table, &OID(vec![])).is_none());
}

#[test]
fn repeated_attribute_is_rejected() {
    let q = Qdisc {
        index: 1,
        handle: 2,
        parent: 3,
        attrs: vec![QdiscAttr::Kind("a".to_string()), QdiscAttr::Kind("b".to_string())],
    };
    assert_eq!(build_results(&vec![q]).err(), Some(AgentError::DuplicateIdentifier));
}

#[test]
fn too_many_objects_is_rejected() {
    let qs: Vec<Qdisc> = (0..65536).map(plain).collect();
    assert_eq!(build_results(&qs).err(), Some(AgentError::TooManyObjects));
}

#[test]
fn exact_lookup_misses() {
    let table = build_results(&vec![pfifo()]).unwrap();
    assert!(find_oid(&table, &id(&format!("{}.1.1.6.2", PREFIX))).is_none());
    assert!(find_oid(&table, &id(&format!("{}.1.1", PREFIX))).is_none());
}

#[test]
fn successor_walk_visits_every_record_once() {
    let table = build_results(&vec![pfifo(), plain(7)]).unwrap();
    let mut cur = OID(vec![]);
    let mut seen = Vec::new();
    while let Some(e) = find_next(&table, &cur) {
        seen.push(e.oid.to_string());
        cur = OID(e.oid.0.clone());
    }
    let all: Vec<String> = table.iter().map(|e| e.oid.to_string()).collect();
    assert_eq!(seen, all);
    assert_eq!(seen.len(), 18);
}

#[test]
fn successor_is_least_greater() {
    let table = build_results(&vec![pfifo(), plain(7)]).unwrap();
    let next = find_next(&table, &id(&format!("{}.1.1.5.1", PREFIX))).unwrap();
    assert_eq!(next.oid.to_string(), format!("{}.1.1.6.1", PREFIX));
    let next = find_next(&table, &id(&format!("{}.1.1.1.1", PREFIX))).unwrap();
    assert_eq!(next.oid.to_string(), format!("{}.1.1.1.2", PREFIX));
    assert!(find_next(&table, &id(&format!("{}.1.1.14.1", PREFIX))).is_none());
}
