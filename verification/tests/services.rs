use std::str::FromStr;

use geyser_services::pubkey::Pubkey;
use geyser_services::routes::{init, CrankSink};
use geyser_services::table::Table;
use geyser_services::trace::EventQueueTrace;

fn key(n: u8) -> Pubkey {
    Pubkey { bytes: [n; 32] }
}

#[test]
fn routes_match_the_event_queues() {
    let routes = init(
        vec![(key(1), key(2)), (key(3), key(4))],
        vec![(key(5), key(6))],
        vec![(key(7), key(8)), (key(9), key(10)), (key(11), key(8))],
        key(20),
        (key(21), key(22), key(23)),
    );
    assert_eq!(routes.len(), 3);
    assert_eq!(routes[0].matched_pubkeys, vec![key(8), key(10), key(8)]);
    assert_eq!(routes[0].timeout_interval_ms, 400);
    assert!(matches!(&routes[0].sink, CrankSink::Openbook { pks } if pks.len() == 3));
    assert_eq!(routes[1].matched_pubkeys, vec![key(6)]);
    assert_eq!(routes[1].timeout_interval_ms, 0);
    assert!(matches!(
        &routes[1].sink,
        CrankSink::MangoV3Perp { pks, group_pks }
            if *pks == vec![(key(5), key(6))] && *group_pks == (key(21), key(22), key(23))
    ));
    assert_eq!(routes[2].matched_pubkeys, vec![key(2), key(4)]);
    assert_eq!(routes[2].timeout_interval_ms, 0);
    assert!(matches!(&routes[2].sink, CrankSink::MangoV4Perp { .. }));
}

#[test]
fn routed_queues_are_known_where_they_stand_first() {
    let none = (key(0), key(0), key(0));
    let routes = init(vec![(key(1), key(2))], vec![], vec![], key(20), none);
    if let CrankSink::MangoV4Perp { sink } = &routes[2].sink {
        assert!(!sink.knows(&routes[2].matched_pubkeys[0]));
        assert!(sink.knows(&key(1)));
    }
    let routes = init(vec![(key(1), key(2)), (key(2), key(1))], vec![], vec![], key(20), none);
    if let CrankSink::MangoV4Perp { sink } = &routes[2].sink {
        for pk in &routes[2].matched_pubkeys {
            assert!(sink.knows(pk));
        }
    }
}

#[test]
fn the_traced_account_is_sol_perp() {
    let trace = EventQueueTrace::sol_perp().unwrap();
    let expected =
        solana_sdk::pubkey::Pubkey::from_str("31cKs646dt1YkA3zPyxZ7rUAkxTBz279w4XEobFXcAKP");
    assert_eq!(trace.events_pk.bytes, expected.unwrap().to_bytes());
    assert_eq!(trace.last_version, (0, 0));
    assert!(trace.concerns(&trace.events_pk));
    assert!(!trace.concerns(&key(1)));
}

#[test]
fn versions_are_reported_when_they_change() {
    let mut trace = EventQueueTrace::new(key(1));
    assert_eq!(trace.observe(None), None);
    assert_eq!(trace.observe(Some((0, 0))), None);
    assert_eq!(trace.observe(Some((1, 0))), Some((1, 0)));
    assert_eq!(trace.observe(Some((1, 0))), None);
    assert_eq!(trace.observe(None), None);
    assert_eq!(trace.observe(Some((1, 1))), Some((1, 1)));
    assert_eq!(trace.observe(Some((1, 0))), Some((1, 0)));
    assert_eq!(trace.last_version, (1, 0));
}

#[test]
fn a_table_has_one_value_for_each_key() {
    let mut table: Table<String, u32> = Table::new();
    table.insert("a".to_string(), 1);
    table.insert("b".to_string(), 2);
    table.insert("a".to_string(), 3);
    assert_eq!(table.len(), 2);
    assert_eq!(table.get(&"a".to_string()), Some(&3));
    assert_eq!(table.get(&"b".to_string()), Some(&2));
    assert_eq!(table.get(&"c".to_string()), None);
    let mut keys = vec![table.at(0).0.clone(), table.at(1).0.clone()];
    keys.sort();
    assert_eq!(keys, vec!["a", "b"]);
    table.remove(&"a".to_string());
    assert_eq!(table.get(&"a".to_string()), None);
    assert_eq!(table.len(), 1);
}
