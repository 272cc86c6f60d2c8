use std::collections::BTreeMap;

use geyser_services::market::{MarketConfig, Meta, OrderBookSides};
use geyser_services::pubkey::Pubkey;
use geyser_services::snapshots::SnapshotStore;

fn key(n: u8) -> Pubkey {
    Pubkey { bytes: [n; 32] }
}

fn meta() -> Meta {
    Meta { market: "SOL-PERP".to_string(), side: "bids".to_string() }
}

fn sides() -> OrderBookSides {
    let market = MarketConfig {
        name: "SOL-PERP".to_string(),
        base_decimals: 9,
        quote_decimals: 6,
        base_lot_size: 10_000_000,
        quote_lot_size: 100,
        bids_key: key(1).to_text(),
        asks_key: key(2).to_text(),
    };
    OrderBookSides::new(&vec![market]).ok().unwrap()
}

#[test]
fn the_first_write_has_an_empty_delta() {
    let mut store = SnapshotStore::new();
    let delta = store.record(&meta(), &key(1), &vec![(10, 1), (10, 2), (9, 3)], 5, 6);
    assert_eq!(delta.orders, vec![]);
    assert_eq!((delta.slot, delta.write_version), (5, 6));
    let kept = store.get(&key(1)).unwrap();
    assert_eq!(kept.orders, vec![(10, 3), (9, 3)]);
    assert_eq!((kept.slot, kept.write_version), (5, 6));
    assert_eq!((kept.market.as_str(), kept.side.as_str()), ("SOL-PERP", "bids"));
}

#[test]
fn later_writes_have_the_changes() {
    let mut store = SnapshotStore::new();
    store.record(&meta(), &key(1), &vec![(10, 1), (9, 3)], 5, 6);
    let delta = store.record(&meta(), &key(1), &vec![(11, 2), (9, 1), (9, 2)], 7, 8);
    assert_eq!(delta.orders, vec![(10, 0), (11, 2)]);
    assert_eq!((delta.slot, delta.write_version), (7, 8));
    assert_eq!((delta.market.as_str(), delta.side.as_str()), ("SOL-PERP", "bids"));
    assert_eq!(store.get(&key(1)).unwrap().orders, vec![(11, 2), (9, 3)]);
}

#[test]
fn accounts_do_not_disturb_each_other() {
    let mut store = SnapshotStore::new();
    store.record(&meta(), &key(1), &vec![(10, 1)], 1, 1);
    store.record(&meta(), &key(2), &vec![(20, 2)], 2, 2);
    let delta = store.record(&meta(), &key(1), &vec![(10, 1)], 3, 3);
    assert_eq!(delta.orders, vec![]);
    assert_eq!(store.get(&key(2)).unwrap().orders, vec![(20, 2)]);
    assert_eq!(store.get(&key(2)).unwrap().slot, 2);
    assert!(store.get(&key(3)).is_none());
}

#[test]
fn writes_of_other_accounts_change_nothing() {
    let sides = sides();
    let mut store = SnapshotStore::new();
    assert!(sides.process_write(&mut store, &key(3), &vec![(1, 1)], 1, 1).is_none());
    assert!(store.get(&key(3)).is_none());
    assert_eq!(store.messages().len(), 0);
}

#[test]
fn writes_are_stored_under_the_side_of_the_account() {
    let sides = sides();
    let mut store = SnapshotStore::new();
    let delta = sides.process_write(&mut store, &key(2), &vec![(1, 1)], 3, 4).unwrap();
    assert_eq!((delta.market.as_str(), delta.side.as_str()), ("SOL-PERP", "asks"));
    let kept = store.get(&key(2)).unwrap();
    assert_eq!((kept.market.as_str(), kept.side.as_str()), ("SOL-PERP", "asks"));
    assert!(store.get(&key(1)).is_none());
}

#[test]
fn every_snapshot_is_handed_out_once() {
    let sides = sides();
    let mut store = SnapshotStore::new();
    sides.process_write(&mut store, &key(1), &vec![(9, 1)], 1, 1);
    sides.process_write(&mut store, &key(2), &vec![(11, 1)], 2, 2);
    sides.process_write(&mut store, &key(1), &vec![(8, 4)], 3, 3);
    let mut messages = store.messages();
    messages.sort();
    let mut expected = vec![
        store.get(&key(1)).unwrap().serialize(),
        store.get(&key(2)).unwrap().serialize(),
    ];
    expected.sort();
    assert_eq!(messages, expected);
    assert!(messages.contains(
        &"{\"market\":\"SOL-PERP\",\"type\":\"l2snapshot\",\"side\":\"bids\",\
          \"orders\":[[8,4]],\"slot\":3,\"write_version\":3}"
            .to_string()
    ));
}

#[test]
fn a_client_that_applies_the_deltas_holds_the_book() {
    let mut store = SnapshotStore::new();
    store.record(&meta(), &key(1), &vec![(10, 1), (9, 3)], 0, 0);
    let mut book: BTreeMap<i64, i64> =
        store.get(&key(1)).unwrap().orders.iter().copied().collect();
    let writes = [
        vec![(10, 1), (9, 1), (9, 1)],
        vec![(12, 4), (10, 2)],
        vec![],
        vec![(7, 7), (5, 5)],
    ];
    for (slot, orders) in writes.iter().enumerate() {
        let delta = store.record(&meta(), &key(1), orders, slot as u64, 0);
        for (price, size) in delta.orders {
            if size == 0 {
                book.remove(&price);
            } else {
                book.insert(price, size);
            }
        }
        let current: BTreeMap<i64, i64> =
            store.get(&key(1)).unwrap().orders.iter().copied().collect();
        assert_eq!(book, current);
    }
}

fn apply(book: &mut BTreeMap<i64, i64>, entries: &[(i64, i64)]) {
    for &(price, size) in entries {
        if size == 0 {
            book.remove(&price);
        } else {
            book.insert(price, size);
        }
    }
}

#[test]
fn a_client_that_is_sent_old_deltas_catches_up() {
    let writes = [
        vec![(10, 1), (9, 3)],
        vec![(10, 2), (9, 3)],
        vec![(12, 4), (9, 3)],
        vec![(12, 4), (10, 2), (5, 5)],
        vec![(10, 1), (9, 3)],
        vec![(11, 1), (5, 6)],
    ];
    for copied in 1..=writes.len() {
        let mut store = SnapshotStore::new();
        let mut inbox = Vec::new();
        let mut book = BTreeMap::new();
        for (i, orders) in writes.iter().enumerate() {
            inbox.extend(store.record(&meta(), &key(1), orders, i as u64, 0).orders);
            if i + 1 == copied {
                apply(&mut book, &store.get(&key(1)).unwrap().orders);
            }
        }
        apply(&mut book, &inbox);
        let mut current = BTreeMap::new();
        apply(&mut current, &store.get(&key(1)).unwrap().orders);
        assert_eq!(book, current);
    }
}
