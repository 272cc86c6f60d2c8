use serde::ser::SerializeStruct;
use serde::{Serialize, Serializer};
use serde_json::Value;

use geyser_services::message::{Delta, FieldValue, Record, Snapshot};

struct Wire<'a> {
    kind: &'a str,
    market: &'a str,
    side: &'a str,
    orders: &'a [(i64, i64)],
    slot: u64,
    write_version: u64,
}

impl Serialize for Wire<'_> {
    fn serialize<S>(&self, serializer: S) -> Result<S::Ok, S::Error>
    where
        S: Serializer,
    {
        let mut state = serializer.serialize_struct("Snapshot", 3)?;
        state.serialize_field("market", self.market)?;
        state.serialize_field("type", self.kind)?;
        state.serialize_field("side", self.side)?;
        state.serialize_field("orders", self.orders)?;
        state.serialize_field("slot", &self.slot)?;
        state.serialize_field("write_version", &self.write_version)?;
        state.end()
    }
}

fn snapshot(market: &str, orders: &[(i64, i64)], slot: u64, write_version: u64) -> Snapshot {
    Snapshot {
        market: market.to_string(),
        side: "bids".to_string(),
        orders: orders.to_vec(),
        slot,
        write_version,
    }
}

fn delta(market: &str, orders: &[(i64, i64)], slot: u64, write_version: u64) -> Delta {
    Delta {
        market: market.to_string(),
        side: "asks".to_string(),
        orders: orders.to_vec(),
        slot,
        write_version,
    }
}

fn expect_texts(market: &str, orders: &[(i64, i64)], slot: u64, write_version: u64) {
    let wire = Wire { kind: "l2snapshot", market, side: "bids", orders, slot, write_version };
    assert_eq!(
        snapshot(market, orders, slot, write_version).serialize(),
        serde_json::to_string(&wire).unwrap()
    );
    let wire = Wire { kind: "l2update", market, side: "asks", orders, slot, write_version };
    assert_eq!(
        delta(market, orders, slot, write_version).serialize(),
        serde_json::to_string(&wire).unwrap()
    );
}

#[test]
fn snapshot_text() {
    assert_eq!(
        snapshot("SOL-PERP", &[(101, 5), (100, -7)], 12, 345).serialize(),
        "{\"market\":\"SOL-PERP\",\"type\":\"l2snapshot\",\"side\":\"bids\",\
         \"orders\":[[101,5],[100,-7]],\"slot\":12,\"write_version\":345}"
    );
}

#[test]
fn delta_text() {
    assert_eq!(
        delta("SOL-PERP", &[], 0, 1).serialize(),
        "{\"market\":\"SOL-PERP\",\"type\":\"l2update\",\"side\":\"asks\",\
         \"orders\":[],\"slot\":0,\"write_version\":1}"
    );
}

#[test]
fn texts_are_those_of_the_structure() {
    expect_texts("SOL-PERP", &[(101, 5), (100, 7), (99, 0)], 12, 345);
    expect_texts("", &[(0, 0)], u64::MAX, 10);
    expect_texts("x", &[(i64::MIN, i64::MAX), (-1, -10)], 9, u64::MAX);
}

#[test]
fn names_are_escaped() {
    assert_eq!(
        snapshot("a\"b\\c\n\u{1}\u{1f}\u{e9}/", &[], 1, 2).serialize(),
        "{\"market\":\"a\\\"b\\\\c\\n\\u0001\\u001f\u{e9}/\",\"type\":\"l2snapshot\",\
         \"side\":\"bids\",\"orders\":[],\"slot\":1,\"write_version\":2}"
    );
    let mut all = String::new();
    for code in 0u8..128 {
        all.push(char::from(code));
    }
    expect_texts(&all, &[(1, 2)], 3, 4);
}

#[test]
fn snapshots_and_deltas_differ() {
    assert_ne!(
        snapshot("A", &[(1, 2)], 3, 4).serialize(),
        Delta {
            market: "A".to_string(),
            side: "bids".to_string(),
            orders: vec![(1, 2)],
            slot: 3,
            write_version: 4,
        }
        .serialize()
    );
}

#[test]
fn texts_differ_where_the_messages_do() {
    let text = snapshot("A", &[(1, 2)], 3, 4).serialize();
    assert_ne!(text, snapshot("B", &[(1, 2)], 3, 4).serialize());
    assert_ne!(text, snapshot("A", &[(12, 2)], 3, 4).serialize());
    assert_ne!(text, snapshot("A", &[(1, 2), (1, 2)], 3, 4).serialize());
    assert_ne!(text, snapshot("A", &[(1, 2)], 33, 4).serialize());
    assert_ne!(text, snapshot("A", &[(1, 2)], 3, 44).serialize());
}

#[test]
fn texts_differ_only_in_type() {
    let same = Delta {
        market: "A".to_string(),
        side: "bids".to_string(),
        orders: vec![(1, 2)],
        slot: 3,
        write_version: 4,
    };
    assert_eq!(
        snapshot("A", &[(1, 2)], 3, 4).serialize().replace("\"l2snapshot\"", "\"l2update\""),
        same.serialize()
    );
}

/// Hands a record to any serializer.
struct Told<'a>(Record<'a>);

impl Serialize for Told<'_> {
    fn serialize<S>(&self, serializer: S) -> Result<S::Ok, S::Error>
    where
        S: Serializer,
    {
        let mut state = serializer.serialize_struct(self.0.name, self.0.len)?;
        for field in self.0.fields.iter() {
            match field.value {
                FieldValue::Text(text) => state.serialize_field(field.name, text)?,
                FieldValue::Levels(levels) => state.serialize_field(field.name, levels)?,
                FieldValue::Number(number) => state.serialize_field(field.name, &number)?,
            }
        }
        state.end()
    }
}

#[test]
fn records_give_the_texts() {
    let message = snapshot("SOL-PERP", &[(101, 5), (100, -7)], 12, 345);
    assert_eq!(serde_json::to_string(&Told(message.record())).unwrap(), message.serialize());
    let message = delta("a\"b", &[], u64::MAX, 0);
    assert_eq!(serde_json::to_string(&Told(message.record())).unwrap(), message.serialize());
    assert_eq!(message.record().to_json(), message.serialize());
}

#[test]
fn records_differ_only_in_type() {
    let mut first = snapshot("A", &[(1, 2)], 3, 4);
    first.side = "asks".to_string();
    let second = delta("A", &[(1, 2)], 3, 4);
    let (first, second) = (first.record(), second.record());
    assert_eq!((first.name, first.len), ("Snapshot", 3));
    assert_eq!((second.name, second.len), ("Snapshot", 3));
    assert_eq!(first.fields.len(), 6);
    assert_eq!(second.fields.len(), 6);
    for i in 0..6 {
        let (a, b) = (first.fields[i], second.fields[i]);
        assert_eq!(a.name, b.name);
        assert_eq!(format!("{:?}", a.value) == format!("{:?}", b.value), i != 1);
    }
    assert_eq!(first.fields[1].name, "type");
    assert!(matches!(first.fields[1].value, FieldValue::Text("l2snapshot")));
    assert!(matches!(second.fields[1].value, FieldValue::Text("l2update")));
}

fn expect_members(text: &str, kind: &str, side: &str, market: &str, orders: &[(i64, i64)]) {
    let value: Value = serde_json::from_str(text).unwrap();
    let members = value.as_object().unwrap();
    assert_eq!(members.len(), 6);
    assert_eq!(members["market"].as_str(), Some(market));
    assert_eq!(members["type"].as_str(), Some(kind));
    assert_eq!(members["side"].as_str(), Some(side));
    assert_eq!(members["slot"].as_u64(), Some(u64::MAX));
    assert_eq!(members["write_version"].as_u64(), Some(10));
    let levels = members["orders"].as_array().unwrap();
    assert_eq!(levels.len(), orders.len());
    for (level, (price, quantity)) in levels.iter().zip(orders) {
        let pair = level.as_array().unwrap();
        assert_eq!(pair.len(), 2);
        assert_eq!(pair[0].as_i64(), Some(*price));
        assert_eq!(pair[1].as_i64(), Some(*quantity));
    }
}

#[test]
fn texts_read_back() {
    let market = "a\"b\\c\n\u{1}\u{1f}\u{e9}/\u{1f600}";
    let orders = [(i64::MIN, i64::MAX), (0, -1), (10, 100)];
    let text = snapshot(market, &orders, u64::MAX, 10).serialize();
    expect_members(&text, "l2snapshot", "bids", market, &orders);
    let text = delta(market, &orders, u64::MAX, 10).serialize();
    expect_members(&text, "l2update", "asks", market, &orders);
    let text = delta("", &[], u64::MAX, 10).serialize();
    expect_members(&text, "l2update", "asks", "", &[]);
}
