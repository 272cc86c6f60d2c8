//! The messages that the clients receive: full snapshots of one side of a market's
//! book, and the changes since the last one.
use vstd::prelude::*;
use vstd::string::StringExecFns;

use crate::json::{nat_text, number_to_json, pairs_text, pairs_to_json, quoted, string_to_json};

verus! {

/// The levels of one side of a market's book, as of one write of its account.
#[derive(Clone, Debug)]
pub struct Snapshot {
    pub market: String,
    pub side: String,
    pub orders: Vec<(i64, i64)>,
    pub slot: u64,
    pub write_version: u64,
}

/// The changes to one side of a market's book that one write of its account brought.
#[derive(Clone, Debug)]
pub struct Delta {
    pub market: String,
    pub side: String,
    pub orders: Vec<(i64, i64)>,
    pub slot: u64,
    pub write_version: u64,
}

/// What a message holds.
pub struct Content {
    pub market: Seq<char>,
    pub side: Seq<char>,
    pub orders: Seq<(i64, i64)>,
    pub slot: u64,
    pub write_version: u64,
}

impl View for Snapshot {
    type V = Content;

    open spec fn view(&self) -> Content {
        Content {
            market: self.market@,
            side: self.side@,
            orders: self.orders@,
            slot: self.slot,
            write_version: self.write_version,
        }
    }
}

impl View for Delta {
    type V = Content;

    open spec fn view(&self) -> Content {
        Content {
            market: self.market@,
            side: self.side@,
            orders: self.orders@,
            slot: self.slot,
            write_version: self.write_version,
        }
    }
}

/// The type that a snapshot's text names.
pub open spec fn snapshot_kind() -> Seq<char> {
    "l2snapshot"@
}

/// The type that a delta's text names.
pub open spec fn delta_kind() -> Seq<char> {
    "l2update"@
}

/// What a field of a message holds.
pub enum FieldData {
    Text(Seq<char>),
    Levels(Seq<(i64, i64)>),
    Number(u64),
}

/// What a serializer is told of a message: the name and the number of fields that a
/// structure is announced with, then each field's name and value.
pub struct RecordData {
    pub name: Seq<char>,
    pub len: nat,
    pub fields: Seq<(Seq<char>, FieldData)>,
}

/// The fields of a message of the given type, in order.
pub open spec fn message_fields(kind: Seq<char>, content: Content) -> Seq<(Seq<char>, FieldData)> {
    seq![
        ("market"@, FieldData::Text(content.market)),
        ("type"@, FieldData::Text(kind)),
        ("side"@, FieldData::Text(content.side)),
        ("orders"@, FieldData::Levels(content.orders)),
        ("slot"@, FieldData::Number(content.slot)),
        ("write_version"@, FieldData::Number(content.write_version)),
    ]
}

/// What a serializer is told of a message of the given type. Both types are announced
/// alike.
pub open spec fn message_record(kind: Seq<char>, content: Content) -> RecordData {
    RecordData { name: "Snapshot"@, len: 3, fields: message_fields(kind, content) }
}

/// The JSON text of a field's value.
pub open spec fn data_text(data: FieldData) -> Seq<char> {
    match data {
        FieldData::Text(text) => quoted(text),
        FieldData::Levels(levels) => pairs_text(levels),
        FieldData::Number(number) => nat_text(number as nat),
    }
}

/// A field as it stands in a JSON object.
pub open spec fn field_text(field: (Seq<char>, FieldData)) -> Seq<char> {
    quoted(field.0) + seq![':'] + data_text(field.1)
}

/// The texts of the fields, with commas between them.
pub open spec fn fields_text(fields: Seq<(Seq<char>, FieldData)>) -> Seq<char>
    decreases fields.len(),
{
    if fields.len() == 0 {
        Seq::empty()
    } else if fields.len() == 1 {
        field_text(fields.first())
    } else {
        field_text(fields.first()) + seq![','] + fields_text(fields.drop_first())
    }
}

/// The JSON object with the given fields.
pub open spec fn object_text(fields: Seq<(Seq<char>, FieldData)>) -> Seq<char> {
    seq!['{'] + fields_text(fields) + seq!['}']
}

/// The JSON object of a message of the given type.
pub open spec fn message_text(kind: Seq<char>, content: Content) -> Seq<char> {
    object_text(message_fields(kind, content))
}

/// The value of a field.
#[derive(Clone, Copy, Debug)]
pub enum FieldValue<'a> {
    Text(&'a str),
    Levels(&'a Vec<(i64, i64)>),
    Number(u64),
}

/// A field of a message.
#[derive(Clone, Copy, Debug)]
pub struct Field<'a> {
    pub name: &'static str,
    pub value: FieldValue<'a>,
}

/// What a serializer is told of a message.
#[derive(Debug)]
pub struct Record<'a> {
    pub name: &'static str,
    pub len: usize,
    pub fields: Vec<Field<'a>>,
}

impl<'a> View for FieldValue<'a> {
    type V = FieldData;

    open spec fn view(&self) -> FieldData {
        match *self {
            FieldValue::Text(text) => FieldData::Text(text@),
            FieldValue::Levels(levels) => FieldData::Levels(levels@),
            FieldValue::Number(number) => FieldData::Number(number),
        }
    }
}

impl<'a> View for Field<'a> {
    type V = (Seq<char>, FieldData);

    open spec fn view(&self) -> (Seq<char>, FieldData) {
        (self.name@, self.value@)
    }
}

impl<'a> View for Record<'a> {
    type V = RecordData;

    open spec fn view(&self) -> RecordData {
        RecordData {
            name: self.name@,
            len: self.len as nat,
            fields: self.fields@.map_values(|field: Field| field@),
        }
    }
}

impl<'a> Record<'a> {
    /// The record of a message with the given fields.
    fn of_message(
        kind: &'static str,
        market: &'a String,
        side: &'a String,
        orders: &'a Vec<(i64, i64)>,
        slot: u64,
        write_version: u64,
    ) -> (r: Record<'a>)
        ensures
            r@ == message_record(
                kind@,
                (Content { market: market@, side: side@, orders: orders@, slot, write_version }),
            ),
            r.name@ == "Snapshot"@,
            r.len == 3,
            r.fields@.len() == 6,
            r.fields@[0].name@ == "market"@,
            r.fields@[0].value matches FieldValue::Text(text) && text@ == market@,
            r.fields@[1].name@ == "type"@,
            r.fields@[1].value matches FieldValue::Text(text) && text@ == kind@,
            r.fields@[2].name@ == "side"@,
            r.fields@[2].value matches FieldValue::Text(text) && text@ == side@,
            r.fields@[3].name@ == "orders"@,
            r.fields@[3].value matches FieldValue::Levels(levels) && levels@ == orders@,
            r.fields@[4].name@ == "slot"@,
            r.fields@[4].value == FieldValue::<'_>::Number(slot),
            r.fields@[5].name@ == "write_version"@,
            r.fields@[5].value == FieldValue::<'_>::Number(write_version),
    {
        let mut fields: Vec<Field<'a>> = Vec::new();
        fields.push(Field { name: "market", value: FieldValue::Text(market.as_str()) });
        fields.push(Field { name: "type", value: FieldValue::Text(kind) });
        fields.push(Field { name: "side", value: FieldValue::Text(side.as_str()) });
        fields.push(Field { name: "orders", value: FieldValue::Levels(orders) });
        fields.push(Field { name: "slot", value: FieldValue::Number(slot) });
        fields.push(Field { name: "write_version", value: FieldValue::Number(write_version) });
        let record = Record { name: "Snapshot", len: 3, fields };
        proof {
            let content = Content {
                market: market@,
                side: side@,
                orders: orders@,
                slot,
                write_version,
            };
            assert(record@.fields =~= message_fields(kind@, content));
        }
        record
    }

    /// The JSON object with the fields of the record.
    pub fn to_json(&self) -> (r: String)
        ensures
            r@ == object_text(self@.fields),
    {
        let ghost all = self@.fields;
        let mut text = String::new();
        text.append("{");
        let mut i: usize = 0;
        proof {
            reveal_strlit("{");
            reveal_strlit("}");
            reveal_strlit(",");
            reveal_strlit(":");
            assert("{"@ =~= seq!['{']);
            assert("}"@ =~= seq!['}']);
            assert(all.skip(0) =~= all);
        }
        while i < self.fields.len()
            invariant
                i <= self.fields.len(),
                all == self@.fields,
                text@ + following(all, i as int) == seq!['{'] + fields_text(all),
                ","@ == seq![','],
                ":"@ == seq![':'],
            decreases self.fields.len() - i,
        {
            let field = self.fields[i];
            let ghost before = text@;
            proof {
                lemma_following(all, i as int);
                assert(all[i as int] == field@);
            }
            if i > 0 {
                text.append(",");
            }
            text.append(string_to_json(field.name).as_str());
            text.append(":");
            let value = match field.value {
                FieldValue::Text(plain) => string_to_json(plain),
                FieldValue::Levels(levels) => pairs_to_json(levels),
                FieldValue::Number(number) => number_to_json(number),
            };
            text.append(value.as_str());
            proof {
                let comma = if i > 0 {
                    seq![',']
                } else {
                    Seq::empty()
                };
                assert(text@ =~= before + (comma + field_text(field@)));
                assert(before + following(all, i as int) =~= text@ + following(all, i as int + 1));
            }
            i += 1;
        }
        text.append("}");
        text
    }
}

/// What follows the first `i` fields of an object, up to the closing brace.
spec fn following(fields: Seq<(Seq<char>, FieldData)>, i: int) -> Seq<char> {
    if i >= fields.len() {
        Seq::empty()
    } else if i == 0 {
        fields_text(fields)
    } else {
        seq![','] + fields_text(fields.skip(i))
    }
}

proof fn lemma_following(fields: Seq<(Seq<char>, FieldData)>, i: int)
    requires
        0 <= i < fields.len(),
    ensures
        following(fields, i) == (if i > 0 {
            seq![',']
        } else {
            Seq::empty()
        }) + field_text(fields[i]) + following(fields, i + 1),
{
    let rest = fields.skip(i);
    assert(rest.drop_first() =~= fields.skip(i + 1));
    assert(rest.first() == fields[i]);
    assert(fields.skip(0) =~= fields);
    assert(following(fields, i) =~= (if i > 0 {
        seq![',']
    } else {
        Seq::empty()
    }) + field_text(fields[i]) + following(fields, i + 1));
}

impl Snapshot {
    /// What a serializer is told of the snapshot.
    pub fn record(&self) -> (r: Record<'_>)
        ensures
            r@ == message_record(snapshot_kind(), self@),
            r.name@ == "Snapshot"@,
            r.len == 3,
            r.fields@.len() == 6,
            r.fields@[0].name@ == "market"@,
            r.fields@[0].value matches FieldValue::Text(text) && text@ == self.market@,
            r.fields@[1].name@ == "type"@,
            r.fields@[1].value matches FieldValue::Text(text) && text@ == "l2snapshot"@,
            r.fields@[2].name@ == "side"@,
            r.fields@[2].value matches FieldValue::Text(text) && text@ == self.side@,
            r.fields@[3].name@ == "orders"@,
            r.fields@[3].value matches FieldValue::Levels(levels) && levels@ == self.orders@,
            r.fields@[4].name@ == "slot"@,
            r.fields@[4].value == FieldValue::<'_>::Number(self.slot),
            r.fields@[5].name@ == "write_version"@,
            r.fields@[5].value == FieldValue::<'_>::Number(self.write_version),
    {
        Record::of_message(
            "l2snapshot",
            &self.market,
            &self.side,
            &self.orders,
            self.slot,
            self.write_version,
        )
    }

    /// The JSON text of the snapshot.
    pub fn serialize(&self) -> (r: String)
        ensures
            r@ == message_text(snapshot_kind(), self@),
    {
        self.record().to_json()
    }
}

impl Delta {
    /// What a serializer is told of the delta.
    pub fn record(&self) -> (r: Record<'_>)
        ensures
            r@ == message_record(delta_kind(), self@),
            r.name@ == "Snapshot"@,
            r.len == 3,
            r.fields@.len() == 6,
            r.fields@[0].name@ == "market"@,
            r.fields@[0].value matches FieldValue::Text(text) && text@ == self.market@,
            r.fields@[1].name@ == "type"@,
            r.fields@[1].value matches FieldValue::Text(text) && text@ == "l2update"@,
            r.fields@[2].name@ == "side"@,
            r.fields@[2].value matches FieldValue::Text(text) && text@ == self.side@,
            r.fields@[3].name@ == "orders"@,
            r.fields@[3].value matches FieldValue::Levels(levels) && levels@ == self.orders@,
            r.fields@[4].name@ == "slot"@,
            r.fields@[4].value == FieldValue::<'_>::Number(self.slot),
            r.fields@[5].name@ == "write_version"@,
            r.fields@[5].value == FieldValue::<'_>::Number(self.write_version),
    {
        Record::of_message(
            "l2update",
            &self.market,
            &self.side,
            &self.orders,
            self.slot,
            self.write_version,
        )
    }

    /// The JSON text of the delta.
    pub fn serialize(&self) -> (r: String)
        ensures
            r@ == message_text(delta_kind(), self@),
    {
        self.record().to_json()
    }
}

} // verus!
