//! The text of a message tells everything that the message holds, and nothing else.
use vstd::prelude::*;

use crate::json::{nat_text, pairs_text, quoted};
use crate::json_reader::{
    is_digit, lemma_read_nat, lemma_read_pairs, lemma_read_quoted, pair_json, pairs_json,
    read_json, read_member, read_members, read_value, Json,
};
use crate::message::{
    data_text, delta_kind, field_text, fields_text, message_fields, message_record, message_text,
    object_text, snapshot_kind, Content, Delta, FieldData, FieldValue, Record, Snapshot,
};

verus! {

/// The JSON value of a field.
pub open spec fn data_json(data: FieldData) -> Json {
    match data {
        FieldData::Text(text) => Json::Text(text),
        FieldData::Levels(levels) => pairs_json(levels),
        FieldData::Number(number) => Json::Number(number as int),
    }
}

/// The members of the JSON object with the given fields.
pub open spec fn members(fields: Seq<(Seq<char>, FieldData)>) -> Seq<(Seq<char>, Json)> {
    fields.map_values(|field: (Seq<char>, FieldData)| (field.0, data_json(field.1)))
}

proof fn lemma_read_data(data: FieldData, x: Seq<char>)
    requires
        x.len() > 0,
        !is_digit(x[0]),
    ensures
        read_value(data_text(data) + x) == Some((data_json(data), x)),
{
    match data {
        FieldData::Text(text) => lemma_read_quoted(text, x),
        FieldData::Levels(levels) => lemma_read_pairs(levels, x),
        FieldData::Number(number) => lemma_read_nat(number as nat, x),
    }
}

proof fn lemma_read_field(field: (Seq<char>, FieldData), x: Seq<char>)
    requires
        x.len() > 0,
        !is_digit(x[0]),
    ensures
        read_member(field_text(field) + x) == Some(
            ((field.0, data_json(field.1)), x),
        ),
        field_text(field).len() > 0,
        (field_text(field) + x)[0] == '"',
{
    let value = data_text(field.1) + x;
    assert(field_text(field) + x =~= quoted(field.0) + (seq![':'] + value));
    lemma_read_quoted(field.0, seq![':'] + value);
    assert((seq![':'] + value).skip(1) =~= value);
    lemma_read_data(field.1, x);
}

proof fn lemma_read_fields(fields: Seq<(Seq<char>, FieldData)>, x: Seq<char>)
    requires
        fields.len() > 0,
    ensures
        read_members(fields_text(fields) + (seq!['}'] + x)) == Some((members(fields), x)),
        (fields_text(fields) + (seq!['}'] + x))[0] == '"',
    decreases fields.len(),
{
    let text = fields_text(fields) + (seq!['}'] + x);
    if fields.len() == 1 {
        lemma_read_field(fields.first(), seq!['}'] + x);
        assert((seq!['}'] + x).skip(1) =~= x);
        assert(members(fields) =~= seq![(fields.first().0, data_json(fields.first().1))]);
    } else {
        let rest = fields.drop_first();
        let more = fields_text(rest) + (seq!['}'] + x);
        assert(text =~= field_text(fields.first()) + (seq![','] + more));
        lemma_read_field(fields.first(), seq![','] + more);
        assert((seq![','] + more).skip(1) =~= more);
        lemma_read_fields(rest, x);
        assert(members(fields) =~= seq![(fields.first().0, data_json(fields.first().1))] + members(
            rest,
        ));
    }
}

/// The text of an object reads back as the object with the same fields, in order.
pub proof fn law_objects_read_back(fields: Seq<(Seq<char>, FieldData)>)
    ensures
        read_json(object_text(fields)) == Some(Json::Object(members(fields))),
        members(fields).len() == fields.len(),
        forall|i: int|
            0 <= i < fields.len() ==> {
                let member = #[trigger] members(fields)[i];
                &&& member.0 == fields[i].0
                &&& match fields[i].1 {
                    FieldData::Text(text) => member.1 == Json::Text(text),
                    FieldData::Levels(levels) => member.1 == pairs_json(levels),
                    FieldData::Number(number) => member.1 == Json::Number(number as int),
                }
            },
{
    let text = object_text(fields);
    let none = Seq::<char>::empty();
    assert(text.skip(1) =~= fields_text(fields) + (seq!['}'] + none));
    assert(text[1] == text.skip(1)[0]);
    if fields.len() == 0 {
        assert(members(fields) =~= Seq::empty());
    } else {
        lemma_read_fields(fields, none);
    }
}

/// A list of pairs is read as an array with one array for each pair, in order, of its
/// two numbers.
pub proof fn law_pairs_are_arrays_of_two(pairs: Seq<(i64, i64)>)
    ensures
        pairs_json(pairs) matches Json::List(items) && items.len() == pairs.len() && (forall|i: int|
            0 <= i < pairs.len() ==> (#[trigger] items[i]) == Json::List(
                seq![Json::Number(pairs[i].0 as int), Json::Number(pairs[i].1 as int)],
            )),
{
}

/// What a message holds is what its fields hold.
pub proof fn law_messages_hold_their_fields(snapshot: Snapshot, delta: Delta)
    ensures
        snapshot@.market == snapshot.market@,
        snapshot@.side == snapshot.side@,
        snapshot@.orders == snapshot.orders@,
        snapshot@.slot == snapshot.slot,
        snapshot@.write_version == snapshot.write_version,
        delta@.market == delta.market@,
        delta@.side == delta.side@,
        delta@.orders == delta.orders@,
        delta@.slot == delta.slot,
        delta@.write_version == delta.write_version,
{
}

/// A serializer is told all fields of a record, each with its name and its value, in
/// their order.
pub proof fn law_records_tell_all_fields(record: Record<'_>)
    ensures
        record@.name == record.name@,
        record@.len == record.len,
        record@.fields.len() == record.fields@.len(),
        forall|i: int|
            0 <= i < record.fields@.len() ==> (#[trigger] record@.fields[i]).0
                == record.fields@[i].name@ && match record.fields@[i].value {
                FieldValue::Text(text) => record@.fields[i].1 == FieldData::Text(text@),
                FieldValue::Levels(levels) => record@.fields[i].1 == FieldData::Levels(levels@),
                FieldValue::Number(number) => record@.fields[i].1 == FieldData::Number(number),
            },
{
}

/// The record of a message is announced under the same name and length for every
/// message, and holds its type and the five things that it is made of.
pub proof fn law_records_hold_the_message(kind: Seq<char>, content: Content)
    ensures
        ({
            let record = message_record(kind, content);
            &&& record.name == "Snapshot"@
            &&& record.len == 3
            &&& record.fields.len() == 6
            &&& record.fields[0] == ("market"@, FieldData::Text(content.market))
            &&& record.fields[1] == ("type"@, FieldData::Text(kind))
            &&& record.fields[2] == ("side"@, FieldData::Text(content.side))
            &&& record.fields[3] == ("orders"@, FieldData::Levels(content.orders))
            &&& record.fields[4] == ("slot"@, FieldData::Number(content.slot))
            &&& record.fields[5] == ("write_version"@, FieldData::Number(content.write_version))
            &&& snapshot_kind() == "l2snapshot"@
            &&& delta_kind() == "l2update"@
            &&& message_text(kind, content) == object_text(record.fields)
        }),
{
}

/// The text of an object with one more field in front is that field, a comma, and the
/// rest of the object.
pub proof fn law_fields_follow_each_other(
    field: (Seq<char>, FieldData),
    fields: Seq<(Seq<char>, FieldData)>,
)
    ensures
        fields_text(seq![field] + fields) == field_text(field) + (if fields.len() == 0 {
            Seq::<char>::empty()
        } else {
            seq![','] + fields_text(fields)
        }),
        field_text(field) == quoted(field.0) + seq![':'] + (match field.1 {
            FieldData::Text(text) => quoted(text),
            FieldData::Levels(levels) => pairs_text(levels),
            FieldData::Number(number) => nat_text(number as nat),
        }),
        object_text(fields) == seq!['{'] + fields_text(fields) + seq!['}'],
        fields_text(Seq::<(Seq<char>, FieldData)>::empty()).len() == 0,
{
    let all = seq![field] + fields;
    assert(all.drop_first() =~= fields);
    assert(all.first() == field);
    if fields.len() == 0 {
        assert(fields_text(all) =~= field_text(field) + Seq::<char>::empty());
    } else {
        assert(fields_text(all) =~= field_text(field) + (seq![','] + fields_text(fields)));
    }
}

/// Who reads the text of a message finds an object with exactly six members: the
/// message's type, and its market, side, levels, slot and version as they are.
pub proof fn law_messages_read_back(kind: Seq<char>, content: Content)
    ensures
        read_json(message_text(kind, content)) == Some(
            Json::Object(
                seq![
                    ("market"@, Json::Text(content.market)),
                    ("type"@, Json::Text(kind)),
                    ("side"@, Json::Text(content.side)),
                    ("orders"@, pairs_json(content.orders)),
                    ("slot"@, Json::Number(content.slot as int)),
                    ("write_version"@, Json::Number(content.write_version as int)),
                ],
            ),
        ),
{
    let fields = message_fields(kind, content);
    law_objects_read_back(fields);
    assert(members(fields) =~= seq![
        ("market"@, Json::Text(content.market)),
        ("type"@, Json::Text(kind)),
        ("side"@, Json::Text(content.side)),
        ("orders"@, pairs_json(content.orders)),
        ("slot"@, Json::Number(content.slot as int)),
        ("write_version"@, Json::Number(content.write_version as int)),
    ]);
}

/// The names of the six members differ, so that each can be found by its name.
pub proof fn law_member_names_differ(kind: Seq<char>, content: Content)
    ensures
        ({
            let fields = message_fields(kind, content);
            &&& fields.len() == 6
            &&& forall|i: int, j: int|
                0 <= i < j < fields.len() ==> (#[trigger] fields[i]).0 != (#[trigger] fields[j]).0
        }),
{
    reveal_strlit("market");
    reveal_strlit("type");
    reveal_strlit("side");
    reveal_strlit("orders");
    reveal_strlit("slot");
    reveal_strlit("write_version");
    let fields = message_fields(kind, content);
    assert(fields[0].0[0] == 'm');
    assert(fields[1].0[0] == 't');
    assert(fields[2].0[0] == 's' && fields[2].0[1] == 'i');
    assert(fields[3].0[0] == 'o');
    assert(fields[4].0[0] == 's' && fields[4].0[1] == 'l');
    assert(fields[5].0[0] == 'w');
}

/// Equal arrays stand for equal lists of pairs.
proof fn lemma_same_pairs(a: Seq<(i64, i64)>, b: Seq<(i64, i64)>)
    requires
        pairs_json(a) == pairs_json(b),
    ensures
        a == b,
{
    let of_pair = |pair: (i64, i64)| pair_json(pair);
    let values_a = a.map_values(of_pair);
    let values_b = b.map_values(of_pair);
    assert(pairs_json(a)->List_0 == values_a);
    assert(pairs_json(b)->List_0 == values_b);
    assert forall|i: int| 0 <= i < a.len() implies a[i] == b[i] by {
        assert(values_a[i] == values_b[i]);
        let items_a = pair_json(a[i])->List_0;
        let items_b = pair_json(b[i])->List_0;
        assert(items_a == items_b);
        assert(items_a[0] == items_b[0] && items_a[1] == items_b[1]);
    }
    assert(a =~= b);
}

/// Two messages have the same text exactly where they are of the same type and hold
/// the same.
pub proof fn law_texts_tell_messages_apart(
    kind: Seq<char>,
    content: Content,
    other_kind: Seq<char>,
    other: Content,
)
    ensures
        message_text(kind, content) == message_text(other_kind, other) <==> kind == other_kind
            && content == other,
{
    if message_text(kind, content) == message_text(other_kind, other) {
        law_messages_read_back(kind, content);
        law_messages_read_back(other_kind, other);
        let read = read_json(message_text(kind, content))->0->Object_0;
        assert(read[0].1 == Json::Text(content.market) && read[0].1 == Json::Text(other.market));
        assert(read[1].1 == Json::Text(kind) && read[1].1 == Json::Text(other_kind));
        assert(read[2].1 == Json::Text(content.side) && read[2].1 == Json::Text(other.side));
        assert(read[3].1 == pairs_json(content.orders) && read[3].1 == pairs_json(other.orders));
        assert(read[4].1 == Json::Number(content.slot as int));
        assert(read[4].1 == Json::Number(other.slot as int));
        assert(read[5].1 == Json::Number(content.write_version as int));
        assert(read[5].1 == Json::Number(other.write_version as int));
        lemma_same_pairs(content.orders, other.orders);
    }
}

/// Whatever serializer they are given to, a snapshot and a delta with the same content
/// tell it the same, but for the value of the second field, the type, which always
/// differs.
pub proof fn law_records_differ_only_in_type(content: Content)
    ensures
        ({
            let snapshot = message_record(snapshot_kind(), content);
            let delta = message_record(delta_kind(), content);
            &&& snapshot.name == delta.name
            &&& snapshot.len == delta.len
            &&& snapshot.fields[1] == ("type"@, FieldData::Text(snapshot_kind()))
            &&& delta.fields == snapshot.fields.update(
                1,
                ("type"@, FieldData::Text(delta_kind())),
            )
            &&& snapshot_kind() != delta_kind()
        }),
{
    reveal_strlit("l2snapshot");
    reveal_strlit("l2update");
    assert(snapshot_kind().len() != delta_kind().len());
    assert(message_fields(delta_kind(), content) =~= message_fields(
        snapshot_kind(),
        content,
    ).update(1, ("type"@, FieldData::Text(delta_kind()))));
}

/// The texts of a snapshot and of a delta with the same content are the same but for
/// the value of the type.
pub proof fn law_texts_differ_only_in_type(content: Content)
    ensures
        exists|before: Seq<char>, behind: Seq<char>|
            message_text(snapshot_kind(), content) == #[trigger] (before + quoted(snapshot_kind())
                + behind) && message_text(delta_kind(), content) == before + quoted(delta_kind())
                + behind,
{
    let fields = message_fields(snapshot_kind(), content);
    let before = seq!['{'] + field_text(fields[0]) + seq![','] + quoted("type"@) + seq![':'];
    let behind = seq![','] + fields_text(fields.skip(2)) + seq!['}'];
    lemma_type_in_text(snapshot_kind(), content);
    lemma_type_in_text(delta_kind(), content);
    assert(message_fields(delta_kind(), content).skip(2) =~= fields.skip(2));
    assert(message_text(snapshot_kind(), content) == before + quoted(snapshot_kind()) + behind);
}

proof fn lemma_type_in_text(kind: Seq<char>, content: Content)
    ensures
        ({
            let fields = message_fields(kind, content);
            message_text(kind, content) == seq!['{'] + field_text(fields[0]) + seq![','] + quoted(
                "type"@,
            ) + seq![':'] + quoted(kind) + (seq![','] + fields_text(fields.skip(2)) + seq!['}'])
        }),
{
    let fields = message_fields(kind, content);
    let rest = fields.drop_first();
    assert(rest.drop_first() =~= fields.skip(2));
    assert(fields_text(fields) == field_text(fields[0]) + seq![','] + fields_text(rest));
    assert(fields_text(rest) == field_text(fields[1]) + seq![','] + fields_text(fields.skip(2)));
    assert(message_text(kind, content) =~= seq!['{'] + field_text(fields[0]) + seq![','] + quoted(
        "type"@,
    ) + seq![':'] + quoted(kind) + (seq![','] + fields_text(fields.skip(2)) + seq!['}']));
}

/// No text is that of a snapshot and of a delta.
pub proof fn law_snapshots_are_not_deltas(snapshot: Content, delta: Content)
    ensures
        message_text(snapshot_kind(), snapshot) != message_text(delta_kind(), delta),
{
    law_records_differ_only_in_type(snapshot);
    law_texts_tell_messages_apart(snapshot_kind(), snapshot, delta_kind(), delta);
}

} // verus!
