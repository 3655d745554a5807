//! The message that comes with a bet.
//!
//! A bettor places a bet by transferring the stake, and says in the message
//! of the transfer what the stake is for: a JSON object with the text fields
//! `match_id` and `decision`. Other fields are ignored.

use vstd::prelude::*;

verus! {

/// A field of a JSON object: its key, and its text if its value is a
/// string.
pub type Field = (String, Option<String>);

/// A field as a value.
pub open spec fn field_view(field: Field) -> (Seq<char>, Option<Seq<char>>) {
    (
        field.0@,
        match field.1 {
            Some(text) => Some(text@),
            None => None,
        },
    )
}

/// The fields of a vector as values.
pub open spec fn field_views(fields: Seq<Field>) -> Seq<(Seq<char>, Option<Seq<char>>)> {
    Seq::new(fields.len(), |i: int| field_view(fields[i]))
}

/// What was read of a text as a value.
pub open spec fn read_view(read: Option<Vec<Field>>) -> Option<
    Seq<(Seq<char>, Option<Seq<char>>)>,
> {
    match read {
        Some(fields) => Some(field_views(fields@)),
        None => None,
    }
}

/// The fields of the JSON object that `text` spells, as `serde_json` reads
/// them, or `None` if `text` spells no JSON object.
pub uninterp spec fn json_object_fields(text: Seq<char>) -> Option<
    Seq<(Seq<char>, Option<Seq<char>>)>,
>;

/// `serde_json::from_str` reads `text` as a JSON value. If the value is an
/// object, its fields are handed out one by one, each with its text if its
/// value is a string. Nothing is claimed of which texts are JSON or of what
/// their fields are, only that the same text always reads the same.
#[verifier::external_body]
fn read_json_object(text: &str) -> (r: Option<Vec<Field>>)
    ensures
        read_view(r) == json_object_fields(text@),
{
    let object = match serde_json::from_str::<serde_json::Value>(text) {
        Ok(serde_json::Value::Object(object)) => object,
        Ok(_) | Err(_) => return None,
    };
    let mut fields: Vec<Field> = Vec::new();
    for (key, value) in object {
        match value {
            serde_json::Value::String(text) => fields.push((key, Some(text))),
            _ => fields.push((key, None)),
        }
    }
    Some(fields)
}

/// The text of the first field with the given key, if its value is a
/// string.
pub open spec fn text_field(fields: Seq<(Seq<char>, Option<Seq<char>>)>, key: Seq<char>) -> Option<
    Seq<char>,
>
    decreases fields.len(),
{
    if fields.len() == 0 {
        None
    } else if fields[0].0 == key {
        fields[0].1
    } else {
        text_field(fields.drop_first(), key)
    }
}

/// The match and the decision that the fields name: the texts of
/// `match_id` and of `decision`, if both are there.
pub open spec fn named_bet(fields: Seq<(Seq<char>, Option<Seq<char>>)>) -> Option<
    (Seq<char>, Seq<char>),
> {
    match (text_field(fields, "match_id"@), text_field(fields, "decision"@)) {
        (Some(match_id), Some(decision)) => Some((match_id, decision)),
        _ => None,
    }
}

/// The match and the decision that a message names, or `None` if the
/// message is no JSON object or lacks one of the two as a text.
pub open spec fn bet_message(text: Seq<char>) -> Option<(Seq<char>, Seq<char>)> {
    match json_object_fields(text) {
        Some(fields) => named_bet(fields),
        None => None,
    }
}

/// A pair of texts as a value.
pub open spec fn pair_view(pair: Option<(String, String)>) -> Option<(Seq<char>, Seq<char>)> {
    match pair {
        Some((first, second)) => Some((first@, second@)),
        None => None,
    }
}

/// The text of the first field with the given key, if its value is a
/// string.
fn find_text(fields: &Vec<Field>, key: &str) -> (r: Option<String>)
    ensures
        match r {
            Some(text) => text_field(field_views(fields@), key@) == Some(text@),
            None => text_field(field_views(fields@), key@) is None,
        },
{
    let ghost all: Seq<(Seq<char>, Option<Seq<char>>)> = field_views(fields@);
    let wanted: String = String::from_str(key);
    let mut i: usize = 0;
    assert(all.skip(0) =~= all);
    while i < fields.len()
        invariant
            i <= fields.len(),
            all == field_views(fields@),
            wanted@ == key@,
            text_field(all, key@) == text_field(all.skip(i as int), key@),
        decreases fields.len() - i,
    {
        assert(all.skip(i as int).drop_first() =~= all.skip(i + 1));
        assert(all.skip(i as int)[0] == field_view(fields@[i as int]));
        if fields[i].0 == wanted {
            return match &fields[i].1 {
                Some(text) => Some(text.clone()),
                None => None,
            };
        }
        i = i + 1;
    }
    None
}

/// The match and the decision that the fields of a message name.
pub fn message_of(fields: &Vec<Field>) -> (r: Option<(String, String)>)
    ensures
        pair_view(r) == named_bet(field_views(fields@)),
{
    let match_id: String = match find_text(fields, "match_id") {
        Some(text) => text,
        None => {
            return None;
        },
    };
    match find_text(fields, "decision") {
        Some(decision) => Some((match_id, decision)),
        None => None,
    }
}

/// Reads the message of a bet: the match and the decision that it names.
pub fn parse_message(msg: &str) -> (r: Option<(String, String)>)
    ensures
        pair_view(r) == bet_message(msg@),
{
    match read_json_object(msg) {
        Some(fields) => message_of(&fields),
        None => None,
    }
}

} // verus!
