use wager_ledger::message::{message_of, parse_message, Field};

fn pair(first: &str, second: &str) -> Option<(String, String)> {
    Some((first.to_string(), second.to_string()))
}

fn field(key: &str, text: Option<&str>) -> Field {
    (key.to_string(), text.map(|t| t.to_string()))
}

#[test]
fn a_message_names_a_match_and_a_decision() {
    assert_eq!(
        parse_message("{\"match_id\": \"A-B-2024-01-01\", \"decision\": \"A\"}"),
        pair("A-B-2024-01-01", "A")
    );
    assert_eq!(
        parse_message("{\"decision\":\"B\",\"match_id\":\"x\"}"),
        pair("x", "B")
    );
    assert_eq!(parse_message("{\"match_id\": \"\", \"decision\": \"\"}"), pair("", ""));
}

#[test]
fn a_message_is_read_as_json() {
    // Escapes in keys and in texts are resolved, and other fields ignored.
    assert_eq!(
        parse_message(
            "{\"match\\u005fid\": \"a\\\"b\", \"other\": {\"decision\": \"no\"}, \"decision\": \"\\u00e9\"}"
        ),
        pair("a\"b", "\u{e9}")
    );
    // Of a key that is spelled twice, the last value counts.
    assert_eq!(
        parse_message("{\"match_id\": \"a\", \"decision\": \"b\", \"match_id\": \"c\"}"),
        pair("c", "b")
    );
    assert_eq!(
        parse_message("{\"match_id\": \"a\", \"decision\": \"b\", \"match_id\": 3}"),
        None
    );
}

#[test]
fn a_message_that_names_no_bet() {
    for msg in [
        "",
        "null",
        "1",
        "\"text\"",
        "[]",
        "{}",
        "{\"match_id\": \"a\"}",
        "{\"decision\": \"b\"}",
        "{\"match_id\": \"a\", \"decision\": true}",
        "{\"match_id\": [\"a\"], \"decision\": \"b\"}",
        "{\"match_id\": \"a\", \"decision\": \"b\",}",
        "{'match_id': 'a', 'decision': 'b'}",
        "{\"match_id\": \"a\", \"decision\": \"b\"}{}",
        "a b",
    ] {
        assert_eq!(parse_message(msg), None, "{:?}", msg);
    }
}

#[test]
fn the_fields_of_a_message() {
    let fields = vec![
        field("note", Some("n")),
        field("decision", Some("A")),
        field("match_id", Some("m")),
    ];
    assert_eq!(message_of(&fields), pair("m", "A"));
    // The first field with the key counts.
    let fields = vec![
        field("match_id", Some("m")),
        field("match_id", Some("other")),
        field("decision", Some("A")),
        field("decision", None),
    ];
    assert_eq!(message_of(&fields), pair("m", "A"));
    let fields = vec![field("match_id", None), field("match_id", Some("m")), field("decision", Some("A"))];
    assert_eq!(message_of(&fields), None);
    assert_eq!(message_of(&vec![field("match_id", Some("m"))]), None);
    assert_eq!(message_of(&vec![field("decision", Some("A"))]), None);
    assert_eq!(message_of(&vec![field("match_id", Some("m")), field("decision", None)]), None);
    assert_eq!(message_of(&Vec::new()), None);
}
