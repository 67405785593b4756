use people_core::people_from_json;
use people_core::people_to_json;
use people_core::Person;

#[test]
fn test_json_serialization() {
    let people = vec![
        Person::new("Alice".to_string(), 25).with_email("alice@example.com".to_string()),
        Person::new("Bob".to_string(), 30),
    ];

    let json = people_to_json(&people).expect("Serialization should succeed");
    assert!(json.contains("Alice"));
    assert!(json.contains("alice@example.com"));
    assert!(json.contains("Bob"));

    let deserialized: Vec<Person> =
        people_from_json(&json).expect("Deserialization should succeed");
    assert_eq!(deserialized, people);
}

#[test]
fn test_round_trip_empty() {
    let people: Vec<Person> = Vec::new();
    let json = people_to_json(&people).unwrap();
    assert_eq!(json, "[]");
    let back = people_from_json(&json).unwrap();
    assert!(back.is_empty());
}

#[test]
fn test_round_trip_escaped_characters() {
    let people = vec![
        Person::new("A \"quoted\" name".to_string(), 40),
        Person::new("back\\slash and tab\t".to_string(), 2)
            .with_email("line\nbreak@example.com".to_string()),
    ];
    let json = people_to_json(&people).unwrap();
    let back = people_from_json(&json).unwrap();
    assert_eq!(back, people);
}

#[test]
fn test_encoded_form_is_compact() {
    let people = vec![Person::new("Ann".to_string(), 7)];
    let json = people_to_json(&people).unwrap();
    assert_eq!(json, "[{\"name\":\"Ann\",\"age\":7,\"email\":null}]");
}

#[test]
fn test_decode_tolerates_whitespace() {
    let text = " [ {\"name\" : \"Ann\" ,\n\t\"age\"\t: 7 , \"email\" : null } ] ";
    let people = people_from_json(text).unwrap();
    assert_eq!(people.len(), 1);
    assert_eq!(people[0].name, "Ann");
    assert_eq!(people[0].age, 7);
    assert_eq!(people[0].email, None);
}

#[test]
fn test_decode_named_and_unicode_escapes() {
    let text = "[{\"name\":\"\\u0041\\n\\t\\\"x\\\\\",\"age\":1,\"email\":null}]";
    let people = people_from_json(text).unwrap();
    assert_eq!(people[0].name, "A\n\t\"x\\");
}

#[test]
fn test_decode_missing_field_fails() {
    let text = "[{\"name\":\"Ann\",\"age\":7}]";
    assert!(people_from_json(text).is_err());
}

#[test]
fn test_decode_wrong_type_fails() {
    let text = "[{\"name\":\"Ann\",\"age\":\"7\",\"email\":null}]";
    assert!(people_from_json(text).is_err());
}

#[test]
fn test_decode_malformed_syntax_fails() {
    assert!(people_from_json("").is_err());
    assert!(people_from_json("[").is_err());
    assert!(people_from_json("{}").is_err());
    assert!(people_from_json("[{\"name\":\"Ann\",\"age\":7,\"email\":null}").is_err());
}

#[test]
fn test_decode_age_out_of_range_fails() {
    let text = "[{\"name\":\"Ann\",\"age\":4294967296,\"email\":null}]";
    assert!(people_from_json(text).is_err());
}

#[test]
fn test_decode_leading_zero_fails() {
    let text = "[{\"name\":\"Ann\",\"age\":07,\"email\":null}]";
    assert!(people_from_json(text).is_err());
}

#[test]
fn test_decode_trailing_text_fails() {
    assert!(people_from_json("[] nonsense").is_err());
}

#[test]
fn test_decode_negative_age_fails() {
    let text = "[{\"name\":\"Ann\",\"age\":-7,\"email\":null}]";
    assert!(people_from_json(text).is_err());
}

#[test]
fn test_encoded_text_is_conforming_json() {
    let people = vec![
        Person::new("Ctrl\u{1}name".to_string(), 19).with_email("a@b".to_string()),
        Person::new("Plain".to_string(), 4294967295),
    ];
    let json = people_to_json(&people).unwrap();
    let value: serde_json::Value = serde_json::from_str(&json).expect("output must parse as JSON");
    let arr = value.as_array().expect("top level must be an array");
    assert_eq!(arr.len(), 2);
    assert_eq!(arr[0].get("name").unwrap().as_str().unwrap(), "Ctrl\u{1}name");
    assert_eq!(arr[0].get("age").unwrap().as_u64().unwrap(), 19);
    assert_eq!(arr[0].get("email").unwrap().as_str().unwrap(), "a@b");
    assert_eq!(arr[1].get("name").unwrap().as_str().unwrap(), "Plain");
    assert_eq!(arr[1].get("age").unwrap().as_u64().unwrap(), 4294967295);
    assert!(arr[1].get("email").unwrap().is_null());
}

#[test]
fn test_round_trip_control_characters() {
    let people =
        vec![Person::new("bell\u{7} feed\u{c} return\r".to_string(), 55)];
    let json = people_to_json(&people).unwrap();
    let back = people_from_json(&json).unwrap();
    assert_eq!(back, people);
}

#[test]
fn test_decode_error_carries_message() {
    let err = people_from_json("not json").unwrap_err();
    assert!(!err.message.is_empty());
}
