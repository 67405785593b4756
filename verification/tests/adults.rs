use people_core::filter_adults;
use people_core::Person;

#[test]
fn test_filter_adults() {
    let people = vec![
        Person::new("Alice".to_string(), 25),
        Person::new("Bob".to_string(), 17),
        Person::new("Charlie".to_string(), 18),
        Person::new("David".to_string(), 16),
    ];

    let adults = filter_adults(people);
    assert_eq!(adults.len(), 2);
    assert_eq!(adults[0].name, "Alice");
    assert_eq!(adults[1].name, "Charlie");
}

#[test]
fn test_empty_filter_adults() {
    let people = vec![
        Person::new("Child1".to_string(), 10),
        Person::new("Child2".to_string(), 15),
    ];

    let adults = filter_adults(people);
    assert!(adults.is_empty());
}

#[test]
fn test_filter_adults_empty_input() {
    let adults = filter_adults(Vec::new());
    assert!(adults.is_empty());
}

#[test]
fn test_filter_adults_keeps_order_and_fields() {
    let people = vec![
        Person::new("Young".to_string(), 3),
        Person::new("First".to_string(), 80).with_email("first@example.com".to_string()),
        Person::new("Second".to_string(), 18),
    ];
    let adults = filter_adults(people);
    assert_eq!(adults.len(), 2);
    assert_eq!(adults[0].name, "First");
    assert_eq!(adults[0].email, Some("first@example.com".to_string()));
    assert_eq!(adults[1].name, "Second");
}
