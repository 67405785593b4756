use people_core::Person;

#[test]
fn test_person_creation() {
    let person = Person::new("Alice".to_string(), 25);
    assert_eq!(person.name, "Alice");
    assert_eq!(person.age, 25);
    assert_eq!(person.email, None);
}

#[test]
fn test_person_with_email() {
    let person = Person::new("Bob".to_string(), 30).with_email("bob@example.com".to_string());
    assert_eq!(person.email, Some("bob@example.com".to_string()));
}

#[test]
fn test_person_is_adult() {
    let adult = Person::new("Alice".to_string(), 25);
    let minor = Person::new("Bob".to_string(), 17);
    let exactly_18 = Person::new("Charlie".to_string(), 18);

    assert!(adult.is_adult());
    assert!(!minor.is_adult());
    assert!(exactly_18.is_adult());
}

#[test]
fn test_person_greet() {
    let person = Person::new("Alice".to_string(), 25);
    let greeting = person.greet();
    assert_eq!(greeting, "Hello, my name is Alice and I'm 25 years old!");
}

#[test]
fn test_person_clone() {
    let person1 = Person::new("Alice".to_string(), 25);
    let person2 = person1.clone();

    assert_eq!(person1, person2);
    assert_eq!(person1.name, person2.name);
    assert_eq!(person1.age, person2.age);
}

#[test]
fn test_with_email_preserves_name_and_age() {
    let person = Person::new("Dana".to_string(), 41).with_email("dana@example.com".to_string());
    assert_eq!(person.name, "Dana");
    assert_eq!(person.age, 41);
    assert_eq!(person.email, Some("dana@example.com".to_string()));
}

#[test]
fn test_greet_multi_digit_age() {
    let person = Person::new("Zoe".to_string(), 107);
    assert_eq!(person.greet(), "Hello, my name is Zoe and I'm 107 years old!");
}

#[test]
fn test_greet_age_zero() {
    let person = Person::new("Newborn".to_string(), 0);
    assert_eq!(person.greet(), "Hello, my name is Newborn and I'm 0 years old!");
}

#[test]
fn test_greet_never_mentions_email() {
    let person = Person::new("Eve".to_string(), 33).with_email("eve@example.com".to_string());
    let greeting = person.greet();
    assert_eq!(greeting, "Hello, my name is Eve and I'm 33 years old!");
    assert!(!greeting.contains("example.com"));
}
