use phonebook::PhoneBook;

#[test]
fn add_then_duplicate_name_rejected() {
    let mut book = PhoneBook::new();
    assert!(book.add("Alice".to_string(), "555-123-4567".to_string(), true));
    assert!(!book.add("Alice".to_string(), "444-000-1111".to_string(), false));
    assert_eq!(book.entries.len(), 1);
}

#[test]
fn malformed_numbers_rejected() {
    let mut book = PhoneBook::new();
    assert!(!book.add("Bob".to_string(), "555-123-456".to_string(), true));
    assert!(!book.add("Bob".to_string(), "5551234567".to_string(), true));
    assert!(!book.add("Bob".to_string(), "55-5123-4567".to_string(), true));
    assert!(!book.add("Bob".to_string(), "555-123-45678".to_string(), true));
    assert!(!book.add("Bob".to_string(), "555-abc-4567".to_string(), true));
    assert!(!book.add("Bob".to_string(), "".to_string(), true));
    assert!(book.entries.is_empty());
    assert!(book.add("Bob".to_string(), "555-123-4567".to_string(), true));
}

#[test]
fn listed_number_unique_unlisted_free() {
    let mut book = PhoneBook::new();
    assert!(book.add("Carol".to_string(), "555-123-4567".to_string(), true));
    assert!(!book.add("Dave".to_string(), "555-123-4567".to_string(), true));
    assert!(book.add("Eve".to_string(), "555-123-4567".to_string(), false));
}

#[test]
fn lookup_sees_only_listed_entries() {
    let mut book = PhoneBook::new();
    assert!(book.add("Carol".to_string(), "555-123-4567".to_string(), true));
    assert!(book.add("Hugh".to_string(), "555-999-0000".to_string(), false));
    assert_eq!(book.lookup("Carol"), Some("555-123-4567".to_string()));
    assert_eq!(book.lookup("Hugh"), None);
    assert_eq!(book.lookup("Nobody"), None);
}

#[test]
fn lookup_by_num_sees_only_listed_entries() {
    let mut book = PhoneBook::new();
    assert!(book.add("Carol".to_string(), "555-123-4567".to_string(), true));
    assert!(book.add("Hugh".to_string(), "555-999-0000".to_string(), false));
    assert_eq!(book.lookup_by_num("555-123-4567"), Some("Carol".to_string()));
    assert_eq!(book.lookup_by_num("555-999-0000"), None);
}

#[test]
fn names_by_ac_keeps_insertion_order_and_unlisted() {
    let mut book = PhoneBook::new();
    assert!(book.add("Carol".to_string(), "555-123-4567".to_string(), true));
    assert!(book.add("Hugh".to_string(), "555-999-0000".to_string(), false));
    assert!(book.add("Ida".to_string(), "444-123-4567".to_string(), true));
    assert!(book.add("Jon".to_string(), "555-000-0000".to_string(), true));
    assert_eq!(
        book.names_by_ac("555"),
        vec!["Carol".to_string(), "Hugh".to_string(), "Jon".to_string()]
    );
    assert_eq!(book.names_by_ac("444"), vec!["Ida".to_string()]);
    assert_eq!(book.names_by_ac("9"), Vec::<String>::new());
    assert_eq!(book.names_by_ac("").len(), 4);
}

#[test]
fn queries_are_idempotent_without_adds() {
    let mut book = PhoneBook::new();
    assert!(book.add("Carol".to_string(), "555-123-4567".to_string(), true));
    assert!(book.add("Hugh".to_string(), "555-999-0000".to_string(), false));
    let first_lookup = book.lookup("Carol");
    let first_names = book.names_by_ac("555");
    assert_eq!(book.lookup("Carol"), first_lookup);
    assert_eq!(book.names_by_ac("555"), first_names);
    assert_eq!(book.lookup("Carol"), first_lookup);
}

#[test]
fn failed_add_leaves_book_unchanged() {
    let mut book = PhoneBook::new();
    assert!(book.add("Carol".to_string(), "555-123-4567".to_string(), true));
    let before: Vec<(String, String, bool)> = book
        .entries
        .iter()
        .map(|e| (e.name.clone(), e.number.clone(), e.is_listed))
        .collect();
    assert!(!book.add("Dave".to_string(), "555-123-4567".to_string(), true));
    let after: Vec<(String, String, bool)> = book
        .entries
        .iter()
        .map(|e| (e.name.clone(), e.number.clone(), e.is_listed))
        .collect();
    assert_eq!(before, after);
}
