use phonebook::fib;
use phonebook::freq;
use phonebook::hash_to_array;
use phonebook::is_palindrome;
use phonebook::nthmax;
use phonebook::zip_hash;
use phonebook::StringMap;

#[test]
fn fib_zero_is_empty() {
    assert_eq!(fib(0), Vec::<u32>::new());
}

#[test]
fn fib_one_is_zero() {
    assert_eq!(fib(1), vec![0]);
}

#[test]
fn fib_five() {
    assert_eq!(fib(5), vec![0, 1, 1, 2, 3]);
}

#[test]
fn fib_longest_supported() {
    let v = fib(48);
    assert_eq!(v.len(), 48);
    assert_eq!(v[47], 2_971_215_073);
}

#[test]
fn palindrome_examples() {
    assert!(is_palindrome(121));
    assert!(!is_palindrome(123));
    assert!(is_palindrome(0));
    assert!(!is_palindrome(10));
    assert!(is_palindrome(33));
    assert!(is_palindrome(7));
}

#[test]
fn nthmax_first_of_three() {
    assert_eq!(nthmax(0, &[3, 1, 2]), Some(3));
}

#[test]
fn nthmax_out_of_range() {
    assert_eq!(nthmax(5, &[3, 1, 2]), None);
}

#[test]
fn nthmax_empty() {
    assert_eq!(nthmax(0, &[]), None);
}

#[test]
fn nthmax_counts_duplicates_by_position() {
    assert_eq!(nthmax(1, &[3, 3, 1]), Some(3));
    assert_eq!(nthmax(2, &[3, 3, 1]), Some(1));
}

#[test]
fn freq_picks_most_frequent() {
    assert_eq!(freq("aabbbc"), "b");
}

#[test]
fn freq_empty_is_empty() {
    assert_eq!(freq(""), "");
}

#[test]
fn freq_tie_breaks_toward_earliest() {
    assert_eq!(freq("abab"), "a");
    assert_eq!(freq("ba"), "b");
}

#[test]
fn zip_hash_equal_lengths() {
    let keys = vec!["a".to_string(), "b".to_string()];
    let vals = vec!["1".to_string(), "2".to_string()];
    let m = zip_hash(&keys, &vals).expect("equal lengths must zip");
    assert_eq!(m.get("a"), Some("1".to_string()));
    assert_eq!(m.get("b"), Some("2".to_string()));
    assert_eq!(m.get("c"), None);
}

#[test]
fn zip_hash_length_mismatch() {
    let keys = vec!["a".to_string()];
    let vals = vec!["1".to_string(), "2".to_string()];
    assert!(zip_hash(&keys, &vals).is_none());
}

#[test]
fn zip_hash_last_write_wins() {
    let keys = vec!["a".to_string(), "a".to_string()];
    let vals = vec!["1".to_string(), "2".to_string()];
    let m = zip_hash(&keys, &vals).expect("equal lengths must zip");
    assert_eq!(m.get("a"), Some("2".to_string()));
}

#[test]
fn hash_to_array_sorts_by_key() {
    let mut m = StringMap::new();
    m.insert("b".to_string(), "2".to_string());
    m.insert("a".to_string(), "1".to_string());
    let pairs = hash_to_array(&m);
    assert_eq!(
        pairs,
        vec![("a".to_string(), "1".to_string()), ("b".to_string(), "2".to_string())]
    );
}

#[test]
fn hash_to_array_empty() {
    let m = StringMap::new();
    assert_eq!(hash_to_array(&m), Vec::<(String, String)>::new());
}

#[test]
fn string_map_insert_replaces() {
    let mut m = StringMap::new();
    m.insert("k".to_string(), "old".to_string());
    m.insert("k".to_string(), "new".to_string());
    assert_eq!(m.get("k"), Some("new".to_string()));
    assert_eq!(hash_to_array(&m).len(), 1);
}
