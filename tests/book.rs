use phone_book::book::PhoneBook;
use phone_book::entry::PhoneEntry;

fn entry(mobile: &str, work: &str) -> PhoneEntry {
    PhoneEntry::new(mobile.to_owned(), work.to_owned())
}

#[test]
fn book_orders_by_name() {
    let mut book = PhoneBook::new();
    book.insert("arnold".to_owned(), entry("1", "2"));
    book.insert("Jack".to_owned(), entry("3", "4"));
    book.insert("Arnold".to_owned(), entry("5", "6"));
    book.insert("Ärne".to_owned(), entry("7", "8"));
    let names: Vec<String> = book.entries().into_iter().map(|(n, _)| n).collect();
    assert_eq!(names, vec!["Arnold", "Jack", "arnold", "Ärne"]);
    assert_eq!(book.len(), 4);
}

#[test]
fn book_insert_replaces_whole_entry() {
    let mut book = PhoneBook::new();
    book.insert("Arnold".to_owned(), entry("1", "2"));
    book.insert("Arnold".to_owned(), entry("", "9"));
    assert_eq!(book.get("Arnold"), Some(entry("", "9")));
    assert_eq!(book.len(), 1);
}

#[test]
fn book_remove() {
    let mut book = PhoneBook::new();
    assert_eq!(book.remove("Arnold"), None);
    book.insert("Arnold".to_owned(), entry("1", "2"));
    book.insert("Jack".to_owned(), entry("3", "4"));
    assert_eq!(book.remove("Arnold"), Some(entry("1", "2")));
    assert!(!book.contains_key("Arnold"));
    assert!(book.contains_key("Jack"));
    assert_eq!(book.remove("Jack"), Some(entry("3", "4")));
    assert!(book.is_empty());
}

#[test]
fn book_from_records_last_wins() {
    let records = vec![
        ("Jack".to_owned(), entry("1", "2")),
        ("Arnold".to_owned(), entry("3", "4")),
        ("Jack".to_owned(), entry("5", "6")),
    ];
    let book = PhoneBook::from_records(records);
    assert_eq!(
        book.entries(),
        vec![
            ("Arnold".to_owned(), entry("3", "4")),
            ("Jack".to_owned(), entry("5", "6")),
        ]
    );
}
