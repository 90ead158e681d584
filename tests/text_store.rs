use phone_book::entry::{PhoneEntry, StoreError};
use phone_book::text_format::{parse_records, render_records};
use phone_book::text_store::TextStore;

fn entry(mobile: &str, work: &str) -> PhoneEntry {
    PhoneEntry::new(mobile.to_owned(), work.to_owned())
}

#[test]
fn text_fresh_store_reads_empty() {
    let store = TextStore::empty();
    assert!(store.read_all().unwrap().is_empty());
    assert_eq!(store.read_one("Arnold").unwrap(), None);
}

#[test]
fn text_two_writes_listed_by_name() {
    let mut store = TextStore::empty();
    store.write_one("Jack".to_owned(), entry("02875902", "98270987")).unwrap();
    store.write_one("Arnold".to_owned(), entry("9027590", "3795780357")).unwrap();
    let book = store.read_all().unwrap();
    assert_eq!(
        book.entries(),
        vec![
            ("Arnold".to_owned(), entry("9027590", "3795780357")),
            ("Jack".to_owned(), entry("02875902", "98270987")),
        ]
    );
    assert_eq!(store.text(), "Arnold: 9027590: 3795780357\nJack: 02875902: 98270987\n");
}

#[test]
fn text_write_then_read_one() {
    let mut store = TextStore::empty();
    store.write_one("Mark".to_owned(), entry("375946", "738749")).unwrap();
    assert_eq!(store.read_one("Mark").unwrap(), Some(entry("375946", "738749")));
    assert_eq!(store.read_one("mark").unwrap(), None);
}

#[test]
fn text_write_twice_same_is_once() {
    let mut once = TextStore::empty();
    once.write_one("Arnold".to_owned(), entry("1", "2")).unwrap();
    let mut twice = TextStore::empty();
    twice.write_one("Arnold".to_owned(), entry("1", "2")).unwrap();
    twice.write_one("Arnold".to_owned(), entry("1", "2")).unwrap();
    assert_eq!(once.text(), twice.text());
}

#[test]
fn text_last_write_wins() {
    let mut store = TextStore::empty();
    store.write_one("Arnold".to_owned(), entry("397097345", "789346535")).unwrap();
    store.write_one("Arnold".to_owned(), entry("983534354", "34759384793")).unwrap();
    let book = store.read_all().unwrap();
    assert_eq!(
        book.entries(),
        vec![("Arnold".to_owned(), entry("983534354", "34759384793"))]
    );
    assert_eq!(store.text(), "Arnold: 983534354: 34759384793\n");
}

#[test]
fn text_remove_absent_is_noop() {
    let mut store = TextStore::empty();
    store.remove_one("Arnold").unwrap();
    assert!(store.read_all().unwrap().is_empty());
    let mut kept = TextStore::from_text("Jack: 1: 2".to_owned());
    kept.remove_one("Arnold").unwrap();
    assert_eq!(kept.text(), "Jack: 1: 2");
}

#[test]
fn text_remove_present() {
    let mut store = TextStore::empty();
    store.write_one("Arnold".to_owned(), entry("83750893475", "738765987364")).unwrap();
    store.write_one("Jack".to_owned(), entry("3535345345", "3453534562")).unwrap();
    store.remove_one("Arnold").unwrap();
    assert_eq!(store.read_one("Arnold").unwrap(), None);
    let book = store.read_all().unwrap();
    assert!(!book.contains_key("Arnold"));
    assert_eq!(book.len(), 1);
    assert_eq!(store.text(), "Jack: 3535345345: 3453534562\n");
}

#[test]
fn text_malformed_line_fails() {
    let store = TextStore::from_text("Arnold: 9027590\n".to_owned());
    assert_eq!(store.read_all().unwrap_err(), StoreError::MalformedRecord);
    assert_eq!(store.read_one("Arnold").unwrap_err(), StoreError::MalformedRecord);
    let lone = TextStore::from_text("Arnold".to_owned());
    assert_eq!(lone.read_all().unwrap_err(), StoreError::MalformedRecord);
    let extra = TextStore::from_text("a: b: c: d".to_owned());
    assert_eq!(extra.read_all().unwrap_err(), StoreError::MalformedRecord);
}

#[test]
fn text_write_on_malformed_fails_and_keeps_text() {
    let mut store = TextStore::from_text("Arnold: 9027590\n".to_owned());
    assert_eq!(
        store.write_one("Jack".to_owned(), entry("1", "2")).unwrap_err(),
        StoreError::MalformedRecord
    );
    assert_eq!(store.remove_one("Jack").unwrap_err(), StoreError::MalformedRecord);
    assert_eq!(store.text(), "Arnold: 9027590\n");
}

#[test]
fn text_write_all_round_trip() {
    let mut source = TextStore::empty();
    source.write_one("Mark".to_owned(), entry("", "738749")).unwrap();
    source.write_one("Arnold".to_owned(), entry("9027590", "")).unwrap();
    source.write_one("Émile".to_owned(), entry("+33 1", "x:y")).unwrap();
    let book = source.read_all().unwrap();
    let mut store = TextStore::from_text("Old: 1: 2\n".to_owned());
    store.write_all(&book);
    assert_eq!(store.read_all().unwrap().entries(), book.entries());
    assert_eq!(book.len(), 3);
}

#[test]
fn text_blank_lines_and_no_final_newline() {
    let store = TextStore::from_text("\nJack: 1: 2\n\nArnold: 3: 4".to_owned());
    assert_eq!(
        store.read_all().unwrap().entries(),
        vec![
            ("Arnold".to_owned(), entry("3", "4")),
            ("Jack".to_owned(), entry("1", "2")),
        ]
    );
}

#[test]
fn text_later_line_of_a_name_wins() {
    let store = TextStore::from_text("Jack: 1: 2\nJack: 3: 4\n".to_owned());
    assert_eq!(store.read_one("Jack").unwrap(), Some(entry("3", "4")));
    assert_eq!(store.read_all().unwrap().len(), 1);
}

#[test]
fn text_fields_keep_colons_and_spaces() {
    let records = parse_records("a:: b : c:\n").unwrap();
    assert_eq!(records, vec![("a:".to_owned(), entry("b ", "c:"))]);
    assert_eq!(render_records(&records), "a:: b : c:\n");
}

#[test]
fn text_delimiter_in_field_does_not_round_trip() {
    let mut store = TextStore::empty();
    store.write_one("a: b".to_owned(), entry("1", "2")).unwrap();
    assert_eq!(store.text(), "a: b: 1: 2\n");
    assert_eq!(store.read_all().unwrap_err(), StoreError::MalformedRecord);
}
