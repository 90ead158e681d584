use phone_book::book::PhoneBook;
use phone_book::database::{records_from_rows, PhoneBookDB};
use phone_book::entry::{PhoneEntry, StoreError};

fn entry(mobile: &str, work: &str) -> PhoneEntry {
    PhoneEntry::new(mobile.to_owned(), work.to_owned())
}

#[test]
fn db_two_writes_listed_by_name_and_persisted() {
    let path = "/tmp/phone_book_scenario_listed.sqlite".to_owned();
    {
        let mut db = PhoneBookDB::new(Some(path.clone())).unwrap();
        assert_eq!(db.file_path(), Some(path.as_str()));
        db.write_all_entries(&PhoneBook::new()).unwrap();
        assert!(db.read_all_entries().unwrap().is_empty());
        db.write_entry("Jack".to_owned(), entry("02875902", "98270987")).unwrap();
        db.write_entry("Arnold".to_owned(), entry("9027590", "3795780357")).unwrap();
    }
    let mut db = PhoneBookDB::new(Some(path.clone())).unwrap();
    let expected = vec![
        ("Arnold".to_owned(), entry("9027590", "3795780357")),
        ("Jack".to_owned(), entry("02875902", "98270987")),
    ];
    assert_eq!(db.read_all_entries().unwrap().entries(), expected);
    db.remove_entry("Arnold").unwrap();
    db.remove_entry("Jack").unwrap();
    assert!(db.read_all_entries().unwrap().is_empty());
}

#[test]
fn db_last_write_wins() {
    let mut db = PhoneBookDB::new(None).unwrap();
    assert_eq!(db.file_path(), None);
    db.write_entry("Arnold".to_owned(), entry("1", "2")).unwrap();
    db.write_entry("Arnold".to_owned(), entry("3", "4")).unwrap();
    let book = db.read_all_entries().unwrap();
    assert_eq!(book.entries(), vec![("Arnold".to_owned(), entry("3", "4"))]);
    assert_eq!(db.read_entry("Arnold".to_owned()).unwrap(), Some(entry("3", "4")));
}

#[test]
fn db_remove_absent_is_noop() {
    let mut db = PhoneBookDB::new(None).unwrap();
    db.remove_entry("Arnold").unwrap();
    assert!(db.read_all_entries().unwrap().is_empty());
}

#[test]
fn db_write_all_replaces_everything() {
    let mut db = PhoneBookDB::new(None).unwrap();
    db.write_entry("Old".to_owned(), entry("0", "0")).unwrap();
    let mut source = PhoneBookDB::new(None).unwrap();
    source.write_entry("Mark".to_owned(), entry("375946", "738749")).unwrap();
    source.write_entry("Arnold".to_owned(), entry("9027590", "3795780357")).unwrap();
    let book = source.read_all_entries().unwrap();
    db.write_all_entries(&book).unwrap();
    assert_eq!(db.read_all_entries().unwrap().entries(), book.entries());
    assert_eq!(db.read_entry("Old".to_owned()).unwrap(), None);
}

#[test]
fn db_unopenable_location() {
    let err = PhoneBookDB::new(Some("/no/such/directory/book.sqlite".to_owned()));
    assert_eq!(err.err(), Some(StoreError::StorageUnavailable));
}

#[test]
fn rows_become_records() {
    let rows = vec![
        ("Jack".to_owned(), "1".to_owned(), "2".to_owned()),
        ("Arnold".to_owned(), "3".to_owned(), "4".to_owned()),
    ];
    assert_eq!(
        records_from_rows(rows.clone(), &None),
        vec![
            ("Jack".to_owned(), entry("1", "2")),
            ("Arnold".to_owned(), entry("3", "4")),
        ]
    );
    assert_eq!(
        records_from_rows(rows, &Some("Arnold".to_owned())),
        vec![("Arnold".to_owned(), entry("3", "4"))]
    );
}
