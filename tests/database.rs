use phone_book::database::PhoneBookDB;
use phone_book::entry::PhoneEntry;

#[test]
fn read_in_file() {
    let phone_book = PhoneBookDB::new(None).unwrap();
    let data = phone_book.read_all_entries().unwrap();
    assert_eq!(data.is_empty(), true)
}

#[test]
fn single_writes() {
    let mut phone_book_db = PhoneBookDB::new(None).unwrap();
    phone_book_db
        .write_entry(
            "Arnold".to_owned(),
            PhoneEntry {
                mobile: "9027590".to_owned(),
                work: "3795780357".to_owned(),
            },
        )
        .unwrap();
    phone_book_db
        .write_entry(
            "Jack".to_owned(),
            PhoneEntry {
                mobile: "02875902".to_owned(),
                work: "98270987".to_owned(),
            },
        )
        .unwrap();

    phone_book_db
        .write_entry(
            "Mark".to_owned(),
            PhoneEntry {
                mobile: "375946".to_owned(),
                work: "738749".to_owned(),
            },
        )
        .unwrap();

    let read_phone_book_db = phone_book_db.read_all_entries_as_vec(None).unwrap();
    assert!(read_phone_book_db.contains(&(
        "Arnold".to_owned(),
        PhoneEntry {
            mobile: "9027590".to_owned(),
            work: "3795780357".to_owned(),
        },
    )));
    assert!(read_phone_book_db.contains(&(
        "Jack".to_owned(),
        PhoneEntry {
            mobile: "02875902".to_owned(),
            work: "98270987".to_owned(),
        },
    )));
}

#[test]
fn writes_then_reads() {
    let mut phone_book_db = PhoneBookDB::new(None).unwrap();

    assert_eq!(phone_book_db.read_all_entries_as_vec(None).unwrap(), vec![]);

    phone_book_db
        .write_entry(
            "arnold".to_owned(),
            PhoneEntry {
                mobile: "345345".to_owned(),
                work: "3535345".to_owned(),
            },
        )
        .unwrap();

    assert_eq!(
        phone_book_db.read_all_entries_as_vec(None).unwrap(),
        vec![(
            "arnold".to_owned(),
            PhoneEntry {
                mobile: "345345".to_owned(),
                work: "3535345".to_owned(),
            },
        )]
    );

    assert_eq!(
        phone_book_db
            .read_all_entries_as_vec(Some(String::from("arnold")))
            .unwrap(),
        vec![(
            "arnold".to_owned(),
            PhoneEntry {
                mobile: "345345".to_owned(),
                work: "3535345".to_owned(),
            },
        )]
    );

    phone_book_db
        .write_entry(
            "Jack".to_owned(),
            PhoneEntry {
                mobile: "9870982".to_owned(),
                work: "279573".to_owned(),
            },
        )
        .unwrap();

    assert_eq!(
        phone_book_db.read_all_entries_as_vec(None).unwrap(),
        vec![
            (
                "arnold".to_owned(),
                PhoneEntry {
                    mobile: "345345".to_owned(),
                    work: "3535345".to_owned(),
                },
            ),
            (
                "Jack".to_owned(),
                PhoneEntry {
                    mobile: "9870982".to_owned(),
                    work: "279573".to_owned(),
                },
            )
        ]
    );

    assert_eq!(
        phone_book_db
            .read_all_entries_as_vec(Some(String::from("arnold")))
            .unwrap(),
        vec![(
            "arnold".to_owned(),
            PhoneEntry {
                mobile: "345345".to_owned(),
                work: "3535345".to_owned(),
            },
        )]
    );

    assert_eq!(
        phone_book_db
            .read_all_entries_as_vec(Some(String::from("Jack")))
            .unwrap(),
        vec![(
            "Jack".to_owned(),
            PhoneEntry {
                mobile: "9870982".to_owned(),
                work: "279573".to_owned(),
            },
        )]
    )
}

#[test]
fn unique_names() {
    let mut phone_book_db = PhoneBookDB::new(None).unwrap();

    phone_book_db
        .write_entry(
            "Arnold".to_owned(),
            PhoneEntry {
                mobile: "397097345".to_owned(),
                work: "789346535".to_owned(),
            },
        )
        .unwrap();

    phone_book_db
        .write_entry(
            "Arnold".to_owned(),
            PhoneEntry {
                mobile: "983534354".to_owned(),
                work: "34759384793".to_owned(),
            },
        )
        .unwrap();

    assert_eq!(
        phone_book_db.read_all_entries_as_vec(None).unwrap(),
        vec![(
            "Arnold".to_owned(),
            PhoneEntry {
                mobile: "983534354".to_owned(),
                work: "34759384793".to_owned()
            }
        )]
    )
}

#[test]
fn modify_entries() {
    let mut phone_book_db = PhoneBookDB::new(None).unwrap();

    phone_book_db
        .write_entry(
            "Arnold".to_owned(),
            PhoneEntry {
                mobile: "83749876389".to_owned(),
                work: "3758937498".to_owned(),
            },
        )
        .unwrap();

    phone_book_db
        .write_entry(
            "Jack".to_owned(),
            PhoneEntry {
                mobile: "938759834".to_owned(),
                work: "73598739074".to_owned(),
            },
        )
        .unwrap();

    phone_book_db
        .modify_entry(
            "Arnold".to_owned(),
            PhoneEntry {
                mobile: "938759834".to_owned(),
                work: "73598739074".to_owned(),
            },
        )
        .unwrap();

    assert_eq!(
        phone_book_db
            .read_all_entries_as_vec(Some(String::from("Arnold")))
            .unwrap(),
        vec![(
            "Arnold".to_owned(),
            PhoneEntry {
                mobile: "938759834".to_owned(),
                work: "73598739074".to_owned(),
            },
        )]
    );
}
#[test]
fn modify_entries_not_exist() {
    let mut phone_book_db = PhoneBookDB::new(None).unwrap();
    phone_book_db
        .write_entry(
            "Jack".to_owned(),
            PhoneEntry {
                mobile: "938759834".to_owned(),
                work: "73598739074".to_owned(),
            },
        )
        .unwrap();

    phone_book_db
        .modify_entry(
            "Arnold".to_owned(),
            PhoneEntry {
                mobile: "938759834".to_owned(),
                work: "73598739074".to_owned(),
            },
        )
        .unwrap();

    assert_eq!(
        phone_book_db
            .read_all_entries_as_vec(Some(String::from("Arnold")))
            .unwrap(),
        vec![]
    );
}

#[test]
fn writes_then_removes() {
    let mut phone_book_db = PhoneBookDB::new(None).unwrap();

    assert_eq!(phone_book_db.read_all_entries_as_vec(None).unwrap(), vec![]);

    phone_book_db.remove_entry("Arnold").unwrap();
    assert_eq!(phone_book_db.read_all_entries_as_vec(None).unwrap(), vec![]);

    assert_eq!(
        phone_book_db
            .read_all_entries_as_vec(Some(String::from("Arnold")))
            .unwrap(),
        vec![]
    );
    phone_book_db
        .write_entry(
            "Arnold".to_owned(),
            PhoneEntry {
                mobile: "83750893475".to_owned(),
                work: "738765987364".to_owned(),
            },
        )
        .unwrap();

    phone_book_db
        .write_entry(
            "Jack".to_owned(),
            PhoneEntry {
                mobile: "3535345345".to_owned(),
                work: "3453534562".to_owned(),
            },
        )
        .unwrap();

    assert_eq!(
        phone_book_db.read_all_entries_as_vec(None).unwrap(),
        vec![
            (
                "Arnold".to_owned(),
                PhoneEntry {
                    mobile: "83750893475".to_owned(),
                    work: "738765987364".to_owned(),
                },
            ),
            (
                "Jack".to_owned(),
                PhoneEntry {
                    mobile: "3535345345".to_owned(),
                    work: "3453534562".to_owned(),
                },
            )
        ]
    );

    phone_book_db.remove_entry("Arnold").unwrap();

    assert_eq!(
        phone_book_db.read_all_entries_as_vec(None).unwrap(),
        vec![(
            "Jack".to_owned(),
            PhoneEntry {
                mobile: "3535345345".to_owned(),
                work: "3453534562".to_owned(),
            }
        )]
    );

    assert_eq!(
        phone_book_db
            .read_all_entries_as_vec(Some(String::from("Arnold")))
            .unwrap(),
        vec![]
    );

    phone_book_db.remove_entry("Jack").unwrap();

    assert_eq!(phone_book_db.read_all_entries_as_vec(None).unwrap(), vec![]);

    assert_eq!(
        phone_book_db
            .read_all_entries_as_vec(Some(String::from("Arnold")))
            .unwrap(),
        vec![]
    );
    assert_eq!(
        phone_book_db
            .read_all_entries_as_vec(Some(String::from("Jack")))
            .unwrap(),
        vec![]
    );
}

#[test]
fn writes_then_single_reads() {
    let mut phone_book_db = PhoneBookDB::new(None).unwrap();

    phone_book_db
        .write_entry(
            "Arnold".to_owned(),
            PhoneEntry {
                mobile: "903795".to_owned(),
                work: "89347509".to_owned(),
            },
        )
        .unwrap();

    phone_book_db
        .write_entry(
            "Jack".to_owned(),
            PhoneEntry {
                mobile: "37597343".to_owned(),
                work: "398745".to_owned(),
            },
        )
        .unwrap();

    assert_eq!(
        phone_book_db
            .read_entry("Arnold".to_owned())
            .unwrap()
            .unwrap(),
        PhoneEntry {
            mobile: "903795".to_owned(),
            work: "89347509".to_owned(),
        },
    );

    assert_eq!(
        phone_book_db
            .read_entry("Jack".to_owned())
            .unwrap()
            .unwrap(),
        PhoneEntry {
            mobile: "37597343".to_owned(),
            work: "398745".to_owned(),
        }
    );

    assert!(phone_book_db
        .read_entry("Mark".to_owned())
        .unwrap()
        .is_none());
}
