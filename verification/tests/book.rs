use address_store::book::{manager_header_known, tree_header_known, Storage, MAX_MEMORY_IDS};
use address_store::codec::{Address, AddressInput, Principal, StoreError};

fn who(byte: u8) -> Principal {
    Principal::from_slice(&[byte, 1, 2, 3]).unwrap()
}

fn input(street: &str, zip: u64) -> AddressInput {
    AddressInput {
        street: street.to_string(),
        city: "Springfield".to_string(),
        state: "IL".to_string(),
        zip,
    }
}

fn record(street: &str, zip: u64, by: u8) -> Address {
    Address {
        street: street.to_string(),
        city: "Springfield".to_string(),
        state: "IL".to_string(),
        zip,
        created_by: who(by),
    }
}

#[test]
fn insert_then_get() {
    let mut storage = Storage::init().unwrap();
    let mut book = storage.open(0).unwrap();
    assert_eq!(book.insert("k".to_string(), record("1 Main St", 1, 5)), Ok(None));
    assert_eq!(book.get_address("k".to_string()), Ok(Some(record("1 Main St", 1, 5))));
    assert_eq!(book.get_address("other".to_string()), Ok(None));
    assert_eq!(book.len(), 1);
}

#[test]
fn remove_then_get() {
    let mut storage = Storage::init().unwrap();
    let mut book = storage.open(0).unwrap();
    book.insert("k".to_string(), record("1 Main St", 1, 5)).unwrap();
    book.insert("l".to_string(), record("2 Main St", 2, 5)).unwrap();
    assert_eq!(book.remove("k".to_string()), Ok(Some(record("1 Main St", 1, 5))));
    assert_eq!(book.get_address("k".to_string()), Ok(None));
    assert_eq!(book.get_address("l".to_string()), Ok(Some(record("2 Main St", 2, 5))));
    assert_eq!(book.remove("k".to_string()), Ok(None));
    assert_eq!(book.len(), 1);
}

#[test]
fn insert_overwrite() {
    let mut storage = Storage::init().unwrap();
    let mut book = storage.open(0).unwrap();
    assert_eq!(book.insert("k".to_string(), record("first", 1, 5)), Ok(None));
    assert_eq!(
        book.insert("k".to_string(), record("second", 2, 6)),
        Ok(Some(record("first", 1, 5)))
    );
    assert_eq!(book.get_address("k".to_string()), Ok(Some(record("second", 2, 6))));
    assert_eq!(book.len(), 1);
}

#[test]
fn names_come_in_ascending_order() {
    let mut storage = Storage::init().unwrap();
    let mut book = storage.open(0).unwrap();
    assert_eq!(book.names(), Vec::<String>::new());
    for name in ["b", "a", "c"] {
        book.set_address(name.to_string(), input("1 Main St", 1), who(1)).unwrap();
    }
    assert_eq!(book.names(), vec!["a".to_string(), "b".to_string(), "c".to_string()]);
    assert_eq!(book.names(), vec!["a".to_string(), "b".to_string(), "c".to_string()]);
}

#[test]
fn names_are_ordered_by_their_bytes() {
    let mut storage = Storage::init().unwrap();
    let mut book = storage.open(0).unwrap();
    for name in ["ab", "é", "a", "B", "", "z"] {
        book.set_address(name.to_string(), input("1 Main St", 1), who(1)).unwrap();
    }
    let expected: Vec<String> = ["", "B", "a", "ab", "z", "é"].iter().map(|s| s.to_string()).collect();
    assert_eq!(book.names(), expected);
}

#[test]
fn books_over_two_virtual_memories_are_apart() {
    let mut storage = Storage::init().unwrap();
    let mut first = storage.open(0).unwrap();
    let mut second = storage.open(1).unwrap();
    second.set_address("kept".to_string(), input("9 Elm St", 9), who(2)).unwrap();
    for i in 0..200u64 {
        first.set_address(format!("name{i}"), input("1 Main St", i), who(1)).unwrap();
    }
    assert_eq!(second.names(), vec!["kept".to_string()]);
    assert_eq!(second.get_address("kept".to_string()), Ok(Some(record("9 Elm St", 9, 2))));
    assert_eq!(second.get_address("name0".to_string()), Ok(None));
    assert_eq!(first.get_address("kept".to_string()), Ok(None));
    assert_eq!(first.len(), 200);
}

#[test]
fn set_address_then_get_address() {
    let mut storage = Storage::init().unwrap();
    let mut book = storage.open(0).unwrap();
    let caller = Principal::from_slice(&[0xAB, 0xCD, 0x01]).unwrap();
    let given = AddressInput {
        street: "1 Main St".to_string(),
        city: "Springfield".to_string(),
        state: "IL".to_string(),
        zip: 62704,
    };
    assert_eq!(book.set_address("home".to_string(), given, caller.duplicate()), Ok(()));
    let got = book.get_address("home".to_string()).unwrap().unwrap();
    assert_eq!(got.street, "1 Main St");
    assert_eq!(got.city, "Springfield");
    assert_eq!(got.state, "IL");
    assert_eq!(got.zip, 62704);
    assert_eq!(got.created_by, caller);
    assert_eq!(book.get_address("missing".to_string()), Ok(None));
}

#[test]
fn set_address_stamps_the_last_writer() {
    let mut storage = Storage::init().unwrap();
    let mut book = storage.open(0).unwrap();
    book.set_address("home".to_string(), input("1 Main St", 1), who(1)).unwrap();
    book.set_address("home".to_string(), input("2 Main St", 2), who(2)).unwrap();
    assert_eq!(book.get_address("home".to_string()), Ok(Some(record("2 Main St", 2, 2))));
}

#[test]
fn an_id_outside_the_range_is_refused() {
    assert_eq!(MAX_MEMORY_IDS, 255);
    let mut storage = Storage::init().unwrap();
    assert_eq!(storage.open(255).err(), Some(StoreError::InvalidMemoryId));
    assert!(!storage.has_open(255));
    assert!(storage.open(254).is_ok());
    assert!(storage.has_open(254));
    let mut small = Storage::init_with_limit(2).unwrap();
    assert_eq!(small.open(2).err(), Some(StoreError::InvalidMemoryId));
    assert!(small.open(1).is_ok());
    assert!(small.open(0).is_ok());
    assert!(small.has_open(0) && small.has_open(1) && !small.has_open(2));
    let mut none = Storage::init_with_limit(0).unwrap();
    assert_eq!(none.open(0).err(), Some(StoreError::InvalidMemoryId));
}

#[test]
fn entries_come_in_ascending_order_with_their_records() {
    let mut storage = Storage::init().unwrap();
    let mut book = storage.open(0).unwrap();
    assert_eq!(book.entries(), Ok(vec![]));
    book.set_address("b".to_string(), input("2 Main St", 2), who(2)).unwrap();
    book.set_address("a".to_string(), input("1 Main St", 1), who(1)).unwrap();
    book.set_address("c".to_string(), input("3 Main St", 3), who(3)).unwrap();
    let expected = vec![
        ("a".to_string(), record("1 Main St", 1, 1)),
        ("b".to_string(), record("2 Main St", 2, 2)),
        ("c".to_string(), record("3 Main St", 3, 3)),
    ];
    assert_eq!(book.entries(), Ok(expected));
}

#[test]
fn reopening_gives_the_same_entries() {
    let mut storage = Storage::init().unwrap();
    {
        let mut book = storage.open(0).unwrap();
        assert!(book.was_blank());
        for i in 0..50u64 {
            book.set_address(format!("name{i}"), input("1 Main St", i), who(3)).unwrap();
        }
        book.remove("name7".to_string()).unwrap();
        let mut other = storage.open(4).unwrap();
        other.set_address("kept".to_string(), input("9 Elm St", 9), who(2)).unwrap();
    }
    let backing = storage.into_backing().unwrap();
    let mut storage = Storage::init_over(backing, MAX_MEMORY_IDS).unwrap();
    let book = storage.open(0).unwrap();
    assert!(!book.was_blank());
    assert_eq!(book.len(), 49);
    for i in 0..50u64 {
        let expected = if i == 7 { None } else { Some(record("1 Main St", i, 3)) };
        assert_eq!(book.get_address(format!("name{i}")), Ok(expected));
    }
    let names = book.names();
    let entries = book.entries();
    drop(book);
    let backing = storage.into_backing().unwrap();
    let mut storage = Storage::init_over(backing, MAX_MEMORY_IDS).unwrap();
    let again = storage.open(0).unwrap();
    assert_eq!(again.names(), names);
    assert_eq!(again.entries(), entries);
    let other = storage.open(4).unwrap();
    assert_eq!(other.entries(), Ok(vec![("kept".to_string(), record("9 Elm St", 9, 2))]));
    assert!(storage.open(5).unwrap().was_blank());
}

#[test]
fn the_backing_stays_with_the_manager_while_a_book_is_alive() {
    let mut storage = Storage::init().unwrap();
    let book = storage.open(0).unwrap();
    assert!(storage.into_backing().is_none());
    assert_eq!(book.len(), 0);
}

#[test]
fn a_book_over_a_blank_memory_is_empty() {
    let mut storage = Storage::init().unwrap();
    let book = storage.open(9).unwrap();
    assert!(book.was_blank());
    assert_eq!(book.len(), 0);
    assert_eq!(book.names(), Vec::<String>::new());
    assert_eq!(book.get_address("home".to_string()), Ok(None));
}

#[test]
fn a_manager_header_is_known_by_its_mark_and_version() {
    assert!(manager_header_known(&[0, 0, 0, 0]));
    assert!(manager_header_known(b"MGR\x01"));
    assert!(!manager_header_known(b"MGR\x02"));
    assert!(!manager_header_known(b"MGR\x00"));
    assert!(manager_header_known(b"MGX\x07"));
    assert!(!manager_header_known(b"MGR"));
    assert!(!manager_header_known(&[0; 5]));
}

#[test]
fn a_map_header_is_known_by_its_marks_and_versions() {
    let mut head = [0u8; 56];
    assert!(tree_header_known(&head));
    head[..3].copy_from_slice(b"BTR");
    head[3] = 2;
    assert!(!tree_header_known(&head));
    head[52..55].copy_from_slice(b"BTA");
    head[55] = 1;
    assert!(tree_header_known(&head));
    head[3] = 1;
    assert!(tree_header_known(&head));
    head[3] = 3;
    assert!(!tree_header_known(&head));
    head[3] = 2;
    head[55] = 2;
    assert!(!tree_header_known(&head));
    assert!(!tree_header_known(&head[..55]));
}
