use kv_crud_in_memory::{InMemoryStorage, InMemoryStorageError, Page, Record, Sort};

fn seed(records: &[Record]) -> InMemoryStorage {
    InMemoryStorage::from_entities(&records.to_vec())
}

#[test]
fn round_trip_returns_saved_entity() {
    let mut storage = InMemoryStorage::new();
    let e = Record::new(5, 7);
    storage.save(&e).unwrap();
    assert_eq!(e, storage.find_by_id(&e.get_id()).unwrap());
}

#[test]
fn overwrite_leaves_one_entry_equal_to_second() {
    let mut storage = InMemoryStorage::new();
    let e1 = Record::new(1, 10);
    let e2 = Record::new(1, 20);
    storage.save(&e1).unwrap();
    storage.save(&e2).unwrap();
    assert_eq!(1, storage.len());
    assert_eq!(e2, storage.find_by_id(&1).unwrap());
}

#[test]
fn not_found_after_remove_reports_key_text() {
    let mut storage = InMemoryStorage::new();
    storage.save(&Record::new(77, 1)).unwrap();
    storage.remove_by_id(&77).unwrap();
    match storage.find_by_id(&77) {
        Err(InMemoryStorageError::EntityNotFound { entity_id }) => {
            assert_eq!(entity_id, "77".to_owned())
        }
        _ => assert!(false),
    }
}

#[test]
fn not_found_key_text_for_zero_and_largest_key() {
    let storage = InMemoryStorage::new();
    match storage.find_by_id(&0) {
        Err(InMemoryStorageError::EntityNotFound { entity_id }) => {
            assert_eq!(entity_id, "0".to_owned())
        }
        _ => assert!(false),
    }
    match storage.find_by_id(&u64::MAX) {
        Err(InMemoryStorageError::EntityNotFound { entity_id }) => {
            assert_eq!(entity_id, "18446744073709551615".to_owned())
        }
        _ => assert!(false),
    }
}

#[test]
fn error_message_names_the_missing_key() {
    let storage = InMemoryStorage::new();
    match storage.find_by_id(&123) {
        Err(e) => assert_eq!("Entity with id 123 was not found", e.message()),
        _ => assert!(false),
    }
}

#[test]
fn remove_is_idempotent() {
    let mut storage = InMemoryStorage::from_entity(&Record::new(9, 3));
    assert!(storage.remove_by_id(&9).is_ok());
    assert!(storage.remove_by_id(&9).is_ok());
    assert_eq!(0, storage.len());
    assert!(storage.find_by_id(&9).is_err());
}

#[test]
fn update_of_absent_key_creates_entry() {
    let mut storage = InMemoryStorage::new();
    let e = Record::new(4, 11);
    assert!(storage.update(&e).is_ok());
    assert_eq!(1, storage.len());
    assert_eq!(e, storage.find_by_id(&4).unwrap());
}

#[test]
fn pagination_returns_contiguous_ascending_slice() {
    let storage = seed(&[
        Record::new(3, 30),
        Record::new(1, 10),
        Record::new(5, 50),
        Record::new(2, 20),
        Record::new(4, 40),
    ]);
    let page = storage
        .find_all_with_page_and_sort(&Page::new(1, 2), &Sort::ASCENDING)
        .unwrap();
    assert_eq!(vec![Record::new(3, 30), Record::new(4, 40)], page);
}

#[test]
fn pagination_counts_truncate_at_the_end() {
    let storage = seed(&[Record::new(1, 1), Record::new(2, 2), Record::new(3, 3)]);
    // A window past the end is empty, without an error.
    let past = storage
        .find_all_with_page_and_sort(&Page::new(5, 2), &Sort::ASCENDING)
        .unwrap();
    assert_eq!(0, past.len());
    // A window overrunning the end is cut short.
    let cut = storage
        .find_all_with_page_and_sort(&Page::new(1, 2), &Sort::ASCENDING)
        .unwrap();
    assert_eq!(vec![Record::new(3, 3)], cut);
    // A size of zero yields nothing.
    let none = storage
        .find_all_with_page_and_sort(&Page::new(0, 0), &Sort::ASCENDING)
        .unwrap();
    assert_eq!(0, none.len());
}

#[test]
fn pagination_descending_reverses_the_order() {
    let storage = seed(&[Record::new(2, 20), Record::new(1, 10), Record::new(3, 30)]);
    let all = storage
        .find_all_with_page_and_sort(&Page::new(0, 10), &Sort::DESCENDING)
        .unwrap();
    assert_eq!(
        vec![Record::new(3, 30), Record::new(2, 20), Record::new(1, 10)],
        all
    );
}

#[test]
fn find_all_with_page_lists_ascending() {
    let storage = seed(&[Record::new(2, 20), Record::new(1, 10)]);
    let all = storage.find_all_with_page(&Page::new(0, 10)).unwrap();
    assert_eq!(vec![Record::new(1, 10), Record::new(2, 20)], all);
}

#[test]
fn listing_an_empty_storage_yields_nothing() {
    let storage = InMemoryStorage::new();
    let all = storage.find_all_with_page(&Page::new(0, 10)).unwrap();
    assert_eq!(0, all.len());
}

#[test]
fn seeding_with_duplicate_keys_keeps_the_later_entity() {
    let storage = seed(&[Record::new(1, 10), Record::new(1, 20)]);
    assert_eq!(1, storage.len());
    assert_eq!(Record::new(1, 20), storage.find_by_id(&1).unwrap());
}

#[test]
fn page_offset_is_number_times_size() {
    let page = Page::new(3, 4);
    assert_eq!(12, page.offset());
    assert_eq!(3, page.number);
    assert_eq!(4, page.size);
}

#[test]
fn mutating_a_callers_copy_leaves_the_store_unchanged() {
    let mut storage = InMemoryStorage::new();
    storage.save(&Record::new(1, 5)).unwrap();
    let mut copy = storage.find_by_id(&1).unwrap();
    copy.data = 99;
    assert_eq!(Record::new(1, 5), storage.find_by_id(&1).unwrap());
}
