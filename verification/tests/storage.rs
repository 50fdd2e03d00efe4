use kv_crud_in_memory::{InMemoryStorage, InMemoryStorageError, Page, Record, Sort};

#[test]
fn should_save_entity_in_storage() {
    // given
    let mut storage = InMemoryStorage::new();
    let data = Record { id: 8, data: 42 };

    // when
    storage.save(&data).unwrap();

    // then
    assert_eq!(data, storage.find_by_id(&8).unwrap());
}

#[test]
fn should_find_by_id() {
    // given
    let data = Record { id: 42, data: 42 };
    let storage = InMemoryStorage::from_entities(&vec![data.clone()]);

    // when
    let result = storage.find_by_id(&42u64).unwrap();

    // then
    assert_eq!(data, result);
}

#[test]
fn should_return_not_found() {
    // given
    let storage: InMemoryStorage = InMemoryStorage::new();

    // when
    let result = storage.find_by_id(&123u64);

    // then
    match result {
        Err(InMemoryStorageError::EntityNotFound { entity_id: id }) => {
            assert_eq!(id, "123".to_owned())
        }
        _ => assert!(false),
    }
}

#[test]
fn should_find_and_paginate() {
    // given
    let data = vec![
        Record { id: 1, data: 42 },
        Record { id: 2, data: 42 },
        Record { id: 3, data: 42 },
    ];
    let storage = InMemoryStorage::from_entities(&data);

    // when
    let result = storage
        .find_all_with_page_and_sort(&Page::new(0, 1), &Sort::DESCENDING)
        .unwrap();

    // then
    assert_eq!(1, result.len());
    assert_eq!(3u64, result.first().unwrap().id);
}

#[test]
fn should_update_entity() {
    // given
    let mut storage: InMemoryStorage =
        InMemoryStorage::from_entities(&vec![Record { id: 1, data: 42 }]);

    let updated = Record { id: 1, data: 24 };

    // when
    storage.update(&updated).unwrap();

    // then
    assert_eq!(updated, storage.find_by_id(&1u64).unwrap());
}

#[test]
fn should_remove_entity_by_id() {
    // given
    let mut storage = InMemoryStorage::from_entity(&Record { id: 1, data: 42 });

    // when
    storage.remove_by_id(&1).unwrap();

    // then
    assert_eq!(0, storage.len());
}

#[test]
fn should_remove_entity() {
    let entity = Record { id: 1, data: 42 };
    let mut storage = InMemoryStorage::from_entity(&entity);

    // when
    storage.remove(&entity).unwrap();

    // then
    assert_eq!(0, storage.len());
}
