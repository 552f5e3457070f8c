use aether::store::{
    check_snapshot_version, delete_save, frame_book, list_saves, load_simulation, rename_save,
    save_simulation, unframe_book, Db, SaveRecord, StoreError,
};

fn err_text(e: StoreError) -> String {
    e.message()
}

#[test]
fn save_load_list_delete_round_trip() {
    let mut db = Db::empty();
    let payload = vec![1u8, 2, 3, 4];
    let id = save_simulation(&mut db, "test-run", payload.clone(), 1.5f32.to_bits(), 8, 3).unwrap();
    let loaded = load_simulation(&db, id).unwrap();
    assert_eq!(loaded, payload);

    let list = list_saves(&db).unwrap();
    assert_eq!(list.len(), 1);
    assert_eq!(list[0].name, "test-run");
    assert_eq!(list[0].population, 8);
    assert_eq!(list[0].max_generation, 3);
    assert_eq!(f32::from_bits(list[0].sim_time_bits), 1.5);

    // Overwrite same name.
    let again = save_simulation(&mut db, "test-run", vec![9u8], 0, 1, 1).unwrap();
    assert_eq!(again, id);
    assert_eq!(list_saves(&db).unwrap().len(), 1);
    assert_eq!(load_simulation(&db, id).unwrap(), vec![9u8]);

    delete_save(&mut db, id).unwrap();
    assert!(list_saves(&db).unwrap().is_empty());
    let gone = load_simulation(&db, id).unwrap_err();
    assert!(matches!(gone, StoreError::Db(_)));
    assert_eq!(err_text(gone), "uložení nenalezeno");
}

#[test]
fn names_are_trimmed_and_must_not_be_empty() {
    let mut db = Db::empty();
    let e = save_simulation(&mut db, "   \t ", vec![], 0, 0, 0).unwrap_err();
    assert!(matches!(e, StoreError::Io(_)));
    assert_eq!(err_text(e), "název nesmí být prázdný");
    let id = save_simulation(&mut db, "  miska  ", vec![7], 0, 0, 0).unwrap();
    let again = save_simulation(&mut db, "miska", vec![8], 0, 0, 0).unwrap();
    assert_eq!(id, again);
    assert_eq!(list_saves(&db).unwrap()[0].name, "miska");
}

#[test]
fn new_saves_get_fresh_ids_and_list_newest_first() {
    let mut db = Db::empty();
    let a = save_simulation(&mut db, "a", vec![1], 0, 0, 0).unwrap();
    let b = save_simulation(&mut db, "b", vec![2], 0, 0, 0).unwrap();
    let c = save_simulation(&mut db, "c", vec![3], 0, 0, 0).unwrap();
    assert_eq!((a, b, c), (1, 2, 3));
    let list = list_saves(&db).unwrap();
    let ids: Vec<i64> = list.iter().map(|m| m.id).collect();
    // All stamps fall into the same second or later ones: newer (or higher id) first.
    for w in list.windows(2) {
        assert!(w[0].updated_at > w[1].updated_at || (w[0].updated_at == w[1].updated_at && w[0].id > w[1].id));
    }
    assert_eq!(ids.len(), 3);
    assert_eq!(db.records()[0].name, "c");
}

#[test]
fn rename_rules() {
    let mut db = Db::empty();
    let a = save_simulation(&mut db, "a", vec![1], 0, 0, 0).unwrap();
    let b = save_simulation(&mut db, "b", vec![2], 0, 0, 0).unwrap();
    let e = rename_save(&mut db, a, "b").unwrap_err();
    assert!(matches!(e, StoreError::Db(_)));
    assert_eq!(err_text(e), "název už existuje");
    let e = rename_save(&mut db, a, "  ").unwrap_err();
    assert!(matches!(e, StoreError::Io(_)));
    let e = rename_save(&mut db, 99, "z").unwrap_err();
    assert_eq!(err_text(e), "uložení nenalezeno");
    rename_save(&mut db, a, " nová ").unwrap();
    assert_eq!(load_simulation(&db, a).unwrap(), vec![1]);
    rename_save(&mut db, b, "b").unwrap();
    let names: Vec<String> = list_saves(&db).unwrap().into_iter().map(|m| m.name).collect();
    assert!(names.contains(&"nová".to_string()));
    assert!(names.contains(&"b".to_string()));
}

#[test]
fn delete_of_unknown_id_fails() {
    let mut db = Db::empty();
    let e = delete_save(&mut db, 5).unwrap_err();
    assert!(matches!(e, StoreError::Db(_)));
    assert_eq!(err_text(e), "uložení nenalezeno");
}

#[test]
fn snapshot_version_check() {
    assert!(check_snapshot_version(2).is_ok());
    let e = check_snapshot_version(1).unwrap_err();
    assert!(matches!(e, StoreError::Codec(_)));
    assert_eq!(err_text(e), "nepodporovaná verze snapshotu 1");
    let e = check_snapshot_version(4000000000).unwrap_err();
    assert_eq!(err_text(e), "nepodporovaná verze snapshotu 4000000000");
}

#[test]
fn book_framing_round_trip() {
    let body = vec![0u8, 255, 10, 20];
    let framed = frame_book(&body);
    assert_eq!(&framed[..8], b"AETHSAV1");
    assert_eq!(unframe_book(&framed), Some(body));
    assert_eq!(unframe_book(b"AETHSAV"), None);
    assert_eq!(unframe_book(b"AETHSAV2xx"), None);
    assert_eq!(unframe_book(b"AETHSAV1"), Some(vec![]));
}

fn record(id: i64, name: &str) -> SaveRecord {
    SaveRecord {
        id,
        name: name.to_string(),
        created_at: "2024-01-01 00:00:00".to_string(),
        updated_at: "2024-01-01 00:00:00".to_string(),
        sim_time_bits: 0,
        population: 1,
        max_generation: 0,
        payload: vec![id as u8],
    }
}

#[test]
fn book_from_records_continues_ids() {
    let mut db = Db::from_records(vec![record(4, "x"), record(9, "y")]).unwrap();
    let id = save_simulation(&mut db, "z", vec![], 0, 0, 0).unwrap();
    assert_eq!(id, 10);
    assert!(Db::from_records(vec![record(4, "x"), record(4, "y")]).is_none());
    assert!(Db::from_records(vec![record(1, "x"), record(2, "x")]).is_none());
    assert!(Db::from_records(vec![record(i64::MAX, "x")]).is_none());
    let mut empty = Db::from_records(vec![]).unwrap();
    assert_eq!(save_simulation(&mut empty, "a", vec![], 0, 0, 0).unwrap(), 1);
    let list = list_saves(&Db::from_records(vec![record(4, "x"), record(9, "y")]).unwrap()).unwrap();
    assert_eq!(list[0].id, 9);
    assert_eq!(list[1].id, 4);
}
