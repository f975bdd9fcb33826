use reindeer::entity::get;
use reindeer::entity::get_all;
use reindeer::entity::get_count;
use reindeer::entity::get_each;
use reindeer::entity::get_from_end;
use reindeer::entity::get_from_start;
use reindeer::entity::get_in_range;
use reindeer::entity::exists_key;
use reindeer::entity::import_records;
use reindeer::entity::register;
use reindeer::entity::remove;
use reindeer::entity::save;
use reindeer::entity::save_child;
use reindeer::entity::save_next;
use reindeer::entity::update;
use reindeer::entity::Entity;
use reindeer::kv::Store;
use reindeer::relation::Relation;
use reindeer::test_entities::ChildEntity1;
use reindeer::test_entities::Entity1;
use reindeer::test_entities::Entity2;
use reindeer::test_entities::Entity3;
use reindeer::test_entities::Entity4;
use reindeer::DeletionBehaviour;
use reindeer::ErrorKind;

fn fresh() -> Store {
    let mut store = Store::temporary().unwrap();
    register::<Entity1>(&mut store).unwrap();
    register::<Entity2>(&mut store).unwrap();
    register::<Entity3>(&mut store).unwrap();
    register::<Entity4>(&mut store).unwrap();
    register::<ChildEntity1>(&mut store).unwrap();
    store
}

#[test]
fn save_then_get_returns_same_record() {
    let mut store = fresh();
    let r = Entity1 {
        id: 42,
        prop1: String::from("stored and read back"),
    };
    save(&r, &mut store).unwrap();
    let back = get::<Entity1>(&42, &store).unwrap().unwrap();
    assert_eq!(back.id, 42);
    assert_eq!(back.prop1, "stored and read back");
}

#[test]
fn save_next_counts_from_zero() {
    let mut store = fresh();
    let mut r = Entity4 { id: 99 };
    assert_eq!(save_next(&mut r, &mut store).unwrap(), 0);
    assert_eq!(r.id, 0);
    assert_eq!(save_next(&mut r, &mut store).unwrap(), 1);
    assert_eq!(save_next(&mut r, &mut store).unwrap(), 2);
    assert_eq!(get_count::<Entity4>(&store).unwrap(), 3);
}

#[test]
fn save_child_issues_consecutive_tails() {
    let mut store = fresh();
    let parent = Entity2 {
        id: String::from("p"),
        prop2: 1,
    };
    save(&parent, &mut store).unwrap();
    let mut c = ChildEntity1 {
        id: (String::from("x"), 7),
    };
    assert_eq!(save_child(&parent, &mut c, &mut store).unwrap(), 0);
    assert_eq!(c.id, (String::from("p"), 0));
    assert_eq!(save_child(&parent, &mut c, &mut store).unwrap(), 1);
    assert_eq!(c.id, (String::from("p"), 1));
    let children = reindeer::entity::get_children::<Entity2, ChildEntity1>(&parent, &store).unwrap();
    assert_eq!(children.len(), 2);
    assert_eq!(children[0].id.1, 0);
    assert_eq!(children[1].id.1, 1);
}

#[test]
fn relation_round_trip_restores_empty() {
    let mut store = fresh();
    let a = Entity1 {
        id: 1,
        prop1: String::from("a"),
    };
    let b = Entity2 {
        id: String::from("b"),
        prop2: 2,
    };
    save(&a, &mut store).unwrap();
    save(&b, &mut store).unwrap();
    Relation::create(
        &a,
        &b,
        DeletionBehaviour::BreakLink,
        DeletionBehaviour::BreakLink,
        Some("pair"),
        &mut store,
    )
    .unwrap();
    let fwd = Relation::get::<Entity1, Entity2>(&a, &store).unwrap();
    assert_eq!(fwd.len(), 1);
    assert_eq!(*fwd[0].get_key(), String::from("b"));
    let bwd = Relation::get::<Entity2, Entity1>(&b, &store).unwrap();
    assert_eq!(bwd.len(), 1);
    assert_eq!(*bwd[0].get_key(), 1);
    Relation::remove(&a, &b, &mut store).unwrap();
    assert_eq!(Relation::get::<Entity1, Entity2>(&a, &store).unwrap().len(), 0);
    assert_eq!(Relation::get::<Entity2, Entity1>(&b, &store).unwrap().len(), 0);
}

#[test]
fn cascade_cycle_removes_exactly_the_cycle() {
    let mut store = fresh();
    let a = Entity4 { id: 1 };
    let b = Entity4 { id: 2 };
    let c = Entity4 { id: 3 };
    let outside = Entity4 { id: 4 };
    save(&a, &mut store).unwrap();
    save(&b, &mut store).unwrap();
    save(&c, &mut store).unwrap();
    save(&outside, &mut store).unwrap();
    Relation::create(&a, &b, DeletionBehaviour::Cascade, DeletionBehaviour::Cascade, None, &mut store).unwrap();
    Relation::create(&b, &c, DeletionBehaviour::Cascade, DeletionBehaviour::Cascade, None, &mut store).unwrap();
    Relation::create(&c, &a, DeletionBehaviour::Cascade, DeletionBehaviour::Cascade, None, &mut store).unwrap();
    remove::<Entity4>(&1, &mut store).unwrap();
    assert!(get::<Entity4>(&1, &store).unwrap().is_none());
    assert!(get::<Entity4>(&2, &store).unwrap().is_none());
    assert!(get::<Entity4>(&3, &store).unwrap().is_none());
    assert!(get::<Entity4>(&4, &store).unwrap().is_some());
}

#[test]
fn constrained_removal_fails_and_changes_nothing() {
    let mut store = fresh();
    let a = Entity4 { id: 1 };
    let b = Entity4 { id: 2 };
    save(&a, &mut store).unwrap();
    save(&b, &mut store).unwrap();
    Relation::create(&a, &b, DeletionBehaviour::Cascade, DeletionBehaviour::Error, None, &mut store).unwrap();
    // b's edge towards a carries Error: removing b is refused and names a's keyspace
    let err = remove::<Entity4>(&2, &mut store).unwrap_err();
    assert!(matches!(err.kind(), ErrorKind::IntegrityError));
    assert_eq!(
        *err.message(),
        String::from("Constrained related entity exists in entity_4")
    );
    assert!(get::<Entity4>(&1, &store).unwrap().is_some());
    assert!(get::<Entity4>(&2, &store).unwrap().is_some());
    assert_eq!(Relation::get::<Entity4, Entity4>(&a, &store).unwrap().len(), 1);
}

#[test]
fn removal_leaves_no_reference_behind() {
    let mut store = fresh();
    let a = Entity4 { id: 1 };
    let b = Entity4 { id: 2 };
    save(&a, &mut store).unwrap();
    save(&b, &mut store).unwrap();
    Relation::create(&a, &b, DeletionBehaviour::BreakLink, DeletionBehaviour::BreakLink, None, &mut store).unwrap();
    remove::<Entity4>(&1, &mut store).unwrap();
    assert!(get::<Entity4>(&1, &store).unwrap().is_none());
    assert!(get::<Entity4>(&2, &store).unwrap().is_some());
    assert_eq!(Relation::get::<Entity4, Entity4>(&b, &store).unwrap().len(), 0);
}

#[test]
fn unregistered_removal_fails() {
    let mut store = Store::temporary().unwrap();
    let a = Entity4 { id: 1 };
    save(&a, &mut store).unwrap();
    let err = remove::<Entity4>(&1, &mut store).unwrap_err();
    assert!(matches!(err.kind(), ErrorKind::UnregisteredEntity));
    assert!(get::<Entity4>(&1, &store).unwrap().is_some());
}

#[test]
fn import_export_round_trip() {
    let mut store = fresh();
    for i in 0..5u32 {
        let r = Entity1 {
            id: i,
            prop1: format!("record {}", i),
        };
        save(&r, &mut store).unwrap();
    }
    let exported = get_all::<Entity1>(&store).unwrap();
    assert_eq!(exported.len(), 5);
    let mut other = Store::temporary().unwrap();
    import_records(&exported, &mut other).unwrap();
    let back = get_all::<Entity1>(&other).unwrap();
    assert_eq!(back.len(), 5);
    for i in 0..5usize {
        assert_eq!(back[i].id, exported[i].id);
        assert_eq!(back[i].prop1, exported[i].prop1);
    }
}

#[test]
fn range_prefix_and_pagination() {
    let mut store = fresh();
    for i in 0..10u32 {
        let r = Entity4 { id: i };
        save(&r, &mut store).unwrap();
    }
    let mid = get_in_range::<Entity4, u32, u32>(&3, &7, &store).unwrap();
    assert_eq!(mid.len(), 4);
    assert_eq!(mid[0].id, 3);
    assert_eq!(mid[3].id, 6);
    let page = get_from_start::<Entity4, u32>(2, 3, None, &store).unwrap();
    assert_eq!(page.len(), 3);
    assert_eq!(page[0].id, 2);
    assert_eq!(page[2].id, 4);
    let tail = get_from_end::<Entity4, u32>(1, 2, None, &store).unwrap();
    assert_eq!(tail.len(), 2);
    assert_eq!(tail[0].id, 7);
    assert_eq!(tail[1].id, 8);
}

#[test]
fn get_each_skips_missing() {
    let mut store = fresh();
    for i in [1u32, 3, 5] {
        let r = Entity4 { id: i };
        save(&r, &mut store).unwrap();
    }
    let keys = vec![5u32, 2, 1];
    let got = get_each::<Entity4>(&keys, &store).unwrap();
    assert_eq!(got.len(), 2);
    assert_eq!(got[0].id, 5);
    assert_eq!(got[1].id, 1);
}

#[test]
fn update_rewrites_in_place() {
    let mut store = fresh();
    let r = Entity1 {
        id: 9,
        prop1: String::from("before"),
    };
    save(&r, &mut store).unwrap();
    update::<Entity1, _>(
        &9,
        |mut e: Entity1| {
            e.prop1 = String::from("after");
            e
        },
        &mut store,
    )
    .unwrap();
    assert_eq!(
        get::<Entity1>(&9, &store).unwrap().unwrap().prop1,
        "after"
    );
    // updating an absent key is a no-op
    update::<Entity1, _>(&77, |e: Entity1| e, &mut store).unwrap();
    assert!(get::<Entity1>(&77, &store).unwrap().is_none());
    assert!(exists_key::<Entity1>(&9, &store).unwrap());
}

#[test]
fn filters_scan_and_remove() {
    let mut store = fresh();
    for i in 0..6u32 {
        let r = Entity4 { id: i };
        save(&r, &mut store).unwrap();
    }
    let big = reindeer::entity::get_with_filter::<Entity4, _>(|e: &Entity4| e.id >= 4, &store)
        .unwrap();
    assert_eq!(big.len(), 2);
    let removed =
        reindeer::entity::filter_remove::<Entity4, _>(|e: &Entity4| e.id < 2, &mut store).unwrap();
    assert_eq!(removed.len(), 2);
    assert_eq!(get_count::<Entity4>(&store).unwrap(), 4);
    reindeer::entity::filter_update::<Entity4, _, _>(
        |e: &Entity4| e.id == 5,
        |mut e: Entity4| {
            e.id = 5;
            e
        },
        &mut store,
    )
    .unwrap();
    assert!(get::<Entity4>(&5, &store).unwrap().is_some());
}

#[test]
fn violations_name_the_constrained_keyspace() {
    // sibling constraint: removing the entity_3 record names entity_1
    let mut store = fresh();
    let mut e1 = Entity1 {
        id: 0,
        prop1: String::from("held"),
    };
    save_next(&mut e1, &mut store).unwrap();
    let mut e3 = Entity3 { id: 0 };
    reindeer::entity::save_sibling(&e1, &mut e3, &mut store).unwrap();
    let err = remove::<Entity3>(&0, &mut store).unwrap_err();
    assert!(matches!(err.kind(), ErrorKind::IntegrityError));
    assert_eq!(
        *err.message(),
        String::from("Constrained sibling entity exists in entity_1")
    );
    // child constraint: removing the entity_3 record names child_entity_2
    let mut store = fresh();
    register::<reindeer::test_entities::ChildEntity2>(&mut store).unwrap();
    let mut e3 = Entity3 { id: 0 };
    save_next(&mut e3, &mut store).unwrap();
    let mut c = reindeer::test_entities::ChildEntity2 { id: (0, 0) };
    save_child(&e3, &mut c, &mut store).unwrap();
    let err = remove::<Entity3>(&0, &mut store).unwrap_err();
    assert!(matches!(err.kind(), ErrorKind::IntegrityError));
    assert_eq!(
        *err.message(),
        String::from("Constrained child entity exists in child_entity_2")
    );
    // an unregistered type names its own keyspace
    let mut store = Store::temporary().unwrap();
    let e4 = Entity4 { id: 7 };
    save(&e4, &mut store).unwrap();
    let err = remove::<Entity4>(&7, &mut store).unwrap_err();
    assert!(matches!(err.kind(), ErrorKind::UnregisteredEntity));
    assert_eq!(
        *err.message(),
        String::from("Trying to use unregistered entity entity_4")
    );
}

#[test]
fn first_related_record_and_dangling_peer() {
    let mut store = fresh();
    let a = Entity1 {
        id: 1,
        prop1: String::from("a"),
    };
    let b1 = Entity3 { id: 10 };
    let b2 = Entity3 { id: 20 };
    save(&a, &mut store).unwrap();
    save(&b1, &mut store).unwrap();
    save(&b2, &mut store).unwrap();
    Relation::create(&a, &b1, DeletionBehaviour::BreakLink, DeletionBehaviour::BreakLink, None, &mut store).unwrap();
    Relation::create(&a, &b2, DeletionBehaviour::BreakLink, DeletionBehaviour::BreakLink, None, &mut store).unwrap();
    let first = Relation::get_one::<Entity1, Entity3>(&a, &store).unwrap();
    assert_eq!(first.unwrap().id, 10);
    // an empty listed-name set relates nothing
    let none: Vec<String> = Vec::new();
    assert!(!Relation::is_related_to_with_any_name(&a, &b1, &none, &store).unwrap());
    // a dangling first edge yields no record
    remove::<Entity3>(&10, &mut store).unwrap();
    let gone = Relation::get_one::<Entity1, Entity3>(&a, &store).unwrap();
    assert_eq!(gone.unwrap().id, 20);
}
