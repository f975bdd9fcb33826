use reindeer::descriptor::FamilyDescriptor;
use reindeer::entity::get;
use reindeer::entity::Entity;
use reindeer::entity::get_children;
use reindeer::entity::get_count;
use reindeer::entity::register;
use reindeer::entity::remove;
use reindeer::entity::save;
use reindeer::entity::adopt_child;
use reindeer::entity::save_child;
use reindeer::entity::save_next;
use reindeer::entity::save_sibling;
use reindeer::kv::Store;
use reindeer::relation::Relation;
use reindeer::test_entities::ChildEntity1;
use reindeer::test_entities::ChildEntity2;
use reindeer::test_entities::Entity1;
use reindeer::test_entities::Entity2;
use reindeer::test_entities::Entity3;
use reindeer::test_entities::GrandChildEntity;
use reindeer::DeletionBehaviour;

fn set_up() -> Store {
    let mut store = Store::temporary().unwrap();
    register::<Entity1>(&mut store).unwrap();
    register::<Entity2>(&mut store).unwrap();
    register::<Entity3>(&mut store).unwrap();
    register::<ChildEntity1>(&mut store).unwrap();
    register::<ChildEntity2>(&mut store).unwrap();
    register::<GrandChildEntity>(&mut store).unwrap();
    store
}

fn set_up_content(store: &mut Store) {
    let mut e1 = Entity1 {
        id: 0,
        prop1: String::from("Hello, World!"),
    };
    save_next(&mut e1, store).unwrap();
    e1.prop1 = String::from("Hello, Nancy!");
    save_next(&mut e1, store).unwrap();
    e1.prop1 = String::from("Hello, Jack!");
    save_next(&mut e1, store).unwrap();
    let mut e2 = Entity2 {
        id: String::from("id1"),
        prop2: 3,
    };
    save(&e2, store).unwrap();
    e2.id = String::from("id2");
    e2.prop2 = 5;
    save(&e2, store).unwrap();
    e2.id = String::from("id3");
    e2.prop2 = 1000;
    save(&e2, store).unwrap();
    let mut e3 = Entity3 { id: 0 };
    save_next(&mut e3, store).unwrap();
    save_next(&mut e3, store).unwrap();
    save_next(&mut e3, store).unwrap();
    let mut e4 = ChildEntity1 {
        id: (String::from("id0"), 0),
    };
    save_child(&e2, &mut e4, store).unwrap();
    save_child(&e2, &mut e4, store).unwrap();
    save_child(&e2, &mut e4, store).unwrap();
    let mut e5 = ChildEntity2 { id: (0, 0) };
    save_child(&e3, &mut e5, store).unwrap();
    save_child(&e3, &mut e5, store).unwrap();
    save_child(&e3, &mut e5, store).unwrap();
    let mut e6 = GrandChildEntity {
        id: ((String::from("idx"), 0), 0),
    };
    save_child(&e4, &mut e6, store).unwrap();
    save_child(&e4, &mut e6, store).unwrap();
    save_child(&e4, &mut e6, store).unwrap();
}

#[test]
fn create_and_register() {
    let store = set_up();
    assert!(FamilyDescriptor::exists_key(&String::from("entity_1"), &store).unwrap());
    assert!(FamilyDescriptor::exists_key(&String::from("entity_2"), &store).unwrap());
    assert!(FamilyDescriptor::exists_key(&String::from("child_entity_1"), &store).unwrap());
    let fam_desc = FamilyDescriptor::get(&String::from("entity_1"), &store).unwrap();
    assert!(fam_desc.is_some());
    assert_eq!(fam_desc.unwrap().sibling_trees.len(), 1);
}

#[test]
fn test_save_save_next_and_get() {
    let mut store = set_up();
    set_up_content(&mut store);
    let e1_0 = get::<Entity1>(&0, &store).unwrap();
    let e1_1 = get::<Entity1>(&1, &store).unwrap();
    let e2_1 = get::<Entity2>(&String::from("id1"), &store).unwrap();
    let e2_2 = get::<Entity2>(&String::from("id2"), &store).unwrap();
    assert!(e1_0.is_some());
    assert!(e1_1.is_some());
    assert!(e2_1.is_some());
    assert!(e2_2.is_some());
    let e1_0 = e1_0.unwrap();
    let e1_1 = e1_1.unwrap();
    let e2_1 = e2_1.unwrap();
    let e2_2 = e2_2.unwrap();
    assert_eq!(e1_0.id, 0);
    assert_eq!(e1_0.prop1, "Hello, World!");
    assert_eq!(e1_1.id, 1);
    assert_eq!(e1_1.prop1, "Hello, Nancy!");
    assert!(get::<Entity1>(&8, &store).unwrap().is_none());
    assert_eq!(e2_1.prop2, 3);
    assert_eq!(e2_2.prop2, 5);
}

#[test]
fn test_save_and_get_children() {
    let mut store = set_up();
    set_up_content(&mut store);
    let child_1 = get::<ChildEntity1>(&(String::from("id3"), 0), &store).unwrap();
    assert!(child_1.is_some());
    let e2_3 = get::<Entity2>(&String::from("id3"), &store).unwrap().unwrap();
    let children = get_children::<Entity2, ChildEntity1>(&e2_3, &store).unwrap();
    assert_eq!(children.len(), 3);
}

#[test]
fn test_cascade_children() {
    let mut store = set_up();
    set_up_content(&mut store);
    let e2_3 = get::<Entity2>(&String::from("id3"), &store).unwrap().unwrap();
    let children = get_children::<Entity2, ChildEntity1>(&e2_3, &store).unwrap();
    assert_eq!(children.len(), 3);
    remove::<Entity2>(&String::from("id3"), &mut store).unwrap();
    assert!(get::<Entity2>(&String::from("id3"), &store).unwrap().is_none());
    assert_eq!(
        get_children::<Entity2, ChildEntity1>(&e2_3, &store)
            .unwrap()
            .len(),
        0
    );
}

#[test]
fn test_delete_children_error() {
    let mut store = set_up();
    set_up_content(&mut store);
    let e3_2 = get::<Entity3>(&2, &store).unwrap().unwrap();
    let children = get_children::<Entity3, ChildEntity2>(&e3_2, &store).unwrap();
    assert_eq!(children.len(), 3);
    assert!(remove::<Entity3>(&2, &mut store).is_err());
    let e3_2 = get::<Entity3>(&2, &store).unwrap();
    assert!(e3_2.is_some());
    assert_eq!(
        get_children::<Entity3, ChildEntity2>(&e3_2.unwrap(), &store)
            .unwrap()
            .len(),
        3
    );
}

#[test]
fn test_add_sibling() {
    let mut store = set_up();
    set_up_content(&mut store);
    let mut e1 = Entity1 {
        id: 0,
        prop1: String::from("First Sibling"),
    };
    save_next(&mut e1, &mut store).unwrap();
    let mut e3 = Entity3 { id: 0 };
    save_sibling(&e1, &mut e3, &mut store).unwrap();
    assert_eq!(e3.id, e1.id);
    assert_eq!(e3.id, 3);
}

#[test]
fn test_delete_sibling_cascade() {
    let mut store = set_up();
    set_up_content(&mut store);
    let mut e1 = Entity1 {
        id: 0,
        prop1: String::from("First Sibling"),
    };
    save_next(&mut e1, &mut store).unwrap();
    let mut e3 = Entity3 { id: 0 };
    save_sibling(&e1, &mut e3, &mut store).unwrap();
    assert!(remove::<Entity1>(e1.get_key(), &mut store).is_ok());
    assert!(get::<Entity1>(e1.get_key(), &store).unwrap().is_none());
    assert!(get::<Entity3>(e3.get_key(), &store).unwrap().is_none());
}

#[test]
fn test_delete_sibling_error() {
    let mut store = set_up();
    set_up_content(&mut store);
    let mut e1 = Entity1 {
        id: 0,
        prop1: String::from("First Sibling"),
    };
    save_next(&mut e1, &mut store).unwrap();
    let mut e3 = Entity3 { id: 0 };
    save_sibling(&e1, &mut e3, &mut store).unwrap();
    assert!(remove::<Entity3>(e1.get_key(), &mut store).is_err());
    assert!(get::<Entity1>(e1.get_key(), &store).unwrap().is_some());
    assert!(get::<Entity3>(e3.get_key(), &store).unwrap().is_some());
}

#[test]
fn test_free_relation() {
    let mut store = set_up();
    set_up_content(&mut store);
    let e1 = get::<Entity1>(&2, &store).unwrap().unwrap();
    let e2_1 = get::<Entity2>(&String::from("id1"), &store).unwrap().unwrap();
    let e2_2 = get::<Entity2>(&String::from("id2"), &store).unwrap().unwrap();
    assert!(Relation::create(
        &e1,
        &e2_1,
        DeletionBehaviour::Cascade,
        DeletionBehaviour::Error,
        Some("relation1"),
        &mut store
    )
    .is_ok());
    assert!(Relation::create(
        &e1,
        &e2_2,
        DeletionBehaviour::Cascade,
        DeletionBehaviour::Error,
        Some("relation1"),
        &mut store
    )
    .is_ok());
    let related = Relation::get::<Entity1, Entity2>(&e1, &store).unwrap();
    assert_eq!(related.len(), 2);
    assert_eq!(*related[0].get_key(), String::from("id1"));
    assert_eq!(*related[1].get_key(), String::from("id2"));
}

#[test]
fn test_free_relation_cascade() {
    let mut store = set_up();
    set_up_content(&mut store);
    let mut e1 = Entity1 {
        id: 0,
        prop1: String::from("First Sibling"),
    };
    save_next(&mut e1, &mut store).unwrap();
    let e2_1 = get::<Entity2>(&String::from("id1"), &store).unwrap().unwrap();
    let e2_2 = get::<Entity2>(&String::from("id2"), &store).unwrap().unwrap();
    assert!(Relation::create(
        &e1,
        &e2_1,
        DeletionBehaviour::Cascade,
        DeletionBehaviour::Error,
        Some("relation1"),
        &mut store
    )
    .is_ok());
    assert!(Relation::create(
        &e1,
        &e2_2,
        DeletionBehaviour::Cascade,
        DeletionBehaviour::Error,
        Some("relation1"),
        &mut store
    )
    .is_ok());
    let related = Relation::get::<Entity1, Entity2>(&e1, &store).unwrap();
    assert_eq!(related.len(), 2);
    assert!(remove::<Entity1>(e1.get_key(), &mut store).is_ok());
    assert_eq!(
        Relation::get::<Entity1, Entity2>(&e1, &store).unwrap().len(),
        0
    );
    assert!(get::<Entity2>(&String::from("id1"), &store).unwrap().is_none());
    assert!(get::<Entity2>(&String::from("id2"), &store).unwrap().is_none());
}

#[test]
fn test_free_relation_error() {
    let mut store = set_up();
    set_up_content(&mut store);
    let mut e1 = Entity1 {
        id: 0,
        prop1: String::from("First Sibling"),
    };
    save_next(&mut e1, &mut store).unwrap();
    let e2_1 = get::<Entity2>(&String::from("id1"), &store).unwrap().unwrap();
    let e2_2 = get::<Entity2>(&String::from("id2"), &store).unwrap().unwrap();
    assert!(Relation::create(
        &e1,
        &e2_1,
        DeletionBehaviour::Cascade,
        DeletionBehaviour::Error,
        Some("relation1"),
        &mut store
    )
    .is_ok());
    assert!(Relation::create(
        &e1,
        &e2_2,
        DeletionBehaviour::Cascade,
        DeletionBehaviour::Error,
        Some("relation1"),
        &mut store
    )
    .is_ok());
    let related = Relation::get::<Entity1, Entity2>(&e1, &store).unwrap();
    assert_eq!(related.len(), 2);
    assert!(remove::<Entity2>(e2_1.get_key(), &mut store).is_err());
    assert_eq!(
        Relation::get::<Entity1, Entity2>(&e1, &store).unwrap().len(),
        2
    );
}

#[test]
fn test_recursive_cascade() {
    let mut store = set_up();
    set_up_content(&mut store);
    let mut e1 = Entity1 {
        id: 0,
        prop1: String::from("First Sibling"),
    };
    save_next(&mut e1, &mut store).unwrap();
    let e2_1 = get::<Entity2>(&String::from("id1"), &store).unwrap().unwrap();
    let e2_3 = get::<Entity2>(&String::from("id3"), &store).unwrap().unwrap();
    assert!(Relation::create(
        &e1,
        &e2_1,
        DeletionBehaviour::Cascade,
        DeletionBehaviour::Error,
        Some("relation1"),
        &mut store
    )
    .is_ok());
    assert!(Relation::create(
        &e1,
        &e2_3,
        DeletionBehaviour::Cascade,
        DeletionBehaviour::Error,
        Some("relation1"),
        &mut store
    )
    .is_ok());
    let related = Relation::get::<Entity1, Entity2>(&e1, &store).unwrap();
    assert_eq!(related.len(), 2);
    assert!(remove::<Entity1>(e1.get_key(), &mut store).is_ok());
    assert_eq!(
        Relation::get::<Entity1, Entity2>(&e1, &store).unwrap().len(),
        0
    );
    assert_eq!(get_count::<ChildEntity1>(&store).unwrap(), 0);
}

#[test]
fn test_recursive_error() {
    let mut store = set_up();
    set_up_content(&mut store);
    let e1 = get::<Entity1>(&2, &store).unwrap().unwrap();
    let e2_1 = get::<Entity2>(&String::from("id1"), &store).unwrap().unwrap();
    let e2_3 = get::<Entity2>(&String::from("id3"), &store).unwrap().unwrap();
    assert!(Relation::create(
        &e1,
        &e2_1,
        DeletionBehaviour::Cascade,
        DeletionBehaviour::Error,
        Some("relation1"),
        &mut store
    )
    .is_ok());
    assert!(Relation::create(
        &e1,
        &e2_3,
        DeletionBehaviour::Cascade,
        DeletionBehaviour::Error,
        Some("relation1"),
        &mut store
    )
    .is_ok());
    let related = Relation::get::<Entity1, Entity2>(&e1, &store).unwrap();
    assert_eq!(related.len(), 2);
    assert!(remove::<Entity1>(e1.get_key(), &mut store).is_err());
    assert_eq!(
        Relation::get::<Entity1, Entity2>(&e1, &store).unwrap().len(),
        2
    );
    assert_eq!(get_count::<ChildEntity1>(&store).unwrap(), 3);
}

#[test]
fn test_named_relations() {
    let mut store = set_up();
    set_up_content(&mut store);
    let e2_1 = get::<Entity2>(&String::from("id1"), &store).unwrap().unwrap();
    let e3_1 = get::<Entity3>(&0, &store).unwrap().unwrap();
    let e3_3 = get::<Entity3>(&2, &store).unwrap().unwrap();
    Relation::create(
        &e2_1,
        &e3_1,
        DeletionBehaviour::BreakLink,
        DeletionBehaviour::BreakLink,
        Some("rel1"),
        &mut store,
    )
    .unwrap();
    Relation::create(
        &e2_1,
        &e3_3,
        DeletionBehaviour::BreakLink,
        DeletionBehaviour::BreakLink,
        Some("rel2"),
        &mut store,
    )
    .unwrap();
    assert!(Relation::is_related_to(&e2_1, &e3_1, &store).unwrap());
    assert!(Relation::is_related_to(&e2_1, &e3_3, &store).unwrap());
    assert!(Relation::is_related_to_with_name(&e2_1, &e3_1, "rel1", &store).unwrap());
    assert!(!Relation::is_related_to_with_name(&e2_1, &e3_3, "rel1", &store).unwrap());
    let names = vec![String::from("rel1"), String::from("rel2")];
    assert!(Relation::is_related_to_with_any_name(&e2_1, &e3_3, &names, &store).unwrap());
    assert_eq!(
        Relation::get::<Entity2, Entity3>(&e2_1, &store).unwrap().len(),
        2
    );
    assert_eq!(
        Relation::get_with_name::<Entity2, Entity3>(&e2_1, "rel2", &store)
            .unwrap()
            .len(),
        1
    );
    assert_eq!(
        Relation::get_one_with_name::<Entity2, Entity3>(&e2_1, "rel2", &store)
            .unwrap()
            .unwrap()
            .id,
        2
    );
}

#[test]
fn test_adopt_child() {
    let mut store = set_up();
    set_up_content(&mut store);
    let e2_1 = get::<Entity2>(&String::from("id1"), &store).unwrap().unwrap();
    let e2_3 = get::<Entity2>(&String::from("id3"), &store).unwrap().unwrap();
    let mut children = get_children::<Entity2, ChildEntity1>(&e2_3, &store).unwrap();
    assert_eq!(children.len(), 3);
    assert_eq!(children[1].get_key().1, 1);
    assert_eq!(
        get_children::<Entity2, ChildEntity1>(&e2_1, &store)
            .unwrap()
            .len(),
        0
    );
    adopt_child(&e2_1, &mut children[1], &mut store).unwrap();
    let children = get_children::<Entity2, ChildEntity1>(&e2_3, &store).unwrap();
    assert_eq!(children.len(), 2);
    let other_children = get_children::<Entity2, ChildEntity1>(&e2_1, &store).unwrap();
    assert_eq!(other_children.len(), 1);
    assert_eq!(other_children[0].get_key().1, 3);
}

#[test]
fn test_adopt_child_with_relations() {
    let mut store = set_up();
    set_up_content(&mut store);
    let e2_1 = get::<Entity2>(&String::from("id1"), &store).unwrap().unwrap();
    let e2_3 = get::<Entity2>(&String::from("id3"), &store).unwrap().unwrap();
    let e3 = get::<Entity3>(&0, &store).unwrap().unwrap();
    let mut children = get_children::<Entity2, ChildEntity1>(&e2_3, &store).unwrap();
    Relation::create(
        &children[2],
        &e3,
        DeletionBehaviour::BreakLink,
        DeletionBehaviour::BreakLink,
        None,
        &mut store,
    )
    .unwrap();
    adopt_child(&e2_1, &mut children[2], &mut store).unwrap();
    let other_children = get_children::<Entity2, ChildEntity1>(&e2_1, &store).unwrap();
    assert_eq!(other_children.len(), 1);
    let child = &other_children[0];
    assert_eq!(child.get_key().1, 3);
    assert_eq!(
        Relation::get::<ChildEntity1, Entity3>(child, &store)
            .unwrap()
            .len(),
        1
    );
    assert_eq!(
        Relation::get::<Entity3, ChildEntity1>(&e3, &store)
            .unwrap()
            .len(),
        1
    );
}

#[test]
fn adopt_child_rekeys_mirrors_and_reports_absence() {
    let mut store = set_up();
    set_up_content(&mut store);
    let e2_1 = get::<Entity2>(&String::from("id1"), &store).unwrap().unwrap();
    let e2_3 = get::<Entity2>(&String::from("id3"), &store).unwrap().unwrap();
    let e3 = get::<Entity3>(&0, &store).unwrap().unwrap();
    let mut children = get_children::<Entity2, ChildEntity1>(&e2_3, &store).unwrap();
    Relation::create(
        &children[2],
        &e3,
        DeletionBehaviour::BreakLink,
        DeletionBehaviour::BreakLink,
        None,
        &mut store,
    )
    .unwrap();
    adopt_child(&e2_1, &mut children[2], &mut store).unwrap();
    // the fresh tail is one past the greatest tail before the move
    assert_eq!(*children[2].get_key(), (String::from("id1"), 3));
    // the peer's mirror edge now points at the new key
    let back = Relation::get::<Entity3, ChildEntity1>(&e3, &store).unwrap();
    assert_eq!(back.len(), 1);
    assert_eq!(*back[0].get_key(), (String::from("id1"), 3));
    // a missing child is reported, not adopted
    let mut ghost_child = ChildEntity1 {
        id: (String::from("nowhere"), 9),
    };
    let err = adopt_child(&e2_1, &mut ghost_child, &mut store).unwrap_err();
    assert!(matches!(err.kind(), reindeer::ErrorKind::NotFound));
}

#[test]
fn test_adopt_child_with_children() {
    let mut store = set_up();
    set_up_content(&mut store);
    let e2_1 = get::<Entity2>(&String::from("id1"), &store).unwrap().unwrap();
    let e2_3 = get::<Entity2>(&String::from("id3"), &store).unwrap().unwrap();
    let mut children = get_children::<Entity2, ChildEntity1>(&e2_3, &store).unwrap();
    adopt_child(&e2_1, &mut children[2], &mut store).unwrap();
    let other_children = get_children::<Entity2, ChildEntity1>(&e2_1, &store).unwrap();
    assert_eq!(other_children.len(), 1);
    let child = &other_children[0];
    assert_eq!(child.get_key().1, 3);
    assert_eq!(
        get_children::<ChildEntity1, GrandChildEntity>(child, &store)
            .unwrap()
            .len(),
        3
    );
}
