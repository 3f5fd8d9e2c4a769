use store_lens::driver::{load, save};
use store_lens::projection::{Child, ChildMap, ChildUnchecked, ChildVec, Composite, Maybe,
    Projection};
use store_lens::protocol::{compare_docs, from_de, to_ser};
use store_lens::{Document, Error, Scope, Store, TypeTagServer, Value};

const GEM: u64 = 2;
const WEAPON: u64 = 3;

fn gem_leaf() -> Projection {
    Projection::Slot { type_id: GEM }
}

fn plain_str(s: &str) -> Value {
    Value::Plain(Document::Str(s.to_string()))
}

fn parent_with_children(values: &[&str]) -> (Store, u64) {
    let mut store = Store::new();
    let parent = store.spawn();
    assert!(store.insert_slot(parent, WEAPON, plain_str("sword")));
    for v in values {
        let c = store.spawn();
        assert!(store.insert_slot(c, GEM, plain_str(v)));
        assert!(store.add_child(parent, c));
    }
    (store, parent)
}

#[test]
fn child_rejects_two_matches() {
    let (store, parent) = parent_with_children(&["ruby", "opal"]);
    let scope = Scope::bind(store, TypeTagServer::new());
    let solo = Projection::Solo(Child { inner: Box::new(gem_leaf()) });
    let r = to_ser(&scope, parent, &solo);
    assert_eq!(
        r,
        Err(Error::MoreThanOne { parent, ty: "slot".to_string() })
    );
}

#[test]
fn child_unchecked_takes_first_match() {
    let (store, parent) = parent_with_children(&["ruby", "opal"]);
    let scope = Scope::bind(store, TypeTagServer::new());
    let first = Projection::SoloFirst(ChildUnchecked { inner: Box::new(gem_leaf()) });
    let r = to_ser(&scope, parent, &first);
    assert_eq!(r, Ok(Some(Document::Str("ruby".to_string()))));
}

#[test]
fn child_accepts_exactly_one_match() {
    let (store, parent) = parent_with_children(&["ruby"]);
    let scope = Scope::bind(store, TypeTagServer::new());
    let solo = Projection::Solo(Child { inner: Box::new(gem_leaf()) });
    let r = to_ser(&scope, parent, &solo);
    assert_eq!(r, Ok(Some(Document::Str("ruby".to_string()))));
}

#[test]
fn absence_is_not_an_error() {
    let (store, parent) = parent_with_children(&[]);
    let scope = Scope::bind(store, TypeTagServer::new());
    let solo = Projection::Solo(Child { inner: Box::new(gem_leaf()) });
    assert_eq!(to_ser(&scope, parent, &solo), Ok(None));
    let first = Projection::SoloFirst(ChildUnchecked { inner: Box::new(gem_leaf()) });
    assert_eq!(to_ser(&scope, parent, &first), Ok(None));
    let many = Projection::ManyOf(ChildVec { inner: Box::new(gem_leaf()) });
    assert_eq!(to_ser(&scope, parent, &many), Ok(Some(Document::List(vec![]))));
    let maybe = Projection::Opt(Maybe {
        inner: Box::new(Projection::Solo(Child { inner: Box::new(gem_leaf()) })),
    });
    assert_eq!(to_ser(&scope, parent, &maybe), Ok(Some(Document::Null)));
}

#[test]
fn child_vec_collects_in_child_list_order() {
    let (store, parent) = parent_with_children(&["ruby", "opal", "jade"]);
    let scope = Scope::bind(store, TypeTagServer::new());
    let many = Projection::ManyOf(ChildVec { inner: Box::new(gem_leaf()) });
    assert_eq!(
        to_ser(&scope, parent, &many),
        Ok(Some(Document::List(vec![
            Document::Str("ruby".to_string()),
            Document::Str("opal".to_string()),
            Document::Str("jade".to_string()),
        ])))
    );
}

const KEY: u64 = 4;
const VAL: u64 = 5;

fn map_projection() -> Projection {
    Projection::TableOf(ChildMap {
        key: Box::new(Projection::Slot { type_id: KEY }),
        value: Box::new(Projection::Slot { type_id: VAL }),
    })
}

fn map_store(entries: &[(&str, &str)]) -> (Store, u64) {
    let mut store = Store::new();
    let parent = store.spawn();
    assert!(store.insert_slot(parent, WEAPON, plain_str("sword")));
    for (k, v) in entries {
        let c = store.spawn();
        assert!(store.insert_slot(c, KEY, plain_str(k)));
        assert!(store.insert_slot(c, VAL, plain_str(v)));
        assert!(store.add_child(parent, c));
    }
    (store, parent)
}

#[test]
fn child_map_orders_by_key() {
    let (store, parent) = map_store(&[("zinc", "1"), ("iron", "2")]);
    let scope = Scope::bind(store, TypeTagServer::new());
    let r = to_ser(&scope, parent, &map_projection());
    assert_eq!(
        r,
        Ok(Some(Document::Dict(vec![
            (Document::Str("iron".to_string()), Document::Str("2".to_string())),
            (Document::Str("zinc".to_string()), Document::Str("1".to_string())),
        ])))
    );
}

#[test]
fn child_map_duplicate_key_last_writer_wins() {
    let (store, parent) = map_store(&[("iron", "first"), ("iron", "second")]);
    let scope = Scope::bind(store, TypeTagServer::new());
    let r = to_ser(&scope, parent, &map_projection());
    assert_eq!(
        r,
        Ok(Some(Document::Dict(vec![(
            Document::Str("iron".to_string()),
            Document::Str("second".to_string()),
        )])))
    );
}

#[test]
fn child_map_key_without_value_fails() {
    let mut store = Store::new();
    let parent = store.spawn();
    assert!(store.insert_slot(parent, WEAPON, plain_str("sword")));
    let c = store.spawn();
    assert!(store.insert_slot(c, KEY, plain_str("iron")));
    assert!(store.add_child(parent, c));
    let scope = Scope::bind(store, TypeTagServer::new());
    let r = to_ser(&scope, parent, &map_projection());
    assert_eq!(
        r,
        Err(Error::KeyNoValue { key: "slot".to_string(), value: "slot".to_string() })
    );
}

#[test]
fn composite_requires_every_field() {
    let mut store = Store::new();
    let e = store.spawn();
    assert!(store.insert_slot(e, WEAPON, plain_str("sword")));
    let proj = Projection::Object(Composite {
        name: "Weapon".to_string(),
        primary: WEAPON,
        fields: vec![
            ("this".to_string(), Projection::Slot { type_id: WEAPON }),
            (
                "gem".to_string(),
                Projection::Solo(Child { inner: Box::new(gem_leaf()) }),
            ),
        ],
    });
    let scope = Scope::bind(store, TypeTagServer::new());
    let r = save(&scope, &proj);
    assert_eq!(
        r,
        Err(Error::FieldMissing { field: "gem".to_string(), ty: "Weapon".to_string() })
    );
}

#[test]
fn load_rejects_documents_of_the_wrong_shape() {
    let store = Store::new();
    let mut scope = Scope::bind(store, TypeTagServer::new());
    let proj = Projection::Slot { type_id: GEM };
    assert_eq!(
        load(&mut scope, &proj, &Document::Str("zap".to_string())),
        Err(Error::ExpectedList)
    );
    let r = load(
        &mut scope,
        &Projection::Tagged { type_id: GEM, trait_id: 9 },
        &Document::List(vec![Document::Str("zap".to_string())]),
    );
    assert_eq!(r, Err(Error::ExpectedTagged));
}

#[test]
fn load_reports_missing_fields() {
    let store = Store::new();
    let mut scope = Scope::bind(store, TypeTagServer::new());
    let proj = Projection::Object(Composite {
        name: "Weapon".to_string(),
        primary: WEAPON,
        fields: vec![("this".to_string(), Projection::Slot { type_id: WEAPON })],
    });
    let doc = Document::List(vec![Document::Dict(vec![(
        Document::Str("other".to_string()),
        Document::Null,
    )])]);
    assert_eq!(
        load(&mut scope, &proj, &doc),
        Err(Error::FieldMissing { field: "this".to_string(), ty: "Weapon".to_string() })
    );
}

#[test]
fn exhausted_store_reports_store_full() {
    let mut store = Store::new();
    store.next_id = u64::MAX;
    let mut scope = Scope::bind(store, TypeTagServer::new());
    let proj = Projection::Slot { type_id: GEM };
    assert_eq!(
        load(&mut scope, &proj, &Document::List(vec![Document::Null])),
        Err(Error::StoreFull)
    );
}

#[test]
fn children_round_trip_through_save_and_load() {
    let (store, _) = parent_with_children(&["ruby", "opal"]);
    let proj = Projection::Object(Composite {
        name: "Weapon".to_string(),
        primary: WEAPON,
        fields: vec![
            ("this".to_string(), Projection::Slot { type_id: WEAPON }),
            (
                "gems".to_string(),
                Projection::ManyOf(ChildVec { inner: Box::new(gem_leaf()) }),
            ),
        ],
    });
    let scope = Scope::bind(store, TypeTagServer::new());
    let first = save(&scope, &proj).unwrap();
    let (mut store, server) = scope.unbind();
    store.despawn_bound_objects(&proj);
    assert_eq!(store.entity_count(), 0);
    let mut scope = Scope::bind(store, server);
    load(&mut scope, &proj, &first).unwrap();
    let second = save(&scope, &proj).unwrap();
    assert_eq!(first, second);
    let (store, _) = scope.unbind();
    assert_eq!(store.entity_count(), 3);
}

#[test]
fn document_order_is_total_on_ranks_and_contents() {
    assert_eq!(compare_docs(&Document::Null, &Document::Bool(false)), -1);
    assert_eq!(compare_docs(&Document::Bool(false), &Document::Bool(true)), -1);
    assert_eq!(compare_docs(&Document::Int(-4), &Document::Int(9)), -1);
    assert_eq!(
        compare_docs(
            &Document::Str("abc".to_string()),
            &Document::Str("abd".to_string())
        ),
        -1
    );
    assert_eq!(
        compare_docs(
            &Document::List(vec![Document::Int(1)]),
            &Document::List(vec![Document::Int(1), Document::Int(0)])
        ),
        -1
    );
    assert_eq!(
        compare_docs(
            &Document::Str("same".to_string()),
            &Document::Str("same".to_string())
        ),
        0
    );
}

#[test]
fn maybe_passes_a_present_child_through() {
    let (store, parent) = parent_with_children(&["ruby"]);
    let scope = Scope::bind(store, TypeTagServer::new());
    let maybe = Projection::Opt(Maybe {
        inner: Box::new(Projection::Solo(Child { inner: Box::new(gem_leaf()) })),
    });
    assert_eq!(
        to_ser(&scope, parent, &maybe),
        Ok(Some(Document::Str("ruby".to_string())))
    );
}

#[test]
fn maybe_decode_of_empty_writes_nothing() {
    let mut store = Store::new();
    let e = store.spawn();
    let mut scope = Scope::bind(store, TypeTagServer::new());
    let maybe = Projection::Opt(Maybe {
        inner: Box::new(Projection::Solo(Child { inner: Box::new(gem_leaf()) })),
    });
    assert_eq!(from_de(&mut scope, e, &maybe, &Document::Null), Ok(()));
    let (store, _) = scope.unbind();
    assert_eq!(store.entity_count(), 1);
    assert_eq!(store.children_of(e), Some(vec![]));
}

#[test]
fn a_vanished_parent_is_reported() {
    let store = Store::new();
    let scope = Scope::bind(store, TypeTagServer::new());
    let solo = Projection::Solo(Child { inner: Box::new(gem_leaf()) });
    assert_eq!(
        to_ser(&scope, 77, &solo),
        Err(Error::EntityMissing { entity: 77 })
    );
}
