use store_lens::driver::{decode_tagged, load, save};
use store_lens::projection::{Composite, Projection};
use store_lens::protocol::{from_de, to_ser};
use store_lens::{Document, Error, Scope, Store, TypeTagServer, TypeTagged, Value};

const ANIMAL_SLOT: u64 = 1;
const ANIMAL_TRAIT: u64 = 100;

fn animal_projection() -> Projection {
    Projection::Object(Composite {
        name: "Animal".to_string(),
        primary: ANIMAL_SLOT,
        fields: vec![(
            "animal".to_string(),
            Projection::Tagged { type_id: ANIMAL_SLOT, trait_id: ANIMAL_TRAIT },
        )],
    })
}

fn dog_doc() -> Document {
    Document::Dict(vec![(
        Document::Str("Dog".to_string()),
        Document::Dict(vec![(
            Document::Str("name".to_string()),
            Document::Str("Rex".to_string()),
        )]),
    )])
}

#[test]
fn unbound_scope_fails_every_protocol_operation() {
    let scope = Scope::new();
    assert_eq!(to_ser(&scope, 0, &animal_projection()), Err(Error::ScopeError));
    assert_eq!(save(&scope, &animal_projection()), Err(Error::ScopeError));
    assert_eq!(
        decode_tagged(&scope, ANIMAL_TRAIT, &dog_doc()),
        Err(Error::ScopeError)
    );
    assert_eq!(scope.current_entity(), Err(Error::ScopeError));
    let mut scope = scope;
    assert_eq!(
        from_de(&mut scope, 0, &animal_projection(), &dog_doc()),
        Err(Error::ScopeError)
    );
    assert_eq!(
        load(&mut scope, &animal_projection(), &Document::List(vec![])),
        Err(Error::ScopeError)
    );
}

#[test]
fn tagged_decode_resolves_registered_variants() {
    let mut server = TypeTagServer::new();
    server.register(ANIMAL_TRAIT, "Dog", 11);
    let scope = Scope::bind(Store::new(), server);
    let decoded = decode_tagged(&scope, ANIMAL_TRAIT, &dog_doc()).unwrap();
    assert_eq!(decoded.tag, "Dog".to_string());
    assert_eq!(decoded.to_document(), dog_doc());
}

#[test]
fn tagged_decode_rejects_unregistered_variants() {
    let mut server = TypeTagServer::new();
    server.register(ANIMAL_TRAIT, "Dog", 11);
    let scope = Scope::bind(Store::new(), server);
    let cat = Document::Dict(vec![(
        Document::Str("Cat".to_string()),
        Document::Null,
    )]);
    assert_eq!(
        decode_tagged(&scope, ANIMAL_TRAIT, &cat),
        Err(Error::UnregisteredTag { tag: "Cat".to_string() })
    );
}

#[test]
fn tagged_decode_needs_a_single_entry_map() {
    let scope = Scope::bind(Store::new(), TypeTagServer::new());
    assert_eq!(
        decode_tagged(&scope, ANIMAL_TRAIT, &Document::Null),
        Err(Error::ExpectedTagged)
    );
    let two = Document::Dict(vec![
        (Document::Str("Dog".to_string()), Document::Null),
        (Document::Str("Cat".to_string()), Document::Null),
    ]);
    assert_eq!(
        decode_tagged(&scope, ANIMAL_TRAIT, &two),
        Err(Error::ExpectedTagged)
    );
}

#[test]
fn registering_a_duplicate_overwrites_silently() {
    let mut server = TypeTagServer::new();
    server.register(ANIMAL_TRAIT, "Dog", 11);
    server.register(ANIMAL_TRAIT, "Dog", 42);
    assert_eq!(server.get(ANIMAL_TRAIT, "Dog"), Some(42));
    server.clear();
    assert_eq!(server.get(ANIMAL_TRAIT, "Dog"), None);
}

#[test]
fn registry_is_keyed_by_trait_and_name() {
    let mut server = TypeTagServer::new();
    server.register(ANIMAL_TRAIT, "Dog", 11);
    assert_eq!(server.get(ANIMAL_TRAIT + 1, "Dog"), None);
    assert_eq!(server.get(ANIMAL_TRAIT, "Bird"), None);
    assert_eq!(server.get(ANIMAL_TRAIT, "Dog"), Some(11));
}

#[test]
fn decode_cursor_tracks_the_entity_being_materialized() {
    let mut scope = Scope::bind(Store::new(), TypeTagServer::new());
    assert_eq!(scope.current_entity(), Err(Error::ScopeError));
    scope.bind_entity(7);
    assert_eq!(scope.current_entity(), Ok(7));
    scope.bind_entity(9);
    assert_eq!(scope.current_entity(), Ok(9));
    scope.unbind_entity();
    assert_eq!(scope.current_entity(), Ok(7));
}

#[test]
fn unbound_reads_never_touch_default_state() {
    let mut store = Store::new();
    let e = store.spawn();
    assert!(store.insert_slot(
        e,
        ANIMAL_SLOT,
        Value::Tagged(TypeTagged { tag: "Dog".to_string(), payload: Document::Null })
    ));
    let scope = Scope::new();
    assert_eq!(to_ser(&scope, e, &Projection::Slot { type_id: ANIMAL_SLOT }),
        Err(Error::ScopeError));
    let bound = Scope::bind(store, TypeTagServer::new());
    assert_eq!(
        to_ser(&bound, e, &Projection::Slot { type_id: ANIMAL_SLOT }),
        Ok(Some(Document::Dict(vec![(
            Document::Str("Dog".to_string()),
            Document::Null,
        )])))
    );
}
