use store_lens::driver::{load, save};
use store_lens::projection::{Composite, Projection};
use store_lens::{Document, Scope, Store, TypeTagServer, TypeTagged, Value};

const ANIMAL_SLOT: u64 = 1;
const ANIMAL_TRAIT: u64 = 100;
const DOG_ID: u64 = 11;
const BIRD_ID: u64 = 12;
const TURTLE_ID: u64 = 13;

fn animal_projection() -> Projection {
    Projection::Object(Composite {
        name: "Animal".to_string(),
        primary: ANIMAL_SLOT,
        fields: vec![(
            "animal".to_string(),
            Projection::Tagged { type_id: ANIMAL_SLOT, trait_id: ANIMAL_TRAIT },
        )],
    })
}

fn tagged(tag: &str, payload: Document) -> Value {
    Value::Tagged(TypeTagged { tag: tag.to_string(), payload })
}

fn dog_payload() -> Document {
    Document::Dict(vec![(
        Document::Str("name".to_string()),
        Document::Str("Rex".to_string()),
    )])
}

fn animal_doc(tag: &str, payload: Document) -> Document {
    Document::Dict(vec![(
        Document::Str("animal".to_string()),
        Document::Dict(vec![(Document::Str(tag.to_string()), payload)]),
    )])
}

fn save_animals(store: Store, server: TypeTagServer) -> (Store, TypeTagServer, Document) {
    let scope = Scope::bind(store, server);
    let value = save(&scope, &animal_projection()).unwrap();
    let (store, server) = scope.unbind();
    (store, server, value)
}

#[test]
pub fn test() {
    let mut store = Store::new();
    let mut server = TypeTagServer::new();
    server.register(ANIMAL_TRAIT, "Bird", BIRD_ID);
    server.register(ANIMAL_TRAIT, "Dog", DOG_ID);
    server.register(ANIMAL_TRAIT, "Turtle", TURTLE_ID);

    let dog = store.spawn();
    assert!(store.insert_slot(dog, ANIMAL_SLOT, tagged("Dog", dog_payload())));
    let (s, v, value) = {
        let (a, b, c) = save_animals(store, server);
        (a, b, c)
    };
    store = s;
    server = v;
    assert_eq!(value, Document::List(vec![animal_doc("Dog", dog_payload())]));

    let bird = store.spawn();
    assert!(store.insert_slot(
        bird,
        ANIMAL_SLOT,
        tagged("Bird", Document::Str("bevy".to_string()))
    ));
    let (s, v, value) = save_animals(store, server);
    store = s;
    server = v;
    assert_eq!(
        value,
        Document::List(vec![
            animal_doc("Dog", dog_payload()),
            animal_doc("Bird", Document::Str("bevy".to_string())),
        ])
    );

    let turtle = store.spawn();
    assert!(store.insert_slot(turtle, ANIMAL_SLOT, tagged("Turtle", Document::Null)));
    let (s, v, value) = save_animals(store, server);
    store = s;
    server = v;
    let expected = Document::List(vec![
        animal_doc("Dog", dog_payload()),
        animal_doc("Bird", Document::Str("bevy".to_string())),
        animal_doc("Turtle", Document::Null),
    ]);
    assert_eq!(value, expected);

    store.despawn_bound_objects(&animal_projection());
    assert_eq!(store.entity_count(), 0);

    let mut scope = Scope::bind(store, server);
    load(&mut scope, &animal_projection(), &value).unwrap();
    let (s, v) = scope.unbind();
    store = s;
    server = v;
    assert_eq!(store.entity_count(), 3);

    let (s, v, value2) = save_animals(store, server);
    store = s;
    server = v;
    assert_eq!(value2, expected);

    store.despawn_bound_objects(&animal_projection());
    assert_eq!(store.entity_count(), 0);

    let mut scope = Scope::bind(store, server);
    load(&mut scope, &animal_projection(), &value2).unwrap();
    let (s, v) = scope.unbind();
    store = s;
    let _ = v;
    assert_eq!(store.entity_count(), 3);
    let server2 = TypeTagServer::new();
    let (_, _, value3) = save_animals(store, server2);
    assert_eq!(value3, expected);
}
