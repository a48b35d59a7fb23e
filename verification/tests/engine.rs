//! End-to-end scenarios over the in-process engine: create/save/load flows,
//! optimistic concurrency, routing-key inheritance and subscriptions.

use liteventd::agg::Payload;
use liteventd::calc::{Added, Calcul, Divided, Multiplied, Subtracted};
use liteventd::save::{create, save, SaveBuilder};
use liteventd::store::EventStore;
use liteventd::subscribe::{acknowledge, subscribe, SubscribeMode};
use liteventd::{ReadError, WriteError};

#[test]
fn create_then_load() {
    let mut store = EventStore::new();
    let id = create::<Calcul>()
        .metadata(&true)
        .unwrap()
        .data(&Added { value: 13 })
        .unwrap()
        .commit(&mut store, 1_000)
        .unwrap();

    let loaded = store.load::<Calcul>(id).unwrap();
    assert_eq!(loaded.item.value, 13);
    assert_eq!(loaded.event.version, 1);
}

#[test]
fn invalid_original_version() {
    let mut store = EventStore::new();
    let id = create::<Calcul>()
        .metadata(&true)
        .unwrap()
        .data(&Added { value: 13 })
        .unwrap()
        .commit(&mut store, 1_000)
        .unwrap();

    // another writer already advanced the aggregate to version 1
    let stale = SaveBuilder::new(Calcul { value: 0 }, id)
        .original_version(0)
        .metadata(&true)
        .unwrap()
        .data(&Added { value: 9 })
        .unwrap()
        .commit(&mut store, 1_001);
    assert_eq!(stale.unwrap_err(), WriteError::InvalidOriginalVersion);

    let loaded = store.load::<Calcul>(id).unwrap();
    assert_eq!(loaded.item.value, 13);
    assert_eq!(loaded.event.version, 1);
}

#[test]
fn multi_event_commit() {
    let mut store = EventStore::new();
    let id = create::<Calcul>()
        .metadata(&true)
        .unwrap()
        .data(&Added { value: 13 })
        .unwrap()
        .data(&Subtracted { value: 3 })
        .unwrap()
        .data(&Multiplied { value: 3 })
        .unwrap()
        .data(&Divided { value: 10 })
        .unwrap()
        .commit(&mut store, 2_000)
        .unwrap();

    let loaded = store.load::<Calcul>(id).unwrap();
    assert_eq!(loaded.item.value, 3);
    assert_eq!(loaded.event.version, 4);

    // all four events share one timestamp
    let args = liteventd::cursor::Args::forward(10, None);
    let page = store.read::<Calcul>(id, &args).unwrap();
    assert_eq!(page.edges.len(), 4);
    for edge in &page.edges {
        assert_eq!(edge.node.timestamp, 2_000);
    }
}

#[test]
fn save_continues_the_stream() {
    let mut store = EventStore::new();
    let id = create::<Calcul>()
        .metadata(&true)
        .unwrap()
        .data(&Added { value: 2 })
        .unwrap()
        .commit(&mut store, 10)
        .unwrap();

    let loaded = store.load::<Calcul>(id).unwrap();
    assert_eq!(loaded.event.version, 1);

    save(loaded, id)
        .metadata(&true)
        .unwrap()
        .data(&Added { value: 9 })
        .unwrap()
        .data(&Added { value: 3 })
        .unwrap()
        .commit(&mut store, 11)
        .unwrap();

    let loaded = store.load::<Calcul>(id).unwrap();
    assert_eq!(loaded.item.value, 14);
    assert_eq!(loaded.event.version, 3);
}

#[test]
fn routing_key_inheritance() {
    let mut store = EventStore::new();

    // a default routing key is kept even when a later save asks otherwise
    let id = create::<Calcul>()
        .metadata(&true)
        .unwrap()
        .data(&Added { value: 2 })
        .unwrap()
        .commit(&mut store, 10)
        .unwrap();
    let loaded = store.load::<Calcul>(id).unwrap();
    assert_eq!(loaded.event.routing_key, "default");

    save(loaded, id)
        .routing_key("r1")
        .metadata(&true)
        .unwrap()
        .data(&Added { value: 9 })
        .unwrap()
        .commit(&mut store, 11)
        .unwrap();
    let loaded = store.load::<Calcul>(id).unwrap();
    assert_eq!(loaded.event.routing_key, "default");

    // a routing key set at creation is inherited by later saves
    let id2 = create::<Calcul>()
        .routing_key("r1")
        .metadata(&true)
        .unwrap()
        .data(&Added { value: 2 })
        .unwrap()
        .commit(&mut store, 12)
        .unwrap();
    let loaded2 = store.load::<Calcul>(id2).unwrap();
    assert_eq!(loaded2.event.routing_key, "r1");

    save(loaded2, id2)
        .metadata(&true)
        .unwrap()
        .data(&Added { value: 9 })
        .unwrap()
        .commit(&mut store, 13)
        .unwrap();
    let loaded2 = store.load::<Calcul>(id2).unwrap();
    assert_eq!(loaded2.event.routing_key, "r1");
}

#[test]
fn commit_error_kinds() {
    let mut store = EventStore::new();

    // no metadata
    let r = create::<Calcul>()
        .data(&Added { value: 1 })
        .unwrap()
        .commit(&mut store, 1);
    assert_eq!(r.unwrap_err(), WriteError::MissingMetadata);

    // no events
    let r = create::<Calcul>().metadata(&true).unwrap().commit(&mut store, 1);
    assert_eq!(r.unwrap_err(), WriteError::MissingData);

    // the fold rejects a division by zero and nothing is written
    let r = create::<Calcul>()
        .metadata(&true)
        .unwrap()
        .data(&Added { value: 5 })
        .unwrap()
        .data(&Divided { value: 0 })
        .unwrap()
        .commit(&mut store, 1);
    assert_eq!(r.unwrap_err(), WriteError::FoldFailed);

    // the failed batches left nothing observable
    let probe = store
        .read::<Calcul>(7, &liteventd::cursor::Args::forward(10, None))
        .unwrap();
    assert_eq!(probe.edges.len(), 0);
}

#[test]
fn load_error_kinds() {
    let mut store = EventStore::new();
    assert_eq!(store.load::<Calcul>(42).err().unwrap(), ReadError::NotFound);

    // a snapshot under the current revision whose body does not decode
    let cur = liteventd::EventCursor { t: 1, v: 1, i: 9 };
    store.save_snapshot::<Calcul>(42, vec![1, 2, 3], cur).unwrap();
    assert_eq!(
        store.load::<Calcul>(42).err().unwrap(),
        ReadError::DeserializeAggregate
    );
}

#[test]
fn subscription_persistent_redelivery() {
    let mut store = EventStore::new();
    let id = create::<Calcul>()
        .metadata(&true)
        .unwrap()
        .data(&Added { value: 1 })
        .unwrap()
        .data(&Added { value: 2 })
        .unwrap()
        .data(&Added { value: 3 })
        .unwrap()
        .commit(&mut store, 100)
        .unwrap();
    let _ = id;

    let sub = subscribe("projection").mode(SubscribeMode::Persistent);
    sub.start(&mut store).unwrap();

    // the first event is owed until it is acknowledged
    let batch = sub.poll(&store, 1);
    assert_eq!(batch.len(), 1);
    let e1 = batch[0].clone();
    assert_eq!(e1.version, 1);

    // a restart without an acknowledgement redelivers it
    sub.start(&mut store).unwrap();
    let again = sub.poll(&store, 1);
    assert_eq!(again.len(), 1);
    assert_eq!(again[0].id, e1.id);

    // after the acknowledgement the next event comes
    acknowledge(&mut store, &"projection".to_owned(), None, &e1).unwrap();
    let next = sub.poll(&store, 1);
    assert_eq!(next.len(), 1);
    assert_eq!(next[0].version, 2);
}

#[test]
fn subscription_live_skips_history() {
    let mut store = EventStore::new();
    create::<Calcul>()
        .metadata(&true)
        .unwrap()
        .data(&Added { value: 1 })
        .unwrap()
        .commit(&mut store, 100)
        .unwrap();

    let sub = subscribe("live-view").mode(SubscribeMode::Live);
    sub.start(&mut store).unwrap();
    assert_eq!(sub.poll(&store, 10).len(), 0);

    create::<Calcul>()
        .metadata(&true)
        .unwrap()
        .data(&Added { value: 2 })
        .unwrap()
        .commit(&mut store, 200)
        .unwrap();
    let batch = sub.poll(&store, 10);
    assert_eq!(batch.len(), 1);
    assert_eq!(batch[0].timestamp, 200);

    // a restart re-anchors at the current tail: nothing historical comes back
    sub.start(&mut store).unwrap();
    assert_eq!(sub.poll(&store, 10).len(), 0);
    create::<Calcul>()
        .metadata(&true)
        .unwrap()
        .data(&Added { value: 3 })
        .unwrap()
        .commit(&mut store, 300)
        .unwrap();
    let batch = sub.poll(&store, 10);
    assert_eq!(batch.len(), 1);
    assert_eq!(batch[0].timestamp, 300);
}

#[test]
fn subscription_routing_key_filter() {
    let mut store = EventStore::new();
    create::<Calcul>()
        .routing_key("left")
        .metadata(&true)
        .unwrap()
        .data(&Added { value: 1 })
        .unwrap()
        .commit(&mut store, 100)
        .unwrap();
    create::<Calcul>()
        .routing_key("right")
        .metadata(&true)
        .unwrap()
        .data(&Added { value: 2 })
        .unwrap()
        .commit(&mut store, 100)
        .unwrap();

    let sub = subscribe("left-only").routing_key("left");
    sub.start(&mut store).unwrap();
    let batch = sub.poll(&store, 10);
    assert_eq!(batch.len(), 1);
    assert_eq!(batch[0].routing_key, "left");
}

#[test]
fn dispatch_first_match_wins() {
    let mut store = EventStore::new();
    let id = create::<Calcul>()
        .metadata(&true)
        .unwrap()
        .data(&Added { value: 1 })
        .unwrap()
        .commit(&mut store, 100)
        .unwrap();
    let loaded = store.load::<Calcul>(id).unwrap();

    let sub = subscribe("dispatcher")
        .skip_handler::<Calcul, Subtracted>()
        .handler::<Calcul, Added>()
        .handler::<Calcul, Added>();
    assert_eq!(sub.dispatch(&loaded.event), Some(1));
}

#[test]
fn loads_are_repeatable() {
    let mut store = EventStore::new();
    let id = create::<Calcul>()
        .metadata(&true)
        .unwrap()
        .data(&Added { value: 7 })
        .unwrap()
        .data(&Multiplied { value: 6 })
        .unwrap()
        .commit(&mut store, 50)
        .unwrap();

    let first = store.load::<Calcul>(id).unwrap();
    let second = store.load::<Calcul>(id).unwrap();
    assert_eq!(first.item.value, second.item.value);
    assert_eq!(first.event.id, second.event.id);
    assert_eq!(first.item.to_bytes(), second.item.to_bytes());
}
