//! Keyset pagination over a known dataset, the cursor codec, the payload
//! framing, and the small data modules around the engine.

use liteventd::codec::{decode_cursor, encode_cursor};
use liteventd::cursor::Args;
use liteventd::payload::{append_field, append_string, read_field, read_string};
use liteventd::product::{create, CreateInput, ProductState};
use liteventd::store::EventStore;
use liteventd::web::{market_s_create_status, s_create_status, PathSource, Template, TemplateConfig};
use liteventd::{Event, EventCursor, ReadError};

fn event(i: u128, version: u16, timestamp: u64) -> Event {
    Event {
        id: i,
        aggregate_id: 7,
        aggregate_type: "Calcul".to_owned(),
        version,
        name: "Added".to_owned(),
        routing_key: "default".to_owned(),
        data: vec![version as u8, 0],
        metadata: vec![1],
        timestamp,
    }
}

/// Ten events for one aggregate, in one atomic batch.
fn seeded_store() -> EventStore {
    let mut store = EventStore::new();
    let mut batch: Vec<Event> = Vec::new();
    for v in 1..=10u16 {
        batch.push(event(100 + v as u128, v, 500));
    }
    store.write(batch).unwrap();
    store
}

#[test]
fn forward_asc() {
    let store = seeded_store();
    let page = store.read::<liteventd::calc::Calcul>(7, &Args::forward(10, None)).unwrap();
    assert_eq!(page.edges.len(), 10);
    for (i, edge) in page.edges.iter().enumerate() {
        assert_eq!(edge.node.version as usize, i + 1);
    }
    assert!(!page.page_info.has_next_page);
    assert!(!page.page_info.has_previous_page);
    assert!(page.page_info.end_cursor.is_some());
}

#[test]
fn forward_pages_chain() {
    let store = seeded_store();
    let mut after = None;
    let mut seen: Vec<u16> = Vec::new();
    let expected = [(3usize, true), (3, true), (3, true), (1, false)];
    for (size, more) in expected {
        let page = store
            .read::<liteventd::calc::Calcul>(7, &Args::forward(3, after))
            .unwrap();
        assert_eq!(page.edges.len(), size);
        assert_eq!(page.page_info.has_next_page, more);
        for edge in &page.edges {
            seen.push(edge.node.version);
        }
        after = page.page_info.end_cursor;
    }
    // every row exactly once, in ascending sort-key order
    assert_eq!(seen, vec![1, 2, 3, 4, 5, 6, 7, 8, 9, 10]);
}

#[test]
fn page_size_caps_edges() {
    let store = seeded_store();
    let page = store.read::<liteventd::calc::Calcul>(7, &Args::forward(4, None)).unwrap();
    assert_eq!(page.edges.len(), 4);
    assert!(page.page_info.has_next_page);
}

#[test]
fn backward_keeps_ascending_order() {
    let store = seeded_store();
    let page = store.read::<liteventd::calc::Calcul>(7, &Args::backward(4, None)).unwrap();
    assert_eq!(page.edges.len(), 4);
    let versions: Vec<u16> = page.edges.iter().map(|e| e.node.version).collect();
    assert_eq!(versions, vec![7, 8, 9, 10]);
    assert!(page.page_info.has_previous_page);
    assert!(!page.page_info.has_next_page);
    assert!(page.page_info.start_cursor.is_some());
    assert!(page.page_info.end_cursor.is_none());
}

#[test]
fn backward_before_cursor() {
    let store = seeded_store();
    let all = store.read::<liteventd::calc::Calcul>(7, &Args::forward(10, None)).unwrap();
    let fifth = encode_cursor(&all.edges[4].node.key());
    let page = store
        .read::<liteventd::calc::Calcul>(7, &Args::backward(2, Some(fifth)))
        .unwrap();
    let versions: Vec<u16> = page.edges.iter().map(|e| e.node.version).collect();
    assert_eq!(versions, vec![3, 4]);
    assert!(page.page_info.has_previous_page);
}

#[test]
fn malformed_cursor_is_refused() {
    let store = seeded_store();
    let bad = liteventd::cursor::Value("!!!not-a-cursor".to_owned());
    let r = store.read::<liteventd::calc::Calcul>(7, &Args::forward(3, Some(bad)));
    assert_eq!(r.err().unwrap(), ReadError::MalformedCursor);
}

#[test]
fn cursor_codec_round_trip() {
    let p = EventCursor { t: 500, v: 3, i: 103 };
    let c = encode_cursor(&p);
    assert_eq!(decode_cursor(&c), Some(p));

    // a decoded cursor re-encodes to the same opaque string
    let c2 = encode_cursor(&decode_cursor(&c).unwrap());
    assert_eq!(c.0, c2.0);

    // the string is URL-safe base64: no '+', '/' or whitespace
    assert!(c.0.chars().all(|ch| ch.is_ascii_alphanumeric() || ch == '-' || ch == '_' || ch == '='));
}

#[test]
fn get_event_by_cursor() {
    let store = seeded_store();
    let all = store.read::<liteventd::calc::Calcul>(7, &Args::forward(10, None)).unwrap();
    let cursor = &all.edges[2].cursor;
    let found = store.get_event::<liteventd::calc::Calcul>(cursor).unwrap();
    assert_eq!(found.version, 3);

    let missing = encode_cursor(&EventCursor { t: 9, v: 9, i: 9999 });
    assert_eq!(
        store.get_event::<liteventd::calc::Calcul>(&missing).err().unwrap(),
        ReadError::NotFound
    );
}

#[test]
fn duplicate_ids_are_refused() {
    let mut store = EventStore::new();
    let batch = vec![event(1, 1, 10), event(1, 2, 10)];
    assert_eq!(store.write(batch).unwrap_err(), liteventd::WriteError::Backend);
}

#[test]
fn typed_decode_round_trip() {
    let mut store = EventStore::new();
    let id = liteventd::save::create::<liteventd::calc::Calcul>()
        .metadata(&true)
        .unwrap()
        .data(&liteventd::calc::Added { value: 13 })
        .unwrap()
        .commit(&mut store, 100)
        .unwrap();
    let page = store.read::<liteventd::calc::Calcul>(id, &Args::forward(1, None)).unwrap();
    let ev = &page.edges[0].node;

    let decoded = ev
        .to_data::<liteventd::calc::Added, bool>()
        .unwrap()
        .unwrap();
    assert_eq!(decoded.data.value, 13);
    assert!(decoded.metadata);

    // another event kind is skipped, not an error
    assert!(ev.to_data::<liteventd::calc::Subtracted, bool>().unwrap().is_none());

    // a matching kind whose payload bytes are broken is a decode error
    let mut broken = ev.clone();
    broken.data = vec![1, 2, 3];
    assert_eq!(
        broken.to_data::<liteventd::calc::Added, bool>().err().unwrap(),
        ReadError::Deserialize
    );
}

#[test]
fn field_framing_round_trip() {
    let mut out: Vec<u8> = Vec::new();
    let data = [1u8, 0xFF, 2, 0xFF, 0xFF, 0];
    append_field(&mut out, &data);
    append_field(&mut out, &[]);
    let (first, pos) = read_field(&out, 0).unwrap();
    assert_eq!(first, data.to_vec());
    let (second, end) = read_field(&out, pos).unwrap();
    assert_eq!(second, Vec::<u8>::new());
    assert_eq!(end, out.len());

    // a truncated field is refused
    assert!(read_field(&out[..out.len() - 1], pos).is_none());
}

#[test]
fn string_framing_round_trip() {
    let mut out: Vec<u8> = Vec::new();
    append_string(&mut out, "caf\u{e9} \u{2603}");
    append_string(&mut out, "");
    let (s, pos) = read_string(&out, 0).unwrap();
    assert_eq!(s, "caf\u{e9} \u{2603}");
    let (empty, end) = read_string(&out, pos).unwrap();
    assert_eq!(empty, "");
    assert_eq!(end, out.len());
}

#[test]
fn product_input_validation() {
    assert!(!CreateInput { name: "ab".to_owned() }.validate());
    assert!(CreateInput { name: "abc".to_owned() }.validate());
    assert!(CreateInput { name: "a".repeat(25) }.validate());
    assert!(!CreateInput { name: "a".repeat(26) }.validate());

    let ev = create(CreateInput { name: "lamp".to_owned() }).unwrap();
    assert_eq!(ev.name, "lamp");
    assert_eq!(ev.state, ProductState::Checking);
    assert!(create(CreateInput { name: "ab".to_owned() }).is_none());
}

#[test]
fn product_state_bytes() {
    for s in [ProductState::Checking, ProductState::Failed, ProductState::Ready] {
        assert_eq!(ProductState::from_byte(s.to_byte()), Some(s));
    }
    assert_eq!(ProductState::from_byte(9), None);
}

#[test]
fn route_paths() {
    assert_eq!(s_create_status(None), "/product/-/create-status/{id}");
    assert_eq!(s_create_status(Some("abc".to_owned())), "/product/-/create-status/abc");
    assert_eq!(market_s_create_status(None), "/market/-/create-status/{id}");
    assert_eq!(market_s_create_status(Some("x1".to_owned())), "/market/-/create-status/x1");
}

#[test]
fn template_and_path_source() {
    let config = TemplateConfig::new("/assets");
    assert_eq!(config.assets_base_url, "/assets");
    let t: Template<u32> = Template {
        template: None,
        preferred_language: "en-GB".to_owned(),
        preferred_language_iso: "en".to_owned(),
        config,
    };
    let t = t.template(5);
    assert_eq!(t.template, Some(5));
    assert_eq!(PathSource::new("lang").name, "lang");
}

#[test]
fn sql_text() {
    let schema = liteventd::sql::get_schema();
    assert!(schema.contains("liteventd_event"));
    assert!(schema.contains("UNIQUE INDEX"));
    assert_eq!(liteventd::sql::get_database_bind_key(), "?");

    let keys = vec!["timestamp".to_owned(), "version".to_owned(), "id".to_owned()];
    assert_eq!(
        liteventd::sql::build_cursor_expr(&keys, 0, false),
        "timestamp > ? OR (timestamp = ? AND (version > ? OR (version = ? AND (id > ?))))"
    );
    assert_eq!(
        liteventd::sql::build_cursor_expr(&keys, 2, true),
        "id < ?"
    );
}

#[test]
fn loader_budget_exhausted() {
    // more events than the loader's ten-page budget
    let mut store = EventStore::new();
    let mut version: u16 = 0;
    for batch_no in 0..11u32 {
        let mut batch: Vec<Event> = Vec::new();
        for _ in 0..1000u32 {
            version += 1;
            let mut e = event(1_000_000 + version as u128, version, 500);
            e.data = vec![0, 0];
            batch.push(e);
        }
        let _ = batch_no;
        store.write(batch).unwrap();
    }
    assert_eq!(
        store.load::<liteventd::calc::Calcul>(7).err().unwrap(),
        ReadError::TooManyEvents
    );
}
