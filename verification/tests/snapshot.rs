use timetrack::date::DateKey;
use timetrack::timestamp::Timestamp;
use timetrack::store::SessionStore;

fn date(y: u32, mo: u32, d: u32) -> DateKey {
    DateKey { year: y, month: mo, day: d }
}

fn ts(y: u32, mo: u32, d: u32, h: u32, mi: u32, s: u32, off: i32) -> Timestamp {
    Timestamp { date: date(y, mo, d), hour: h, minute: mi, second: s, offset_minutes: off }
}

fn sample_store() -> SessionStore {
    let mut store = SessionStore::empty();
    let d1 = date(2024, 1, 15);
    store.start(&d1, ts(2024, 1, 15, 9, 30, 0, 300));
    store.stop(&d1, ts(2024, 1, 15, 11, 0, 0, 300));
    let d2 = date(2024, 1, 16);
    store.start(&d2, ts(2024, 1, 16, 8, 0, 0, 300));
    store
}

#[test]
fn save_produces_exact_canonical_bytes() {
    let mut store = SessionStore::empty();
    let d = date(2024, 1, 15);
    store.start(&d, ts(2024, 1, 15, 9, 30, 0, 300));
    let bytes = store.save();
    assert_eq!(
        String::from_utf8(bytes).unwrap(),
        "{\"records\":{\"2024-01-15\":[[\"2024-01-15T09:30:00+05:00\",null]]}}"
    );
}

#[test]
fn save_closed_session_and_negative_offset() {
    let mut store = SessionStore::empty();
    let d = date(2023, 12, 31);
    store.start(&d, ts(2023, 12, 31, 22, 0, 0, -90));
    store.stop(&d, ts(2023, 12, 31, 23, 15, 30, -90));
    let bytes = store.save();
    assert_eq!(
        String::from_utf8(bytes).unwrap(),
        "{\"records\":{\"2023-12-31\":[[\"2023-12-31T22:00:00-01:30\",\"2023-12-31T23:15:30-01:30\"]]}}"
    );
}

#[test]
fn save_empty_store() {
    let store = SessionStore::empty();
    assert_eq!(String::from_utf8(store.save()).unwrap(), "{\"records\":{}}");
}

#[test]
fn load_after_save_is_lossless() {
    let store = sample_store();
    let bytes = store.save();
    let (loaded, ok) = SessionStore::load(&bytes);
    assert!(ok);
    assert_eq!(loaded.records.len(), store.records.len());
    for (a, b) in loaded.records.iter().zip(store.records.iter()) {
        assert_eq!(a.date, b.date);
        assert_eq!(a.sessions, b.sessions);
    }
}

#[test]
fn save_after_load_reproduces_input() {
    let text = "{\"records\":{\"2024-01-15\":[[\"2024-01-15T09:30:00+05:00\",\"2024-01-15T11:00:00+05:00\"],[\"2024-01-15T12:00:00+05:00\",null]],\"2024-02-01\":[[\"2024-02-01T08:00:00+00:00\",null]]}}";
    let bytes: Vec<u8> = text.as_bytes().to_vec();
    let (loaded, ok) = SessionStore::load(&bytes);
    assert!(ok);
    assert_eq!(loaded.records.len(), 2);
    assert_eq!(String::from_utf8(loaded.save()).unwrap(), text);
}

#[test]
fn load_parses_fields_exactly() {
    let text = "{\"records\":{\"2024-01-15\":[[\"2024-01-15T09:30:05+05:30\",null]]}}";
    let bytes: Vec<u8> = text.as_bytes().to_vec();
    let (loaded, ok) = SessionStore::load(&bytes);
    assert!(ok);
    let s = &loaded.records[0].sessions[0];
    assert_eq!(loaded.records[0].date, date(2024, 1, 15));
    assert_eq!(s.start, ts(2024, 1, 15, 9, 30, 5, 330));
    assert_eq!(s.end, None);
}

#[test]
fn load_empty_input_yields_empty_store() {
    let bytes: Vec<u8> = Vec::new();
    let (loaded, ok) = SessionStore::load(&bytes);
    assert!(!ok);
    assert_eq!(loaded.records.len(), 0);
}

#[test]
fn load_garbage_yields_empty_store() {
    let (loaded, ok) = SessionStore::load(&b"not a snapshot".to_vec());
    assert!(!ok);
    assert_eq!(loaded.records.len(), 0);
    let (loaded2, ok2) = SessionStore::load(&b"{\"records\":".to_vec());
    assert!(!ok2);
    assert_eq!(loaded2.records.len(), 0);
}

#[test]
fn load_rejects_invalid_date() {
    let text = "{\"records\":{\"2023-02-29\":[[\"2023-02-29T09:00:00+00:00\",null]]}}";
    let (loaded, ok) = SessionStore::load(&text.as_bytes().to_vec());
    assert!(!ok);
    assert_eq!(loaded.records.len(), 0);
}

#[test]
fn load_rejects_duplicate_date() {
    let text = "{\"records\":{\"2024-01-15\":[[\"2024-01-15T09:00:00+00:00\",null]],\"2024-01-15\":[[\"2024-01-15T10:00:00+00:00\",null]]}}";
    let (loaded, ok) = SessionStore::load(&text.as_bytes().to_vec());
    assert!(!ok);
    assert_eq!(loaded.records.len(), 0);
}

#[test]
fn load_rejects_end_not_after_start() {
    let text = "{\"records\":{\"2024-01-15\":[[\"2024-01-15T09:00:00+00:00\",\"2024-01-15T09:00:00+00:00\"]]}}";
    let (loaded, ok) = SessionStore::load(&text.as_bytes().to_vec());
    assert!(!ok);
    assert_eq!(loaded.records.len(), 0);
}

#[test]
fn load_rejects_noncanonical_offset() {
    // a zero offset must be written "+00:00"
    let text = "{\"records\":{\"2024-01-15\":[[\"2024-01-15T09:00:00-00:00\",null]]}}";
    let (loaded, ok) = SessionStore::load(&text.as_bytes().to_vec());
    assert!(!ok);
    assert_eq!(loaded.records.len(), 0);
}

#[test]
fn load_rejects_trailing_bytes() {
    let text = "{\"records\":{}} ";
    let (loaded, ok) = SessionStore::load(&text.as_bytes().to_vec());
    assert!(!ok);
    assert_eq!(loaded.records.len(), 0);
}

#[test]
fn load_accepts_empty_snapshot() {
    let (loaded, ok) = SessionStore::load(&b"{\"records\":{}}".to_vec());
    assert!(ok);
    assert_eq!(loaded.records.len(), 0);
}
