use nanobyte::probe::{IpAddr, ProbeReason};
use std::collections::BTreeMap;
use nanobyte::store::{entry, event_key, pack, unpack, Ingest, StoreError};

#[test]
fn keys_are_exact() {
    assert_eq!(
        event_key(0x0102_0304_0506_0708, 0x090A_0B0C),
        vec![1, 2, 3, 4, 5, 6, 7, 8, 9, 10, 11, 12]
    );
    assert_eq!(
        event_key(-1, 1),
        vec![255, 255, 255, 255, 255, 255, 255, 255, 0, 0, 0, 1]
    );
}

#[test]
fn keys_sort_chronologically() {
    let order = [(0, 0), (0, 1), (0, u32::MAX), (1, 0), (255, 9), (256, 0), (i64::MAX, 0)];
    for w in order.windows(2) {
        assert!(event_key(w[0].0, w[0].1) < event_key(w[1].0, w[1].1));
    }
}

#[test]
fn keys_before_the_epoch_sort_among_themselves() {
    for w in [(i64::MIN, 0), (-2, 5), (-1, 0), (-1, 1)].windows(2) {
        assert!(event_key(w[0].0, w[0].1) < event_key(w[1].0, w[1].1));
    }
    assert!(event_key(-1, 0) > event_key(0, 0));
}

#[test]
fn keys_differ() {
    assert_ne!(event_key(5, 1), event_key(5, 2));
    assert_ne!(event_key(5, 1), event_key(6, 1));
}

#[test]
fn packed_values_read_back() {
    let raw = vec![7u8; 4000];
    let value = pack(&raw).expect("pack");
    assert_ne!(value, raw);
    assert!(value.len() < 100);
    assert_eq!(value[..4], [0x28, 0xB5, 0x2F, 0xFD]);
    assert_eq!(unpack(&value).expect("unpack"), raw);
    let empty = pack(&[]).expect("pack");
    assert_eq!(unpack(&empty).expect("unpack"), Vec::<u8>::new());
}

#[test]
fn entries_hold_key_and_value() {
    let (key, value) = entry(5, 6, b"event").expect("entry");
    assert_eq!(key, event_key(5, 6));
    assert_eq!(unpack(&value).expect("unpack"), b"event");
}

#[test]
fn values_that_are_not_compressed_are_refused() {
    assert!(matches!(unpack(b"not a frame"), Err(StoreError::Decompress(_))));
}

#[test]
fn ingestion_numbers_events() {
    let mut ingest = Ingest::new();
    let first = ingest.take_probe_line(
        "1970-01-01T00:00:09Z WARN tls accept from 1.2.3.4:5: tls handshake eof",
    );
    let (seq, event) = first.expect("event");
    assert_eq!((seq, event.ts_unix), (0, 9));
    assert!(matches!(event.reason, ProbeReason::HandshakeEof));
    assert!(ingest.take_probe_line("noise").is_none());
    assert_eq!(ingest.take(Some("x")), Some((1, "x")));
    assert_eq!(ingest.take::<u8>(None), None);
    assert_eq!((ingest.kept(), ingest.skipped()), (2, 2));
    assert_eq!(ingest.summary("db_probes", 40), "kept=2 skipped=2 db_probes=40");
}

fn log() -> Vec<String> {
    vec![
        String::from("1970-01-01T00:00:09Z WARN tls accept from 1.2.3.4:5: tls handshake eof"),
        String::from("noise"),
        String::from("1970-01-01T00:00:09Z WARN tls accept from 1.2.3.4:5: tls handshake eof"),
        String::from("1970-01-01T00:00:07Z WARN tls accept from 5.6.7.8:5: InvalidContentType"),
    ]
}

#[test]
fn a_log_is_taken_line_by_line() {
    let mut ingest = Ingest::new();
    let stored = ingest.take_probe_log(&log());
    assert_eq!((ingest.kept(), ingest.skipped()), (3, 1));
    assert_eq!(ingest.kept() + ingest.skipped(), log().len());
    assert_eq!(stored.iter().map(|(seq, _)| *seq).collect::<Vec<_>>(), vec![0, 1, 2]);
    assert_eq!(stored[2].1.ts_unix, 7);
    assert_eq!(stored[2].1.ip, IpAddr::V4(0x0506_0708));
    assert!(matches!(stored[2].1.reason, ProbeReason::InvalidContentType));
    let more = ingest.take_probe_log(&log());
    assert_eq!(more[0].0, 3);
    assert_eq!((ingest.kept(), ingest.skipped()), (6, 2));
}

#[test]
fn a_second_ingest_changes_nothing() {
    let mut tree: BTreeMap<Vec<u8>, String> = BTreeMap::new();
    let mut insert = |tree: &mut BTreeMap<Vec<u8>, String>| {
        let mut ingest = Ingest::new();
        for (seq, ev) in ingest.take_probe_log(&log()) {
            tree.insert(event_key(ev.ts_unix, seq), format!("{ev:?}"));
        }
        (ingest.kept(), ingest.skipped())
    };
    let first = insert(&mut tree);
    let once = tree.clone();
    assert_eq!(once.len(), 3);
    assert_eq!(insert(&mut tree), first);
    assert_eq!(tree, once);
}

#[test]
fn a_stored_value_reads_the_same_twice() {
    let value = pack(b"event").expect("pack");
    assert_eq!(unpack(&value).expect("unpack"), unpack(&value).expect("unpack"));
}
