use nanobyte::mote::{build_frame, Classifier, MoteIdentity, NullClassifier, SensorSample};
use nanobyte::types::{Classification, MoteId, FRAME_MAGIC};

#[test]
fn classification_roundtrip_u8() {
    for c in [
        Classification::Null,
        Classification::Platinum,
        Classification::Water,
        Classification::Metallic,
        Classification::Other,
    ] {
        assert_eq!(Classification::from_u8(c.to_u8()), c);
    }
}

#[test]
fn class_codes_on_the_wire() {
    assert_eq!(Classification::Null.to_u8(), 0);
    assert_eq!(Classification::Platinum.to_u8(), 1);
    assert_eq!(Classification::Water.to_u8(), 2);
    assert_eq!(Classification::Metallic.to_u8(), 3);
    assert_eq!(Classification::Other.to_u8(), 255);
}

#[test]
fn classification_unknown_becomes_other() {
    assert_eq!(Classification::from_u8(42), Classification::Other);
    assert_eq!(Classification::from_u8(99), Classification::Other);
}

#[test]
fn mote_id_splits_cassette_and_serial() {
    let id = MoteId(0x00_2A_C3_04);
    assert_eq!(id.cassette(), 0x2A);
    assert_eq!(id.serial(), 0xC304);
}

#[test]
fn mote_id_ignores_high_byte() {
    let id = MoteId(0xFF_2A_C3_04);
    assert_eq!(id.cassette(), 0x2A);
    assert_eq!(id.serial(), 0xC304);
    assert_eq!((id.cassette() as u32) * 0x1_0000 + id.serial() as u32, id.0 & 0x00FF_FFFF);
}

#[test]
fn frame_magic_is_distinct() {
    assert_ne!(FRAME_MAGIC, [0x00, 0x00]);
    assert_ne!(FRAME_MAGIC, [0xFF, 0xFF]);
}

fn fixture_sample() -> SensorSample {
    SensorSample { photodiode: [0, 0, 0, 0], temp_c100: 2000, hall: 0, cap_mv_over_10: 33 }
}

#[test]
fn null_classifier_always_heartbeat() {
    let c = NullClassifier;
    assert_eq!(c.classify(&fixture_sample()), Classification::Null);
}

#[test]
fn frame_carries_identity_and_sample_housekeeping() {
    let id = MoteIdentity { id: MoteId(0x0000_0001), seq: 7, bnn_version: 0 };
    let s = fixture_sample();
    let f = build_frame(&id, &s, Classification::Platinum);
    assert_eq!(f.mote, id.id);
    assert_eq!(f.seq, 7);
    assert_eq!(f.class, Classification::Platinum);
    assert_eq!(f.cap_mv_over_10, 33);
    assert_eq!(f.temp_c100, 2000);
    assert_eq!(f.confidence, 0);
}
