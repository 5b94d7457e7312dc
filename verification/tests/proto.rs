use nanobyte::proto::{decode, encode, kind, Header, ProtoError, HEADER_LEN};
use nanobyte::types::{FRAME_MAGIC, PROTOCOL_VERSION};

#[test]
fn heartbeat_roundtrip() {
    let h = Header {
        version: PROTOCOL_VERSION,
        payload_kind: kind::HEARTBEAT,
        seq: 42,
        payload_len: 0,
    };
    let bytes = encode(h, &[]);
    assert_eq!(bytes.len(), HEADER_LEN + 2);
    let (parsed, payload) = decode(&bytes).expect("decode roundtrip");
    assert_eq!(parsed, h);
    assert!(payload.is_empty());
}

#[test]
fn telemetry_with_payload_roundtrips() {
    let h = Header {
        version: PROTOCOL_VERSION,
        payload_kind: kind::TELEMETRY,
        seq: 1337,
        payload_len: 5,
    };
    let payload = [0xDE, 0xAD, 0xBE, 0xEF, 0x42];
    let bytes = encode(h, &payload);
    let (parsed, got_payload) = decode(&bytes).expect("decode");
    assert_eq!(parsed, h);
    assert_eq!(got_payload, &payload);
}

#[test]
fn flipped_bit_in_payload_fails_crc() {
    let h = Header {
        version: PROTOCOL_VERSION,
        payload_kind: kind::TELEMETRY,
        seq: 1,
        payload_len: 3,
    };
    let mut bytes = encode(h, &[1, 2, 3]);
    bytes[HEADER_LEN] ^= 0x01;
    assert!(matches!(decode(&bytes), Err(ProtoError::CrcMismatch { .. })));
}

#[test]
fn bad_magic_rejected() {
    let h = Header {
        version: PROTOCOL_VERSION,
        payload_kind: kind::HEARTBEAT,
        seq: 0,
        payload_len: 0,
    };
    let mut bytes = encode(h, &[]);
    bytes[0] = 0xFF;
    assert!(matches!(decode(&bytes), Err(ProtoError::BadMagic { .. })));
}

#[test]
fn unsupported_version_rejected() {
    let h = Header { version: 0xFE, payload_kind: kind::HEARTBEAT, seq: 0, payload_len: 0 };
    let bytes = encode(h, &[]);
    assert!(matches!(decode(&bytes), Err(ProtoError::UnsupportedVersion(0xFE))));
}

#[test]
fn too_short_rejected() {
    assert!(matches!(decode(&[0x4E, 0xB0]), Err(ProtoError::TooShort(_))));
}

#[test]
fn frame_bytes_are_exact() {
    let h = Header {
        version: PROTOCOL_VERSION,
        payload_kind: kind::COMMAND,
        seq: 0xABCD,
        payload_len: 9,
    };
    let bytes = encode(h, b"123456789");
    assert_eq!(bytes[..8], [0x4E, 0xB0, 0x01, 0x03, 0xAB, 0xCD, 0x00, 0x09]);
    assert_eq!(&bytes[8..17], b"123456789");
    assert_eq!(bytes[17..], [0x29, 0xB1]);
}

#[test]
fn empty_payload_has_initial_crc() {
    let h = Header {
        version: PROTOCOL_VERSION,
        payload_kind: kind::HEARTBEAT,
        seq: 0,
        payload_len: 0,
    };
    assert_eq!(encode(h, &[])[8..], [0xFF, 0xFF]);
}

#[test]
fn length_field_holds_payload_length() {
    let h = Header {
        version: PROTOCOL_VERSION,
        payload_kind: kind::TELEMETRY,
        seq: 0,
        payload_len: 999,
    };
    let bytes = encode(h, &[7, 8]);
    assert_eq!(bytes[6..8], [0, 2]);
    let (parsed, _) = decode(&bytes).expect("decode");
    assert_eq!(parsed.payload_len, 2);
}

#[test]
fn payload_above_the_length_field_is_refused() {
    let h = Header {
        version: PROTOCOL_VERSION,
        payload_kind: kind::TELEMETRY,
        seq: 0,
        payload_len: 0,
    };
    let payload = vec![0u8; 0x1_0001];
    let bytes = encode(h, &payload);
    assert_eq!(bytes[6..8], [0, 1]);
    assert!(matches!(
        decode(&bytes),
        Err(ProtoError::LengthMismatch { header: 1, actual: 0x1_0001 })
    ));
}

#[test]
fn every_error_has_its_message() {
    let short = decode(&[0u8; 9]).err().unwrap();
    assert_eq!(short.message(), "frame too short: 9 bytes");
    let mut bytes = vec![0xFF, 0x0A, 1, 1, 0, 0, 0, 0, 0xFF, 0xFF];
    let magic = decode(&bytes).err().unwrap();
    assert_eq!(magic.message(), "bad magic: expected [4e, b0], got [ff, 0a]");
    bytes[0] = FRAME_MAGIC[0];
    bytes[1] = FRAME_MAGIC[1];
    bytes[2] = 7;
    let version = decode(&bytes).err().unwrap();
    assert_eq!(version.message(), "unsupported protocol version: 7");
    bytes[2] = PROTOCOL_VERSION;
    bytes[7] = 3;
    let length = decode(&bytes).err().unwrap();
    assert_eq!(length.message(), "length mismatch: header says 3, frame has 0");
    bytes[7] = 0;
    bytes[9] = 0x0E;
    let crc = decode(&bytes).err().unwrap();
    assert_eq!(crc.message(), "crc mismatch: expected ffff, got ff0e");
    bytes[9] = 0xFF;
    assert!(decode(&bytes).is_ok());
}

#[test]
fn two_adjacent_corrupt_bytes_are_detected() {
    let h = Header {
        version: PROTOCOL_VERSION,
        payload_kind: kind::TELEMETRY,
        seq: 1,
        payload_len: 4,
    };
    let good = encode(h, &[1, 2, 3, 4]);
    for a in 0..=255u8 {
        let mut bad = good.clone();
        bad[9] ^= a;
        bad[10] ^= 0x80;
        assert!(matches!(decode(&bad), Err(ProtoError::CrcMismatch { .. })));
    }
}

#[test]
fn valid_bytes_encode_back() {
    let h = Header {
        version: PROTOCOL_VERSION,
        payload_kind: 0x7F,
        seq: 0xFFFF,
        payload_len: 2,
    };
    let bytes = encode(h, &[0xAA, 0x55]);
    let (parsed, payload) = decode(&bytes).expect("decode");
    assert_eq!(encode(parsed, payload), bytes);
}
