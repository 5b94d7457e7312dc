use nanobyte::ground::{
    check_hashes, check_index, frame_magic, hashes, index, poll, protocol_version, Poll, SmokeError,
};
use nanobyte::proto::{decode, encode, kind, Header};
use nanobyte::selftest::{stage_protocol, stage_unit};
use nanobyte::sim::Swarm;
use nanobyte::types::{MoteId, PROTOCOL_VERSION};

#[test]
fn constants_as_texts() {
    assert_eq!(frame_magic(), "0x4EB0");
    assert_eq!(protocol_version(), "0x01");
}

#[test]
fn index_page() {
    let page = index("0.1.0", "mission.plan.md");
    assert!(page.starts_with("<!doctype html>\n<html><head><title>NANOBYTE ground</title></head>\n"));
    assert!(page.contains("<p>Mission plan: <code>mission.plan.md</code></p>"));
    assert!(page.contains("<tr><td>Protocol version</td><td>0x01</td></tr>"));
    assert!(page.contains("<tr><td>Frame magic</td><td>0x4EB0</td></tr>"));
    assert!(page.contains("<tr><td>Ground binary version</td><td>0.1.0</td></tr>"));
    assert!(page.ends_with("</body></html>"));
    assert!(check_index(&page).is_ok());
}

#[test]
fn hashes_of_a_binary() {
    let h = hashes(b"");
    assert_eq!(
        h.binary_blake3,
        "af1349b9f5f9a1a6a0404dea36dcc9499bcb25c9adc112b7cc9a93cae41f3262"
    );
    assert!(check_hashes(
        Some(&h.frame_magic),
        Some(&h.protocol_version),
        Some(&h.binary_blake3)
    )
    .is_ok());
}

#[test]
fn smoke_checks() {
    let hash = "0".repeat(64);
    let (m, v) = (frame_magic(), protocol_version());
    assert!(check_hashes(Some(&m), Some(&v), Some(&hash)).is_ok());
    let message = |r: Result<(), SmokeError>| r.err().expect("error").message();
    assert_eq!(message(check_hashes(None, None, None)), "frame_magic missing");
    assert_eq!(message(check_hashes(Some("x"), None, None)), "protocol_version missing");
    assert_eq!(message(check_hashes(Some("x"), Some("y"), None)), "binary_blake3 missing");
    assert_eq!(
        message(check_hashes(Some("x"), Some("y"), Some("z"))),
        "frame_magic mismatch: expected 0x4EB0 got x"
    );
    assert_eq!(
        message(check_hashes(Some(&m), Some("y"), Some("z"))),
        "protocol_version mismatch: expected 0x01 got y"
    );
    assert_eq!(
        message(check_hashes(Some(&m), Some(&v), Some("é"))),
        "binary_blake3 wrong length: 2 (expected 64)"
    );
    assert_eq!(message(check_index("other")), "/ response missing NANOBYTE branding");
}

#[test]
fn polling_gives_up() {
    assert_eq!(poll(30, true), Poll::Ready);
    assert_eq!(poll(29, false), Poll::Again);
    assert_eq!(poll(30, false), Poll::GiveUp);
}

#[test]
fn heartbeats_are_numbered() {
    let mut swarm = Swarm::new();
    let (id, bytes) = swarm.beat(3);
    assert_eq!(id, MoteId(0x0001_0003));
    let h = Header {
        version: PROTOCOL_VERSION,
        payload_kind: kind::HEARTBEAT,
        seq: 0,
        payload_len: 0,
    };
    assert_eq!(bytes, encode(h, &[]));
    let (_, next) = swarm.beat(4);
    assert_eq!(decode(&next).expect("frame").0.seq, 1);
    for _ in 2..65536 {
        swarm.beat(0);
    }
    let (_, wrapped) = swarm.beat(0);
    assert_eq!(decode(&wrapped).expect("frame").0.seq, 0);
    assert_eq!(swarm.emitted(), 65537);
}

#[test]
fn simulation_stops_at_the_total() {
    let mut swarm = Swarm::new();
    assert!(!swarm.finished(0));
    assert!(!swarm.finished(1));
    swarm.beat(0);
    assert!(swarm.finished(1));
    assert!(!swarm.finished(2));
    assert!(!swarm.finished(0));
}

#[test]
fn virtual_motes_have_their_own_serial() {
    let mut swarm = Swarm::new();
    let (id, _) = swarm.beat(0xFFFF);
    assert_eq!((id.cassette(), id.serial()), (1, 0xFFFF));
}

#[test]
fn self_test_passes() {
    assert!(stage_unit().is_ok());
    assert!(stage_protocol().is_ok());
}
