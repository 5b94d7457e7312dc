use nanobyte::desk::{
    after_read, class_label, render_row, Desk, DeskFrame, Outcome, PortAction, PortEvent,
    Readings, KIND_BME280, RING_SIZE,
};
use nanobyte::hexbytes::{hex_line, HexError};
use nanobyte::proto::{encode, kind, Header, ProtoError};
use nanobyte::types::PROTOCOL_VERSION;

const PAYLOAD: [u8; 15] =
    [0x00, 0x01, 0x00, 0x2A, 0, 5, 2, 0, 33, 0xFF, 0x9C, 0x13, 0x88, 0x27, 0x10];

fn line(payload_kind: u8, seq: u16, payload: &[u8]) -> String {
    let h = Header { version: PROTOCOL_VERSION, payload_kind, seq, payload_len: 0 };
    hex_line(&encode(h, payload))
}

#[test]
fn reports_are_read() {
    let f = DeskFrame::parse_payload(77, 5, &PAYLOAD).expect("report");
    assert_eq!(
        f,
        DeskFrame {
            received_ms: 77,
            seq: 5,
            mote_id: 0x0001_002A,
            class: 2,
            cap_mv_over_10: 33,
            temp_c100: -100,
            humidity_x100: 5000,
            pressure_x10: 10000,
        }
    );
    assert_eq!(DeskFrame::parse_payload(0, 5, &PAYLOAD[..14]), None);
    assert_eq!(DeskFrame::parse_payload(0, 5, &[0; 16]), None);
}

#[test]
fn class_labels() {
    assert_eq!(class_label(0), "null (heartbeat)");
    assert_eq!(class_label(1), "C1 · humid");
    assert_eq!(class_label(2), "C2 · warming");
    assert_eq!(class_label(3), "C3 · pressure-drop");
    assert_eq!(class_label(4), "unknown");
    assert_eq!(class_label(255), "unknown");
}

#[test]
fn a_report_line_is_stored() {
    let mut desk = Desk::new();
    let s = format!("  {}\r\n", line(KIND_BME280, 9, &PAYLOAD).to_uppercase());
    assert!(matches!(desk.take_line(&s, 1234), Outcome::Stored));
    assert_eq!((desk.len(), desk.total_frames(), desk.total_bad()), (1, 1, 0));
    let f = desk.newest(0).expect("frame");
    assert_eq!((f.seq, f.received_ms, f.mote_id), (9, 1234, 0x0001_002A));
    assert_eq!(desk.newest(1), None);
}

#[test]
fn other_lines_have_their_outcomes() {
    let mut desk = Desk::new();
    assert!(matches!(desk.take_line(" \n", 0), Outcome::Blank));
    match desk.take_line("#  boot ok \n", 0) {
        Outcome::Comment(s) => assert_eq!(s, "boot ok"),
        _ => panic!("comment"),
    }
    assert!(matches!(
        desk.take_line(&line(kind::HEARTBEAT, 1, &[]), 0),
        Outcome::OtherKind(kind::HEARTBEAT)
    ));
    assert_eq!((desk.total_frames(), desk.total_bad()), (0, 0));
    assert!(matches!(desk.take_line("abc", 0), Outcome::BadHex(HexError::OddLength)));
    assert!(matches!(
        desk.take_line("4eg0", 0),
        Outcome::BadHex(HexError::InvalidHexCharacter { c: 'g', index: 2 })
    ));
    assert!(matches!(
        desk.take_line("é", 0),
        Outcome::BadHex(HexError::InvalidHexCharacter { c: 'Ã', index: 0 })
    ));
    assert!(matches!(desk.take_line("4eb0", 0), Outcome::BadFrame(ProtoError::TooShort(2))));
    assert!(matches!(
        desk.take_line(&line(KIND_BME280, 1, &[1, 2, 3]), 0),
        Outcome::WrongSize(3)
    ));
    assert_eq!((desk.len(), desk.total_frames(), desk.total_bad()), (0, 0, 5));
}

#[test]
fn ring_holds_latest_frames() {
    let mut desk = Desk::new();
    for seq in 0..130u16 {
        assert!(matches!(
            desk.take_line(&line(KIND_BME280, seq, &PAYLOAD), seq as u64),
            Outcome::Stored
        ));
    }
    assert_eq!(desk.len(), RING_SIZE);
    assert_eq!(desk.total_frames(), 130);
    assert_eq!(desk.newest(0).expect("frame").seq, 129);
    assert_eq!(desk.newest(119).expect("frame").seq, 10);
    assert_eq!(desk.newest(120), None);
}

#[test]
fn reading_never_stops() {
    assert_eq!(after_read(PortEvent::Line), PortAction::Take);
    assert_eq!(after_read(PortEvent::TimedOut), PortAction::Retry);
    assert_eq!(after_read(PortEvent::Eof), PortAction::Wait(1000));
    assert_eq!(after_read(PortEvent::Failed), PortAction::Wait(1000));
}

#[test]
fn dashboard_rows() {
    let f = DeskFrame::parse_payload(100, 5, &PAYLOAD).expect("report");
    let readings = Readings { temp: "-1.00", humidity: "50.0", pressure: "1000.0" };
    assert_eq!(
        render_row(&f, &readings, 350),
        "<tr><td>5</td><td>0x0001002A</td><td>C2 · warming</td><td>-1.00</td><td>50.0</td><td>1000.0</td><td>250 ms</td></tr>"
    );
    assert!(render_row(&f, &readings, 99).ends_with("<td>0 ms</td></tr>"));
}

#[test]
fn dashboard_page() {
    let mut desk = Desk::new();
    desk.take_line("zz", 0);
    let empty = desk.render_page("/dev/ttyUSB0", "mission.plan.md", "");
    assert!(empty.starts_with("<!doctype html>\n<html><head>\n<title>NANOBYTE desk-mote</title>"));
    assert!(empty.contains("Serial: <code>/dev/ttyUSB0</code> · frames decoded: <strong>0</strong> · bad lines: <strong>1</strong></p>"));
    assert!(empty.contains("waiting for first frame from the ESP32…"));
    assert!(empty.ends_with("Mission plan: <code>mission.plan.md</code></p>\n</body></html>"));
    let full = desk.render_page("p", "m", "<tr></tr>");
    assert!(full.contains("<th>age</th></tr><tr></tr></table>"));
    assert!(!full.contains("waiting"));
}
