//! The desk mote: lines from its serial port, the ring of its latest frames,
//! and the dashboard page.

use vstd::prelude::*;
use std::collections::VecDeque;
use crate::be;
use crate::hexbytes::{self, HexError};
use crate::proto::{self, ProtoError};
use crate::text;

verus! {

/// Payload kind of a sensor report of the desk mote.
pub const KIND_BME280: u8 = 0x10;

/// How many frames the dashboard keeps.
pub const RING_SIZE: usize = 120;

/// Length of a sensor report in bytes.
pub const REPORT_LEN: usize = 15;

/// How long to wait before reading again after the port gave nothing, in
/// milliseconds.
pub const BACKOFF_MS: u64 = 1000;

// ---------------------------------------------------------------------------
// Frames
// ---------------------------------------------------------------------------

/// A sensor report of the desk mote.
#[derive(Copy, Clone, Debug, PartialEq, Eq, Structural)]
pub struct DeskFrame {
    /// When the report came in, in milliseconds of the receiver's clock.
    pub received_ms: u64,
    /// Sequence number of the frame.
    pub seq: u16,
    /// Identifier of the mote.
    pub mote_id: u32,
    /// Class code.
    pub class: u8,
    /// Capacitor voltage.
    pub cap_mv_over_10: u8,
    /// Temperature in hundredths of a degree Celsius.
    pub temp_c100: i16,
    /// Relative humidity in hundredths of a percent.
    pub humidity_x100: u16,
    /// Pressure in tenths of a hectopascal.
    pub pressure_x10: u16,
}

/// A number of 16 bits read as two's complement.
pub open spec fn two_complement(n: int) -> int {
    if n < 0x8000 {
        n
    } else {
        n - 0x1_0000
    }
}

/// The report that a payload of the right length holds. Bytes 4 and 5 echo the
/// sequence number; byte 7 is not in use.
pub open spec fn report_of(received_ms: u64, seq: u16, payload: Seq<u8>) -> DeskFrame {
    DeskFrame {
        received_ms,
        seq,
        mote_id: be::be_value(payload.take(4)) as u32,
        class: payload[6],
        cap_mv_over_10: payload[8],
        temp_c100: two_complement(be::from_be16(payload[9], payload[10])) as i16,
        humidity_x100: be::from_be16(payload[11], payload[12]) as u16,
        pressure_x10: be::from_be16(payload[13], payload[14]) as u16,
    }
}

impl DeskFrame {
    /// Reads the payload of a sensor report. A payload of another length is
    /// none.
    pub fn parse_payload(received_ms: u64, seq: u16, payload: &[u8]) -> (r: Option<Self>)
        ensures
            r == if payload@.len() == REPORT_LEN {
                Some(report_of(received_ms, seq, payload@))
            } else {
                None
            },
            r is Some <==> payload@.len() == 15,
            r matches Some(f) ==> holds_fields(f, payload@) && f.received_ms == received_ms && f.seq
                == seq,
    {
        if payload.len() != REPORT_LEN {
            return None;
        }
        let mote_id: u32 = (payload[0] as u32) * 0x100_0000 + (payload[1] as u32) * 0x1_0000 + (
        payload[2] as u32) * 0x100 + (payload[3] as u32);
        proof {
            lemma_four_bytes(payload@.take(4));
            law_report_holds_its_fields(received_ms, seq, payload@);
        }
        Some(
            DeskFrame {
                received_ms,
                seq,
                mote_id,
                class: payload[6],
                cap_mv_over_10: payload[8],
                temp_c100: be::read_i16(payload[9], payload[10]),
                humidity_x100: be::read_u16(payload[11], payload[12]),
                pressure_x10: be::read_u16(payload[13], payload[14]),
            },
        )
    }
}

proof fn lemma_four_bytes(b: Seq<u8>)
    requires
        b.len() == 4,
    ensures
        be::be_value(b) == b[0] * 0x100_0000 + b[1] * 0x1_0000 + b[2] * 0x100 + b[3],
{
    reveal_with_fuel(be::be_value, 5);
    assert(b.drop_last().last() == b[2]);
    assert(b.drop_last().drop_last().last() == b[1]);
    assert(b.drop_last().drop_last().drop_last().last() == b[0]);
}

/// A frame holds the fields of a payload: bytes 0 to 3 are the mote, 6 the class,
/// 8 the voltage, 9 and 10 the temperature, which may be below zero, 11 and 12
/// the humidity, 13 and 14 the pressure, each with its high byte first.
pub open spec fn holds_fields(f: DeskFrame, payload: Seq<u8>) -> bool {
    &&& f.mote_id == payload[0] * 0x100_0000 + payload[1] * 0x1_0000 + payload[2] * 0x100
        + payload[3]
    &&& f.class == payload[6]
    &&& f.cap_mv_over_10 == payload[8]
    &&& f.temp_c100 as int == payload[9] * 0x100 + payload[10] || f.temp_c100 as int == payload[9]
        * 0x100 + payload[10] - 0x1_0000
    &&& f.humidity_x100 == payload[11] * 0x100 + payload[12]
    &&& f.pressure_x10 == payload[13] * 0x100 + payload[14]
}

/// A report holds the fields of its payload.
pub proof fn law_report_holds_its_fields(received_ms: u64, seq: u16, payload: Seq<u8>)
    requires
        payload.len() == 15,
    ensures
        holds_fields(report_of(received_ms, seq, payload), payload),
        report_of(received_ms, seq, payload).received_ms == received_ms,
        report_of(received_ms, seq, payload).seq == seq,
{
    lemma_four_bytes(payload.take(4));
}

/// What a mote writes into a payload is read back: its identifier, and every
/// temperature, humidity and pressure, high bytes first, a temperature below
/// zero as two's complement.
pub proof fn law_report_reads_back(
    received_ms: u64,
    seq: u16,
    payload: Seq<u8>,
    id: u32,
    temp: i16,
    humidity: u16,
    pressure: u16,
)
    requires
        payload.len() == 15,
        payload[0] == id as int / 0x100_0000,
        payload[1] == (id as int / 0x1_0000) % 0x100,
        payload[2] == (id as int / 0x100) % 0x100,
        payload[3] == id as int % 0x100,
        payload[9] == (temp as int % 0x1_0000) / 0x100,
        payload[10] == temp as int % 0x100,
        payload[11] == humidity as int / 0x100,
        payload[12] == humidity as int % 0x100,
        payload[13] == pressure as int / 0x100,
        payload[14] == pressure as int % 0x100,
    ensures
        report_of(received_ms, seq, payload).mote_id == id,
        report_of(received_ms, seq, payload).temp_c100 == temp,
        report_of(received_ms, seq, payload).humidity_x100 == humidity,
        report_of(received_ms, seq, payload).pressure_x10 == pressure,
{
    law_report_holds_its_fields(received_ms, seq, payload);
    assert((temp as int % 0x1_0000) % 0x100 == temp as int % 0x100);
    assert(payload[9] * 0x100 + payload[10] == temp as int % 0x1_0000);
}

/// The name of a class code on the dashboard.
pub open spec fn label_of(class: u8) -> Seq<char> {
    if class == 0 {
        "null (heartbeat)"@
    } else if class == 1 {
        "C1 · humid"@
    } else if class == 2 {
        "C2 · warming"@
    } else if class == 3 {
        "C3 · pressure-drop"@
    } else {
        "unknown"@
    }
}

/// The name of a class code on the dashboard.
pub fn class_label(c: u8) -> (r: &'static str)
    ensures
        r@ == label_of(c),
{
    match c {
        0 => "null (heartbeat)",
        1 => "C1 · humid",
        2 => "C2 · warming",
        3 => "C3 · pressure-drop",
        _ => "unknown",
    }
}

/// Classes 0 to 3 have a name each; every other code is unknown.
pub proof fn law_only_four_classes_are_known(class: u8)
    ensures
        label_of(0) == "null (heartbeat)"@,
        label_of(1) == "C1 · humid"@,
        label_of(2) == "C2 · warming"@,
        label_of(3) == "C3 · pressure-drop"@,
        class >= 4 ==> label_of(class) == "unknown"@,
{
}

// ---------------------------------------------------------------------------
// Lines
// ---------------------------------------------------------------------------

/// What a line of the serial port says.
pub enum Meaning {
    /// Nothing but white space.
    Blank,
    /// Debug output of the device.
    Comment(Seq<char>),
    /// Not bytes in hexadecimal notation.
    NotHex,
    /// Bytes that are not a frame.
    NotFrame,
    /// A frame of another kind.
    OtherKind(u8),
    /// A sensor report whose payload has the wrong length.
    WrongSize(nat),
    /// A sensor report: its sequence number and payload.
    Report(u16, Seq<u8>),
}

/// What bytes say.
pub open spec fn meaning_of_bytes(bytes: Seq<u8>) -> Meaning {
    if !proto::valid(bytes) {
        Meaning::NotFrame
    } else if proto::header_of(bytes).payload_kind != KIND_BME280 {
        Meaning::OtherKind(proto::header_of(bytes).payload_kind)
    } else if proto::payload_of(bytes).len() != REPORT_LEN {
        Meaning::WrongSize(proto::payload_of(bytes).len())
    } else {
        Meaning::Report(proto::header_of(bytes).seq, proto::payload_of(bytes))
    }
}

/// What a line says. White space around it does not count. A number sign marks
/// debug output; anything else is a frame in hexadecimal notation.
pub open spec fn meaning(line: Seq<char>) -> Meaning {
    let s = text::trim(line);
    if s.len() == 0 {
        Meaning::Blank
    } else if s[0] == '#' {
        Meaning::Comment(text::trim(s.drop_first()))
    } else {
        match hexbytes::content(vstd::utf8::encode_utf8(s)) {
            Some(bytes) => meaning_of_bytes(bytes),
            None => Meaning::NotHex,
        }
    }
}

/// What became of a line.
#[derive(Debug)]
pub enum Outcome {
    /// The line is blank.
    Blank,
    /// The line is debug output of the device.
    Comment(String),
    /// The line is not bytes in hexadecimal notation.
    BadHex(HexError),
    /// The bytes are not a frame.
    BadFrame(ProtoError),
    /// The frame is of another kind.
    OtherKind(u8),
    /// The payload has the wrong length.
    WrongSize(usize),
    /// The report went to the ring.
    Stored,
}

/// Whether an outcome is the one for a line.
pub open spec fn follows(o: Outcome, line: Seq<char>) -> bool {
    let digits = vstd::utf8::encode_utf8(text::trim(line));
    match meaning(line) {
        Meaning::Blank => o is Blank,
        Meaning::Comment(s) => o matches Outcome::Comment(c) && c@ == s,
        Meaning::NotHex => o matches Outcome::BadHex(e) && hexbytes::explains(e, digits),
        Meaning::NotFrame => o matches Outcome::BadFrame(e) && proto::explains(
            e,
            hexbytes::content(digits)->0,
        ),
        Meaning::OtherKind(k) => o == Outcome::OtherKind(k),
        Meaning::WrongSize(n) => o matches Outcome::WrongSize(k) && k == n,
        Meaning::Report(_, _) => o is Stored,
    }
}

/// A sensor report that a mote sends as a line is understood as that report,
/// whatever white space stands around the line and whatever the case of its
/// digits.
pub proof fn law_report_line_is_understood(
    line: Seq<char>,
    header: proto::Header,
    payload: Seq<u8>,
)
    requires
        header.version == 1,
        header.payload_kind == 0x10,
        header.payload_len == payload.len(),
        payload.len() == 15,
        hexbytes::content(vstd::utf8::encode_utf8(text::trim(line))) == Some(
            proto::wire(header, payload),
        ),
    ensures
        meaning(line) == Meaning::Report(header.seq, payload),
{
    let s = text::trim(line);
    let b = vstd::utf8::encode_utf8(s);
    proto::law_decode_reads_back_encode(header, payload);
    if s.len() == 0 {
        assert(b.len() == 0);
        assert(hexbytes::bytes_of(b).len() == 0);
    } else if s[0] == '#' {
        lemma_first_byte(s);
        assert(hexbytes::digit(b[0]) is None);
    }
}

/// A line that holds a frame in hexadecimal notation means what the frame says:
/// a sensor report is understood as that report, and a frame of another kind
/// as one of its kind.
pub proof fn law_written_frame_is_understood(header: proto::Header, payload: Seq<u8>)
    requires
        header.version == 1,
        header.payload_len == payload.len(),
    ensures
        ({
            let m = meaning(hexbytes::hex_text(proto::wire(header, payload)));
            if header.payload_kind != 0x10 {
                m == Meaning::OtherKind(header.payload_kind)
            } else if payload.len() != 15 {
                m == Meaning::WrongSize(payload.len())
            } else {
                m == Meaning::Report(header.seq, payload)
            }
        }),
{
    let w = proto::wire(header, payload);
    let s = hexbytes::hex_text(w);
    let b = vstd::utf8::encode_utf8(s);
    proto::law_decode_reads_back_encode(header, payload);
    hexbytes::law_hex_reads_back(w);
    hexbytes::lemma_hex_text_is_trimmed(w);
    if s.len() == 0 {
        assert(b.len() == 0);
        assert(hexbytes::bytes_of(b).len() == 0);
    } else if s[0] == '#' {
        lemma_first_byte(s);
        assert(hexbytes::digit(b[0]) is None);
    }
}

/// White space says nothing. A number sign after white space marks debug output,
/// which is what follows without the white space around it.
pub proof fn law_comments_and_blanks_are_understood(
    before: Seq<char>,
    comment: Seq<char>,
    after: Seq<char>,
)
    requires
        forall|i: int| 0 <= i < before.len() ==> text::is_space(#[trigger] before[i]),
        forall|i: int| 0 <= i < after.len() ==> text::is_space(#[trigger] after[i]),
        comment.len() > 0 ==> !text::is_space(comment[0]) && !text::is_space(comment.last()),
    ensures
        meaning(before) == Meaning::Blank,
        meaning(seq!['#'] + before + comment + after) == Meaning::Comment(comment),
        meaning(before + (seq!['#'] + comment) + after) == Meaning::Comment(comment),
{
    let none = Seq::<char>::empty();
    text::law_trimming_finds_the_text(before, none, none);
    assert(before + none + none =~= before);
    text::law_printing_characters_are_no_space('#');
    let marked = seq!['#'] + comment;
    assert(marked.last() == if comment.len() > 0 { comment.last() } else { '#' });
    text::law_trimming_finds_the_text(before, marked, after);
    assert(marked.drop_first() =~= comment);
    text::law_trimming_finds_the_text(none, comment, none);
    assert(none + comment + none =~= comment);
    if comment.len() > 0 {
        let line = seq!['#'] + before + comment;
        assert(line.last() == comment.last());
        text::law_trimming_finds_the_text(none, line, after);
        assert(none + line + after =~= seq!['#'] + before + comment + after);
        assert(line.drop_first() =~= before + comment + none);
        text::law_trimming_finds_the_text(before, comment, none);
    } else {
        let gap = before + after;
        text::law_trimming_finds_the_text(none, seq!['#'], gap);
        assert(none + seq!['#'] + gap =~= seq!['#'] + before + comment + after);
        assert(seq!['#'].drop_first() =~= none);
        assert(comment =~= none);
    }
}

/// A text that starts with a number sign is encoded as bytes that do.
proof fn lemma_first_byte(s: Seq<char>)
    requires
        s.len() > 0,
        s[0] == '#',
    ensures
        vstd::utf8::encode_utf8(s).len() > 0,
        vstd::utf8::encode_utf8(s)[0] == 0x23,
{
    let one = seq!['#'];
    let rest = s.drop_first();
    vstd::utf8::is_ascii_chars_encode_utf8(one);
    assert(vstd::utf8::encode_utf8(one)[0] == 0x23u8);
    assert(one.drop_first() =~= Seq::<char>::empty());
    assert(vstd::utf8::encode_utf8(one) =~= vstd::utf8::encode_scalar('#' as u32));
    assert(vstd::utf8::encode_utf8(s) == vstd::utf8::encode_scalar('#' as u32)
        + vstd::utf8::encode_utf8(rest));
}

// ---------------------------------------------------------------------------
// The ring
// ---------------------------------------------------------------------------

/// The latest frames of a history, at most `RING_SIZE`.
pub open spec fn latest_frames(history: Seq<DeskFrame>) -> Seq<DeskFrame> {
    if history.len() <= RING_SIZE {
        history
    } else {
        history.skip(history.len() - RING_SIZE)
    }
}

/// A ring with one more frame; a full ring loses its oldest.
pub open spec fn with_frame(ring: Seq<DeskFrame>, f: DeskFrame) -> Seq<DeskFrame> {
    latest_frames(ring.push(f))
}

/// The ring always holds the latest frames of all that came in.
pub proof fn law_ring_holds_latest_frames(history: Seq<DeskFrame>, f: DeskFrame)
    ensures
        with_frame(latest_frames(history), f) == latest_frames(history.push(f)),
        latest_frames(history).len() == if history.len() < 120 {
            history.len()
        } else {
            120
        },
        forall|k: int|
            0 <= k < latest_frames(history).len() ==> #[trigger] latest_frames(history)[k]
                == history[history.len() - latest_frames(history).len() + k],
{
    assert(with_frame(latest_frames(history), f) =~= latest_frames(history.push(f)));
}

/// State of the listener.
pub struct Desk {
    ring: VecDeque<DeskFrame>,
    total_frames: u64,
    total_bad: u64,
}

impl Desk {
    /// The frames in the ring, oldest first.
    pub closed spec fn ring(self) -> Seq<DeskFrame> {
        self.ring@
    }

    /// How many reports came in.
    pub closed spec fn frames(self) -> nat {
        self.total_frames as nat
    }

    /// How many lines were bad.
    pub closed spec fn bad(self) -> nat {
        self.total_bad as nat
    }

    /// The ring holds every report until it is full, and stays full.
    pub open spec fn wf(self) -> bool {
        self.ring().len() == if self.frames() < RING_SIZE {
            self.frames()
        } else {
            RING_SIZE as nat
        }
    }

    /// A listener that has read nothing.
    pub fn new() -> (r: Self)
        ensures
            r.wf(),
            r.ring() == Seq::<DeskFrame>::empty(),
            r.frames() == 0,
            r.bad() == 0,
    {
        Desk { ring: VecDeque::with_capacity(RING_SIZE), total_frames: 0, total_bad: 0 }
    }

    /// How many frames the ring holds.
    pub fn len(&self) -> (r: usize)
        ensures
            r == self.ring().len(),
    {
        self.ring.len()
    }

    /// A frame of the ring, counted from the newest.
    pub fn newest(&self, k: usize) -> (r: Option<DeskFrame>)
        ensures
            r == if k < self.ring().len() {
                Some(self.ring()[self.ring().len() - 1 - k])
            } else {
                None
            },
    {
        let n: usize = self.ring.len();
        if k < n {
            Some(self.ring[n - 1 - k])
        } else {
            None
        }
    }

    /// How many reports came in.
    pub fn total_frames(&self) -> (r: u64)
        ensures
            r == self.frames(),
    {
        self.total_frames
    }

    /// How many lines were bad.
    pub fn total_bad(&self) -> (r: u64)
        ensures
            r == self.bad(),
    {
        self.total_bad
    }

    /// Takes a line of the serial port. A sensor report goes to the ring. A
    /// line that is not a frame, or a report of the wrong size, counts as bad.
    /// Blank lines, debug output and frames of other kinds change nothing.
    pub fn take_line(&mut self, line: &str, received_ms: u64) -> (r: Outcome)
        requires
            old(self).wf(),
            old(self).frames() < u64::MAX,
            old(self).bad() < u64::MAX,
        ensures
            final(self).wf(),
            follows(r, line@),
            match meaning(line@) {
                Meaning::Report(seq, payload) => {
                    let f = report_of(received_ms, seq, payload);
                    &&& final(self).ring() == with_frame(old(self).ring(), f)
                    &&& final(self).frames() == old(self).frames() + 1
                    &&& final(self).bad() == old(self).bad()
                },
                Meaning::NotHex | Meaning::NotFrame | Meaning::WrongSize(_) => {
                    &&& final(self).ring() == old(self).ring()
                    &&& final(self).frames() == old(self).frames()
                    &&& final(self).bad() == old(self).bad() + 1
                },
                _ => *final(self) == *old(self),
            },
    {
        let s = text::trimmed(line);
        let v = text::chars_of(s.as_str());
        if v.len() == 0 {
            return Outcome::Blank;
        }
        if v[0] == '#' {
            let (lo, hi) = text::trimmed_range(&v, 1, v.len());
            assert(v@.subrange(1, v@.len() as int) =~= s@.drop_first());
            return Outcome::Comment(text::text_between(&v, lo, hi));
        }
        let bytes = match hexbytes::decode(s.as_str().as_bytes()) {
            Ok(b) => b,
            Err(e) => {
                self.total_bad = self.total_bad + 1;
                return Outcome::BadHex(e);
            },
        };
        match proto::decode(bytes.as_slice()) {
            Ok((header, payload)) => {
                if header.payload_kind != KIND_BME280 {
                    return Outcome::OtherKind(header.payload_kind);
                }
                match DeskFrame::parse_payload(received_ms, header.seq, payload) {
                    Some(f) => {
                        if self.ring.len() == RING_SIZE {
                            let _ = self.ring.pop_front();
                        }
                        self.ring.push_back(f);
                        self.total_frames = self.total_frames + 1;
                        assert(self.ring() =~= with_frame(old(self).ring(), f));
                        Outcome::Stored
                    },
                    None => {
                        self.total_bad = self.total_bad + 1;
                        Outcome::WrongSize(payload.len())
                    },
                }
            },
            Err(e) => {
                self.total_bad = self.total_bad + 1;
                Outcome::BadFrame(e)
            },
        }
    }
}

/// What reading from the port came to.
#[derive(Copy, Clone, Debug, PartialEq, Eq, Structural)]
pub enum PortEvent {
    /// A line was read.
    Line,
    /// The port is at its end; it may have been unplugged.
    Eof,
    /// Nothing came in time.
    TimedOut,
    /// Reading failed.
    Failed,
}

/// What the listener does next.
#[derive(Copy, Clone, Debug, PartialEq, Eq, Structural)]
pub enum PortAction {
    /// Take the line.
    Take,
    /// Read again at once.
    Retry,
    /// Read again after so many milliseconds.
    Wait(u64),
}

/// Decides what the listener does after reading from the port. It never stops.
pub fn after_read(event: PortEvent) -> (r: PortAction)
    ensures
        r == (match event {
            PortEvent::Line => PortAction::Take,
            PortEvent::TimedOut => PortAction::Retry,
            PortEvent::Eof | PortEvent::Failed => PortAction::Wait(BACKOFF_MS),
        }),
        r matches PortAction::Wait(ms) ==> ms == 1000,
{
    match event {
        PortEvent::Line => PortAction::Take,
        PortEvent::TimedOut => PortAction::Retry,
        PortEvent::Eof | PortEvent::Failed => PortAction::Wait(BACKOFF_MS),
    }
}

// ---------------------------------------------------------------------------
// The dashboard
// ---------------------------------------------------------------------------

/// The readings of a frame as texts.
pub struct Readings<'a> {
    /// Temperature in degrees Celsius.
    pub temp: &'a str,
    /// Relative humidity in percent.
    pub humidity: &'a str,
    /// Pressure in hectopascal.
    pub pressure: &'a str,
}

/// The age of a frame in milliseconds; zero where the clock ran backwards.
pub open spec fn age_of(f: DeskFrame, now_ms: u64) -> nat {
    if now_ms < f.received_ms {
        0
    } else {
        (now_ms - f.received_ms) as nat
    }
}

/// The age of a frame is the time since it came in, and never below zero.
pub proof fn law_age_is_the_time_since(f: DeskFrame, now_ms: u64)
    ensures
        now_ms >= f.received_ms ==> f.received_ms + age_of(f, now_ms) == now_ms,
        now_ms <= f.received_ms ==> age_of(f, now_ms) == 0,
{
}

/// A row of the dashboard's table.
pub open spec fn row_text(f: DeskFrame, readings: Readings, now_ms: u64) -> Seq<char> {
    "<tr><td>"@ + text::dec(f.seq as nat) + "</td><td>0x"@ + text::hex(f.mote_id as nat, 8, true)
        + "</td><td>"@ + label_of(f.class) + "</td><td>"@ + readings.temp@ + "</td><td>"@
        + readings.humidity@ + "</td><td>"@ + readings.pressure@ + "</td><td>"@ + text::dec(
        age_of(f, now_ms),
    ) + " ms</td></tr>"@
}

/// Cells of a table, one after the other.
pub open spec fn cells(texts: Seq<Seq<char>>) -> Seq<char>
    decreases texts.len(),
{
    if texts.len() == 0 {
        Seq::empty()
    } else {
        cells(texts.drop_last()) + "<td>"@ + texts.last() + "</td>"@
    }
}

proof fn lemma_cells(texts: Seq<Seq<char>>, t: Seq<char>)
    ensures
        cells(texts.push(t)) == cells(texts) + "<td>"@ + t + "</td>"@,
        cells(Seq::<Seq<char>>::empty()) == Seq::<char>::empty(),
{
    assert(texts.push(t).drop_last() =~= texts);
}

/// A row of the dashboard has a cell each for the sequence number, the mote in
/// hexadecimal notation, the class, the three readings and the age.
pub proof fn law_row_holds_the_cells(f: DeskFrame, readings: Readings, now_ms: u64)
    ensures
        row_text(f, readings, now_ms) == "<tr>"@ + cells(
            seq![
                text::dec(f.seq as nat),
                "0x"@ + text::hex(f.mote_id as nat, 8, true),
                label_of(f.class),
                readings.temp@,
                readings.humidity@,
                readings.pressure@,
                text::dec(age_of(f, now_ms)) + " ms"@,
            ],
        ) + "</tr>"@,
{
    let a = text::dec(f.seq as nat);
    let b = text::hex(f.mote_id as nat, 8, true);
    let c = label_of(f.class);
    let d = readings.temp@;
    let e = readings.humidity@;
    let g = readings.pressure@;
    let h = text::dec(age_of(f, now_ms));
    lemma_row(row_text(f, readings, now_ms), a, b, c, d, e, g, h);
}

/// One more cell of a row.
proof fn lemma_next_cell(row: Seq<char>, texts: Seq<Seq<char>>, t: Seq<char>)
    requires
        row + "</td>"@ == "<tr>"@ + cells(texts),
    ensures
        row + "</td><td>"@ + t + "</td>"@ == "<tr>"@ + cells(texts.push(t)),
{
    reveal_strlit("<td>");
    reveal_strlit("</td>");
    reveal_strlit("</td><td>");
    lemma_cells(texts, t);
    assert("</td><td>"@ =~= "</td>"@ + "<td>"@);
    let end = "<td>"@ + t + "</td>"@;
    assert(row + "</td><td>"@ + t + "</td>"@ =~= (row + "</td>"@) + end);
    assert("<tr>"@ + cells(texts.push(t)) =~= ("<tr>"@ + cells(texts)) + end);
}

proof fn lemma_row(
    row: Seq<char>,
    a: Seq<char>,
    b: Seq<char>,
    c: Seq<char>,
    d: Seq<char>,
    e: Seq<char>,
    g: Seq<char>,
    h: Seq<char>,
)
    requires
        row == "<tr><td>"@ + a + "</td><td>0x"@ + b + "</td><td>"@ + c + "</td><td>"@ + d
            + "</td><td>"@ + e + "</td><td>"@ + g + "</td><td>"@ + h + " ms</td></tr>"@,
    ensures
        row == "<tr>"@ + cells(seq![a, "0x"@ + b, c, d, e, g, h + " ms"@]) + "</tr>"@,
{
    let none = Seq::<Seq<char>>::empty();
    let id = "0x"@ + b;
    let age = h + " ms"@;
    let t1 = "<tr><td>"@ + a;
    let t2 = t1 + "</td><td>0x"@ + b;
    let t3 = t2 + "</td><td>"@ + c;
    let t4 = t3 + "</td><td>"@ + d;
    let t5 = t4 + "</td><td>"@ + e;
    let t6 = t5 + "</td><td>"@ + g;
    let t7 = t6 + "</td><td>"@ + age;
    let s1 = none.push(a);
    let s2 = s1.push(id);
    let s3 = s2.push(c);
    let s4 = s3.push(d);
    let s5 = s4.push(e);
    let s6 = s5.push(g);
    let s7 = s6.push(age);
    assert(t1 + "</td>"@ == "<tr>"@ + cells(s1)) by {
        reveal_strlit("<tr>");
        reveal_strlit("<td>");
        reveal_strlit("<tr><td>");
        lemma_cells(none, a);
        assert("<tr><td>"@ =~= "<tr>"@ + "<td>"@);
        assert(t1 + "</td>"@ =~= "<tr>"@ + cells(s1));
    }
    lemma_next_cell(t1, s1, id);
    assert(t1 + "</td><td>"@ + id == t2) by {
        reveal_strlit("</td><td>");
        reveal_strlit("0x");
        reveal_strlit("</td><td>0x");
        assert("</td><td>0x"@ =~= "</td><td>"@ + "0x"@);
        assert(t1 + "</td><td>"@ + id =~= t2);
    }
    lemma_next_cell(t2, s2, c);
    lemma_next_cell(t3, s3, d);
    lemma_next_cell(t4, s4, e);
    lemma_next_cell(t5, s5, g);
    lemma_next_cell(t6, s6, age);
    assert(row == t7 + "</td>"@ + "</tr>"@) by {
        reveal_strlit(" ms");
        reveal_strlit("</td>");
        reveal_strlit("</tr>");
        reveal_strlit(" ms</td></tr>");
        assert(" ms</td></tr>"@ =~= " ms"@ + "</td>"@ + "</tr>"@);
        assert(row =~= t7 + "</td>"@ + "</tr>"@);
    }
    assert(seq![a, id, c, d, e, g, age] =~= s7);
}

/// Renders a row of the dashboard's table, given the texts of the readings.
pub fn render_row(f: &DeskFrame, readings: &Readings, now_ms: u64) -> (r: String)
    ensures
        r@ == row_text(*f, *readings, now_ms),
{
    let mut out = "<tr><td>".to_owned();
    text::push_dec(&mut out, f.seq as u64);
    out.append("</td><td>0x");
    text::push_hex(&mut out, f.mote_id, 8, true);
    out.append("</td><td>");
    out.append(class_label(f.class));
    out.append("</td><td>");
    out.append(readings.temp);
    out.append("</td><td>");
    out.append(readings.humidity);
    out.append("</td><td>");
    out.append(readings.pressure);
    out.append("</td><td>");
    let age: u64 = if now_ms < f.received_ms {
        0
    } else {
        now_ms - f.received_ms
    };
    text::push_dec(&mut out, age);
    out.append(" ms</td></tr>");
    out
}

/// What the dashboard shows in place of rows where there are none.
pub open spec fn waiting_row() -> Seq<char> {
    "<tr><td colspan=\"7\" style=\"opacity:0.6;font-style:italic\">waiting for first frame from the ESP32…</td></tr>"@
}

/// The start of the dashboard page, up to the name of the port.
pub open spec fn page_start() -> Seq<char> {
    "<!doctype html>\n<html><head>\n<title>NANOBYTE desk-mote</title>\n<meta http-equiv=\"refresh\" content=\"1\">\n<style>\nbody { font-family: -apple-system, monospace; padding: 2rem; max-width: 900px; margin: 0 auto; }\ntable { border-collapse: collapse; width: 100%; margin-top: 1rem; }\nth, td { padding: 0.4rem 0.6rem; text-align: left; border-bottom: 1px solid #ccc; font-size: 0.9rem; }\nth { background: #f3f3f3; }\n.meta { opacity: 0.7; font-size: 0.85rem; }\n</style>\n</head>\n<body>\n<h1>NANOBYTE — desk-mote</h1>\n<p class=\"meta\">ESP32-WROOM + BME280 over USB serial → nanobyte-proto → this page. Auto-refresh 1 s.</p>\n<p class=\"meta\">Serial: <code>"@
}

/// The end of the dashboard page, after the rows. It names the mission plan.
pub open spec fn page_end(plan: Seq<char>) -> Seq<char> {
    "</table>\n<p class=\"meta\" style=\"margin-top:2rem\">Mission plan: <code>"@ + plan
        + "</code></p>\n</body></html>"@
}

/// The dashboard page.
pub open spec fn page_text(
    port: Seq<char>,
    plan: Seq<char>,
    frames: nat,
    bad: nat,
    rows: Seq<char>,
) -> Seq<char> {
    page_start() + port + "</code> · frames decoded: <strong>"@ + text::dec(frames)
        + "</strong> · bad lines: <strong>"@ + text::dec(bad)
        + "</strong></p>\n<table><tr><th>seq</th><th>mote_id</th><th>class</th><th>°C</th><th>%RH</th><th>hPa</th><th>age</th></tr>"@
        + (if rows.len() == 0 {
        waiting_row()
    } else {
        rows
    }) + page_end(plan)
}

/// A page holds rows where there are any, and else the row that says that none
/// has come yet, between a start and an end that do not depend on the rows. The
/// start holds the port, the number of reports and that of bad lines; the end
/// holds the plan.
pub open spec fn frames_rows(
    start: Seq<char>,
    end: Seq<char>,
    port: Seq<char>,
    plan: Seq<char>,
    frames: nat,
    bad: nat,
) -> bool {
    &&& forall|rows: Seq<char>|
        rows.len() > 0 ==> #[trigger] page_text(port, plan, frames, bad, rows) == start + rows + end
    &&& page_text(port, plan, frames, bad, Seq::empty()) == start + waiting_row() + end
    &&& text::occurs(start, "<code>"@ + port + "</code>"@)
    &&& text::occurs(start, "frames decoded: <strong>"@ + text::dec(frames) + "</strong>"@)
    &&& text::occurs(start, "bad lines: <strong>"@ + text::dec(bad) + "</strong>"@)
    &&& text::occurs(end, "<code>"@ + plan + "</code>"@)
}

/// Every page shows its rows, or that there are none yet.
pub proof fn law_page_shows_the_rows(port: Seq<char>, plan: Seq<char>, frames: nat, bad: nat)
    ensures
        exists|start: Seq<char>, end: Seq<char>| #[trigger]
            frames_rows(start, end, port, plan, frames, bad),
{
    let table = "</strong></p>\n<table><tr><th>seq</th><th>mote_id</th><th>class</th><th>°C</th><th>%RH</th><th>hPa</th><th>age</th></tr>"@;
    let a = page_start() + port + "</code> · frames decoded: <strong>"@;
    let b = a + text::dec(frames) + "</strong> · bad lines: <strong>"@;
    let start = b + text::dec(bad) + table;
    let end = page_end(plan);
    assert forall|rows: Seq<char>| rows.len() > 0 implies #[trigger] page_text(
        port,
        plan,
        frames,
        bad,
        rows,
    ) == start + rows + end by {}
    assert(text::occurs(start, "<code>"@ + port + "</code>"@)) by {
        let n = page_start().len() - 6;
        reveal_strlit("<code>");
        reveal_strlit("</code>");
        reveal_strlit("</code> · frames decoded: <strong>");
        lemma_page_start();
        assert(text::occurs_at(start, "<code>"@ + port + "</code>"@, n)) by {
            let t = "<code>"@ + port + "</code>"@;
            assert(start.subrange(n, n + t.len()) =~= t);
        }
    }
    assert(text::occurs(start, "frames decoded: <strong>"@ + text::dec(frames) + "</strong>"@)) by {
        reveal_strlit("frames decoded: <strong>");
        reveal_strlit("</strong>");
        reveal_strlit("</code> · frames decoded: <strong>");
        reveal_strlit("</strong> · bad lines: <strong>");
        let t = "frames decoded: <strong>"@ + text::dec(frames) + "</strong>"@;
        let n = a.len() - 24;
        assert(start.subrange(n, n + t.len()) =~= t);
        assert(text::occurs_at(start, t, n));
    }
    assert(text::occurs(start, "bad lines: <strong>"@ + text::dec(bad) + "</strong>"@)) by {
        reveal_strlit("bad lines: <strong>");
        reveal_strlit("</strong>");
        reveal_strlit("</strong> · bad lines: <strong>");
        reveal_strlit(
            "</strong></p>\n<table><tr><th>seq</th><th>mote_id</th><th>class</th><th>°C</th><th>%RH</th><th>hPa</th><th>age</th></tr>",
        );
        let t = "bad lines: <strong>"@ + text::dec(bad) + "</strong>"@;
        let n = b.len() - 19;
        assert(start.subrange(n, n + t.len()) =~= t);
        assert(text::occurs_at(start, t, n));
    }
    assert(text::occurs(end, "<code>"@ + plan + "</code>"@)) by {
        reveal_strlit("<code>");
        reveal_strlit("</code>");
        reveal_strlit("</code></p>\n</body></html>");
        reveal_strlit("</table>\n<p class=\"meta\" style=\"margin-top:2rem\">Mission plan: <code>");
        let t = "<code>"@ + plan + "</code>"@;
        let n = "</table>\n<p class=\"meta\" style=\"margin-top:2rem\">Mission plan: <code>"@.len() - 6;
        assert(end.subrange(n, n + t.len()) =~= t);
        assert(text::occurs_at(end, t, n));
    }
    assert(frames_rows(start, end, port, plan, frames, bad));
}

proof fn lemma_page_start()
    ensures
        page_start().len() >= 6,
        page_start().skip(page_start().len() - 6) == "<code>"@,
{
    reveal_strlit("<code>");
    reveal_strlit(
        "<!doctype html>\n<html><head>\n<title>NANOBYTE desk-mote</title>\n<meta http-equiv=\"refresh\" content=\"1\">\n<style>\nbody { font-family: -apple-system, monospace; padding: 2rem; max-width: 900px; margin: 0 auto; }\ntable { border-collapse: collapse; width: 100%; margin-top: 1rem; }\nth, td { padding: 0.4rem 0.6rem; text-align: left; border-bottom: 1px solid #ccc; font-size: 0.9rem; }\nth { background: #f3f3f3; }\n.meta { opacity: 0.7; font-size: 0.85rem; }\n</style>\n</head>\n<body>\n<h1>NANOBYTE — desk-mote</h1>\n<p class=\"meta\">ESP32-WROOM + BME280 over USB serial → nanobyte-proto → this page. Auto-refresh 1 s.</p>\n<p class=\"meta\">Serial: <code>",
    );
    assert(page_start().skip(page_start().len() - 6) =~= "<code>"@);
}

impl Desk {
    /// Renders the dashboard page around the rows of its table, given the names
    /// of the port and of the mission plan.
    pub fn render_page(&self, port: &str, plan: &str, rows: &str) -> (r: String)
        ensures
            r@ == page_text(port@, plan@, self.frames(), self.bad(), rows@),
    {
        let mut out = "<!doctype html>\n<html><head>\n<title>NANOBYTE desk-mote</title>\n<meta http-equiv=\"refresh\" content=\"1\">\n<style>\nbody { font-family: -apple-system, monospace; padding: 2rem; max-width: 900px; margin: 0 auto; }\ntable { border-collapse: collapse; width: 100%; margin-top: 1rem; }\nth, td { padding: 0.4rem 0.6rem; text-align: left; border-bottom: 1px solid #ccc; font-size: 0.9rem; }\nth { background: #f3f3f3; }\n.meta { opacity: 0.7; font-size: 0.85rem; }\n</style>\n</head>\n<body>\n<h1>NANOBYTE — desk-mote</h1>\n<p class=\"meta\">ESP32-WROOM + BME280 over USB serial → nanobyte-proto → this page. Auto-refresh 1 s.</p>\n<p class=\"meta\">Serial: <code>".to_owned();
        out.append(port);
        out.append("</code> · frames decoded: <strong>");
        text::push_dec(&mut out, self.total_frames);
        out.append("</strong> · bad lines: <strong>");
        text::push_dec(&mut out, self.total_bad);
        out.append("</strong></p>\n<table><tr><th>seq</th><th>mote_id</th><th>class</th><th>°C</th><th>%RH</th><th>hPa</th><th>age</th></tr>");
        if rows.unicode_len() == 0 {
            out.append("<tr><td colspan=\"7\" style=\"opacity:0.6;font-style:italic\">waiting for first frame from the ESP32…</td></tr>");
        } else {
            out.append(rows);
        }
        let mut end = "</table>\n<p class=\"meta\" style=\"margin-top:2rem\">Mission plan: <code>".to_owned();
        end.append(plan);
        end.append("</code></p>\n</body></html>");
        out.append(end.as_str());
        out
    }
}

} // verus!
