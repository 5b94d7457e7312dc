//! Packed binary wire format.
//!
//! A frame is an eight-byte header (magic, version, payload kind, sequence
//! number, payload length), the payload, and the CRC-16 of the payload.
//! Numbers are in network byte order.

use vstd::prelude::*;
use crate::be;
use crate::crc16;
use crate::text;
use crate::types::{FRAME_MAGIC, PROTOCOL_VERSION};

pub mod kind;

verus! {

/// Length of the frame header in bytes.
pub const HEADER_LEN: usize = 8;

/// Why a sequence of bytes is not a frame.
#[derive(Debug)]
pub enum ProtoError {
    /// Shorter than header and CRC together; holds the length.
    TooShort(usize),
    /// The first two bytes are not `FRAME_MAGIC`.
    BadMagic {
        /// The magic that frames start with.
        expected: [u8; 2],
        /// The two bytes found.
        got: [u8; 2],
    },
    /// The version is not `PROTOCOL_VERSION`.
    UnsupportedVersion(u8),
    /// The payload length of the header does not match the bytes at hand.
    LengthMismatch {
        /// Length in the header.
        header: usize,
        /// Bytes between the header and the CRC.
        actual: usize,
    },
    /// The CRC does not match the payload.
    CrcMismatch {
        /// CRC of the payload.
        expected: u16,
        /// CRC at the end of the frame.
        got: u16,
    },
}

/// Header of a frame.
#[derive(Copy, Clone, Debug, PartialEq, Eq, Structural)]
pub struct Header {
    /// Protocol version.
    pub version: u8,
    /// What the payload carries.
    pub payload_kind: u8,
    /// Sequence number; wraps.
    pub seq: u16,
    /// Length of the payload in bytes.
    pub payload_len: u16,
}

/// The bytes of a frame. The length field holds the payload's own length,
/// modulo 2^16; the header's `payload_len` plays no part.
pub open spec fn wire(header: Header, payload: Seq<u8>) -> Seq<u8> {
    FRAME_MAGIC@ + seq![header.version, header.payload_kind] + be::be16(header.seq) + be::be16(
        (payload.len() % 0x1_0000) as u16,
    ) + payload + be::be16(crc16::crc16(payload))
}

/// The payload length that the header of a frame claims.
pub open spec fn claimed_len(bytes: Seq<u8>) -> int {
    be::from_be16(bytes[6], bytes[7])
}

/// What stands between the header and the CRC.
pub open spec fn payload_of(bytes: Seq<u8>) -> Seq<u8> {
    bytes.subrange(HEADER_LEN as int, bytes.len() - 2)
}

/// The CRC at the end of a frame.
pub open spec fn trailer_of(bytes: Seq<u8>) -> int {
    be::from_be16(bytes[bytes.len() - 2], bytes[bytes.len() - 1])
}

/// The header of a frame, as its first eight bytes state it.
pub open spec fn header_of(bytes: Seq<u8>) -> Header {
    Header {
        version: bytes[2],
        payload_kind: bytes[3],
        seq: be::from_be16(bytes[4], bytes[5]) as u16,
        payload_len: claimed_len(bytes) as u16,
    }
}

pub open spec fn long_enough(bytes: Seq<u8>) -> bool {
    bytes.len() >= HEADER_LEN + 2
}

pub open spec fn magic_ok(bytes: Seq<u8>) -> bool {
    long_enough(bytes) && bytes[0] == FRAME_MAGIC@[0] && bytes[1] == FRAME_MAGIC@[1]
}

pub open spec fn version_ok(bytes: Seq<u8>) -> bool {
    magic_ok(bytes) && bytes[2] == PROTOCOL_VERSION
}

pub open spec fn length_ok(bytes: Seq<u8>) -> bool {
    version_ok(bytes) && bytes.len() == HEADER_LEN + claimed_len(bytes) + 2
}

/// Whether a sequence of bytes is a frame.
pub open spec fn valid(bytes: Seq<u8>) -> bool {
    length_ok(bytes) && crc16::crc16(payload_of(bytes)) == trailer_of(bytes)
}

/// Whether an error is the one for bytes that are not a frame. The checks run
/// in the order length, magic, version, claimed length, CRC; the first that
/// fails gives the error.
pub open spec fn explains(e: ProtoError, bytes: Seq<u8>) -> bool {
    match e {
        ProtoError::TooShort(n) => !long_enough(bytes) && n == bytes.len(),
        ProtoError::BadMagic { expected, got } => long_enough(bytes) && !magic_ok(bytes)
            && expected@ == FRAME_MAGIC@ && got@ == bytes.subrange(0, 2),
        ProtoError::UnsupportedVersion(v) => magic_ok(bytes) && !version_ok(bytes) && v
            == bytes[2],
        ProtoError::LengthMismatch { header, actual } => version_ok(bytes) && !length_ok(bytes)
            && header == claimed_len(bytes) && actual == payload_of(bytes).len(),
        ProtoError::CrcMismatch { expected, got } => length_ok(bytes) && !valid(bytes) && expected
            == crc16::crc16(payload_of(bytes)) && got == trailer_of(bytes),
    }
}

/// Encodes a frame.
pub fn encode(header: Header, payload: &[u8]) -> (r: Vec<u8>)
    requires
        HEADER_LEN + payload@.len() + 2 <= isize::MAX,
    ensures
        r@ == wire(header, payload@),
{
    let total_len: usize = HEADER_LEN + payload.len() + 2;
    let mut buf: Vec<u8> = Vec::with_capacity(total_len);
    buf.push(FRAME_MAGIC[0]);
    buf.push(FRAME_MAGIC[1]);
    buf.push(header.version);
    buf.push(header.payload_kind);
    assert(buf@ =~= FRAME_MAGIC@ + seq![header.version, header.payload_kind]);
    be::push_u16(&mut buf, header.seq);
    be::push_u16(&mut buf, (payload.len() % 0x1_0000) as u16);
    let ghost head = buf@;
    buf.extend_from_slice(payload);
    assert(buf@ =~= head + payload@);
    let crc: u16 = crc16::checksum(payload);
    be::push_u16(&mut buf, crc);
    buf
}

/// Decodes a frame. The payload is borrowed from the input. The checks run in
/// the order length, magic, version, claimed length, CRC; the first that fails
/// gives the error.
pub fn decode(bytes: &[u8]) -> (r: Result<(Header, &[u8]), ProtoError>)
    ensures
        r is Ok <==> valid(bytes@),
        match r {
            Ok((header, payload)) => header == header_of(bytes@) && payload@ == payload_of(bytes@),
            Err(e) => explains(e, bytes@),
        },
{
    let len: usize = bytes.len();
    if len < HEADER_LEN + 2 {
        return Err(ProtoError::TooShort(len));
    }
    if bytes[0] != FRAME_MAGIC[0] || bytes[1] != FRAME_MAGIC[1] {
        let got: [u8; 2] = [bytes[0], bytes[1]];
        assert(got@ =~= bytes@.subrange(0, 2));
        return Err(ProtoError::BadMagic { expected: FRAME_MAGIC, got });
    }
    let version: u8 = bytes[2];
    if version != PROTOCOL_VERSION {
        return Err(ProtoError::UnsupportedVersion(version));
    }
    let payload_len: u16 = be::read_u16(bytes[6], bytes[7]);
    if len != HEADER_LEN + (payload_len as usize) + 2 {
        return Err(
            ProtoError::LengthMismatch {
                header: payload_len as usize,
                actual: len - (HEADER_LEN + 2),
            },
        );
    }
    let payload: &[u8] = vstd::slice::slice_subrange(bytes, HEADER_LEN, len - 2);
    let got: u16 = be::read_u16(bytes[len - 2], bytes[len - 1]);
    let expected: u16 = crc16::checksum(payload);
    if got != expected {
        return Err(ProtoError::CrcMismatch { expected, got });
    }
    let header = Header {
        version,
        payload_kind: bytes[3],
        seq: be::read_u16(bytes[4], bytes[5]),
        payload_len,
    };
    Ok((header, payload))
}

/// Decoding reads back what encoding wrote: every frame of the supported
/// version whose payload length fits the length field decodes to its own
/// payload and header.
pub proof fn law_decode_reads_back_encode(header: Header, payload: Seq<u8>)
    requires
        header.version == PROTOCOL_VERSION,
        header.payload_len == payload.len(),
    ensures
        valid(wire(header, payload)),
        header_of(wire(header, payload)) == header,
        payload_of(wire(header, payload)) == payload,
{
    let w = wire(header, payload);
    assert(payload_of(w) =~= payload);
}

/// The layout of a frame: two bytes of magic, the version, the kind of the
/// payload, the sequence number and the length of the payload, both with the
/// high byte first, the payload, and its CRC with the high byte first.
pub proof fn law_frame_layout(header: Header, payload: Seq<u8>)
    ensures
        ({
            let w = wire(header, payload);
            let n = payload.len() as int;
            &&& w.len() == n + 10
            &&& w[0] == 0x4E && w[1] == 0xB0
            &&& w[2] == header.version
            &&& w[3] == header.payload_kind
            &&& w[4] * 0x100 + w[5] == header.seq
            &&& w[6] * 0x100 + w[7] == n % 0x1_0000
            &&& w.subrange(8, n + 8) == payload
            &&& w[n + 8] * 0x100 + w[n + 9] == crc16::crc16(payload)
        }),
{
    let w = wire(header, payload);
    assert(w.subrange(8, payload.len() as int + 8) =~= payload);
}

/// Bytes are a frame exactly if they are at least ten, start with the magic and
/// version one, are as many as the length field asks for, and end with the CRC
/// of what stands between the eighth byte and the last two. The header and the
/// payload are read where the layout has them.
pub proof fn law_frames_are_read_by_layout(bytes: Seq<u8>)
    ensures
        valid(bytes) <==> {
            &&& bytes.len() >= 10
            &&& bytes[0] == 0x4E && bytes[1] == 0xB0
            &&& bytes[2] == 1
            &&& bytes.len() == 10 + bytes[6] * 0x100 + bytes[7]
            &&& crc16::crc16(bytes.subrange(8, bytes.len() - 2)) == bytes[bytes.len() - 2] * 0x100
                + bytes[bytes.len() - 1]
        },
        header_of(bytes).version == bytes[2],
        header_of(bytes).payload_kind == bytes[3],
        header_of(bytes).seq == bytes[4] * 0x100 + bytes[5],
        header_of(bytes).payload_len == bytes[6] * 0x100 + bytes[7],
        payload_of(bytes) == bytes.subrange(8, bytes.len() - 2),
{
}

/// What is refused is refused for the first thing that is wrong with it, and
/// the error says what was found.
pub proof fn law_refusal_states_the_first_fault(e: ProtoError, bytes: Seq<u8>)
    requires
        explains(e, bytes),
    ensures
        !valid(bytes),
        bytes.len() < 10 <==> e == ProtoError::TooShort(bytes.len() as usize) && bytes.len()
            <= usize::MAX,
        bytes.len() >= 10 && (bytes[0] != 0x4E || bytes[1] != 0xB0) <==> e is BadMagic,
        e matches ProtoError::BadMagic { expected, got } ==> expected@ == seq![0x4Eu8, 0xB0u8]
            && got@ == seq![bytes[0], bytes[1]],
        bytes.len() >= 10 && bytes[0] == 0x4E && bytes[1] == 0xB0 && bytes[2] != 1 <==> e
            == ProtoError::UnsupportedVersion(bytes[2]) && bytes.len() >= 10,
        e matches ProtoError::LengthMismatch { header, actual } ==> header == bytes[6] * 0x100
            + bytes[7] && actual == bytes.len() - 10 && header != actual,
        e matches ProtoError::CrcMismatch { expected, got } ==> expected == crc16::crc16(
            bytes.subrange(8, bytes.len() - 2),
        ) && got == bytes[bytes.len() - 2] * 0x100 + bytes[bytes.len() - 1] && expected != got,
{
    if e is BadMagic {
        assert(bytes.subrange(0, 2) =~= seq![bytes[0], bytes[1]]);
        assert(FRAME_MAGIC@ =~= seq![0x4Eu8, 0xB0u8]);
    }
}

/// Only encoded frames decode: valid bytes are what encoding makes of the
/// header and payload that they decode to.
pub proof fn law_valid_bytes_are_encoded(bytes: Seq<u8>)
    requires
        valid(bytes),
    ensures
        bytes == wire(header_of(bytes), payload_of(bytes)),
        header_of(bytes).version == PROTOCOL_VERSION,
        header_of(bytes).payload_len == payload_of(bytes).len(),
{
    let w = wire(header_of(bytes), payload_of(bytes));
    assert(payload_of(bytes).len() < 0x1_0000);
    assert(w =~= bytes);
}

/// A frame whose payload was changed inside two adjacent bytes, by a flipped
/// bit for instance, no longer decodes: its checksum does not match.
pub proof fn law_corrupt_payload_is_refused(bytes: Seq<u8>, corrupt: Seq<u8>, at: int)
    requires
        valid(bytes),
        corrupt.len() == bytes.len(),
        corrupt != bytes,
        HEADER_LEN <= at < bytes.len() - 2,
        at + 1 < bytes.len() - 2 || corrupt[at + 1] == bytes[at + 1],
        forall|i: int| 0 <= i < bytes.len() && i != at && i != at + 1 ==> corrupt[i] == bytes[i],
    ensures
        length_ok(corrupt),
        !valid(corrupt),
{
    let p = payload_of(bytes);
    let q = payload_of(corrupt);
    assert(p != q) by {
        if p == q {
            assert forall|i: int| 0 <= i < bytes.len() implies corrupt[i] == bytes[i] by {
                if HEADER_LEN <= i < bytes.len() - 2 {
                    assert(p[i - HEADER_LEN] == q[i - HEADER_LEN]);
                }
            }
            assert(corrupt =~= bytes);
        }
    }
    crc16::law_crc16_detects_two_adjacent_bytes(p, q, at - HEADER_LEN);
}

/// Two bytes in hexadecimal notation, as a list.
pub open spec fn pair_text(pair: Seq<u8>) -> Seq<char> {
    "["@ + text::hex(pair[0] as nat, 2, false) + ", "@ + text::hex(pair[1] as nat, 2, false) + "]"@
}

impl ProtoError {
    /// The message of an error.
    pub open spec fn message_text(self) -> Seq<char> {
        match self {
            ProtoError::TooShort(n) => "frame too short: "@ + text::dec(n as nat) + " bytes"@,
            ProtoError::BadMagic { expected, got } => "bad magic: expected "@ + pair_text(expected@)
                + ", got "@ + pair_text(got@),
            ProtoError::UnsupportedVersion(v) => "unsupported protocol version: "@ + text::dec(
                v as nat,
            ),
            ProtoError::LengthMismatch { header, actual } => "length mismatch: header says "@
                + text::dec(header as nat) + ", frame has "@ + text::dec(actual as nat),
            ProtoError::CrcMismatch { expected, got } => "crc mismatch: expected "@ + text::hex(
                expected as nat,
                4,
                false,
            ) + ", got "@ + text::hex(got as nat, 4, false),
        }
    }

    /// Renders the message of an error.
    pub fn message(&self) -> (r: String)
        ensures
            r@ == self.message_text(),
    {
        match self {
            ProtoError::TooShort(n) => {
                let mut out = "frame too short: ".to_owned();
                text::push_dec(&mut out, *n as u64);
                out.append(" bytes");
                out
            },
            ProtoError::BadMagic { expected, got } => {
                let mut out = "bad magic: expected ".to_owned();
                push_pair(&mut out, expected);
                out.append(", got ");
                push_pair(&mut out, got);
                out
            },
            ProtoError::UnsupportedVersion(v) => {
                let mut out = "unsupported protocol version: ".to_owned();
                text::push_dec(&mut out, *v as u64);
                out
            },
            ProtoError::LengthMismatch { header, actual } => {
                let mut out = "length mismatch: header says ".to_owned();
                text::push_dec(&mut out, *header as u64);
                out.append(", frame has ");
                text::push_dec(&mut out, *actual as u64);
                out
            },
            ProtoError::CrcMismatch { expected, got } => {
                let mut out = "crc mismatch: expected ".to_owned();
                text::push_hex(&mut out, *expected as u32, 4, false);
                out.append(", got ");
                text::push_hex(&mut out, *got as u32, 4, false);
                out
            },
        }
    }
}

fn push_pair(out: &mut String, pair: &[u8; 2])
    ensures
        final(out)@ == old(out)@ + pair_text(pair@),
{
    out.append("[");
    text::push_hex(out, pair[0] as u32, 2, false);
    out.append(", ");
    text::push_hex(out, pair[1] as u32, 2, false);
    out.append("]");
    assert(out@ =~= old(out)@ + pair_text(pair@));
}

} // verus!
