//! Types shared by the mote, the mothership and the ground segment.

use vstd::prelude::*;

verus! {

/// Protocol version. Bumped on every breaking change of the wire format, so
/// that the mothership can reject frames of an out-of-date mote release.
pub const PROTOCOL_VERSION: u8 = 0x01;

/// Two bytes that start every frame.
pub const FRAME_MAGIC: [u8; 2] = [0x4E, 0xB0];

/// Addressable mote identifier. The low 24 bits are in use: eight bits for the
/// deployment cassette above sixteen bits for the serial inside it.
#[derive(Copy, Clone, Debug, PartialEq, Eq, Structural, Hash, PartialOrd, Ord)]
pub struct MoteId(pub u32);

impl MoteId {
    /// The cassette number that an identifier holds: bits 16 to 23.
    pub open spec fn cassette_number(self) -> int {
        (self.0 as int / 0x1_0000) % 0x100
    }

    /// The serial that an identifier holds: bits 0 to 15.
    pub open spec fn serial_number(self) -> int {
        self.0 as int % 0x1_0000
    }

    /// Extracts the cassette number (which deployment batch).
    pub fn cassette(self) -> (r: u8)
        ensures
            r == self.cassette_number(),
    {
        let v: u32 = self.0;
        assert(((v >> 16u32) & 0xFFu32) == (v / 0x1_0000u32) % 0x100u32) by (bit_vector);
        ((v >> 16u32) & 0xFFu32) as u8
    }

    /// Extracts the serial inside the cassette.
    pub fn serial(self) -> (r: u16)
        ensures
            r == self.serial_number(),
    {
        let v: u32 = self.0;
        assert((v & 0xFFFFu32) == v % 0x1_0000u32) by (bit_vector);
        (v & 0xFFFFu32) as u16
    }
}

/// Cassette and serial are the low 24 bits of every identifier; the bits above
/// play no part.
pub proof fn law_cassette_and_serial_are_the_low_bits(id: MoteId)
    ensures
        0 <= id.cassette_number() < 0x100,
        0 <= id.serial_number() < 0x1_0000,
        id.cassette_number() * 0x1_0000 + id.serial_number() == id.0 as int % 0x100_0000,
{
}

/// Cassette and serial together determine every identifier of 24 bits.
pub proof fn law_mote_id_is_cassette_and_serial(id: MoteId)
    requires
        id.0 < 0x100_0000,
    ensures
        id.0 == id.cassette_number() * 0x1_0000 + id.serial_number(),
{
}

/// Address of a voxel of the asteroid: centimetres in the body-fixed frame.
#[derive(Copy, Clone, Debug, PartialEq, Eq, Structural, Hash)]
pub struct VoxelAddr {
    /// X coordinate in centimetres.
    pub x: i32,
    /// Y coordinate in centimetres.
    pub y: i32,
    /// Z coordinate in centimetres.
    pub z: i32,
}

/// Output of the classifier of a mote.
#[derive(Copy, Clone, Debug, PartialEq, Eq, Structural)]
pub enum Classification {
    /// No signal above the noise floor; also the mandatory heartbeat.
    Null,
    /// Platinum-group emission line.
    Platinum,
    /// Water or hydroxyl signature.
    Water,
    /// Ferromagnetic signature without characteristic spectral lines.
    Metallic,
    /// Signal present, but of no trained class.
    Other,
}

impl Classification {
    /// The byte that stands for a class on the wire.
    pub open spec fn code(self) -> u8 {
        match self {
            Classification::Null => 0,
            Classification::Platinum => 1,
            Classification::Water => 2,
            Classification::Metallic => 3,
            Classification::Other => 255,
        }
    }

    /// The byte that stands for this class on the wire.
    pub fn to_u8(self) -> (r: u8)
        ensures
            r == self.code(),
    {
        match self {
            Classification::Null => 0,
            Classification::Platinum => 1,
            Classification::Water => 2,
            Classification::Metallic => 3,
            Classification::Other => 255,
        }
    }

    /// Reads a byte from the wire. A byte that stands for no class reads as
    /// `Other`, so that frames of newer motes still decode.
    pub fn from_u8(v: u8) -> (r: Self)
        ensures
            forall|c: Classification| #[trigger] c.code() == v ==> r == c,
            (forall|c: Classification| #[trigger] c.code() != v) ==> r == Classification::Other,
            v == 0 <==> r == Classification::Null,
            v == 1 <==> r == Classification::Platinum,
            v == 2 <==> r == Classification::Water,
            v == 3 <==> r == Classification::Metallic,
    {
        let r = match v {
            0 => Classification::Null,
            1 => Classification::Platinum,
            2 => Classification::Water,
            3 => Classification::Metallic,
            _ => Classification::Other,
        };
        assert(Classification::Null.code() == 0 && Classification::Platinum.code() == 1
            && Classification::Water.code() == 2 && Classification::Metallic.code() == 3);
        r
    }
}

/// No two classes share a byte: what `to_u8` writes, `from_u8` reads back.
pub proof fn law_class_codes_are_distinct(a: Classification, b: Classification)
    ensures
        a.code() == b.code() ==> a == b,
{
}

/// A telemetry report of one mote.
#[derive(Copy, Clone, Debug, PartialEq, Eq, Structural)]
pub struct MoteFrame {
    /// Which mote is talking.
    pub mote: MoteId,
    /// Sequence number of the mote; wraps.
    pub seq: u16,
    /// Classification of this interrogation cycle.
    pub class: Classification,
    /// Confidence of the classification.
    pub confidence: u8,
    /// Capacitor voltage at inference time.
    pub cap_mv_over_10: u8,
    /// Local temperature in hundredths of a degree Celsius.
    pub temp_c100: i16,
}

/// A command of the mothership to a block of up to 64 motes.
#[derive(Clone, Debug, PartialEq, Eq, Structural)]
pub struct AddressBlock {
    /// Which voxel the ablation laser just fired at.
    pub voxel: VoxelAddr,
    /// Sequence counter of the mothership.
    pub campaign_seq: u16,
    /// Which motes of the block should respond, one bit each.
    pub mote_mask: u64,
    /// Delay between the pulse and the sampling, in microseconds.
    pub sample_delay_us: u16,
}

} // verus!
