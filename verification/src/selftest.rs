//! Self-test: small end-to-end checks of the shared types and the wire format.

use vstd::prelude::*;
use crate::be;
use crate::mote::{self, Classifier, MoteIdentity, NullClassifier, SensorSample};
use crate::proto::{self, kind, Header, ProtoError};
use crate::types::{Classification, MoteId, PROTOCOL_VERSION};

verus! {

/// Which check failed.
#[derive(Debug)]
pub enum StageError {
    /// A class does not read back.
    Class(Classification),
    /// An identifier does not split into cassette and serial.
    MoteIdSplit,
    /// A mote does not build its frame.
    FrameBuild,
    /// A heartbeat does not decode.
    Heartbeat(ProtoError),
    /// A heartbeat decodes to something else.
    HeartbeatDrift,
    /// A telemetry frame does not decode.
    Telemetry(ProtoError),
    /// A telemetry frame decodes to something else.
    TelemetryDrift,
    /// A corrupt frame decodes.
    CorruptionMissed,
}

fn check_class(c: Classification) -> (r: Result<(), StageError>)
    ensures
        r is Ok,
{
    let back = Classification::from_u8(c.to_u8());
    if back != c {
        return Err(StageError::Class(c));
    }
    Ok(())
}

/// Checks the shared types. Every check passes.
pub fn stage_unit() -> (r: Result<(), StageError>)
    ensures
        r is Ok,
{
    check_class(Classification::Null)?;
    check_class(Classification::Platinum)?;
    check_class(Classification::Water)?;
    check_class(Classification::Metallic)?;
    let id = MoteId(0x00_2A_C3_04);
    if id.cassette() != 0x2A || id.serial() != 0xC304 {
        return Err(StageError::MoteIdSplit);
    }
    let identity = MoteIdentity { id: MoteId(0x0001_0000), seq: 5, bnn_version: 0 };
    let sample = SensorSample {
        photodiode: [0, 0, 0, 0],
        temp_c100: 2500,
        hall: 0,
        cap_mv_over_10: 33,
    };
    let class = NullClassifier.classify(&sample);
    let frame = mote::build_frame(&identity, &sample, class);
    if frame.class != Classification::Null || frame.seq != 5 {
        return Err(StageError::FrameBuild);
    }
    Ok(())
}

/// Checks the wire format. Every check passes.
pub fn stage_protocol() -> (r: Result<(), StageError>)
    ensures
        r is Ok,
{
    let h = Header {
        version: PROTOCOL_VERSION,
        payload_kind: kind::HEARTBEAT,
        seq: 0xABCD,
        payload_len: 0,
    };
    let none: [u8; 0] = [];
    let bytes = proto::encode(h, &none);
    proof {
        proto::law_decode_reads_back_encode(h, none@);
    }
    match proto::decode(bytes.as_slice()) {
        Ok((parsed, payload)) => {
            if parsed != h || payload.len() != 0 {
                return Err(StageError::HeartbeatDrift);
            }
        },
        Err(e) => return Err(StageError::Heartbeat(e)),
    }
    let h2 = Header {
        version: PROTOCOL_VERSION,
        payload_kind: kind::TELEMETRY,
        seq: 1,
        payload_len: 4,
    };
    let pl: [u8; 4] = [0xDE, 0xAD, 0xBE, 0xEF];
    let bytes = proto::encode(h2, &pl);
    proof {
        proto::law_decode_reads_back_encode(h2, pl@);
    }
    match proto::decode(bytes.as_slice()) {
        Ok((parsed, got)) => {
            if parsed != h2 || !be::same_bytes(got, &pl) {
                return Err(StageError::TelemetryDrift);
            }
        },
        Err(e) => return Err(StageError::Telemetry(e)),
    }
    let mut bad = proto::encode(h2, &pl);
    let ghost intact = bad@;
    let b: u8 = bad[10];
    assert(b ^ 1u8 != b) by (bit_vector);
    bad.set(10, b ^ 1u8);
    proof {
        assert(bad@[10] != intact[10]);
        proto::law_corrupt_payload_is_refused(intact, bad@, 10);
    }
    match proto::decode(bad.as_slice()) {
        Ok(_) => Err(StageError::CorruptionMissed),
        Err(_) => Ok(()),
    }
}

} // verus!
