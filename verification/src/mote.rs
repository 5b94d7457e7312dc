//! The mote: states of its wake cycle, its classifier and the telemetry frame.

use vstd::prelude::*;
use crate::types::{Classification, MoteFrame, MoteId};

verus! {

/// State of the wake cycle of a mote.
#[derive(Copy, Clone, Debug, PartialEq, Eq, Structural)]
pub enum MoteState {
    /// The capacitor is charging.
    Sleep,
    /// Flash decode and clock setup.
    Wake,
    /// Reading of the sensors.
    Sample,
    /// Inference over the sampled window.
    Infer,
    /// Driving of the mirror, heartbeat included.
    Modulate,
}

/// Persistent identity of a mote.
#[derive(Copy, Clone, Debug, PartialEq, Eq, Structural)]
pub struct MoteIdentity {
    /// Identifier of the mote.
    pub id: MoteId,
    /// Sequence counter; persists across sleeps and wraps.
    pub seq: u16,
    /// Version of the classifier's weights.
    pub bnn_version: u8,
}

/// Sensor reading of one interrogation cycle.
#[derive(Copy, Clone, Debug, PartialEq, Eq)]
pub struct SensorSample {
    /// Output of the four photodiodes in ADC counts.
    pub photodiode: [u16; 4],
    /// Temperature in hundredths of a degree Celsius.
    pub temp_c100: i16,
    /// Hall-probe reading.
    pub hall: i16,
    /// Capacitor voltage at sample time.
    pub cap_mv_over_10: u8,
}

/// A classifier of sensor readings.
pub trait Classifier {
    /// Classifies one reading.
    fn classify(&self, sample: &SensorSample) -> Classification;
}

/// Classifier that never finds anything.
#[derive(Copy, Clone, Debug, Default)]
pub struct NullClassifier;

impl Classifier for NullClassifier {
    fn classify(&self, _sample: &SensorSample) -> (r: Classification)
        ensures
            r == Classification::Null,
    {
        Classification::Null
    }
}

/// The frame that a mote of the given identity reports.
pub open spec fn frame_of(
    identity: MoteIdentity,
    sample: SensorSample,
    class: Classification,
) -> MoteFrame {
    MoteFrame {
        mote: identity.id,
        seq: identity.seq,
        class,
        confidence: 0,
        cap_mv_over_10: sample.cap_mv_over_10,
        temp_c100: sample.temp_c100,
    }
}

/// Composes the telemetry frame of one cycle. The confidence is zero until a
/// classifier reports a margin.
pub fn build_frame(
    identity: &MoteIdentity,
    sample: &SensorSample,
    class: Classification,
) -> (r: MoteFrame)
    ensures
        r == frame_of(*identity, *sample, class),
        r.mote == identity.id && r.seq == identity.seq,
        r.class == class && r.confidence == 0,
        r.cap_mv_over_10 == sample.cap_mv_over_10 && r.temp_c100 == sample.temp_c100,
{
    MoteFrame {
        mote: identity.id,
        seq: identity.seq,
        class,
        confidence: 0,
        cap_mv_over_10: sample.cap_mv_over_10,
        temp_c100: sample.temp_c100,
    }
}

} // verus!
