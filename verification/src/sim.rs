//! The swarm simulator: heartbeats of virtual motes.

use vstd::prelude::*;
use crate::proto::{self, kind, Header};
use crate::types::{MoteId, PROTOCOL_VERSION};

verus! {

/// Progress of the simulation.
pub struct Swarm {
    seq: u16,
    emitted: u64,
}

/// The header of a heartbeat.
pub open spec fn heartbeat(seq: u16) -> Header {
    Header {
        version: PROTOCOL_VERSION,
        payload_kind: kind::HEARTBEAT,
        seq,
        payload_len: 0,
    }
}

/// The identifier of a virtual mote: cassette one, in the order of the
/// simulation.
pub open spec fn mote_of(ix: u32) -> MoteId {
    MoteId(0x0001_0000 | ix)
}

impl Swarm {
    /// The sequence number of the next heartbeat.
    pub closed spec fn next_seq(self) -> u16 {
        self.seq
    }

    /// How many heartbeats were emitted.
    pub closed spec fn count(self) -> nat {
        self.emitted as nat
    }

    /// Heartbeats are numbered from zero; the number wraps.
    pub open spec fn wf(self) -> bool {
        self.next_seq() == self.count() % 0x1_0000
    }

    /// A simulation that has emitted nothing.
    pub fn new() -> (r: Self)
        ensures
            r.wf(),
            r.count() == 0,
    {
        Swarm { seq: 0, emitted: 0 }
    }

    /// How many heartbeats were emitted.
    pub fn emitted(&self) -> (r: u64)
        ensures
            r == self.count(),
    {
        self.emitted
    }

    /// Emits the heartbeat of a virtual mote: its identifier and the frame.
    pub fn beat(&mut self, ix: u32) -> (r: (MoteId, Vec<u8>))
        requires
            old(self).wf(),
            old(self).count() < u64::MAX,
        ensures
            final(self).wf(),
            final(self).count() == old(self).count() + 1,
            r.0 == mote_of(ix),
            r.1@ == proto::wire(heartbeat(old(self).next_seq()), Seq::empty()),
            r.1@.len() == 10,
            r.1@[2] == 1 && r.1@[3] == 1,
            r.1@[4] * 0x100 + r.1@[5] == old(self).count() % 0x1_0000,
    {
        let header = Header {
            version: PROTOCOL_VERSION,
            payload_kind: kind::HEARTBEAT,
            seq: self.seq,
            payload_len: 0,
        };
        let none: [u8; 0] = [];
        let bytes = proto::encode(header, &none);
        assert(none@ =~= Seq::<u8>::empty());
        proof {
            proto::law_frame_layout(header, none@);
        }
        self.seq = self.seq.wrapping_add(1);
        self.emitted = self.emitted + 1;
        (MoteId(0x0001_0000 | ix), bytes)
    }

    /// Whether the simulation is over: so many heartbeats were emitted. Zero
    /// stands for no limit.
    pub fn finished(&self, total: u64) -> (r: bool)
        ensures
            r == (total != 0 && self.count() >= total),
    {
        total != 0 && self.emitted >= total
    }
}

/// Every heartbeat decodes to a heartbeat of its sequence number.
pub proof fn law_heartbeats_decode(seq: u16)
    ensures
        proto::valid(proto::wire(heartbeat(seq), Seq::empty())),
        proto::header_of(proto::wire(heartbeat(seq), Seq::empty())) == heartbeat(seq),
        proto::payload_of(proto::wire(heartbeat(seq), Seq::empty())) == Seq::<u8>::empty(),
        heartbeat(seq).version == 1 && heartbeat(seq).payload_kind == 1,
        heartbeat(seq).seq == seq && heartbeat(seq).payload_len == 0,
{
    proto::law_decode_reads_back_encode(heartbeat(seq), Seq::empty());
}

/// The identifier of a virtual mote is its number in the simulation with bit 16
/// set: the bits below and above are those of the number.
pub proof fn law_mote_id_marks_the_number(ix: u32)
    ensures
        mote_of(ix).0 % 0x1_0000 == ix % 0x1_0000,
        (mote_of(ix).0 / 0x1_0000) % 2 == 1,
        mote_of(ix).0 / 0x2_0000 == ix / 0x2_0000,
{
    assert((0x0001_0000u32 | ix) % 0x1_0000u32 == ix % 0x1_0000u32) by (bit_vector);
    assert(((0x0001_0000u32 | ix) / 0x1_0000u32) % 2u32 == 1u32) by (bit_vector);
    assert((0x0001_0000u32 | ix) / 0x2_0000u32 == ix / 0x2_0000u32) by (bit_vector);
}

/// The virtual motes of one cassette have identifiers of their own: their
/// cassette is one and their serial the number in the simulation.
pub proof fn law_mote_ids_are_distinct(ix: u32)
    requires
        ix < 0x1_0000,
    ensures
        mote_of(ix).cassette_number() == 1,
        mote_of(ix).serial_number() == ix,
{
    assert(ix < 0x1_0000u32 ==> (0x0001_0000u32 | ix) == 0x0001_0000u32 + ix) by (bit_vector);
}

} // verus!
