//! Keys and values of the event store.
//!
//! Events live in trees that are sorted by key. The key of an event is its
//! instant, followed by a sequence number; the value is compressed.

use vstd::prelude::*;
use crate::be;
use crate::probe::{self, IpAddr, ProbeEvent, Reason};
use crate::text;

verus! {

/// A request that the proxy served.
#[derive(Debug, Clone)]
pub struct AccessEvent {
    /// Seconds since the epoch.
    pub ts_unix: i64,
    /// Host that was asked.
    pub host: String,
    /// Path of the request.
    pub path: String,
    /// Method of the request.
    pub method: String,
    /// Status of the response.
    pub status: u16,
    /// How long the request took, in milliseconds.
    pub duration_ms: u64,
    /// Country of the client.
    pub country: String,
    /// City of the client.
    pub city: String,
    /// Region of the client.
    pub region: String,
    /// Family of the user agent.
    pub ua_family: String,
    /// Whether the user agent is a bot.
    pub is_bot: bool,
    /// Hash of the client's address; stable per visitor.
    pub ip_hash: String,
}

/// What is known of where an address is.
#[derive(Debug, Clone)]
pub struct GeoInfo {
    /// Country.
    pub country: String,
    /// Code of the country.
    pub country_code: String,
    /// Region.
    pub region: String,
    /// City.
    pub city: String,
    /// Internet service provider.
    pub isp: String,
    /// Organisation.
    pub org: String,
    /// Autonomous system as one text.
    pub as_field: String,
    /// When this was looked up, in seconds since the epoch.
    pub looked_up_at: i64,
}

/// What is known of the autonomous system of an address.
#[derive(Debug, Clone)]
pub struct AsnInfo {
    /// Number of the autonomous system; zero where it is not known.
    pub asn: u32,
    /// Country.
    pub country: String,
    /// Organisation.
    pub org: String,
    /// When this was looked up, in seconds since the epoch.
    pub looked_up_at: i64,
}

impl Default for GeoInfo {
    fn default() -> (r: Self)
        ensures
            r.country@.len() == 0,
            r.country_code@.len() == 0,
            r.region@.len() == 0,
            r.city@.len() == 0,
            r.isp@.len() == 0,
            r.org@.len() == 0,
            r.as_field@.len() == 0,
            r.looked_up_at == 0,
    {
        GeoInfo {
            country: String::new(),
            country_code: String::new(),
            region: String::new(),
            city: String::new(),
            isp: String::new(),
            org: String::new(),
            as_field: String::new(),
            looked_up_at: 0,
        }
    }
}

impl Default for AsnInfo {
    fn default() -> (r: Self)
        ensures
            r.asn == 0,
            r.country@.len() == 0,
            r.org@.len() == 0,
            r.looked_up_at == 0,
    {
        AsnInfo { asn: 0, country: String::new(), org: String::new(), looked_up_at: 0 }
    }
}

// ---------------------------------------------------------------------------
// Keys
// ---------------------------------------------------------------------------

/// An instant as the unsigned number of the same 64 bits.
pub open spec fn unsigned_instant(ts: i64) -> nat {
    if ts < 0 {
        (ts + 0x1_0000_0000_0000_0000) as nat
    } else {
        ts as nat
    }
}

/// The key of an event: eight bytes for the instant, four for the sequence
/// number.
pub open spec fn key_of(ts: i64, seq: u32) -> Seq<u8> {
    be::be_bytes(unsigned_instant(ts), 8) + be::be_bytes(seq as nat, 4)
}

/// Makes the key of an event.
pub fn event_key(ts: i64, seq: u32) -> (r: Vec<u8>)
    ensures
        r@ == key_of(ts, seq),
        r@.len() == 12,
{
    let bits: u64 = if ts < 0 {
        ((ts as i128) + 0x1_0000_0000_0000_0000) as u64
    } else {
        ts as u64
    };
    let mut key: Vec<u8> = Vec::new();
    be::push_bytes(&mut key, bits, 8);
    be::push_bytes(&mut key, seq as u64, 4);
    assert(key@ =~= key_of(ts, seq));
    proof {
        be::lemma_be_bytes(bits as nat, 8);
        be::lemma_be_bytes(seq as nat, 4);
    }
    key
}

proof fn lemma_key_value(ts: i64, seq: u32)
    ensures
        key_of(ts, seq).len() == 12,
        be::be_value(key_of(ts, seq)) == unsigned_instant(ts) * 0x1_0000_0000 + seq,
{
    be::lemma_be_bytes(unsigned_instant(ts), 8);
    be::lemma_be_bytes(seq as nat, 4);
    reveal_with_fuel(be::byte_range, 9);
    be::lemma_be_value_pair(
        be::be_bytes(unsigned_instant(ts), 8),
        be::be_bytes(seq as nat, 4),
    );
}

/// A key is twelve bytes: eight for the instant, as two's complement, and four
/// for the sequence number, high bytes first.
pub proof fn law_key_layout(ts: i64, seq: u32)
    ensures
        key_of(ts, seq).len() == 12,
        be::be_value(key_of(ts, seq).take(8)) == if ts >= 0 {
            ts as int
        } else {
            ts + 0x1_0000_0000_0000_0000
        },
        be::be_value(key_of(ts, seq).skip(8)) == seq,
{
    let head = be::be_bytes(unsigned_instant(ts), 8);
    let tail = be::be_bytes(seq as nat, 4);
    be::lemma_be_bytes(unsigned_instant(ts), 8);
    be::lemma_be_bytes(seq as nat, 4);
    reveal_with_fuel(be::byte_range, 9);
    assert(key_of(ts, seq).take(8) =~= head);
    assert(key_of(ts, seq).skip(8) =~= tail);
}

/// Keys sort chronologically, and by sequence number within a second, among
/// instants on one side of the epoch. (Instants before the epoch sort behind
/// those after it.)
pub proof fn law_keys_sort_chronologically(ts: i64, seq: u32, other_ts: i64, other_seq: u32)
    requires
        (ts < 0) == (other_ts < 0),
    ensures
        be::bytes_less(key_of(ts, seq), key_of(other_ts, other_seq)) <==> (ts < other_ts || (ts
            == other_ts && seq < other_seq)),
{
    lemma_key_value(ts, seq);
    lemma_key_value(other_ts, other_seq);
    be::lemma_bytes_less_is_number_order(key_of(ts, seq), key_of(other_ts, other_seq));
}

/// Events that differ in instant or sequence number have different keys.
pub proof fn law_keys_are_distinct(ts: i64, seq: u32, other_ts: i64, other_seq: u32)
    requires
        key_of(ts, seq) == key_of(other_ts, other_seq),
    ensures
        ts == other_ts && seq == other_seq,
{
    lemma_key_value(ts, seq);
    lemma_key_value(other_ts, other_seq);
}

// ---------------------------------------------------------------------------
// Values
// ---------------------------------------------------------------------------

/// An error of the compression library.
#[verifier::external_type_specification]
#[verifier::external_body]
pub struct ExIoError(std::io::Error);

/// Why a value could not be packed or unpacked.
#[derive(Debug)]
pub enum StoreError {
    /// Compression failed.
    Compress(std::io::Error),
    /// The value is not compressed data, or could not be expanded.
    Decompress(std::io::Error),
}

/// `zstd::encode_all` on this data at this level may give this outcome: a
/// frame, or none where it refuses.
pub uninterp spec fn zstd_may_encode(raw: Seq<u8>, level: i32, outcome: Option<Seq<u8>>) -> bool;

/// `zstd::decode_all` on these bytes may give this outcome: data, or none where
/// it refuses.
pub uninterp spec fn zstd_may_decode(frame: Seq<u8>, outcome: Option<Seq<u8>>) -> bool;

/// Nothing but `raw` is ever read from a frame.
pub open spec fn holds(frame: Seq<u8>, raw: Seq<u8>) -> bool {
    forall|read: Seq<u8>| #[trigger] zstd_may_decode(frame, Some(read)) ==> read == raw
}

/// Calls `zstd::encode_all`. Trusted: the outcome is one for the data and the
/// level, and nothing but the data is ever read from a frame that it gives.
/// Whether it succeeds is not claimed: it needs memory.
#[verifier::external_body]
fn zstd_encode(raw: &[u8], level: i32) -> (r: Result<Vec<u8>, std::io::Error>)
    ensures
        match r {
            Ok(frame) => zstd_may_encode(raw@, level, Some(frame@)) && holds(frame@, raw@),
            Err(_) => zstd_may_encode(raw@, level, None),
        },
{
    zstd::encode_all(raw, level)
}

/// Calls `zstd::decode_all`. Trusted: the outcome is one for the bytes, and all
/// data that is ever read from them is the same. Whether it succeeds is not
/// claimed: it needs memory.
#[verifier::external_body]
fn zstd_decode(frame: &[u8]) -> (r: Result<Vec<u8>, std::io::Error>)
    ensures
        match r {
            Ok(raw) => zstd_may_decode(frame@, Some(raw@)) && holds(frame@, raw@),
            Err(_) => zstd_may_decode(frame@, None),
        },
{
    zstd::decode_all(frame)
}

/// Compression level of stored values.
pub const LEVEL: i32 = 3;

/// `value` is a stored form of `raw`.
pub open spec fn packed(raw: Seq<u8>, value: Seq<u8>) -> bool {
    zstd_may_encode(raw, LEVEL, Some(value)) && holds(value, raw)
}

/// `raw` is what a stored value reads as.
pub open spec fn unpacked(value: Seq<u8>, raw: Seq<u8>) -> bool {
    zstd_may_decode(value, Some(raw)) && holds(value, raw)
}

/// Compresses an encoded event for storage.
pub fn pack(raw: &[u8]) -> (r: Result<Vec<u8>, StoreError>)
    ensures
        match r {
            Ok(value) => packed(raw@, value@) && zstd_may_encode(raw@, 3, Some(value@)),
            Err(e) => e is Compress && zstd_may_encode(raw@, LEVEL, None),
        },
{
    match zstd_encode(raw, LEVEL) {
        Ok(value) => Ok(value),
        Err(e) => Err(StoreError::Compress(e)),
    }
}

/// Expands a stored value.
pub fn unpack(value: &[u8]) -> (r: Result<Vec<u8>, StoreError>)
    ensures
        match r {
            Ok(raw) => unpacked(value@, raw@),
            Err(e) => e is Decompress && zstd_may_decode(value@, None),
        },
{
    match zstd_decode(value) {
        Ok(raw) => Ok(raw),
        Err(e) => Err(StoreError::Decompress(e)),
    }
}

/// Makes the entry of an encoded event: its key and its stored value.
pub fn entry(ts: i64, seq: u32, raw: &[u8]) -> (r: Result<(Vec<u8>, Vec<u8>), StoreError>)
    ensures
        match r {
            Ok((key, value)) => key@ == key_of(ts, seq) && packed(raw@, value@),
            Err(e) => e is Compress && zstd_may_encode(raw@, LEVEL, None),
        },
{
    match pack(raw) {
        Ok(value) => Ok((event_key(ts, seq), value)),
        Err(e) => Err(e),
    }
}

/// What is read from the store is what was written: a stored value reads as
/// the data that it was made from.
pub proof fn law_unpacking_gives_back_what_was_packed(raw: Seq<u8>, value: Seq<u8>, read: Seq<u8>)
    requires
        packed(raw, value),
        unpacked(value, read),
    ensures
        read == raw,
{
}

/// A stored value reads as the same data every time.
pub proof fn law_unpacking_twice_gives_the_same(value: Seq<u8>, read: Seq<u8>, again: Seq<u8>)
    requires
        unpacked(value, read),
        unpacked(value, again),
    ensures
        read == again,
{
}

// ---------------------------------------------------------------------------
// Ingestion
// ---------------------------------------------------------------------------

/// Progress of reading a log file into the store.
pub struct Ingest {
    seq: u32,
    kept: usize,
    skipped: usize,
}

impl Ingest {
    /// The sequence number of the next event.
    pub closed spec fn next_seq(self) -> u32 {
        self.seq
    }

    /// How many lines gave an event.
    pub closed spec fn kept_lines(self) -> nat {
        self.kept as nat
    }

    /// How many lines gave none.
    pub closed spec fn skipped_lines(self) -> nat {
        self.skipped as nat
    }

    /// Events are numbered from zero; the number wraps.
    pub open spec fn wf(self) -> bool {
        self.next_seq() == self.kept_lines() % 0x1_0000_0000
    }

    /// Starts a file.
    pub fn new() -> (r: Self)
        ensures
            r.wf(),
            r.kept_lines() == 0,
            r.skipped_lines() == 0,
    {
        Ingest { seq: 0, kept: 0, skipped: 0 }
    }

    /// How many lines gave an event.
    pub fn kept(&self) -> (r: usize)
        ensures
            r == self.kept_lines(),
    {
        self.kept
    }

    /// How many lines gave none.
    pub fn skipped(&self) -> (r: usize)
        ensures
            r == self.skipped_lines(),
    {
        self.skipped
    }

    /// Renders the summary of a file, with the number of events that a tree
    /// now holds.
    pub fn summary(&self, tree: &str, count: usize) -> (r: String)
        ensures
            r@ == "kept="@ + text::dec(self.kept_lines()) + " skipped="@ + text::dec(
                self.skipped_lines(),
            ) + " "@ + tree@ + "="@ + text::dec(count as nat),
    {
        let mut out = "kept=".to_owned();
        text::push_dec(&mut out, self.kept as u64);
        out.append(" skipped=");
        text::push_dec(&mut out, self.skipped as u64);
        out.append(" ");
        out.append(tree);
        out.append("=");
        text::push_dec(&mut out, count as u64);
        out
    }

    /// Takes what a line gave. An event comes back with the sequence number
    /// under which it is stored.
    pub fn take<T>(&mut self, event: Option<T>) -> (r: Option<(u32, T)>)
        requires
            old(self).wf(),
            old(self).kept_lines() < usize::MAX,
            old(self).skipped_lines() < usize::MAX,
        ensures
            final(self).wf(),
            match event {
                Some(e) => {
                    &&& r == Some((old(self).next_seq(), e))
                    &&& (r->0).0 == old(self).kept_lines() % 0x1_0000_0000
                    &&& final(self).kept_lines() == old(self).kept_lines() + 1
                    &&& final(self).skipped_lines() == old(self).skipped_lines()
                },
                None => {
                    &&& r is None
                    &&& final(self).kept_lines() == old(self).kept_lines()
                    &&& final(self).skipped_lines() == old(self).skipped_lines() + 1
                },
            },
    {
        match event {
            Some(e) => {
                let seq: u32 = self.seq;
                self.seq = self.seq.wrapping_add(1);
                self.kept = self.kept + 1;
                Some((seq, e))
            },
            None => {
                self.skipped = self.skipped + 1;
                None
            },
        }
    }

    /// Takes a line of the proxy's log. A line that states a failed handshake
    /// gives the event and its sequence number; any other line is skipped.
    pub fn take_probe_line(&mut self, line: &str) -> (r: Option<(u32, ProbeEvent)>)
        requires
            old(self).wf(),
            old(self).kept_lines() < usize::MAX,
            old(self).skipped_lines() < usize::MAX,
        ensures
            final(self).wf(),
            match probe::event_in(line@) {
                Some((ts, ip, reason)) => {
                    &&& r matches Some((seq, ev)) && seq == old(self).next_seq() && ev.ts_unix == ts
                        && ev.ip == ip && ev.reason@ == reason && seq == old(self).kept_lines()
                        % 0x1_0000_0000
                    &&& final(self).kept_lines() == old(self).kept_lines() + 1
                    &&& final(self).skipped_lines() == old(self).skipped_lines()
                },
                None => {
                    &&& r is None
                    &&& final(self).kept_lines() == old(self).kept_lines()
                    &&& final(self).skipped_lines() == old(self).skipped_lines() + 1
                },
            },
    {
        match probe::parse_line(line) {
            Some((ts_unix, ip, reason)) => self.take(Some(ProbeEvent { ts_unix, ip, reason })),
            None => self.take(None),
        }
    }

    /// Takes the lines of a log in order; see `take_probe_line`.
    pub fn take_probe_log(&mut self, lines: &Vec<String>) -> (r: Vec<(u32, ProbeEvent)>)
        requires
            old(self).wf(),
            old(self).kept_lines() + lines@.len() <= usize::MAX,
            old(self).skipped_lines() + lines@.len() <= usize::MAX,
        ensures
            final(self).wf(),
            numbered(r@, old(self).kept_lines(), events_in(text::texts(lines@))),
            forall|i: int|
                0 <= i < r@.len() ==> (#[trigger] r@[i]).0 == (old(self).kept_lines() + i)
                    % 0x1_0000_0000,
            final(self).kept_lines() == old(self).kept_lines() + events_in(
                text::texts(lines@),
            ).len(),
            final(self).skipped_lines() == old(self).skipped_lines() + lines@.len() - events_in(
                text::texts(lines@),
            ).len(),
    {
        let ghost all = text::texts(lines@);
        let ghost start = self.kept_lines();
        let ghost before_skipped = self.skipped_lines();
        let mut out: Vec<(u32, ProbeEvent)> = Vec::new();
        let mut i: usize = 0;
        assert(all.take(0) =~= Seq::<Seq<char>>::empty());
        while i < lines.len()
            invariant
                i <= lines@.len(),
                all == text::texts(lines@),
                self.wf(),
                start + lines@.len() <= usize::MAX,
                before_skipped + lines@.len() <= usize::MAX,
                events_in(all.take(i as int)).len() <= i,
                self.kept_lines() == start + events_in(all.take(i as int)).len(),
                self.skipped_lines() == before_skipped + i - events_in(all.take(i as int)).len(),
                numbered(out@, start, events_in(all.take(i as int))),
            decreases lines@.len() - i,
        {
            assert(all.take(i + 1).drop_last() =~= all.take(i as int));
            assert(all.take(i + 1).last() == lines@[i as int]@);
            match self.take_probe_line(lines[i].as_str()) {
                Some(event) => out.push(event),
                None => {},
            }
            i = i + 1;
        }
        assert(all.take(lines@.len() as int) =~= all);
        out
    }
}

// ---------------------------------------------------------------------------
// Files
// ---------------------------------------------------------------------------

/// The mathematical value of a probe event: instant, address and reason.
pub type Probe = (int, IpAddr, Reason);

/// The events of the lines of a log, in order.
pub open spec fn events_in(lines: Seq<Seq<char>>) -> Seq<Probe>
    decreases lines.len(),
{
    if lines.len() == 0 {
        Seq::empty()
    } else {
        match probe::event_in(lines.last()) {
            Some(e) => events_in(lines.drop_last()).push(e),
            None => events_in(lines.drop_last()),
        }
    }
}

/// Lines give their events one by one, in order, whatever stands before and
/// after them.
pub proof fn law_lines_give_events_in_order(
    before: Seq<Seq<char>>,
    line: Seq<char>,
    after: Seq<Seq<char>>,
)
    ensures
        events_in(before + after) == events_in(before) + events_in(after),
        events_in(seq![line]) == match probe::event_in(line) {
            Some(e) => seq![e],
            None => Seq::empty(),
        },
    decreases after.len(),
{
    assert(seq![line].drop_last() =~= Seq::<Seq<char>>::empty());
    assert(events_in(Seq::<Seq<char>>::empty()) =~= Seq::empty());
    assert(events_in(seq![line]) =~= match probe::event_in(line) {
        Some(e) => seq![e],
        None => Seq::empty(),
    });
    if after.len() == 0 {
        assert(before + after =~= before);
        assert(events_in(before + after) =~= events_in(before) + events_in(after));
    } else {
        law_lines_give_events_in_order(before, line, after.drop_last());
        assert((before + after).drop_last() =~= before + after.drop_last());
        assert((before + after).last() == after.last());
        assert(events_in(before + after) =~= events_in(before) + events_in(after));
    }
}

/// `stored` holds the given events, numbered from `start` on; the number wraps.
pub open spec fn numbered(
    stored: Seq<(u32, ProbeEvent)>,
    start: nat,
    events: Seq<Probe>,
) -> bool {
    &&& stored.len() == events.len()
    &&& forall|i: int|
        #![trigger stored[i]]
        0 <= i < stored.len() ==> {
            &&& stored[i].0 == (start + i) % 0x1_0000_0000
            &&& stored[i].1.ts_unix == events[i].0
            &&& stored[i].1.ip == events[i].1
            &&& stored[i].1.reason@ == events[i].2
        }
}

/// The entries that a log makes in the store, in order.
pub open spec fn entries_of(lines: Seq<Seq<char>>) -> Seq<(Seq<u8>, Probe)> {
    Seq::new(
        events_in(lines).len(),
        |i: int|
            (
                key_of(events_in(lines)[i].0 as i64, (i % 0x1_0000_0000) as u32),
                events_in(lines)[i],
            ),
    )
}

/// The events that a fresh `Ingest` numbers go under the keys of the entries
/// of the log.
pub proof fn law_numbered_events_make_the_entries(
    stored: Seq<(u32, ProbeEvent)>,
    lines: Seq<Seq<char>>,
    i: int,
)
    requires
        numbered(stored, 0, events_in(lines)),
        0 <= i < stored.len(),
    ensures
        key_of(stored[i].1.ts_unix, stored[i].0) == entries_of(lines)[i].0,
        (stored[i].1.ts_unix as int, stored[i].1.ip, stored[i].1.reason@) == entries_of(lines)[i].1,
{
    assert(stored[i].0 == i % 0x1_0000_0000);
}

/// A tree after entries were inserted in order: an entry replaces one of the
/// same key.
pub open spec fn applied<E>(tree: Map<Seq<u8>, E>, entries: Seq<(Seq<u8>, E)>) -> Map<Seq<u8>, E>
    decreases entries.len(),
{
    if entries.len() == 0 {
        tree
    } else {
        applied(tree, entries.drop_last()).insert(entries.last().0, entries.last().1)
    }
}

/// Whether an entry has a key.
pub open spec fn has_key<E>(entries: Seq<(Seq<u8>, E)>, key: Seq<u8>) -> bool {
    exists|i: int| 0 <= i < entries.len() && (#[trigger] entries[i]).0 == key
}

/// Inserting entries settles their keys, whatever the tree held, and leaves
/// every other key as it was.
proof fn lemma_applied<E>(
    tree: Map<Seq<u8>, E>,
    other: Map<Seq<u8>, E>,
    entries: Seq<(Seq<u8>, E)>,
    key: Seq<u8>,
)
    ensures
        has_key(entries, key) ==> applied(tree, entries).dom().contains(key) && applied(
            other,
            entries,
        ).dom().contains(key) && applied(tree, entries)[key] == applied(other, entries)[key],
        !has_key(entries, key) ==> applied(tree, entries).dom().contains(key)
            == tree.dom().contains(key) && applied(tree, entries)[key] == tree[key],
    decreases entries.len(),
{
    if entries.len() > 0 {
        let rest = entries.drop_last();
        lemma_applied(tree, other, rest, key);
        assert(entries[entries.len() - 1] == entries.last());
        if has_key(rest, key) {
            let i = choose|i: int| 0 <= i < rest.len() && (#[trigger] rest[i]).0 == key;
            assert(entries[i].0 == key);
        }
        if has_key(entries, key) && entries.last().0 != key {
            let i = choose|i: int| 0 <= i < entries.len() && (#[trigger] entries[i]).0 == key;
            assert(rest[i].0 == key);
        }
    }
}

/// Inserting the same entries once more changes nothing.
pub proof fn law_entries_apply_once<E>(tree: Map<Seq<u8>, E>, entries: Seq<(Seq<u8>, E)>)
    ensures
        applied(applied(tree, entries), entries) == applied(tree, entries),
{
    let once = applied(tree, entries);
    let twice = applied(once, entries);
    assert forall|key: Seq<u8>| #[trigger] twice.dom().contains(key) == once.dom().contains(key)
        && twice[key] == once[key] by {
        lemma_applied(once, tree, entries, key);
        lemma_applied(tree, once, entries, key);
    }
    assert(twice =~= once);
}

/// Ingesting a log a second time leaves the store as it was: nothing is
/// doubled and nothing is lost.
pub proof fn law_second_ingest_changes_nothing(tree: Map<Seq<u8>, Probe>, lines: Seq<Seq<char>>)
    ensures
        applied(applied(tree, entries_of(lines)), entries_of(lines)) == applied(
            tree,
            entries_of(lines),
        ),
{
    law_entries_apply_once(tree, entries_of(lines));
}

/// Every line of a log is either kept or skipped: those are kept that state an
/// event.
pub proof fn law_kept_lines_state_events(lines: Seq<Seq<char>>)
    ensures
        events_in(lines).len() == lines.filter(
            |line: Seq<char>| probe::event_in(line) is Some,
        ).len(),
        events_in(lines).len() <= lines.len(),
    decreases lines.len(),
{
    reveal(Seq::filter);
    if lines.len() > 0 {
        law_kept_lines_state_events(lines.drop_last());
    }
}

/// Up to 2^32 lines, the entries of a log have keys of their own.
pub proof fn law_log_keys_are_distinct(lines: Seq<Seq<char>>, i: int, j: int)
    requires
        lines.len() <= 0x1_0000_0000,
        0 <= i < j < entries_of(lines).len(),
    ensures
        entries_of(lines)[i].0 != entries_of(lines)[j].0,
{
    law_kept_lines_state_events(lines);
    let events = events_in(lines);
    if entries_of(lines)[i].0 == entries_of(lines)[j].0 {
        law_keys_are_distinct(events[i].0 as i64, i as u32, events[j].0 as i64, j as u32);
    }
}

/// Up to 2^32 lines, ingesting a log into an empty store keeps every event:
/// each is found under its key, and there are as many entries as kept lines.
pub proof fn law_ingest_keeps_every_event(lines: Seq<Seq<char>>)
    requires
        lines.len() <= 0x1_0000_0000,
    ensures
        ({
            let tree = applied(Map::<Seq<u8>, Probe>::empty(), entries_of(lines));
            &&& tree.dom().finite()
            &&& tree.dom().len() == events_in(lines).len()
            &&& forall|i: int|
                0 <= i < events_in(lines).len() ==> tree.dom().contains(
                    (#[trigger] entries_of(lines)[i]).0,
                ) && tree[entries_of(lines)[i].0] == events_in(lines)[i]
        }),
{
    let entries = entries_of(lines);
    assert forall|i: int, j: int| 0 <= i < j < entries.len() implies (#[trigger] entries[i]).0 != (
    #[trigger] entries[j]).0 by {
        law_log_keys_are_distinct(lines, i, j);
    }
    lemma_distinct_entries(entries);
    let tree = applied(Map::<Seq<u8>, Probe>::empty(), entries);
    assert forall|i: int| 0 <= i < events_in(lines).len() implies tree.dom().contains(
        (#[trigger] entries[i]).0,
    ) && tree[entries[i].0] == events_in(lines)[i] by {
        assert(tree[entries[i].0] == entries[i].1);
    }
}

proof fn lemma_distinct_entries<E>(entries: Seq<(Seq<u8>, E)>)
    requires
        forall|i: int, j: int|
            0 <= i < j < entries.len() ==> (#[trigger] entries[i]).0 != (#[trigger] entries[j]).0,
    ensures
        ({
            let tree = applied(Map::<Seq<u8>, E>::empty(), entries);
            &&& tree.dom().finite()
            &&& tree.dom().len() == entries.len()
            &&& forall|i: int|
                0 <= i < entries.len() ==> tree.dom().contains((#[trigger] entries[i]).0)
                    && tree[entries[i].0] == entries[i].1
        }),
    decreases entries.len(),
{
    let empty = Map::<Seq<u8>, E>::empty();
    if entries.len() > 0 {
        let rest = entries.drop_last();
        let last = entries.last();
        assert(entries[entries.len() - 1] == last);
        assert forall|i: int, j: int| 0 <= i < j < rest.len() implies (#[trigger] rest[i]).0 != (
        #[trigger] rest[j]).0 by {
            assert(rest[i] == entries[i] && rest[j] == entries[j]);
        }
        lemma_distinct_entries(rest);
        lemma_applied(empty, empty, rest, last.0);
        assert(!has_key(rest, last.0)) by {
            if has_key(rest, last.0) {
                let i = choose|i: int| 0 <= i < rest.len() && (#[trigger] rest[i]).0 == last.0;
                assert(entries[i].0 == entries[entries.len() - 1].0);
            }
        }
        let before = applied(empty, rest);
        let tree = applied(empty, entries);
        assert(tree.dom() =~= before.dom().insert(last.0));
        assert forall|i: int| 0 <= i < entries.len() implies tree.dom().contains(
            (#[trigger] entries[i]).0,
        ) && tree[entries[i].0] == entries[i].1 by {
            if i < rest.len() {
                assert(rest[i] == entries[i]);
                assert(entries[i].0 != entries[entries.len() - 1].0);
            }
        }
    } else {
        assert(empty.dom() =~= Set::<Seq<u8>>::empty());
    }
}

} // verus!
