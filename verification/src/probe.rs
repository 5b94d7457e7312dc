//! Probe events: failed TLS handshakes, read from the log of the proxy.

use vstd::prelude::*;
use crate::calendar;
use crate::text;

verus! {

/// An IP address, as the number that its octets or segments make in network
/// byte order.
#[derive(Copy, Clone, Debug, PartialEq, Eq, Structural, Hash)]
pub enum IpAddr {
    /// IPv4.
    V4(u32),
    /// IPv6.
    V6(u128),
}

/// An octet of an IPv4 address: up to three digits without a leading zero.
pub open spec fn octet(s: Seq<char>) -> Option<nat> {
    if text::all_digits(s) && s.len() <= 3 && (s.len() > 1 ==> s[0] != '0') && text::digits_value(s)
        <= 255 {
        Some(text::digits_value(s))
    } else {
        None
    }
}

/// The address that a dotted quad stands for.
pub open spec fn dotted_quad(s: Seq<char>) -> Option<u32> {
    let parts = text::split(s, '.');
    if parts.len() != 4 {
        None
    } else {
        match (octet(parts[0]), octet(parts[1]), octet(parts[2]), octet(parts[3])) {
            (Some(a), Some(b), Some(c), Some(d)) => Some(
                (a * 0x100_0000 + b * 0x1_0000 + c * 0x100 + d) as u32,
            ),
            _ => None,
        }
    }
}

fn read_octet(v: &Vec<char>, lo: usize, hi: usize) -> (r: Option<u32>)
    requires
        lo <= hi <= v@.len(),
    ensures
        match r {
            Some(n) => n <= 255 && octet(v@.subrange(lo as int, hi as int)) == Some(n as nat),
            None => octet(v@.subrange(lo as int, hi as int)) is None,
        },
{
    if hi - lo > 3 || (hi - lo > 1 && v[lo] == '0') {
        return None;
    }
    match text::read_digits(v, lo, hi, 255) {
        Some(n) => Some(n as u32),
        None => None,
    }
}

/// Reads an IPv4 address in dotted notation.
pub fn parse_ipv4(s: &str) -> (r: Option<u32>)
    ensures
        r == dotted_quad(s@),
{
    let v = text::chars_of(s);
    let ranges = text::split_ranges(&v, '.');
    if ranges.len() != 4 {
        return None;
    }
    let a = read_octet(&v, ranges[0].0, ranges[0].1);
    let b = read_octet(&v, ranges[1].0, ranges[1].1);
    let c = read_octet(&v, ranges[2].0, ranges[2].1);
    let d = read_octet(&v, ranges[3].0, ranges[3].1);
    match (a, b, c, d) {
        (Some(a), Some(b), Some(c), Some(d)) => Some(
            a * 0x100_0000 + b * 0x1_0000 + c * 0x100 + d,
        ),
        _ => None,
    }
}

/// Coarse classification of what went wrong in a handshake.
#[derive(Debug, Clone)]
pub enum ProbeReason {
    /// The client did not send the signature-algorithms extension.
    SigAlgRequired,
    /// Corrupt record: raw HTTP or a bad protocol negotiation.
    InvalidContentType,
    /// The client hung up during the handshake.
    HandshakeEof,
    /// Anything else; the first eighty characters of the line.
    Other(String),
}

/// The mathematical value of a `ProbeReason`.
pub enum Reason {
    SigAlgRequired,
    InvalidContentType,
    HandshakeEof,
    Other(Seq<char>),
}

impl View for ProbeReason {
    type V = Reason;

    open spec fn view(&self) -> Reason {
        match self {
            ProbeReason::SigAlgRequired => Reason::SigAlgRequired,
            ProbeReason::InvalidContentType => Reason::InvalidContentType,
            ProbeReason::HandshakeEof => Reason::HandshakeEof,
            ProbeReason::Other(s) => Reason::Other(s@),
        }
    }
}

/// The first `n` characters of a text.
pub open spec fn at_most(s: Seq<char>, n: int) -> Seq<char> {
    if s.len() <= n {
        s
    } else {
        s.take(n)
    }
}

/// The reason that a line of the log states.
pub open spec fn reason_of(line: Seq<char>) -> Reason {
    if text::occurs(line, "SignatureAlgorithmsExtensionRequired"@) {
        Reason::SigAlgRequired
    } else if text::occurs(line, "InvalidContentType"@) {
        Reason::InvalidContentType
    } else if text::occurs(line, "tls handshake eof"@) {
        Reason::HandshakeEof
    } else {
        Reason::Other(at_most(line, 80))
    }
}

/// A reason that is not recognised keeps no more than eighty characters of the
/// line, and those are its first.
pub proof fn law_other_reasons_are_short(line: Seq<char>)
    ensures
        reason_of(line) matches Reason::Other(s) ==> s.len() <= 80 && s.is_prefix_of(line),
{
}

/// The first `n` characters of a text.
pub fn first_chars(s: &str, n: usize) -> (r: String)
    ensures
        r@ == at_most(s@, n as int),
{
    let v = text::chars_of(s);
    if v.len() <= n {
        assert(v@.subrange(0, v@.len() as int) =~= v@);
        text::text_between(&v, 0, v.len())
    } else {
        assert(v@.subrange(0, n as int) =~= v@.take(n as int));
        text::text_between(&v, 0, n)
    }
}

impl ProbeReason {
    /// The label of a reason in reports.
    pub open spec fn label_text(self) -> Seq<char> {
        match self {
            ProbeReason::SigAlgRequired => "sigalg-required"@,
            ProbeReason::InvalidContentType => "invalid-content-type"@,
            ProbeReason::HandshakeEof => "handshake-eof"@,
            ProbeReason::Other(_) => "other"@,
        }
    }

    /// Classifies a line of the log.
    pub fn from_line(s: &str) -> (r: Self)
        ensures
            r@ == reason_of(s@),
    {
        if text::contains(s, "SignatureAlgorithmsExtensionRequired") {
            ProbeReason::SigAlgRequired
        } else if text::contains(s, "InvalidContentType") {
            ProbeReason::InvalidContentType
        } else if text::contains(s, "tls handshake eof") {
            ProbeReason::HandshakeEof
        } else {
            ProbeReason::Other(first_chars(s, 80))
        }
    }

    /// The label of a reason in reports.
    pub fn label(&self) -> (r: &'static str)
        ensures
            r@ == self.label_text(),
    {
        match self {
            ProbeReason::SigAlgRequired => "sigalg-required",
            ProbeReason::InvalidContentType => "invalid-content-type",
            ProbeReason::HandshakeEof => "handshake-eof",
            ProbeReason::Other(_) => "other",
        }
    }
}

/// A failed handshake.
#[derive(Debug, Clone)]
pub struct ProbeEvent {
    /// Seconds since the epoch.
    pub ts_unix: i64,
    /// Address of the client.
    pub ip: IpAddr,
    /// What went wrong.
    pub reason: ProbeReason,
}

// ---------------------------------------------------------------------------
// Log lines
// ---------------------------------------------------------------------------

/// What follows a colour sequence whose parameters start here: the sequence
/// ends with the first `m` or `K`, or else with the text.
pub open spec fn after_sequence(s: Seq<char>) -> Seq<char>
    decreases s.len(),
{
    if s.len() == 0 {
        s
    } else if s[0] == 'm' || s[0] == 'K' {
        s.drop_first()
    } else {
        after_sequence(s.drop_first())
    }
}

proof fn lemma_after_sequence_is_shorter(s: Seq<char>)
    ensures
        after_sequence(s).len() <= s.len(),
    decreases s.len(),
{
    if s.len() > 0 && s[0] != 'm' && s[0] != 'K' {
        lemma_after_sequence_is_shorter(s.drop_first());
    }
}

/// A text without its terminal colour sequences.
pub open spec fn plain(s: Seq<char>) -> Seq<char>
    decreases s.len(),
    via plain_decreases
{
    if s.len() == 0 {
        s
    } else if s.len() >= 2 && s[0] == '\u{1b}' && s[1] == '[' {
        plain(after_sequence(s.skip(2)))
    } else {
        seq![s[0]] + plain(s.drop_first())
    }
}

#[via_fn]
proof fn plain_decreases(s: Seq<char>) {
    if s.len() >= 2 {
        lemma_after_sequence_is_shorter(s.skip(2));
    }
}

/// Removes terminal colour sequences: an escape character, a bracket, and
/// everything up to the next `m` or `K`.
pub fn strip_ansi(s: &str) -> (r: String)
    ensures
        r@ == plain(s@),
{
    let v = text::chars_of(s);
    let n: usize = v.len();
    let mut out = String::new();
    let mut i: usize = 0;
    assert(v@.skip(0) =~= v@);
    assert(out@ + plain(v@) =~= plain(v@));
    while i < n
        invariant
            i <= n == v@.len(),
            v@ == s@,
            plain(s@) == out@ + plain(v@.skip(i as int)),
        decreases n - i,
    {
        let ghost rest = v@.skip(i as int);
        let c: char = v[i];
        assert(rest[0] == c);
        if c == '\u{1b}' && i + 1 < n && v[i + 1] == '[' {
            let mut j: usize = i + 2;
            assert(rest.skip(2) =~= v@.skip(j as int));
            while j < n && v[j] != 'm' && v[j] != 'K'
                invariant
                    i + 2 <= j <= n == v@.len(),
                    after_sequence(rest.skip(2)) == after_sequence(v@.skip(j as int)),
                decreases n - j,
            {
                assert(v@.skip(j as int).drop_first() =~= v@.skip(j + 1));
                j = j + 1;
            }
            if j < n {
                assert(v@.skip(j as int).drop_first() =~= v@.skip(j + 1));
                i = j + 1;
            } else {
                assert(v@.skip(n as int) =~= Seq::<char>::empty());
                i = n;
            }
        } else {
            out.push(c);
            assert(rest.drop_first() =~= v@.skip(i + 1));
            assert(plain(s@) =~= out@ + plain(v@.skip(i + 1)));
            i = i + 1;
        }
    }
    assert(v@.skip(n as int) =~= Seq::<char>::empty());
    assert(plain(s@) =~= out@);
    out
}

/// A text without escape characters stays as it is.
pub proof fn law_text_without_escape_is_plain(s: Seq<char>)
    requires
        forall|i: int| 0 <= i < s.len() ==> s[i] != '\u{1b}',
    ensures
        plain(s) == s,
    decreases s.len(),
{
    if s.len() > 0 {
        law_text_without_escape_is_plain(s.drop_first());
        assert(seq![s[0]] + s.drop_first() =~= s);
    }
}

/// The client's address that a plain line states: what stands between
/// `tls accept from ` and the next colon.
pub open spec fn address_in(line: Seq<char>) -> Option<u32> {
    match text::position(line, "tls accept from "@, 0) {
        Some(at) => {
            let start = at + "tls accept from "@.len();
            match text::char_position(line, ':', start) {
                Some(colon) => dotted_quad(line.subrange(start, colon)),
                None => None,
            }
        },
        None => None,
    }
}

/// The instant that a plain line states: it starts with a timestamp that ends
/// with the first `Z`.
pub open spec fn instant_in(line: Seq<char>) -> Option<int> {
    match text::char_position(line, 'Z', 0) {
        Some(z) => calendar::rfc3339(vstd::utf8::encode_utf8(line.take(z + 1))),
        None => None,
    }
}

/// The event that a line of the log states.
pub open spec fn event_in(raw: Seq<char>) -> Option<(int, IpAddr, Reason)> {
    match (instant_in(plain(raw)), address_in(plain(raw))) {
        (Some(ts), Some(ip)) => Some((ts, IpAddr::V4(ip), reason_of(plain(raw)))),
        _ => None,
    }
}

/// Reads a line of the log.
pub fn parse_line(raw: &str) -> (r: Option<(i64, IpAddr, ProbeReason)>)
    ensures
        match r {
            Some((ts, ip, reason)) => event_in(raw@) == Some((ts as int, ip, reason@)),
            None => event_in(raw@) is None,
        },
{
    let s = strip_ansi(raw);
    let v = text::chars_of(s.as_str());
    let n: usize = v.len();
    let z: usize = match text::find_char(&v, 0, 'Z') {
        Some(z) => z,
        None => return None,
    };
    assert(v@.subrange(0, z + 1) =~= v@.take(z + 1));
    let stamp = text::text_between(&v, 0, z + 1);
    let ts: i64 = match calendar::parse_rfc3339_to_unix(stamp.as_str()) {
        Some(ts) => ts,
        None => return None,
    };
    let at: usize = match text::find(&v, "tls accept from ") {
        Some(at) => at,
        None => return None,
    };
    let start: usize = at + "tls accept from ".unicode_len();
    assert(start <= n);
    let colon: usize = match text::find_char(&v, start, ':') {
        Some(colon) => colon,
        None => return None,
    };
    let quad = text::text_between(&v, start, colon);
    let ip: u32 = match parse_ipv4(quad.as_str()) {
        Some(ip) => ip,
        None => return None,
    };
    Some((ts, IpAddr::V4(ip), ProbeReason::from_line(s.as_str())))
}

// ---------------------------------------------------------------------------
// Laws
// ---------------------------------------------------------------------------

/// An address in dotted notation, from its four octets.
pub open spec fn quad_text(a: nat, b: nat, c: nat, d: nat) -> Seq<char> {
    text::dec(a) + seq!['.'] + text::dec(b) + seq!['.'] + text::dec(c) + seq!['.'] + text::dec(d)
}

proof fn lemma_octet(n: nat)
    requires
        n < 256,
    ensures
        octet(text::dec(n)) == Some(n),
        !text::dec(n).contains('.'),
{
    text::law_decimal_states_the_number(n);
    text::lemma_dec_len(n);
    let s = text::dec(n);
    if s.contains('.') {
        let i = choose|i: int| 0 <= i < s.len() && s[i] == '.';
        assert(text::is_digit(s[i]));
    }
}

/// Every address is read from its dotted notation, the octet of the highest
/// value first.
pub proof fn law_dotted_quad_reads_its_octets(a: nat, b: nat, c: nat, d: nat)
    requires
        a < 256,
        b < 256,
        c < 256,
        d < 256,
    ensures
        dotted_quad(quad_text(a, b, c, d)) matches Some(v) && v == a * 0x100_0000 + b * 0x1_0000 + c
            * 0x100 + d,
{
    lemma_octet(a);
    lemma_octet(b);
    lemma_octet(c);
    lemma_octet(d);
    lemma_quad_splits(text::dec(a), text::dec(b), text::dec(c), text::dec(d));
}

proof fn lemma_quad_splits(a: Seq<char>, b: Seq<char>, c: Seq<char>, d: Seq<char>)
    requires
        !a.contains('.'),
        !b.contains('.'),
        !c.contains('.'),
        !d.contains('.'),
    ensures
        text::split(a + seq!['.'] + b + seq!['.'] + c + seq!['.'] + d, '.') == seq![a, b, c, d],
{
    text::lemma_split_one(a, '.');
    text::lemma_split_more(a, b, '.');
    text::lemma_split_more(a + seq!['.'] + b, c, '.');
    text::lemma_split_more(a + seq!['.'] + b + seq!['.'] + c, d, '.');
    assert(seq![a].push(b).push(c).push(d) =~= seq![a, b, c, d]);
}

/// Nothing else is read as an address: what is read is the dotted notation of
/// the octets of the result.
pub proof fn law_only_dotted_quads_are_addresses(s: Seq<char>)
    requires
        dotted_quad(s) is Some,
    ensures
        exists|a: nat, b: nat, c: nat, d: nat|
            {
                &&& a < 256 && b < 256 && c < 256 && d < 256
                &&& s == #[trigger] quad_text(a, b, c, d)
                &&& dotted_quad(s)->0 == a * 0x100_0000 + b * 0x1_0000 + c * 0x100 + d
            },
{
    let p = text::split(s, '.');
    text::law_split_loses_nothing(s, '.');
    let (a, b, c, d) = (
        text::digits_value(p[0]),
        text::digits_value(p[1]),
        text::digits_value(p[2]),
        text::digits_value(p[3]),
    );
    text::law_decimal_is_canonical(p[0]);
    text::law_decimal_is_canonical(p[1]);
    text::law_decimal_is_canonical(p[2]);
    text::law_decimal_is_canonical(p[3]);
    reveal_with_fuel(text::joined, 5);
    assert(p.drop_last().last() == p[2]);
    assert(p.drop_last().drop_last().last() == p[1]);
    assert(p.drop_last().drop_last().drop_last()[0] == p[0]);
    assert(text::joined(p, '.') =~= quad_text(a, b, c, d));
}

/// A line that names a cause has the reason of that cause, whatever else it
/// says; of several causes the missing extension counts first, then the bad
/// content type.
pub proof fn law_reason_is_the_named_cause(before: Seq<char>, after: Seq<char>)
    ensures
        reason_of(before + "SignatureAlgorithmsExtensionRequired"@ + after)
            == Reason::SigAlgRequired,
        !text::occurs(
            before + "InvalidContentType"@ + after,
            "SignatureAlgorithmsExtensionRequired"@,
        ) ==> reason_of(before + "InvalidContentType"@ + after) == Reason::InvalidContentType,
        !text::occurs(
            before + "tls handshake eof"@ + after,
            "SignatureAlgorithmsExtensionRequired"@,
        ) && !text::occurs(before + "tls handshake eof"@ + after, "InvalidContentType"@)
            ==> reason_of(before + "tls handshake eof"@ + after) == Reason::HandshakeEof,
{
    lemma_occurs_between(before, "SignatureAlgorithmsExtensionRequired"@, after);
    lemma_occurs_between(before, "InvalidContentType"@, after);
    lemma_occurs_between(before, "tls handshake eof"@, after);
}

proof fn lemma_occurs_between(before: Seq<char>, s: Seq<char>, after: Seq<char>)
    ensures
        text::occurs(before + s + after, s),
{
    let all = before + s + after;
    assert(all.subrange(before.len() as int, (before.len() + s.len()) as int) =~= s);
    assert(text::occurs_at(all, s, before.len() as int));
}

/// A line that names no cause keeps its first eighty characters, or all where
/// there are fewer.
pub proof fn law_unknown_reason_keeps_the_line(line: Seq<char>)
    requires
        !text::occurs(line, "SignatureAlgorithmsExtensionRequired"@),
        !text::occurs(line, "InvalidContentType"@),
        !text::occurs(line, "tls handshake eof"@),
    ensures
        reason_of(line) matches Reason::Other(s) && s.is_prefix_of(line) && (s.len() == 80 || (
        s.len() < 80 && s == line)),
{
}

proof fn lemma_plain_prefix(a: Seq<char>, b: Seq<char>)
    requires
        forall|i: int| 0 <= i < a.len() ==> a[i] != '\u{1b}',
    ensures
        plain(a + b) == a + plain(b),
    decreases a.len(),
{
    if a.len() == 0 {
        assert(a + b =~= b);
        assert(a + plain(b) =~= plain(b));
    } else {
        assert((a + b)[0] == a[0]);
        assert((a + b).drop_first() =~= a.drop_first() + b);
        lemma_plain_prefix(a.drop_first(), b);
        assert(seq![a[0]] + (a.drop_first() + plain(b)) =~= a + plain(b));
    }
}

proof fn lemma_after_sequence(params: Seq<char>, rest: Seq<char>)
    requires
        forall|i: int| 0 <= i < params.len() ==> params[i] != 'm' && params[i] != 'K',
        rest.len() > 0 ==> rest[0] == 'm' || rest[0] == 'K',
    ensures
        after_sequence(params + rest) == if rest.len() > 0 {
            rest.drop_first()
        } else {
            Seq::empty()
        },
    decreases params.len(),
{
    let all = params + rest;
    if params.len() > 0 {
        assert(all[0] == params[0]);
        assert(all.drop_first() =~= params.drop_first() + rest);
        lemma_after_sequence(params.drop_first(), rest);
    } else {
        assert(all =~= rest);
        if rest.len() == 0 {
            assert(all =~= Seq::<char>::empty());
        }
    }
}

/// A colour sequence vanishes, with its parameters and its end, and what stands
/// around it stays.
pub proof fn law_colour_sequence_vanishes(
    before: Seq<char>,
    params: Seq<char>,
    end: char,
    after: Seq<char>,
)
    requires
        forall|i: int| 0 <= i < before.len() ==> before[i] != '\u{1b}',
        forall|i: int| 0 <= i < params.len() ==> params[i] != 'm' && params[i] != 'K',
        end == 'm' || end == 'K',
    ensures
        plain(before + seq!['\u{1b}', '['] + params + seq![end] + after) == before + plain(after),
        plain(before + seq!['\u{1b}', '['] + params) == before,
{
    let rest = seq![end] + after;
    let seq_and_rest = seq!['\u{1b}', '['] + (params + rest);
    lemma_after_sequence(params, rest);
    lemma_after_sequence(params, Seq::empty());
    assert(rest.drop_first() =~= after);
    assert(seq_and_rest.skip(2) =~= params + rest);
    lemma_plain_prefix(before, seq_and_rest);
    assert(before + seq!['\u{1b}', '['] + params + seq![end] + after =~= before + seq_and_rest);
    let open = seq!['\u{1b}', '['] + params;
    assert(open.skip(2) =~= params + Seq::<char>::empty());
    lemma_plain_prefix(before, open);
    assert(plain(Seq::<char>::empty()) == Seq::<char>::empty());
    assert(plain(open) == plain(after_sequence(open.skip(2))));
    assert(plain(open) =~= Seq::<char>::empty());
    assert(before + seq!['\u{1b}', '['] + params =~= before + open);
    assert(before + plain(open) =~= before);
}

/// An escape character that starts no sequence stays.
pub proof fn law_lone_escape_stays(before: Seq<char>, after: Seq<char>)
    requires
        forall|i: int| 0 <= i < before.len() ==> before[i] != '\u{1b}',
        after.len() == 0 || after[0] != '[',
    ensures
        plain(before + seq!['\u{1b}'] + after) == before + seq!['\u{1b}'] + plain(after),
{
    let rest = seq!['\u{1b}'] + after;
    assert(rest.drop_first() =~= after);
    if after.len() > 0 {
        assert(rest[1] == after[0]);
    }
    lemma_plain_prefix(before, rest);
    assert(before + seq!['\u{1b}'] + after =~= before + rest);
    assert(before + (seq!['\u{1b}'] + plain(after)) =~= before + seq!['\u{1b}'] + plain(after));
}

/// Each reason has its own label; all that are not recognised share one.
pub proof fn law_reasons_have_labels(reason: ProbeReason)
    ensures
        reason.label_text() == "sigalg-required"@ <==> reason is SigAlgRequired,
        reason.label_text() == "invalid-content-type"@ <==> reason is InvalidContentType,
        reason.label_text() == "handshake-eof"@ <==> reason is HandshakeEof,
        reason.label_text() == "other"@ <==> reason is Other,
{
    reveal_strlit("sigalg-required");
    reveal_strlit("invalid-content-type");
    reveal_strlit("handshake-eof");
    reveal_strlit("other");
    assert("sigalg-required"@.len() == 15);
    assert("invalid-content-type"@.len() == 20);
    assert("handshake-eof"@.len() == 13);
    assert("other"@.len() == 5);
}

/// A line that states a time and an accepted connection is the event of that
/// time, that address and the reason that the line names. `fraction` is what
/// follows the seconds up to the `Z`; `between` is what stands between the time
/// and the address, and `rest` what follows the address and its colon.
pub proof fn law_log_line_is_its_event(
    year: int,
    mon: int,
    day: int,
    hour: int,
    min: int,
    sec: int,
    fraction: Seq<char>,
    between: Seq<char>,
    octets: (nat, nat, nat, nat),
    rest: Seq<char>,
)
    requires
        -999 <= year <= 9999,
        0 <= mon <= 99,
        0 <= day <= 99,
        0 <= hour <= 99,
        0 <= min <= 99,
        0 <= sec <= 99,
        octets.0 < 256,
        octets.1 < 256,
        octets.2 < 256,
        octets.3 < 256,
        !fraction.contains('Z'),
        ({
            let line = log_line(year, mon, day, hour, min, sec, fraction, between, octets, rest);
            &&& forall|i: int| 0 <= i < line.len() ==> line[i] != '\u{1b}'
            &&& forall|i: int|
                0 <= i < 20 + fraction.len() + between.len() ==> !text::occurs_at(
                    line,
                    "tls accept from "@,
                    i,
                )
        }),
    ensures
        ({
            let line = log_line(year, mon, day, hour, min, sec, fraction, between, octets, rest);
            let ip = octets.0 * 0x100_0000 + octets.1 * 0x1_0000 + octets.2 * 0x100 + octets.3;
            event_in(line) == Some(
                (
                    calendar::day_number(year, mon, day) * 86400 + hour * 3600 + min * 60 + sec,
                    IpAddr::V4(ip as u32),
                    reason_of(line),
                ),
            )
        }),
{
    let line = log_line(year, mon, day, hour, min, sec, fraction, between, octets, rest);
    let head = time_text(year, mon, day, hour, min, sec);
    let marker = "tls accept from "@;
    let quad = quad_text(octets.0, octets.1, octets.2, octets.3);
    law_text_without_escape_is_plain(line);
    calendar::law_timestamp_text_reads_its_fields(
        year,
        mon,
        day,
        hour,
        min,
        sec,
        fraction + seq!['Z'],
    );
    law_dotted_quad_reads_its_octets(octets.0, octets.1, octets.2, octets.3);
    let z = 19 + fraction.len();
    lemma_head_has_no_z(year, mon, day, hour, min, sec);
    assert forall|i: int| 0 <= i < z implies #[trigger] line[i] != 'Z' by {
        if i < 19 {
            assert(line[i] == head[i]);
        } else {
            assert(line[i] == fraction[i - 19]);
        }
    }
    text::law_first_character_is_found(line, 'Z', 0);
    assert(line[z as int] == 'Z');
    assert(text::char_position(line, 'Z', 0) == Some(z as int));
    assert(line.take((z + 1) as int) =~= head + (fraction + seq!['Z']));
    let at = z + 1 + between.len();
    let start = at + marker.len();
    assert(line.subrange(at as int, start as int) =~= marker);
    assert(text::occurs_at(line, marker, at as int));
    text::lemma_position(line, marker, 0);
    assert(text::position(line, marker, 0) == Some(at as int));
    let colon = start + quad.len();
    lemma_quad_has_no_colon(octets.0, octets.1, octets.2, octets.3);
    assert forall|i: int| start <= i < colon implies #[trigger] line[i] != ':' by {
        assert(line[i] == quad[i - start]);
    }
    assert(line[colon as int] == ':');
    text::law_first_character_is_found(line, ':', start as int);
    assert(text::char_position(line, ':', start as int) == Some(colon as int));
    assert(line.subrange(start as int, colon as int) =~= quad);
}

/// A line without a `Z`, or without an accepted connection, states no event.
pub proof fn law_other_lines_state_no_event(raw: Seq<char>)
    ensures
        !plain(raw).contains('Z') ==> event_in(raw) is None,
        !text::occurs(plain(raw), "tls accept from "@) ==> event_in(raw) is None,
{
    let line = plain(raw);
    text::law_first_character_is_found(line, 'Z', 0);
    text::lemma_position(line, "tls accept from "@, 0);
}

/// The text of a date and a time of day.
pub open spec fn time_text(
    year: int,
    mon: int,
    day: int,
    hour: int,
    min: int,
    sec: int,
) -> Seq<char> {
    text::zero_padded(year, 4) + seq!['-'] + text::zero_padded(mon, 2) + seq!['-']
        + text::zero_padded(day, 2) + seq!['T'] + text::zero_padded(hour, 2) + seq![':']
        + text::zero_padded(min, 2) + seq![':'] + text::zero_padded(sec, 2)
}

/// A line of the log without colours.
pub open spec fn log_line(
    year: int,
    mon: int,
    day: int,
    hour: int,
    min: int,
    sec: int,
    fraction: Seq<char>,
    between: Seq<char>,
    octets: (nat, nat, nat, nat),
    rest: Seq<char>,
) -> Seq<char> {
    time_text(year, mon, day, hour, min, sec) + fraction + seq!['Z'] + between
        + "tls accept from "@ + quad_text(octets.0, octets.1, octets.2, octets.3) + seq![':'] + rest
}

proof fn lemma_number_has_no_letter(n: int, width: nat)
    requires
        width >= 1,
    ensures
        forall|i: int|
            0 <= i < text::zero_padded(n, width).len() ==> #[trigger] text::zero_padded(
                n,
                width,
            )[i] <= '9',
{
    let m = (if n < 0 {
        -n
    } else {
        n
    }) as nat;
    text::lemma_dec_reads_back(m);
    let d = text::dec(m);
    let s = text::zero_padded(n, width);
    assert forall|i: int| 0 <= i < d.len() implies #[trigger] d[i] <= '9' by {
        assert(text::is_digit(d[i]));
    }
}

proof fn lemma_head_has_no_z(year: int, mon: int, day: int, hour: int, min: int, sec: int)
    requires
        -999 <= year <= 9999,
        0 <= mon <= 99,
        0 <= day <= 99,
        0 <= hour <= 99,
        0 <= min <= 99,
        0 <= sec <= 99,
    ensures
        forall|i: int|
            0 <= i < time_text(year, mon, day, hour, min, sec).len() ==> #[trigger] time_text(
                year,
                mon,
                day,
                hour,
                min,
                sec,
            )[i] != 'Z',
{
    lemma_number_has_no_letter(year, 4);
    lemma_number_has_no_letter(mon, 2);
    lemma_number_has_no_letter(day, 2);
    lemma_number_has_no_letter(hour, 2);
    lemma_number_has_no_letter(min, 2);
    lemma_number_has_no_letter(sec, 2);
}

proof fn lemma_quad_has_no_colon(a: nat, b: nat, c: nat, d: nat)
    ensures
        forall|i: int|
            0 <= i < quad_text(a, b, c, d).len() ==> #[trigger] quad_text(a, b, c, d)[i] != ':',
{
    lemma_digits_are_no_colon(a);
    lemma_digits_are_no_colon(b);
    lemma_digits_are_no_colon(c);
    lemma_digits_are_no_colon(d);
}

proof fn lemma_digits_are_no_colon(n: nat)
    ensures
        forall|i: int| 0 <= i < text::dec(n).len() ==> #[trigger] text::dec(n)[i] != ':',
{
    text::lemma_dec_reads_back(n);
    assert forall|i: int| 0 <= i < text::dec(n).len() implies #[trigger] text::dec(n)[i] != ':' by {
        assert(text::is_digit(text::dec(n)[i]));
    }
}

} // verus!
