//! Autonomous systems: queries to the whois-by-DNS service, its answers, and
//! the report by system.

use vstd::prelude::*;
use crate::groups;
use crate::probe::{self, IpAddr, ProbeEvent};
use crate::probes::{self, IpRow};
use crate::rank;
use crate::store::AsnInfo;
use crate::text;

verus! {

// ---------------------------------------------------------------------------
// Queries
// ---------------------------------------------------------------------------

/// Why an address has no known system.
#[derive(Debug)]
pub enum AsnError {
    /// The service is asked for IPv4 addresses only.
    NotIpv4,
    /// The service did not answer.
    Unanswered,
    /// The service has no record; holds the name that was asked for.
    NoRecord(String),
    /// The record has fewer than three fields; holds the record.
    BadRecord(String),
}

impl AsnError {
    /// The message of an error.
    pub open spec fn message_text(self) -> Seq<char> {
        match self {
            AsnError::NotIpv4 => "v6 lookup not implemented"@,
            AsnError::Unanswered => "cymru origin txt"@,
            AsnError::NoRecord(name) => "no TXT for "@ + name@,
            AsnError::BadRecord(record) => "bad cymru TXT: "@ + record@,
        }
    }

    /// Renders the message of an error.
    pub fn message(&self) -> (r: String)
        ensures
            r@ == self.message_text(),
    {
        match self {
            AsnError::NotIpv4 => "v6 lookup not implemented".to_owned(),
            AsnError::Unanswered => "cymru origin txt".to_owned(),
            AsnError::NoRecord(name) => {
                let mut out = "no TXT for ".to_owned();
                out.append(name.as_str());
                out
            },
            AsnError::BadRecord(record) => {
                let mut out = "bad cymru TXT: ".to_owned();
                out.append(record.as_str());
                out
            },
        }
    }
}

/// An octet of an IPv4 address in decimal, counted from the low end.
pub open spec fn low_octet(ip: u32, k: nat) -> Seq<char> {
    let shifted = if k == 0 {
        ip as nat
    } else if k == 1 {
        ip as nat / 0x100
    } else if k == 2 {
        ip as nat / 0x1_0000
    } else {
        ip as nat / 0x100_0000
    };
    text::dec(shifted % 0x100)
}

/// The name under which the service tells the origin of an address: its octets
/// in reverse order, under the zone of the service.
pub open spec fn origin_name(ip: u32) -> Seq<char> {
    low_octet(ip, 0) + "."@ + low_octet(ip, 1) + "."@ + low_octet(ip, 2) + "."@ + low_octet(ip, 3)
        + ".origin.asn.cymru.com"@
}

/// A name puts the octets of an address, from the last to the first, under the
/// zone of the service.
pub open spec fn asks_in_reverse(name: Seq<char>, ip: u32) -> bool {
    exists|a: nat, b: nat, c: nat, d: nat|
        {
            &&& a < 256 && b < 256 && c < 256 && d < 256
            &&& probe::dotted_quad(#[trigger] probe::quad_text(a, b, c, d)) == Some(ip)
            &&& name == probe::quad_text(d, c, b, a) + ".origin.asn.cymru.com"@
        }
}

proof fn lemma_octets(a: nat, b: nat, c: nat, d: nat, v: nat)
    requires
        a < 256,
        b < 256,
        c < 256,
        d < 256,
        v == a * 0x100_0000 + b * 0x1_0000 + c * 0x100 + d,
    ensures
        v % 0x100 == d,
        (v / 0x100) % 0x100 == c,
        (v / 0x1_0000) % 0x100 == b,
        (v / 0x100_0000) % 0x100 == a,
{
    let top = a * 0x1_0000 + b * 0x100 + c;
    let mid = a * 0x100 + b;
    assert(v == top * 0x100 + d);
    assert(v / 0x100 == top && v % 0x100 == d);
    assert(top == mid * 0x100 + c);
    assert(top % 0x100 == c);
    assert(v == mid * 0x1_0000 + (c * 0x100 + d) && c * 0x100 + d < 0x1_0000);
    assert(v / 0x1_0000 == mid);
    assert(mid % 0x100 == b);
    assert(v / 0x100_0000 == a);
}

/// The name for an address `a.b.c.d` starts with `d.c.b.a`.
pub proof fn law_origin_name_reverses_octets(a: nat, b: nat, c: nat, d: nat, ip: u32)
    requires
        a < 256,
        b < 256,
        c < 256,
        d < 256,
        probe::dotted_quad(probe::quad_text(a, b, c, d)) == Some(ip),
    ensures
        origin_name(ip) == text::dec(d) + "."@ + text::dec(c) + "."@ + text::dec(b) + "."@
            + text::dec(a) + ".origin.asn.cymru.com"@,
{
    probe::law_dotted_quad_reads_its_octets(a, b, c, d);
    lemma_octets(a, b, c, d, ip as nat);
}

/// The name for an address puts the octets that its dotted notation shows in
/// reverse order.
pub proof fn law_origin_name_reverses_the_address(ip: u32)
    ensures
        asks_in_reverse(origin_name(ip), ip),
{
    let v = ip as nat;
    let a = v / 0x100_0000;
    let b = (v / 0x1_0000) % 0x100;
    let c = (v / 0x100) % 0x100;
    let d = v % 0x100;
    assert(a * 0x100_0000 + b * 0x1_0000 + c * 0x100 + d == v);
    probe::law_dotted_quad_reads_its_octets(a, b, c, d);
    law_origin_name_reverses_octets(a, b, c, d, ip);
    reveal_strlit(".");
    assert("."@ =~= seq!['.']);
    assert(origin_name(ip) =~= probe::quad_text(d, c, b, a) + ".origin.asn.cymru.com"@);
}

/// The name to ask for the origin of an address.
pub fn origin_query(ip: &IpAddr) -> (r: Result<String, AsnError>)
    ensures
        match *ip {
            IpAddr::V4(v) => r matches Ok(name) && name@ == origin_name(v) && asks_in_reverse(
                name@,
                v,
            ),
            IpAddr::V6(_) => r matches Err(AsnError::NotIpv4),
        },
{
    match *ip {
        IpAddr::V4(v) => {
            let mut name = text::decimal((v % 0x100) as u64);
            name.append(".");
            text::push_dec(&mut name, ((v / 0x100) % 0x100) as u64);
            name.append(".");
            text::push_dec(&mut name, ((v / 0x1_0000) % 0x100) as u64);
            name.append(".");
            text::push_dec(&mut name, ((v / 0x100_0000) % 0x100) as u64);
            name.append(".origin.asn.cymru.com");
            proof {
                law_origin_name_reverses_the_address(v);
            }
            Ok(name)
        },
        IpAddr::V6(_) => Err(AsnError::NotIpv4),
    }
}

/// The name under which the service describes a system.
pub open spec fn description_name(asn: u32) -> Seq<char> {
    "AS"@ + text::dec(asn as nat) + ".asn.cymru.com"@
}

/// The number of a system can be read from the name for its description.
pub proof fn law_description_name_holds_the_number(asn: u32)
    ensures
        ({
            let name = description_name(asn);
            &&& name.len() > 16
            &&& name.take(2) == "AS"@
            &&& text::unsigned(name.subrange(2, name.len() - 14)) == Some(asn as nat)
            &&& name.skip(name.len() - 14) == ".asn.cymru.com"@
        }),
{
    reveal_strlit("AS");
    reveal_strlit(".asn.cymru.com");
    let name = description_name(asn);
    let n = text::dec(asn as nat);
    text::law_decimal_states_the_number(asn as nat);
    text::law_numbers_read_back(asn as nat, 0);
    assert(text::fill('0', 0) + n =~= n);
    assert(name.subrange(2, name.len() - 14) =~= n);
    assert(name.take(2) =~= "AS"@);
    assert(name.skip(name.len() - 14) =~= ".asn.cymru.com"@);
}

/// The name to ask for the description of a system; none for system zero.
pub fn description_query(asn: u32) -> (r: Option<String>)
    ensures
        r is Some <==> asn > 0,
        r matches Some(name) ==> name@ == description_name(asn),
{
    if asn > 0 {
        let mut name = "AS".to_owned();
        text::push_dec(&mut name, asn as u64);
        name.append(".asn.cymru.com");
        Some(name)
    } else {
        None
    }
}

// ---------------------------------------------------------------------------
// Answers
// ---------------------------------------------------------------------------

/// What `String::from_utf8_lossy` makes of bytes.
pub uninterp spec fn lossy_utf8(bytes: Seq<u8>) -> Seq<char>;

/// Calls `String::from_utf8_lossy`. Trusted: the text depends on the bytes
/// alone, and bytes that are UTF-8 give the text that they encode.
#[verifier::external_body]
fn lossy(bytes: &[u8]) -> (r: String)
    ensures
        r@ == lossy_utf8(bytes@),
        vstd::utf8::valid_utf8(bytes@) ==> r@ == vstd::utf8::decode_utf8(bytes@),
{
    String::from_utf8_lossy(bytes).to_string()
}

/// The texts of the strings of a record, one after the other.
pub open spec fn record_of(strings: Seq<Vec<u8>>) -> Seq<char>
    decreases strings.len(),
{
    if strings.len() == 0 {
        Seq::empty()
    } else {
        record_of(strings.drop_last()) + lossy_utf8(strings.last()@)
    }
}

/// Whether the strings of a record are UTF-8.
pub open spec fn all_utf8(strings: Seq<Vec<u8>>) -> bool {
    forall|i: int| 0 <= i < strings.len() ==> vstd::utf8::valid_utf8((#[trigger] strings[i])@)
}

/// Joins the strings of a text record.
pub fn record_text(strings: &Vec<Vec<u8>>) -> (r: String)
    ensures
        r@ == record_of(strings@),
        all_utf8(strings@) ==> r@ == plain_record(strings@),
{
    let mut out = String::new();
    let mut i: usize = 0;
    assert(strings@.take(0) =~= Seq::<Vec<u8>>::empty());
    while i < strings.len()
        invariant
            i <= strings@.len(),
            out@ == record_of(strings@.take(i as int)),
            all_utf8(strings@) ==> out@ == plain_record(strings@.take(i as int)),
        decreases strings@.len() - i,
    {
        let part = lossy(strings[i].as_slice());
        assert(strings@.take(i + 1).drop_last() =~= strings@.take(i as int));
        assert(strings@.take(i + 1).last() == strings@[i as int]);
        out.append(part.as_str());
        i = i + 1;
    }
    assert(strings@.take(strings@.len() as int) =~= strings@);
    out
}

/// The texts that strings of UTF-8 encode, one after the other.
pub open spec fn plain_record(strings: Seq<Vec<u8>>) -> Seq<char>
    decreases strings.len(),
{
    if strings.len() == 0 {
        Seq::empty()
    } else {
        plain_record(strings.drop_last()) + vstd::utf8::decode_utf8(strings.last()@)
    }
}

/// A record is the texts of its strings, one after the other, with nothing in
/// between.
pub proof fn law_record_is_its_strings(a: Seq<Vec<u8>>, b: Seq<Vec<u8>>, one: Vec<u8>)
    ensures
        record_of(a + b) == record_of(a) + record_of(b),
        plain_record(a + b) == plain_record(a) + plain_record(b),
        record_of(seq![one]) == lossy_utf8(one@),
        plain_record(seq![one]) == vstd::utf8::decode_utf8(one@),
    decreases b.len(),
{
    let none = Seq::<Vec<u8>>::empty();
    assert(seq![one].drop_last() =~= none);
    assert(record_of(seq![one]) =~= lossy_utf8(one@)) by {
        assert(record_of(none).len() == 0);
    }
    assert(plain_record(seq![one]) =~= vstd::utf8::decode_utf8(one@)) by {
        assert(plain_record(none).len() == 0);
    }
    if b.len() == 0 {
        assert(a + b =~= a);
        assert(record_of(a + b) =~= record_of(a) + record_of(b));
        assert(plain_record(a + b) =~= plain_record(a) + plain_record(b));
    } else {
        law_record_is_its_strings(a, b.drop_last(), one);
        assert((a + b).drop_last() =~= a + b.drop_last());
        assert(record_of(a + b) =~= record_of(a) + record_of(b));
        assert(plain_record(a + b) =~= plain_record(a) + plain_record(b));
    }
}

/// The number of a system in the first field of a record: its first word, zero
/// where that is not a number of 32 bits.
pub open spec fn number_in(field: Seq<char>) -> u32 {
    match text::unsigned(text::first_word(field)) {
        Some(n) => if n <= 0xFFFF_FFFF {
            n as u32
        } else {
            0
        },
        None => 0,
    }
}

/// What the origin record of an address states.
#[derive(Debug)]
pub struct Origin {
    /// Number of the system; zero where the record states none.
    pub asn: u32,
    /// Country.
    pub country: String,
}

/// Reads the origin record of an address: fields between vertical bars, the
/// first starts with the number of the system, the third is the country.
pub fn read_origin(name: &str, record: Option<&str>) -> (r: Result<Origin, AsnError>)
    ensures
        match record {
            None => r matches Err(AsnError::NoRecord(asked)) && asked@ == name@,
            Some(s) => {
                let fields = text::split_trim(s@, '|');
                if fields.len() < 3 {
                    r matches Err(AsnError::BadRecord(bad)) && bad@ == s@
                } else {
                    r matches Ok(o) && o.asn == number_in(fields[0]) && o.country@ == fields[2]
                }
            },
        },
{
    match record {
        None => Err(AsnError::NoRecord(name.to_owned())),
        Some(s) => {
            let fields = text::split_trimmed(s, '|');
            let ghost views = text::split_trim(s@, '|');
            assert(text::texts(fields@) == views);
            if fields.len() < 3 {
                return Err(AsnError::BadRecord(s.to_owned()));
            }
            assert(fields@[0]@ == views[0]);
            assert(fields@[2]@ == views[2]);
            let word = text::word(fields[0].as_str());
            let v = text::chars_of(word.as_str());
            assert(v@.subrange(0, v@.len() as int) =~= v@);
            let asn: u32 = match text::read_unsigned(&v, 0, v.len(), 0xFFFF_FFFF) {
                Some(n) => n as u32,
                None => 0,
            };
            Ok(Origin { asn, country: fields[2].clone() })
        },
    }
}

/// The organisation in the description of a system: the fifth field, or the
/// last of fewer.
pub open spec fn org_in(record: Seq<char>) -> Seq<char> {
    let fields = text::split_trim(record, '|');
    if fields.len() >= 5 {
        fields[4]
    } else {
        fields.last()
    }
}

/// Reads the description of a system. Where there is none, the organisation
/// is empty.
pub fn read_org(record: Option<&str>) -> (r: String)
    ensures
        match record {
            Some(s) => r@ == org_in(s@),
            None => r@.len() == 0,
        },
{
    match record {
        Some(s) => {
            let fields = text::split_trimmed(s, '|');
            let ghost views = text::split_trim(s@, '|');
            assert(text::texts(fields@) == views);
            let k: usize = if fields.len() >= 5 {
                4
            } else {
                fields.len() - 1
            };
            assert(fields@[k as int]@ == views[k as int]);
            fields[k].clone()
        },
        None => String::new(),
    }
}

/// A record of fields between vertical bars is split into the fields, each
/// without the white space around it.
proof fn lemma_fields(fields: Seq<Seq<char>>)
    requires
        fields.len() > 0,
        forall|i: int| 0 <= i < fields.len() ==> !(#[trigger] fields[i]).contains('|'),
    ensures
        text::split_trim(text::joined(fields, '|'), '|') == fields.map_values(
            |f: Seq<char>| text::trim(f),
        ),
{
    text::law_split_finds_the_pieces(fields, '|');
}

/// The first field of a record states a system by its first word, whatever
/// white space and whatever other words stand around it. A word that is no
/// number, or one that is too large, states none.
pub proof fn law_first_word_states_the_system(
    before: Seq<char>,
    word: Seq<char>,
    rest: Seq<char>,
    n: nat,
)
    requires
        forall|i: int| 0 <= i < before.len() ==> text::is_space(#[trigger] before[i]),
        forall|i: int| 0 <= i < word.len() ==> !text::is_space(#[trigger] word[i]),
        rest.len() > 0 ==> text::is_space(rest[0]),
        word.len() == 0 ==> rest.len() == 0,
    ensures
        word == text::dec(n) && n <= 0xFFFF_FFFF ==> number_in(before + word + rest) == n,
        word == text::dec(n) && n > 0xFFFF_FFFF ==> number_in(before + word + rest) == 0,
        text::unsigned(word) is None ==> number_in(before + word + rest) == 0,
{
    text::law_first_word_is_found(before, word, rest);
    text::law_numbers_read_back(n, 0);
    assert(text::fill('0', 0) + text::dec(n) =~= text::dec(n));
}

/// An origin record of fields between vertical bars states a system in its
/// first field and the country in its third. With fewer than three fields it
/// is bad. Where it states a system, the description of that system is asked
/// for; else the look-up is over.
pub proof fn law_origin_record_is_its_fields(fields: Seq<Seq<char>>, now: i64, step: Step)
    requires
        fields.len() > 0,
        forall|i: int| 0 <= i < fields.len() ==> !(#[trigger] fields[i]).contains('|'),
        reads_origin(text::joined(fields, '|'), now, step),
    ensures
        fields.len() < 3 <==> step is Failed,
        fields.len() >= 3 && number_in(text::trim(fields[0])) > 0 ==> (step matches Step::Ask(
            name,
            Pending::Org(o),
        ) && name@ == description_name(o.asn) && o.asn == number_in(text::trim(fields[0]))
            && o.country@ == text::trim(fields[2])),
        fields.len() >= 3 && number_in(text::trim(fields[0])) == 0 ==> (step matches Step::Known(
            info,
        ) && info.asn == 0 && info.country@ == text::trim(fields[2]) && info.org@.len() == 0
            && info.looked_up_at == now),
{
    lemma_fields(fields);
}

/// The description of a system names its organisation in the fifth field, or
/// in the last of fewer.
pub proof fn law_description_names_the_organisation(fields: Seq<Seq<char>>)
    requires
        fields.len() > 0,
        forall|i: int| 0 <= i < fields.len() ==> !(#[trigger] fields[i]).contains('|'),
    ensures
        fields.len() >= 5 ==> org_in(text::joined(fields, '|')) == text::trim(fields[4]),
        fields.len() < 5 ==> org_in(text::joined(fields, '|')) == text::trim(fields.last()),
{
    lemma_fields(fields);
}

// ---------------------------------------------------------------------------
// Look-up
// ---------------------------------------------------------------------------

/// What came of asking for the text record of a name.
#[derive(Debug)]
pub enum Answer {
    /// The resolver failed.
    Failed,
    /// There is no record.
    Nothing,
    /// The strings of the first record.
    Record(Vec<Vec<u8>>),
}

/// What a look-up waits for.
#[derive(Debug)]
pub enum Pending {
    /// The origin record of an address, under a name.
    Origin(String),
    /// The description of a system whose origin record has been read.
    Org(Origin),
}

/// What to do next in a look-up.
#[derive(Debug)]
pub enum Step {
    /// Ask for the text record of a name.
    Ask(String, Pending),
    /// The look-up is over.
    Known(AsnInfo),
    /// The look-up failed.
    Failed(AsnError),
}

/// The step that starts the look-up of an address.
pub open spec fn starts(ip: IpAddr, step: Step) -> bool {
    match ip {
        IpAddr::V4(v) => step matches Step::Ask(name, Pending::Origin(asked)) && name@
            == origin_name(v) && asked@ == name@,
        IpAddr::V6(_) => step matches Step::Failed(AsnError::NotIpv4),
    }
}

/// The step that ends a look-up with the given values.
pub open spec fn ends(
    step: Step,
    asn: u32,
    country: Seq<char>,
    org: Seq<char>,
    now: i64,
) -> bool {
    step matches Step::Known(info) && info.asn == asn && info.country@ == country && info.org@
        == org && info.looked_up_at == now
}

/// The step that follows the origin record of an address.
pub open spec fn reads_origin(record: Seq<char>, now: i64, step: Step) -> bool {
    let fields = text::split_trim(record, '|');
    if fields.len() < 3 {
        step matches Step::Failed(AsnError::BadRecord(bad)) && bad@ == record
    } else if number_in(fields[0]) > 0 {
        step matches Step::Ask(next, Pending::Org(o)) && next@ == description_name(
            number_in(fields[0]),
        ) && o.asn == number_in(fields[0]) && o.country@ == fields[2]
    } else {
        ends(step, 0, fields[2], Seq::empty(), now)
    }
}

/// The step that follows the answer to the question for an origin.
pub open spec fn follows_origin(name: Seq<char>, answer: Answer, now: i64, step: Step) -> bool {
    match answer {
        Answer::Failed => step matches Step::Failed(AsnError::Unanswered),
        Answer::Nothing => step matches Step::Failed(AsnError::NoRecord(asked)) && asked@ == name,
        Answer::Record(strings) => {
            &&& reads_origin(record_of(strings@), now, step)
            &&& all_utf8(strings@) ==> reads_origin(plain_record(strings@), now, step)
        },
    }
}

/// The step that follows the answer to the question for a description. Where
/// it gives none, the organisation is empty.
pub open spec fn follows_org(origin: Origin, answer: Answer, now: i64, step: Step) -> bool {
    match answer {
        Answer::Record(strings) => {
            let org = org_in(record_of(strings@));
            let plain = org_in(plain_record(strings@));
            &&& ends(step, origin.asn, origin.country@, org, now)
            &&& all_utf8(strings@) ==> ends(step, origin.asn, origin.country@, plain, now)
        },
        _ => ends(step, origin.asn, origin.country@, Seq::empty(), now),
    }
}

/// Starts the look-up of an address.
pub fn start(ip: &IpAddr) -> (r: Step)
    ensures
        starts(*ip, r),
{
    match origin_query(ip) {
        Ok(name) => {
            let asked = name.clone();
            Step::Ask(name, Pending::Origin(asked))
        },
        Err(e) => Step::Failed(e),
    }
}

/// Goes on with a look-up, given the answer to the last question.
pub fn proceed(pending: Pending, answer: Answer, now: i64) -> (r: Step)
    ensures
        match pending {
            Pending::Origin(name) => follows_origin(name@, answer, now, r),
            Pending::Org(origin) => follows_org(origin, answer, now, r),
        },
{
    match pending {
        Pending::Origin(name) => {
            let read = match answer {
                Answer::Failed => return Step::Failed(AsnError::Unanswered),
                Answer::Nothing => read_origin(name.as_str(), None),
                Answer::Record(strings) => {
                    let record = record_text(&strings);
                    read_origin(name.as_str(), Some(record.as_str()))
                },
            };
            match read {
                Ok(origin) => match description_query(origin.asn) {
                    Some(next) => Step::Ask(next, Pending::Org(origin)),
                    None => {
                        let org = read_org(None);
                        assert(org@ =~= Seq::<char>::empty());
                        Step::Known(
                            AsnInfo {
                                asn: origin.asn,
                                country: origin.country,
                                org,
                                looked_up_at: now,
                            },
                        )
                    },
                },
                Err(e) => Step::Failed(e),
            }
        },
        Pending::Org(origin) => {
            let org = match answer {
                Answer::Record(strings) => {
                    let record = record_text(&strings);
                    read_org(Some(record.as_str()))
                },
                _ => {
                    let none = read_org(None);
                    assert(none@ =~= Seq::<char>::empty());
                    none
                },
            };
            Step::Known(
                AsnInfo { asn: origin.asn, country: origin.country, org, looked_up_at: now },
            )
        },
    }
}

/// A look-up asks at most two questions: no answer to the second leads to a
/// third, and once an origin has been read the look-up cannot fail.
pub proof fn law_lookup_asks_at_most_twice(origin: Origin, answer: Answer, now: i64, step: Step)
    requires
        follows_org(origin, answer, now, step),
    ensures
        step is Known,
{
}

/// A look-up starts with a question for IPv4 addresses only. It fails where the
/// question for the origin is not answered or has no record. Without a
/// description it still ends with the number and the country of the system, and
/// with the instant of the look-up.
pub proof fn law_lookup_follows_the_answers(
    ip: IpAddr,
    name: Seq<char>,
    origin: Origin,
    answer: Answer,
    now: i64,
    step: Step,
)
    ensures
        starts(ip, step) ==> (step is Ask <==> ip is V4),
        follows_origin(name, answer, now, step) && answer is Failed ==> step matches Step::Failed(
            AsnError::Unanswered,
        ),
        follows_origin(name, answer, now, step) && answer is Nothing ==> (step matches Step::Failed(
            AsnError::NoRecord(asked),
        ) && asked@ == name),
        follows_org(origin, answer, now, step) ==> (step matches Step::Known(info) && info.asn
            == origin.asn && info.country@ == origin.country@ && info.looked_up_at == now && (
        !(answer is Record) ==> info.org@.len() == 0)),
        follows_org(origin, answer, now, step) ==> (answer matches Answer::Record(strings) ==> all_utf8(
            strings@,
        ) ==> step->Known_0.org@ == org_in(plain_record(strings@))),
{
}

// ---------------------------------------------------------------------------
// Report
// ---------------------------------------------------------------------------

/// How many of the most active addresses the report by system covers.
pub const ASN_IPS: usize = 400;

/// What the events of one system amount to.
#[derive(Debug)]
pub struct AsnRow {
    /// Number of the system.
    pub asn: u32,
    /// Country of the system.
    pub country: String,
    /// Organisation of the system.
    pub org: String,
    /// How many events come from its addresses.
    pub hits: usize,
}

/// The mathematical value of an `AsnRow`.
pub type AsnTuple = (u32, Seq<char>, Seq<char>, int);

/// The mathematical value of rows.
pub open spec fn asn_views(rows: Seq<AsnRow>) -> Seq<AsnTuple> {
    rows.map_values(|r: AsnRow| (r.asn, r.country@, r.org@, r.hits as int))
}

/// The systems of addresses.
pub open spec fn asns(infos: Seq<AsnInfo>) -> Seq<u32> {
    infos.map_values(|i: AsnInfo| i.asn)
}

/// The numbers of events of addresses.
pub open spec fn hits(rows: Seq<IpRow>) -> Seq<int> {
    rows.map_values(|r: IpRow| r.hits as int)
}

/// What the events of one system amount to. Country and organisation are those
/// of its first address.
pub open spec fn asn_row(rows: Seq<IpRow>, infos: Seq<AsnInfo>, asn: u32) -> AsnTuple {
    let at = groups::members(asns(infos), asn);
    (asn, infos[at[0]].country@, infos[at[0]].org@, rank::sum_at(hits(rows), at))
}

/// One row for each system, in the order in which they first appear.
pub open spec fn asn_rows_of(rows: Seq<IpRow>, infos: Seq<AsnInfo>) -> Seq<AsnTuple> {
    groups::distinct(asns(infos)).map_values(|asn: u32| asn_row(rows, infos, asn))
}

/// The `n` systems with the most events, most first.
pub open spec fn asn_top(rows: Seq<IpRow>, infos: Seq<AsnInfo>, n: nat) -> Seq<AsnTuple> {
    rank::top(
        asn_rows_of(rows, infos),
        asn_rows_of(rows, infos).map_values(|t: AsnTuple| t.3),
        n,
    )
}

/// How many events come from the addresses of a system: each address counts if
/// it belongs to the system.
pub open spec fn events_of_system(rows: Seq<IpRow>, infos: Seq<AsnInfo>, asn: u32) -> int {
    rank::sum(
        Seq::new(
            rows.len(),
            |k: int|
                if infos[k].asn == asn {
                    rows[k].hits as int
                } else {
                    0
                },
        ),
    )
}

/// A row states how many events come from the addresses of a system, with the
/// country and the organisation of the first of those addresses.
pub open spec fn describes_system(rows: Seq<IpRow>, infos: Seq<AsnInfo>, t: AsnTuple) -> bool {
    &&& t.3 == events_of_system(rows, infos, t.0)
    &&& exists|i: int|
        {
            &&& 0 <= i < infos.len()
            &&& (#[trigger] infos[i]).asn == t.0
            &&& t.1 == infos[i].country@
            &&& t.2 == infos[i].org@
            &&& forall|j: int| 0 <= j < i ==> (#[trigger] infos[j]).asn != t.0
        }
}

proof fn lemma_sum_of_members(h: Seq<int>, keys: Seq<u32>, key: u32, marked: Seq<int>)
    requires
        h.len() == keys.len() == marked.len(),
        forall|k: int|
            0 <= k < keys.len() ==> #[trigger] marked[k] == if keys[k] == key {
                h[k]
            } else {
                0
            },
    ensures
        rank::sum_at(h, groups::members(keys, key)) == rank::sum(marked),
    decreases keys.len(),
{
    if keys.len() > 0 {
        let k = keys.drop_last();
        let g = h.drop_last();
        let m = marked.drop_last();
        assert forall|i: int| 0 <= i < k.len() implies #[trigger] m[i] == if k[i] == key {
            g[i]
        } else {
            0
        } by {
            assert(m[i] == marked[i]);
        }
        lemma_sum_of_members(g, k, key, m);
        groups::lemma_members(k, key);
        lemma_same_total(h, g, groups::members(k, key));
        let all = groups::members(keys, key);
        assert(marked[keys.len() - 1] == marked.last());
        if keys.last() == key {
            assert(all.drop_last() =~= groups::members(k, key));
            assert(all.last() == keys.len() - 1);
        }
    }
}

/// There is exactly one row for each system, and it describes that system.
pub proof fn law_rows_describe_systems(rows: Seq<IpRow>, infos: Seq<AsnInfo>)
    requires
        rows.len() == infos.len(),
    ensures
        forall|k: int|
            0 <= k < asn_rows_of(rows, infos).len() ==> describes_system(
                rows,
                infos,
                #[trigger] asn_rows_of(rows, infos)[k],
            ),
        forall|i: int|
            0 <= i < infos.len() ==> exists|k: int|
                0 <= k < asn_rows_of(rows, infos).len() && (#[trigger] asn_rows_of(rows, infos)[k]).0
                    == (#[trigger] infos[i]).asn,
        forall|i: int, j: int|
            0 <= i < j < asn_rows_of(rows, infos).len() ==> (#[trigger] asn_rows_of(
                rows,
                infos,
            )[i]).0 != (#[trigger] asn_rows_of(rows, infos)[j]).0,
{
    let keys = asns(infos);
    let d = groups::distinct(keys);
    let all = asn_rows_of(rows, infos);
    groups::lemma_distinct(keys);
    assert forall|k: int| 0 <= k < all.len() implies describes_system(
        rows,
        infos,
        #[trigger] all[k],
    ) by {
        let asn = d[k];
        let at = groups::members(keys, asn);
        assert(d.contains(d[k]));
        groups::lemma_members(keys, asn);
        groups::law_members_are_the_positions(keys, asn);
        let marked = Seq::new(
            rows.len(),
            |k: int|
                if infos[k].asn == asn {
                    rows[k].hits as int
                } else {
                    0
                },
        );
        lemma_sum_of_members(hits(rows), keys, asn, marked);
        assert(all[k].3 == events_of_system(rows, infos, asn));
        let first = at[0];
        assert(infos[first].asn == keys[first]);
        assert forall|j: int| 0 <= j < first implies (#[trigger] infos[j]).asn != asn by {
            if infos[j].asn == asn {
                assert(keys[j] == asn);
                assert(at.contains(j));
                let i = choose|i: int| 0 <= i < at.len() && at[i] == j;
                assert(at[0] <= at[i]);
            }
        }
    }
    assert forall|i: int| 0 <= i < infos.len() implies exists|k: int|
        0 <= k < all.len() && (#[trigger] all[k]).0 == (#[trigger] infos[i]).asn by {
        assert(keys[i] == infos[i].asn);
        assert(keys.contains(keys[i]));
        assert(d.contains(keys[i]));
        let k = choose|k: int| 0 <= k < d.len() && d[k] == keys[i];
        assert(all[k].0 == keys[i]);
    }
    assert forall|i: int, j: int| 0 <= i < j < all.len() implies (#[trigger] all[i]).0 != (
    #[trigger] all[j]).0 by {
        assert(d[i] != d[j]);
    }
}

/// The systems with the most events lead: each row shown describes its system,
/// rows come by falling number of events, no system twice; and a system that is
/// not shown has no more events than any that is, and is left out only where
/// `n` are shown.
pub proof fn law_most_active_systems_lead(rows: Seq<IpRow>, infos: Seq<AsnInfo>, n: nat)
    requires
        rows.len() == infos.len(),
    ensures
        ({
            let shown = asn_top(rows, infos, n);
            &&& shown.len() <= n
            &&& forall|i: int|
                0 <= i < shown.len() ==> describes_system(rows, infos, #[trigger] shown[i])
            &&& forall|i: int, j: int|
                0 <= i < j < shown.len() ==> (#[trigger] shown[i]).3 >= (#[trigger] shown[j]).3
                    && shown[i].0 != shown[j].0
            &&& forall|k: int|
                0 <= k < infos.len() ==> (exists|i: int|
                    0 <= i < shown.len() && (#[trigger] shown[i]).0 == (#[trigger] infos[k]).asn) || (
                shown.len() == n && forall|i: int|
                    0 <= i < shown.len() ==> (#[trigger] shown[i]).3 >= events_of_system(
                        rows,
                        infos,
                        infos[k].asn,
                    ))
        }),
{
    let all = asn_rows_of(rows, infos);
    let measure = |t: AsnTuple| t.3;
    let shown = asn_top(rows, infos, n);
    law_rows_describe_systems(rows, infos);
    assert(all.no_duplicates()) by {
        assert forall|i: int, j: int| 0 <= i < all.len() && 0 <= j < all.len() && i != j implies all[i]
            != all[j] by {
            if i < j {
                assert(all[i].0 != all[j].0);
            } else {
                assert(all[j].0 != all[i].0);
            }
        }
    }
    assert(shown == rank::top(all, all.map_values(measure), n));
    rank::law_top_shows_the_largest(all, measure, n);
    rank::lemma_top_is_distinct(all, all.map_values(measure), n);
    assert forall|i: int| 0 <= i < shown.len() implies describes_system(
        rows,
        infos,
        #[trigger] shown[i],
    ) by {
        assert(all.contains(shown[i]));
        let k = choose|k: int| 0 <= k < all.len() && all[k] == shown[i];
        assert(describes_system(rows, infos, all[k]));
    }
    assert forall|i: int, j: int| 0 <= i < j < shown.len() implies (#[trigger] shown[i]).3 >= (
    #[trigger] shown[j]).3 && shown[i].0 != shown[j].0 by {
        assert(measure(shown[i]) >= measure(shown[j]));
        assert(all.contains(shown[i]) && all.contains(shown[j]));
        let a = choose|k: int| 0 <= k < all.len() && all[k] == shown[i];
        let b = choose|k: int| 0 <= k < all.len() && all[k] == shown[j];
        assert(shown[i] != shown[j]);
        if a < b {
            assert(all[a].0 != all[b].0);
        } else {
            assert(all[b].0 != all[a].0);
        }
    }
    assert forall|k: int| 0 <= k < infos.len() implies (exists|i: int|
        0 <= i < shown.len() && (#[trigger] shown[i]).0 == (#[trigger] infos[k]).asn) || (shown.len()
        == n && forall|i: int|
        0 <= i < shown.len() ==> (#[trigger] shown[i]).3 >= events_of_system(
            rows,
            infos,
            infos[k].asn,
        )) by {
        let p = choose|p: int| 0 <= p < all.len() && (#[trigger] all[p]).0 == infos[k].asn;
        assert(describes_system(rows, infos, all[p]));
        if shown.contains(all[p]) {
            let i = choose|i: int| 0 <= i < shown.len() && shown[i] == all[p];
            assert(shown[i].0 == infos[k].asn);
        } else {
            assert forall|i: int| 0 <= i < shown.len() implies (#[trigger] shown[i]).3
                >= events_of_system(rows, infos, infos[k].asn) by {
                assert(measure(shown[i]) >= measure(all[p]));
            }
        }
    }
}

/// Summarises addresses by system: the `n` systems with the most events, most
/// first. `infos` tells the system of each address.
pub fn asn_table(rows: &Vec<IpRow>, infos: &Vec<AsnInfo>, n: usize) -> (r: Vec<AsnRow>)
    requires
        rows@.len() == infos@.len(),
        rank::sum(hits(rows@)) <= usize::MAX,
    ensures
        asn_views(r@) == asn_top(rows@, infos@, n as nat),
        r@.len() <= n,
        forall|i: int, j: int|
            0 <= i < j < r@.len() ==> (#[trigger] r@[i]).hits >= (#[trigger] r@[j]).hits && r@[i].asn
                != r@[j].asn,
        forall|i: int|
            0 <= i < r@.len() ==> (#[trigger] r@[i]).hits == events_of_system(
                rows@,
                infos@,
                r@[i].asn,
            ),
{
    let ghost h = hits(rows@);
    let ghost all = asns(infos@);
    let ghost d = groups::distinct(all);
    let ghost full = asn_rows_of(rows@, infos@);
    let mut keys: Vec<u32> = Vec::new();
    let mut i: usize = 0;
    while i < infos.len()
        invariant
            i <= infos@.len(),
            keys@.len() == i,
            forall|k: int| 0 <= k < i ==> #[trigger] keys@[k] == infos@[k].asn,
        decreases infos@.len() - i,
    {
        keys.push(infos[i].asn);
        i = i + 1;
    }
    assert(groups::views(keys@) =~= all);
    let parts = groups::group(&keys);
    proof {
        groups::lemma_grouping(all, parts@);
    }
    let mut totals: Vec<usize> = Vec::new();
    let mut measures: Vec<i128> = Vec::new();
    let mut g: usize = 0;
    while g < parts.len()
        invariant
            rows@.len() == infos@.len() == all.len(),
            h == hits(rows@),
            all == asns(infos@),
            d == groups::distinct(all),
            rank::sum(h) <= usize::MAX,
            groups::is_grouping(all, parts@),
            forall|p: int, j: int|
                0 <= p < parts@.len() && 0 <= j < parts@[p]@.len() ==> (
                #[trigger] parts@[p]@[j]) < all.len() && all[parts@[p]@[j] as int] == d[p],
            g <= parts@.len(),
            totals@.len() == g,
            measures@.len() == g,
            forall|p: int|
                0 <= p < g ==> #[trigger] totals@[p] == rank::sum_at(
                    h,
                    groups::members(all, d[p]),
                ),
            forall|p: int| 0 <= p < g ==> #[trigger] measures@[p] == totals@[p],
        decreases parts@.len() - g,
    {
        let ghost at = groups::members(all, d[g as int]);
        let part = &parts[g];
        assert(rank::positions(part@) == at);
        let mut total: usize = 0;
        let mut j: usize = 0;
        assert(at.take(0) =~= Seq::<int>::empty());
        proof {
            lemma_group_total(h, all, d[g as int]);
        }
        while j < part.len()
            invariant
                j <= part@.len(),
                part == &parts@[g as int],
                g < parts@.len(),
                rows@.len() == all.len(),
                h == hits(rows@),
                at == rank::positions(part@),
                rank::sum_at(h, at) <= usize::MAX,
                total == rank::sum_at(h, at.take(j as int)),
                forall|p: int, q: int|
                    0 <= p < parts@.len() && 0 <= q < parts@[p]@.len() ==> (
                    #[trigger] parts@[p]@[q]) < all.len() && all[parts@[p]@[q] as int] == d[p],
            decreases part@.len() - j,
        {
            assert(parts@[g as int]@[j as int] < all.len());
            assert(at[j as int] == part@[j as int]);
            assert(at.take(j + 1).drop_last() =~= at.take(j as int));
            assert(at.take(j + 1).last() == at[j as int]);
            assert(h[at[j as int]] == rows@[part@[j as int] as int].hits);
            proof {
                lemma_part_total(h, at, j + 1);
            }
            total = total + rows[part[j]].hits;
            j = j + 1;
        }
        assert(at.take(part@.len() as int) =~= at);
        totals.push(total);
        measures.push(total as i128);
        g = g + 1;
    }
    assert(full.len() == d.len());
    assert(rank::values(measures@) =~= full.map_values(|t: AsnTuple| t.3));
    let order = rank::rank_top(&measures, n);
    let mut out: Vec<AsnRow> = Vec::new();
    let mut i: usize = 0;
    while i < order.len()
        invariant
            i <= order@.len(),
            out@.len() == i,
            infos@.len() == all.len(),
            all == asns(infos@),
            d == groups::distinct(all),
            full == asn_rows_of(rows@, infos@),
            h == hits(rows@),
            groups::is_grouping(all, parts@),
            totals@.len() == parts@.len() == measures@.len(),
            forall|p: int| 0 <= p < parts@.len() ==> (#[trigger] parts@[p])@.len() > 0,
            forall|p: int, j: int|
                0 <= p < parts@.len() && 0 <= j < parts@[p]@.len() ==> (
                #[trigger] parts@[p]@[j]) < all.len() && all[parts@[p]@[j] as int] == d[p],
            forall|p: int|
                0 <= p < parts@.len() ==> #[trigger] totals@[p] == rank::sum_at(
                    h,
                    groups::members(all, d[p]),
                ),
            forall|k: int| 0 <= k < order@.len() ==> #[trigger] order@[k] < measures@.len(),
            forall|k: int| 0 <= k < i ==> #[trigger] asn_views(out@)[k] == full[order@[k] as int],
        decreases order@.len() - i,
    {
        let p: usize = order[i];
        assert(parts@[p as int]@.len() > 0);
        assert(parts@[p as int]@[0] < all.len());
        assert(rank::positions(parts@[p as int]@) == groups::members(all, d[p as int]));
        let first: usize = parts[p][0];
        let ghost before = out@;
        out.push(
            AsnRow {
                asn: infos[first].asn,
                country: infos[first].country.clone(),
                org: infos[first].org.clone(),
                hits: totals[p],
            },
        );
        assert(asn_views(out@) =~= asn_views(before).push(full[p as int])) by {
            assert(groups::members(all, d[p as int])[0] == first);
            assert(infos@[first as int].asn == all[first as int]);
        }
        i = i + 1;
    }
    assert(rank::positions(order@).map_values(|i: int| full[i]) =~= asn_views(out@)) by {
        assert forall|k: int| 0 <= k < out@.len() implies #[trigger] asn_views(out@)[k]
            == full[rank::positions(order@)[k]] by {
            assert(rank::positions(order@)[k] == order@[k]);
        }
    }
    proof {
        law_most_active_systems_lead(rows@, infos@, n as nat);
        let shown = asn_top(rows@, infos@, n as nat);
        assert(asn_views(out@) == shown);
        assert forall|i: int, j: int| 0 <= i < j < out@.len() implies (#[trigger] out@[i]).hits >= (
        #[trigger] out@[j]).hits && out@[i].asn != out@[j].asn by {
            assert(shown[i].3 == out@[i].hits && shown[j].3 == out@[j].hits);
            assert(shown[i].0 == out@[i].asn && shown[j].0 == out@[j].asn);
        }
        assert forall|i: int| 0 <= i < out@.len() implies (#[trigger] out@[i]).hits
            == events_of_system(rows@, infos@, out@[i].asn) by {
            assert(shown[i].3 == out@[i].hits && shown[i].0 == out@[i].asn);
        }
    }
    out
}

/// The events of one system are no more than all events.
proof fn lemma_group_total(h: Seq<int>, keys: Seq<u32>, key: u32)
    requires
        h.len() == keys.len(),
        forall|i: int| 0 <= i < h.len() ==> 0 <= #[trigger] h[i],
    ensures
        0 <= rank::sum_at(h, groups::members(keys, key)) <= rank::sum(h),
    decreases keys.len(),
{
    if keys.len() > 0 {
        let k = keys.drop_last();
        let g = h.drop_last();
        let m = groups::members(k, key);
        assert forall|i: int| 0 <= i < g.len() implies 0 <= #[trigger] g[i] by {
            assert(g[i] == h[i]);
        }
        lemma_group_total(g, k, key);
        groups::lemma_members(k, key);
        lemma_same_total(h, g, m);
        let all = groups::members(keys, key);
        if keys.last() == key {
            assert(all.drop_last() =~= m);
            assert(all.last() == keys.len() - 1);
        }
        assert(h[keys.len() - 1] == h.last());
    }
}

proof fn lemma_same_total(h: Seq<int>, g: Seq<int>, at: Seq<int>)
    requires
        g == h.drop_last(),
        h.len() > 0,
        forall|i: int| 0 <= i < at.len() ==> 0 <= #[trigger] at[i] < g.len(),
    ensures
        rank::sum_at(h, at) == rank::sum_at(g, at),
    decreases at.len(),
{
    if at.len() > 0 {
        assert forall|i: int| 0 <= i < at.drop_last().len() implies 0 <= #[trigger] at.drop_last()[i]
            < g.len() by {
            assert(at.drop_last()[i] == at[i]);
        }
        lemma_same_total(h, g, at.drop_last());
        assert(at[at.len() - 1] == at.last());
    }
}

proof fn lemma_part_total(h: Seq<int>, at: Seq<int>, k: int)
    requires
        0 <= k <= at.len(),
        forall|i: int| 0 <= i < h.len() ==> 0 <= #[trigger] h[i],
        forall|i: int| 0 <= i < at.len() ==> 0 <= #[trigger] at[i] < h.len(),
    ensures
        rank::sum_at(h, at.take(k)) <= rank::sum_at(h, at),
    decreases at.len() - k,
{
    if k < at.len() {
        lemma_part_total(h, at, k + 1);
        assert(at.take(k + 1).drop_last() =~= at.take(k));
        assert(at.take(k + 1).last() == at[k]);
    } else {
        assert(at.take(k) =~= at);
    }
}

/// The rows of the most active addresses never count more events than there
/// are.
pub proof fn law_top_hits_are_events(events: Seq<ProbeEvent>, n: nat)
    requires
        events.len() <= usize::MAX,
    ensures
        rank::sum(hits(probes::top_rows(events, n))) <= events.len(),
{
    let rows = probes::rows_of(events);
    let measures = rows.map_values(|row: IpRow| row.hits as int);
    probes::law_rows_cover_events(events);
    rank::law_ranking_exists(measures);
    rank::lemma_sum_top(measures, measures, n);
    assert(hits(rank::top(rows, measures, n)) =~= rank::top(measures, measures, n));
}

/// The heading of the report by system.
pub open spec fn asn_heading() -> Seq<char> {
    text::pad_left("hits"@, 6, ' ') + "  "@ + text::pad_left("asn"@, 8, ' ') + "  "@
        + text::pad_right("cc"@, 3) + "  org"@
}

/// Renders the heading of the report by system.
pub fn render_asn_heading() -> (r: String)
    ensures
        r@ == asn_heading(),
{
    let mut out = String::new();
    text::push_padded_left(&mut out, "hits", 6, ' ');
    assert(out@ =~= text::pad_left("hits"@, 6, ' '));
    out.append("  ");
    text::push_padded_left(&mut out, "asn", 8, ' ');
    out.append("  ");
    text::push_padded_right(&mut out, "cc", 3);
    out.append("  org");
    out
}

/// A line of the report by system.
pub open spec fn asn_line(row: AsnRow) -> Seq<char> {
    text::pad_left(text::dec(row.hits as nat), 6, ' ') + "  AS"@ + text::pad_right(
        text::dec(row.asn as nat),
        6,
    ) + "  "@ + text::pad_right(row.country@, 3) + "  "@ + row.org@
}

/// A line of the report by system shows the number of events, the number of the
/// system and the country, each in its column, and the whole organisation.
pub proof fn law_asn_line_shows_the_system(row: AsnRow)
    requires
        text::dec(row.hits as nat).len() <= 6,
        text::dec(row.asn as nat).len() <= 6,
        row.country@.len() <= 3,
    ensures
        ({
            let line = asn_line(row);
            &&& text::shows_right(line, 0, 6, text::dec(row.hits as nat))
            &&& line.subrange(6, 10) == "  AS"@
            &&& text::shows_left(line, 10, 6, text::dec(row.asn as nat))
            &&& text::shows_left(line, 18, 3, row.country@)
            &&& line.skip(21) == "  "@ + row.org@
        }),
{
    reveal_strlit("  ");
    reveal_strlit("  AS");
    let line = asn_line(row);
    let hits = text::dec(row.hits as nat);
    let asn = text::dec(row.asn as nat);
    text::law_padding_fills_the_column(hits, 6, ' ');
    text::law_padding_fills_the_column(asn, 6, ' ');
    text::law_padding_fills_the_column(row.country@, 3, ' ');
    let a = Seq::<char>::empty();
    let b = text::pad_left(hits, 6, ' ') + "  AS"@;
    let c = b + text::pad_right(asn, 6) + "  "@;
    let end = "  "@ + row.org@;
    assert(line =~= c + text::pad_right(row.country@, 3) + end);
    text::lemma_shows_left(c, row.country@, 3, end);
    let t = "  "@ + text::pad_right(row.country@, 3) + end;
    assert(line =~= b + text::pad_right(asn, 6) + t);
    text::lemma_shows_left(b, asn, 6, t);
    let u = "  AS"@ + text::pad_right(asn, 6) + t;
    assert(line =~= a + text::pad_left(hits, 6, ' ') + u);
    text::lemma_shows_right(a, hits, 6, u);
    assert(line.subrange(6, 10) =~= "  AS"@);
    assert(line.skip(21) =~= end);
}

/// Renders a row of the report by system.
pub fn render_asn(row: &AsnRow) -> (r: String)
    ensures
        r@ == asn_line(*row),
{
    let mut out = String::new();
    text::push_dec_right(&mut out, row.hits as u64, 6);
    assert(out@ =~= text::pad_left(text::dec(row.hits as nat), 6, ' '));
    out.append("  AS");
    let number = text::decimal(row.asn as u64);
    text::push_padded_right(&mut out, number.as_str(), 6);
    out.append("  ");
    text::push_padded_right(&mut out, row.country.as_str(), 3);
    out.append("  ");
    out.append(row.org.as_str());
    out
}

} // verus!
