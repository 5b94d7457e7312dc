//! Ground control: its index page, its protocol constants as texts, and the
//! checks of a running instance.

use vstd::prelude::*;
use crate::hexbytes;
use crate::text;
use crate::types::{FRAME_MAGIC, PROTOCOL_VERSION};

verus! {

/// The protocol version as ground control shows it.
pub open spec fn version_text() -> Seq<char> {
    "0x"@ + text::hex(PROTOCOL_VERSION as nat, 2, true)
}

/// The frame magic as ground control shows it.
pub open spec fn magic_text() -> Seq<char> {
    "0x"@ + text::hex(FRAME_MAGIC@[0] as nat, 2, true) + text::hex(FRAME_MAGIC@[1] as nat, 2, true)
}

/// Renders the protocol version.
pub fn protocol_version() -> (r: String)
    ensures
        r@ == version_text(),
{
    let mut out = "0x".to_owned();
    text::push_hex(&mut out, PROTOCOL_VERSION as u32, 2, true);
    out
}

/// Renders the frame magic.
pub fn frame_magic() -> (r: String)
    ensures
        r@ == magic_text(),
{
    let mut out = "0x".to_owned();
    text::push_hex(&mut out, FRAME_MAGIC[0] as u32, 2, true);
    text::push_hex(&mut out, FRAME_MAGIC[1] as u32, 2, true);
    out
}

/// The start of the index page, up to the name of the mission plan.
pub open spec fn index_start() -> Seq<char> {
    "<!doctype html>\n<html><head><title>NANOBYTE ground</title></head>\n<body style=\"font-family:monospace;padding:2rem\">\n<h1>NANOBYTE ground — Block 0.0</h1>\n<p>Mission plan: <code>"@
}

/// The index page of a release.
pub open spec fn index_text(release: Seq<char>, plan: Seq<char>) -> Seq<char> {
    index_start() + plan + "</code></p>\n<table><tr><td>Protocol version</td><td>"@
        + version_text() + "</td></tr><tr><td>Frame magic</td><td>"@ + magic_text()
        + "</td></tr><tr><td>Ground binary version</td><td>"@ + release
        + "</td></tr></table>\n<p>Block 0.1 wires the swarm map + uplink composer.</p>\n</body></html>"@
}

/// Renders the index page, given the release and the name of the mission plan.
pub fn index(release: &str, plan: &str) -> (r: String)
    ensures
        r@ == index_text(release@, plan@),
{
    let mut out = "<!doctype html>\n<html><head><title>NANOBYTE ground</title></head>\n<body style=\"font-family:monospace;padding:2rem\">\n<h1>NANOBYTE ground — Block 0.0</h1>\n<p>Mission plan: <code>".to_owned();
    out.append(plan);
    out.append("</code></p>\n<table><tr><td>Protocol version</td><td>");
    out.append(protocol_version().as_str());
    out.append("</td></tr><tr><td>Frame magic</td><td>");
    out.append(frame_magic().as_str());
    out.append("</td></tr><tr><td>Ground binary version</td><td>");
    out.append(release);
    out.append("</td></tr></table>\n<p>Block 0.1 wires the swarm map + uplink composer.</p>\n</body></html>");
    out
}

// ---------------------------------------------------------------------------
// Identity of the binary
// ---------------------------------------------------------------------------

/// What `blake3::hash` gives for bytes.
pub uninterp spec fn blake3_of(bytes: Seq<u8>) -> Seq<u8>;

/// Calls `blake3::hash`. Trusted: the 32 bytes of the hash depend on the input
/// alone.
#[verifier::external_body]
fn blake3_hash(bytes: &[u8]) -> (r: [u8; 32])
    ensures
        r@ == blake3_of(bytes@),
{
    *blake3::hash(bytes).as_bytes()
}

/// What an instance states of itself.
#[derive(Debug)]
pub struct Hashes {
    /// The frame magic.
    pub frame_magic: String,
    /// The protocol version.
    pub protocol_version: String,
    /// The BLAKE3 hash of the binary in hexadecimal notation.
    pub binary_blake3: String,
}

/// States the protocol constants and the hash of a binary.
pub fn hashes(binary: &[u8]) -> (r: Hashes)
    ensures
        r.frame_magic@ == magic_text(),
        r.protocol_version@ == version_text(),
        r.binary_blake3@ == hexbytes::hex_text(blake3_of(binary@)),
        blake3_of(binary@).len() == 32,
{
    let hash = blake3_hash(binary);
    Hashes {
        frame_magic: frame_magic(),
        protocol_version: protocol_version(),
        binary_blake3: hexbytes::hex_line(&hash),
    }
}

// ---------------------------------------------------------------------------
// Checks
// ---------------------------------------------------------------------------

/// Length of the hash of a binary in hexadecimal notation.
pub const HASH_LEN: usize = 64;

/// What is wrong with a running instance.
#[derive(Debug)]
pub enum SmokeError {
    /// The answer states no frame magic.
    MagicMissing,
    /// The answer states no protocol version.
    VersionMissing,
    /// The answer states no hash of the binary.
    HashMissing,
    /// The frame magic differs; holds what was stated.
    Magic(String),
    /// The protocol version differs; holds what was stated.
    Version(String),
    /// The hash has the wrong length; holds the length in bytes.
    HashLength(usize),
    /// The index page does not name the project.
    Branding,
}

/// Whether constants that an instance states are the ones expected: the frame
/// magic, the protocol version, and a hash of the right length. The checks run
/// in that order, after all three were found; the first that fails gives the
/// error.
pub open spec fn verdict(
    magic: Option<Seq<char>>,
    version: Option<Seq<char>>,
    hash: Option<Seq<char>>,
    r: Result<(), SmokeError>,
) -> bool {
    match (magic, version, hash) {
        (None, _, _) => r matches Err(SmokeError::MagicMissing),
        (Some(_), None, _) => r matches Err(SmokeError::VersionMissing),
        (Some(_), Some(_), None) => r matches Err(SmokeError::HashMissing),
        (Some(m), Some(v), Some(h)) => if m != "0x4EB0"@ {
            r matches Err(SmokeError::Magic(got)) && got@ == m
        } else if v != "0x01"@ {
            r matches Err(SmokeError::Version(got)) && got@ == v
        } else if vstd::utf8::encode_utf8(h).len() != HASH_LEN {
            r matches Err(SmokeError::HashLength(n)) && n == vstd::utf8::encode_utf8(h).len()
        } else {
            r is Ok
        },
    }
}

/// An instance passes exactly if it states the magic, the version and a hash of
/// 64 bytes; what it fails for is the first thing missing, or else the first
/// that differs.
pub proof fn law_first_fault_is_reported(
    magic: Option<Seq<char>>,
    version: Option<Seq<char>>,
    hash: Option<Seq<char>>,
    r: Result<(), SmokeError>,
)
    requires
        verdict(magic, version, hash, r),
    ensures
        r is Ok <==> magic == Some("0x4EB0"@) && version == Some("0x01"@) && hash is Some
            && vstd::utf8::encode_utf8(hash->0).len() == 64,
        r matches Err(SmokeError::MagicMissing) <==> magic is None,
        r matches Err(SmokeError::VersionMissing) <==> magic is Some && version is None,
        r matches Err(SmokeError::HashMissing) <==> magic is Some && version is Some && hash is None,
        r matches Err(SmokeError::Magic(got)) ==> magic == Some(got@) && got@ != "0x4EB0"@,
        r matches Err(SmokeError::Version(got)) ==> magic == Some("0x4EB0"@) && version == Some(got@)
            && got@ != "0x01"@,
        r matches Err(SmokeError::HashLength(n)) ==> magic == Some("0x4EB0"@) && version == Some(
            "0x01"@,
        ) && hash is Some && n == vstd::utf8::encode_utf8(hash->0).len() && n != 64,
        !(r matches Err(SmokeError::Branding)),
{
}

/// The view of a text that may be missing.
pub open spec fn maybe(s: Option<&str>) -> Option<Seq<char>> {
    match s {
        Some(t) => Some(t@),
        None => None,
    }
}

/// Checks the constants that an instance states; see `verdict`.
pub fn check_hashes(magic: Option<&str>, version: Option<&str>, hash: Option<&str>) -> (r: Result<
    (),
    SmokeError,
>)
    ensures
        verdict(maybe(magic), maybe(version), maybe(hash), r),
{
    let m = match magic {
        Some(m) => m,
        None => return Err(SmokeError::MagicMissing),
    };
    let v = match version {
        Some(v) => v,
        None => return Err(SmokeError::VersionMissing),
    };
    let h = match hash {
        Some(h) => h,
        None => return Err(SmokeError::HashMissing),
    };
    if !text::same_text(m, "0x4EB0") {
        return Err(SmokeError::Magic(m.to_owned()));
    }
    if !text::same_text(v, "0x01") {
        return Err(SmokeError::Version(v.to_owned()));
    }
    let n: usize = h.as_bytes().len();
    if n != HASH_LEN {
        return Err(SmokeError::HashLength(n));
    }
    Ok(())
}

/// Checks the index page of an instance: it names the project.
pub fn check_index(body: &str) -> (r: Result<(), SmokeError>)
    ensures
        r is Ok <==> text::occurs(body@, "NANOBYTE"@),
        r matches Err(e) ==> e is Branding,
{
    if text::contains(body, "NANOBYTE") {
        Ok(())
    } else {
        Err(SmokeError::Branding)
    }
}

/// What ground control serves passes the checks: it states the constants and a
/// hash of 32 bytes as expected, and every index page names the project.
pub proof fn law_ground_passes_its_checks(release: Seq<char>, plan: Seq<char>, hash: Seq<u8>)
    requires
        hash.len() == 32,
    ensures
        verdict(
            Some(magic_text()),
            Some(version_text()),
            Some(hexbytes::hex_text(hash)),
            Ok(()),
        ),
        text::occurs(index_text(release, plan), "NANOBYTE"@),
{
    hexbytes::law_hex_reads_back(hash);
    let digits = vstd::utf8::encode_utf8(hexbytes::hex_text(hash));
    assert(hexbytes::bytes_of(digits).len() == 32);
    lemma_constants_as_text();
    reveal_strlit("NANOBYTE");
    reveal_strlit(
        "<!doctype html>\n<html><head><title>NANOBYTE ground</title></head>\n<body style=\"font-family:monospace;padding:2rem\">\n<h1>NANOBYTE ground — Block 0.0</h1>\n<p>Mission plan: <code>",
    );
    let page = index_text(release, plan);
    assert(index_start()[35] == 'N');
    assert(page.subrange(35, 43) =~= "NANOBYTE"@);
    assert(text::occurs_at(page, "NANOBYTE"@, 35));
}

/// The index page shows the mission plan, the protocol version, the frame magic
/// and the release, each in its place, whatever release and plan are.
pub proof fn law_index_shows_release_and_plan(release: Seq<char>, plan: Seq<char>)
    ensures
        text::occurs(
            index_text(release, plan),
            "<code>"@ + plan + "</code></p>\n<table><tr><td>Protocol version</td><td>0x01</td>"@,
        ),
        text::occurs(
            index_text(release, plan),
            "<td>Frame magic</td><td>0x4EB0</td></tr><tr><td>Ground binary version</td><td>"@
                + release + "</td>"@,
        ),
{
    lemma_constants_as_text();
    let page = index_text(release, plan);
    let a = index_start() + plan;
    let b = a + "</code></p>\n<table><tr><td>Protocol version</td><td>"@ + version_text()
        + "</td></tr><tr>"@;
    assert(text::occurs(
        page,
        "<code>"@ + plan + "</code></p>\n<table><tr><td>Protocol version</td><td>0x01</td>"@,
    )) by {
        reveal_strlit("<code>");
        reveal_strlit("0x01");
        reveal_strlit("</code></p>\n<table><tr><td>Protocol version</td><td>");
        reveal_strlit("</code></p>\n<table><tr><td>Protocol version</td><td>0x01</td>");
        reveal_strlit("</td></tr><tr><td>Frame magic</td><td>");
        reveal_strlit(
            "<!doctype html>\n<html><head><title>NANOBYTE ground</title></head>\n<body style=\"font-family:monospace;padding:2rem\">\n<h1>NANOBYTE ground — Block 0.0</h1>\n<p>Mission plan: <code>",
        );
        let t = "<code>"@ + plan
            + "</code></p>\n<table><tr><td>Protocol version</td><td>0x01</td>"@;
        let n = index_start().len() - 6;
        assert(page.subrange(n, n + t.len()) =~= t);
        assert(text::occurs_at(page, t, n));
    }
    assert(text::occurs(
        page,
        "<td>Frame magic</td><td>0x4EB0</td></tr><tr><td>Ground binary version</td><td>"@ + release
            + "</td>"@,
    )) by {
        reveal_strlit("</td>");
        reveal_strlit("</td></tr><tr>");
        reveal_strlit("0x4EB0");
        reveal_strlit("</td></tr><tr><td>Frame magic</td><td>");
        reveal_strlit("</td></tr><tr><td>Ground binary version</td><td>");
        reveal_strlit(
            "<td>Frame magic</td><td>0x4EB0</td></tr><tr><td>Ground binary version</td><td>",
        );
        reveal_strlit(
            "</td></tr></table>\n<p>Block 0.1 wires the swarm map + uplink composer.</p>\n</body></html>",
        );
        let t = "<td>Frame magic</td><td>0x4EB0</td></tr><tr><td>Ground binary version</td><td>"@
            + release + "</td>"@;
        let n = b.len() as int;
        assert(page.subrange(n, n + t.len()) =~= t);
        assert(text::occurs_at(page, t, n));
    }
}

proof fn lemma_constants_as_text()
    ensures
        magic_text() == "0x4EB0"@,
        version_text() == "0x01"@,
{
    reveal_strlit("0x");
    reveal_strlit("0x4EB0");
    reveal_strlit("0x01");
    reveal_with_fuel(text::hex, 3);
    assert(magic_text() =~= "0x4EB0"@);
    assert(version_text() =~= "0x01"@);
}

impl SmokeError {
    /// The message of an error.
    pub open spec fn message_text(self) -> Seq<char> {
        match self {
            SmokeError::MagicMissing => "frame_magic missing"@,
            SmokeError::VersionMissing => "protocol_version missing"@,
            SmokeError::HashMissing => "binary_blake3 missing"@,
            SmokeError::Magic(got) => "frame_magic mismatch: expected 0x4EB0 got "@ + got@,
            SmokeError::Version(got) => "protocol_version mismatch: expected 0x01 got "@ + got@,
            SmokeError::HashLength(n) => "binary_blake3 wrong length: "@ + text::dec(n as nat)
                + " (expected 64)"@,
            SmokeError::Branding => "/ response missing NANOBYTE branding"@,
        }
    }

    /// Renders the message of an error.
    pub fn message(&self) -> (r: String)
        ensures
            r@ == self.message_text(),
    {
        match self {
            SmokeError::MagicMissing => "frame_magic missing".to_owned(),
            SmokeError::VersionMissing => "protocol_version missing".to_owned(),
            SmokeError::HashMissing => "binary_blake3 missing".to_owned(),
            SmokeError::Magic(got) => {
                let mut out = "frame_magic mismatch: expected 0x4EB0 got ".to_owned();
                out.append(got.as_str());
                out
            },
            SmokeError::Version(got) => {
                let mut out = "protocol_version mismatch: expected 0x01 got ".to_owned();
                out.append(got.as_str());
                out
            },
            SmokeError::HashLength(n) => {
                let mut out = "binary_blake3 wrong length: ".to_owned();
                text::push_dec(&mut out, *n as u64);
                out.append(" (expected 64)");
                out
            },
            SmokeError::Branding => "/ response missing NANOBYTE branding".to_owned(),
        }
    }
}

/// How often to ask a starting instance before giving up.
pub const READY_ATTEMPTS: u32 = 30;

/// How long to wait before each attempt, in milliseconds.
pub const READY_INTERVAL_MS: u64 = 100;

/// What to do after asking a starting instance.
#[derive(Copy, Clone, Debug, PartialEq, Eq, Structural)]
pub enum Poll {
    /// It answered.
    Ready,
    /// Ask again.
    Again,
    /// It did not start in time.
    GiveUp,
}

/// Decides what to do once a starting instance was asked `attempts` times.
pub fn poll(attempts: u32, answered: bool) -> (r: Poll)
    ensures
        r == if answered {
            Poll::Ready
        } else if attempts < READY_ATTEMPTS {
            Poll::Again
        } else {
            Poll::GiveUp
        },
        r == Poll::GiveUp <==> !answered && attempts >= 30,
        r == Poll::Ready <==> answered,
{
    if answered {
        Poll::Ready
    } else if attempts < READY_ATTEMPTS {
        Poll::Again
    } else {
        Poll::GiveUp
    }
}

} // verus!
