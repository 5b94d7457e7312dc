//! Bytes in hexadecimal notation, two digits each.

use vstd::prelude::*;
use crate::text;

verus! {

/// Why a text is not a sequence of bytes in hexadecimal notation.
#[derive(Copy, Clone, Debug, PartialEq, Eq, Structural)]
pub enum HexError {
    /// A character that is not a hexadecimal digit.
    InvalidHexCharacter {
        /// The character.
        c: char,
        /// Its position in bytes.
        index: usize,
    },
    /// The number of digits is odd.
    OddLength,
    /// The digits do not fill a buffer of fixed size.
    InvalidStringLength,
}

/// The value of a hexadecimal digit of either case.
pub open spec fn digit(b: u8) -> Option<int> {
    if 0x30 <= b <= 0x39 {
        Some(b - 0x30)
    } else if 0x41 <= b <= 0x46 {
        Some(b - 0x41 + 10)
    } else if 0x61 <= b <= 0x66 {
        Some(b - 0x61 + 10)
    } else {
        None
    }
}

/// Whether bytes are hexadecimal digits throughout.
pub open spec fn all_hex(text: Seq<u8>) -> bool {
    forall|i: int| 0 <= i < text.len() ==> digit(#[trigger] text[i]) is Some
}

/// The bytes that hexadecimal digits stand for.
pub open spec fn bytes_of(text: Seq<u8>) -> Seq<u8> {
    Seq::new(
        text.len() / 2,
        |i: int| (digit(text[2 * i])->0 * 16 + digit(text[2 * i + 1])->0) as u8,
    )
}

/// What a text in hexadecimal notation holds, where it is one.
pub open spec fn content(text: Seq<u8>) -> Option<Seq<u8>> {
    if text.len() % 2 == 0 && all_hex(text) {
        Some(bytes_of(text))
    } else {
        None
    }
}

/// Whether an error is the one for a text: an odd length first, then the first
/// byte that is not a digit, taken as a character.
pub open spec fn explains(e: HexError, text: Seq<u8>) -> bool {
    match e {
        HexError::OddLength => text.len() % 2 == 1,
        HexError::InvalidHexCharacter { c, index } => text.len() % 2 == 0 && index < text.len()
            && digit(text[index as int]) is None && c as u32 == text[index as int] && all_hex(
            text.take(index as int),
        ),
        HexError::InvalidStringLength => false,
    }
}

/// Calls `hex::decode`. Trusted: an even number of hexadecimal digits gives the
/// bytes that they stand for; an odd length is an error; and so is the first
/// byte that is not a digit, given as a character with its position.
#[verifier::external_body]
pub(crate) fn decode(text: &[u8]) -> (r: Result<Vec<u8>, HexError>)
    ensures
        match r {
            Ok(bytes) => content(text@) == Some(bytes@),
            Err(e) => explains(e, text@),
        },
{
    match hex::decode(text) {
        Ok(bytes) => Ok(bytes),
        Err(hex::FromHexError::InvalidHexCharacter { c, index }) => Err(
            HexError::InvalidHexCharacter { c, index },
        ),
        Err(hex::FromHexError::OddLength) => Err(HexError::OddLength),
        Err(hex::FromHexError::InvalidStringLength) => Err(HexError::InvalidStringLength),
    }
}

/// Bytes in hexadecimal notation, in lower case.
pub open spec fn hex_text(bytes: Seq<u8>) -> Seq<char>
    decreases bytes.len(),
{
    if bytes.len() == 0 {
        Seq::empty()
    } else {
        hex_text(bytes.drop_last()) + text::hex(bytes.last() as nat, 2, false)
    }
}

/// Writes bytes in hexadecimal notation.
pub fn hex_line(bytes: &[u8]) -> (r: String)
    ensures
        r@ == hex_text(bytes@),
{
    let mut out = String::new();
    let mut i: usize = 0;
    assert(bytes@.take(0) =~= Seq::<u8>::empty());
    while i < bytes.len()
        invariant
            i <= bytes@.len(),
            out@ == hex_text(bytes@.take(i as int)),
        decreases bytes@.len() - i,
    {
        assert(bytes@.take(i + 1).drop_last() =~= bytes@.take(i as int));
        assert(bytes@.take(i + 1).last() == bytes@[i as int]);
        text::push_hex(&mut out, bytes[i] as u32, 2, false);
        i = i + 1;
    }
    assert(bytes@.take(bytes@.len() as int) =~= bytes@);
    out
}

/// The two digits of a byte.
proof fn lemma_two_digits(b: u8)
    ensures
        text::hex(b as nat, 2, false) == seq![
            text::hex_char(b as nat / 16, false),
            text::hex_char(b as nat % 16, false),
        ],
{
    reveal_with_fuel(text::hex, 3);
    assert((b as nat / 16) % 16 == b as nat / 16);
    assert(text::hex(b as nat, 2, false) =~= seq![
        text::hex_char(b as nat / 16, false),
        text::hex_char(b as nat % 16, false),
    ]);
}

proof fn lemma_digit_char(d: nat)
    requires
        d < 16,
    ensures
        (text::hex_char(d, false) as u32) < 128,
        digit(text::hex_char(d, false) as u8) == Some(d as int),
{
}

proof fn lemma_hex_text(bytes: Seq<u8>)
    ensures
        hex_text(bytes).len() == 2 * bytes.len(),
        forall|i: int|
            0 <= i < bytes.len() ==> #[trigger] hex_text(bytes)[2 * i] == text::hex_char(
                bytes[i] as nat / 16,
                false,
            ) && hex_text(bytes)[2 * i + 1] == text::hex_char(bytes[i] as nat % 16, false),
    decreases bytes.len(),
{
    if bytes.len() > 0 {
        let rest = bytes.drop_last();
        lemma_hex_text(rest);
        lemma_two_digits(bytes.last());
        assert forall|i: int| 0 <= i < bytes.len() implies #[trigger] hex_text(bytes)[2 * i]
            == text::hex_char(bytes[i] as nat / 16, false) && hex_text(bytes)[2 * i + 1]
            == text::hex_char(bytes[i] as nat % 16, false) by {
            if i < rest.len() {
                assert(hex_text(rest)[2 * i] == hex_text(bytes)[2 * i]);
                assert(rest[i] == bytes[i]);
            }
        }
    }
}

/// Hexadecimal notation has no white space around it.
pub proof fn lemma_hex_text_is_trimmed(bytes: Seq<u8>)
    ensures
        text::trim(hex_text(bytes)) == hex_text(bytes),
{
    let s = hex_text(bytes);
    lemma_hex_text(bytes);
    if bytes.len() > 0 {
        let last = bytes.len() - 1;
        assert(s[2 * 0int] == text::hex_char(bytes[0] as nat / 16, false));
        assert(s[2 * last] == text::hex_char(bytes[last] as nat / 16, false));
        assert(s[2 * last + 1] == text::hex_char(bytes[last] as nat % 16, false));
        assert(s.last() == s[2 * last + 1]);
        lemma_digit_char(bytes[0] as nat / 16);
        lemma_digit_char(bytes[last] as nat % 16);
        assert(!text::is_space(s[0]));
        assert(!text::is_space(s.last()));
    }
}

/// Hexadecimal notation reads back as the bytes that were written.
pub proof fn law_hex_reads_back(bytes: Seq<u8>)
    ensures
        content(vstd::utf8::encode_utf8(hex_text(bytes))) == Some(bytes),
{
    let s = hex_text(bytes);
    lemma_hex_text(bytes);
    assert forall|k: int| 0 <= k < s.len() implies '\0' <= #[trigger] s[k] <= '\u{7f}' by {
        let i = k / 2;
        assert(k == 2 * i || k == 2 * i + 1);
        assert(s[2 * i] == text::hex_char(bytes[i] as nat / 16, false));
        lemma_digit_char(bytes[i] as nat / 16);
        lemma_digit_char(bytes[i] as nat % 16);
    }
    assert(vstd::utf8::is_ascii_chars(s));
    let t = vstd::utf8::encode_utf8(s);
    vstd::utf8::is_ascii_chars_encode_utf8(s);
    assert(t.len() == s.len());
    assert forall|i: int| 0 <= i < bytes.len() implies digit(#[trigger] t[2 * i]) == Some(
        bytes[i] as int / 16,
    ) && digit(t[2 * i + 1]) == Some(bytes[i] as int % 16) by {
        assert(s[2 * i] == text::hex_char(bytes[i] as nat / 16, false));
        lemma_digit_char(bytes[i] as nat / 16);
        lemma_digit_char(bytes[i] as nat % 16);
        assert(t[2 * i] == s[2 * i] as u8);
        assert(t[2 * i + 1] == s[2 * i + 1] as u8);
    }
    assert forall|k: int| 0 <= k < t.len() implies digit(#[trigger] t[k]) is Some by {
        let i = k / 2;
        assert(k == 2 * i || k == 2 * i + 1);
        assert(digit(t[2 * i]) is Some);
    }
    assert(bytes_of(t) =~= bytes) by {
        assert forall|i: int| 0 <= i < bytes.len() implies bytes_of(t)[i] == bytes[i] by {
            assert(digit(t[2 * i]) == Some(bytes[i] as int / 16));
        }
    }
}

} // verus!
