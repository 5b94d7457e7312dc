//! Text: searching, trimming, splitting, and numbers in decimal and
//! hexadecimal notation.

use vstd::prelude::*;
use crate::be;

verus! {

/// Specifies `std::string::String::push`: the character goes to the end.
pub assume_specification[ String::push ](s: &mut String, c: char)
    ensures
        final(s)@ == old(s)@.push(c),
;

/// The characters of a text.
pub fn chars_of(s: &str) -> (r: Vec<char>)
    ensures
        r@ == s@,
{
    let mut out: Vec<char> = Vec::new();
    for c in it: s.chars()
        invariant
            out@ == it.seq().take(it.index() as int),
            it.seq() == s@,
    {
        out.push(c);
        assert(out@ =~= it.seq().take(it.index() as int + 1));
    }
    assert(s@.take(s@.len() as int) =~= s@);
    out
}

/// The text between two positions.
pub fn text_between(v: &Vec<char>, lo: usize, hi: usize) -> (r: String)
    requires
        lo <= hi <= v@.len(),
    ensures
        r@ == v@.subrange(lo as int, hi as int),
{
    let mut out = String::new();
    let mut i: usize = lo;
    while i < hi
        invariant
            lo <= i <= hi <= v@.len(),
            out@ == v@.subrange(lo as int, i as int),
        decreases hi - i,
    {
        out.push(v[i]);
        i = i + 1;
        assert(out@ =~= v@.subrange(lo as int, i as int));
    }
    out
}

/// Whether two texts are the same.
pub fn same_text(a: &str, b: &str) -> (r: bool)
    ensures
        r == (a@ == b@),
{
    proof {
        vstd::utf8::encode_utf8_decode_utf8(a@);
        vstd::utf8::encode_utf8_decode_utf8(b@);
    }
    be::same_bytes(a.as_bytes(), b.as_bytes())
}

// ---------------------------------------------------------------------------
// Searching
// ---------------------------------------------------------------------------

/// `pattern` stands in `text` at position `at`.
pub open spec fn occurs_at(text: Seq<char>, pattern: Seq<char>, at: int) -> bool {
    0 <= at && at + pattern.len() <= text.len() && text.subrange(at, at + pattern.len())
        == pattern
}

/// `pattern` stands somewhere in `text`.
pub open spec fn occurs(text: Seq<char>, pattern: Seq<char>) -> bool {
    exists|at: int| occurs_at(text, pattern, at)
}

/// The first position at or after `from` at which `pattern` stands in `text`.
pub open spec fn position(text: Seq<char>, pattern: Seq<char>, from: int) -> Option<int>
    decreases text.len() + 1 - from,
{
    if from > text.len() {
        None
    } else if occurs_at(text, pattern, from) {
        Some(from)
    } else {
        position(text, pattern, from + 1)
    }
}

/// A pattern has a position exactly where it stands in the text.
pub proof fn lemma_position(text: Seq<char>, pattern: Seq<char>, from: int)
    ensures
        match position(text, pattern, from) {
            Some(at) => from <= at && (0 <= from ==> occurs_at(text, pattern, at)) && forall|j: int|
                from <= j < at ==> !occurs_at(text, pattern, j),
            None => forall|j: int| from <= j ==> !occurs_at(text, pattern, j),
        },
    decreases text.len() + 1 - from,
{
    if from <= text.len() && !occurs_at(text, pattern, from) {
        lemma_position(text, pattern, from + 1);
    }
}

/// Finds the first occurrence of a pattern.
pub fn find(v: &Vec<char>, pattern: &str) -> (r: Option<usize>)
    ensures
        match r {
            Some(at) => position(v@, pattern@, 0) == Some(at as int) && at + pattern@.len()
                <= v@.len(),
            None => position(v@, pattern@, 0) is None,
        },
{
    let p = chars_of(pattern);
    proof {
        lemma_position(v@, pattern@, 0);
    }
    if p.len() > v.len() {
        return None;
    }
    let last: usize = v.len() - p.len();
    let mut at: usize = 0;
    loop
        invariant
            p@ == pattern@,
            p@.len() <= v@.len() <= usize::MAX,
            last == v@.len() - p@.len(),
            at <= last,
            position(v@, pattern@, 0) == position(v@, pattern@, at as int),
        decreases last - at,
    {
        let mut k: usize = 0;
        while k < p.len() && v[at + k] == p[k]
            invariant
                p@ == pattern@,
                p@.len() <= v@.len() <= usize::MAX,
                last == v@.len() - p@.len(),
                at <= last,
                k <= p@.len(),
                forall|j: int| 0 <= j < k ==> v@[at + j] == p@[j],
            decreases p@.len() - k,
        {
            k = k + 1;
        }
        if k == p.len() {
            assert(v@.subrange(at as int, at + p@.len()) =~= p@);
            return Some(at);
        }
        assert(!occurs_at(v@, pattern@, at as int)) by {
            if occurs_at(v@, pattern@, at as int) {
                assert(v@.subrange(at as int, at + p@.len())[k as int] == p@[k as int]);
            }
        }
        if at == last {
            proof {
                lemma_position(v@, pattern@, at + 1);
            }
            return None;
        }
        at = at + 1;
    }
}

/// Whether a pattern stands somewhere in a text.
pub fn contains(text: &str, pattern: &str) -> (r: bool)
    ensures
        r == occurs(text@, pattern@),
{
    let v = chars_of(text);
    proof {
        lemma_position(text@, pattern@, 0);
    }
    match find(&v, pattern) {
        Some(_) => true,
        None => false,
    }
}

/// The first position at or after `from` at which a character stands.
pub open spec fn char_position(text: Seq<char>, c: char, from: int) -> Option<int>
    decreases text.len() - from,
{
    if from >= text.len() {
        None
    } else if text[from] == c {
        Some(from)
    } else {
        char_position(text, c, from + 1)
    }
}

/// Finds the first occurrence of a character at or after a position.
pub fn find_char(v: &Vec<char>, from: usize, c: char) -> (r: Option<usize>)
    requires
        from <= v@.len(),
    ensures
        match r {
            Some(at) => char_position(v@, c, from as int) == Some(at as int) && from <= at
                < v@.len(),
            None => char_position(v@, c, from as int) is None,
        },
{
    let mut i: usize = from;
    while i < v.len()
        invariant
            from <= i <= v@.len(),
            char_position(v@, c, from as int) == char_position(v@, c, i as int),
        decreases v@.len() - i,
    {
        if v[i] == c {
            return Some(i);
        }
        i = i + 1;
    }
    None
}

// ---------------------------------------------------------------------------
// White space
// ---------------------------------------------------------------------------

/// The characters with the Unicode property `White_Space`.
pub open spec fn is_space(c: char) -> bool {
    let n = c as u32;
    ||| 0x9 <= n <= 0xD
    ||| n == 0x20
    ||| n == 0x85
    ||| n == 0xA0
    ||| n == 0x1680
    ||| 0x2000 <= n <= 0x200A
    ||| n == 0x2028
    ||| n == 0x2029
    ||| n == 0x202F
    ||| n == 0x205F
    ||| n == 0x3000
}

/// A text without its leading white space.
pub open spec fn trim_start(s: Seq<char>) -> Seq<char>
    decreases s.len(),
{
    if s.len() > 0 && is_space(s[0]) {
        trim_start(s.drop_first())
    } else {
        s
    }
}

/// A text without its trailing white space.
pub open spec fn trim_end(s: Seq<char>) -> Seq<char>
    decreases s.len(),
{
    if s.len() > 0 && is_space(s.last()) {
        trim_end(s.drop_last())
    } else {
        s
    }
}

/// A text without the white space around it.
pub open spec fn trim(s: Seq<char>) -> Seq<char> {
    trim_end(trim_start(s))
}

/// Whether a character is white space.
pub fn space(c: char) -> (r: bool)
    ensures
        r == is_space(c),
{
    let n: u32 = c as u32;
    (0x9 <= n && n <= 0xD) || n == 0x20 || n == 0x85 || n == 0xA0 || n == 0x1680 || (0x2000 <= n
        && n <= 0x200A) || n == 0x2028 || n == 0x2029 || n == 0x202F || n == 0x205F || n == 0x3000
}

/// The range that is left of a range of characters without the white space
/// around it.
pub fn trimmed_range(v: &Vec<char>, lo: usize, hi: usize) -> (r: (usize, usize))
    requires
        lo <= hi <= v@.len(),
    ensures
        lo <= r.0 <= r.1 <= hi,
        v@.subrange(r.0 as int, r.1 as int) == trim(v@.subrange(lo as int, hi as int)),
{
    let mut a: usize = lo;
    while a < hi && space(v[a])
        invariant
            lo <= a <= hi <= v@.len(),
            trim_start(v@.subrange(a as int, hi as int)) == trim_start(
                v@.subrange(lo as int, hi as int),
            ),
        decreases hi - a,
    {
        assert(v@.subrange(a as int, hi as int).drop_first() =~= v@.subrange(a + 1, hi as int));
        a = a + 1;
    }
    assert(trim_start(v@.subrange(a as int, hi as int)) == v@.subrange(a as int, hi as int));
    let mut b: usize = hi;
    while b > a && space(v[b - 1])
        invariant
            lo <= a <= b <= hi <= v@.len(),
            trim_end(v@.subrange(a as int, b as int)) == trim_end(v@.subrange(a as int, hi as int)),
        decreases b,
    {
        assert(v@.subrange(a as int, b as int).drop_last() =~= v@.subrange(a as int, b - 1));
        b = b - 1;
    }
    assert(trim_end(v@.subrange(a as int, b as int)) == v@.subrange(a as int, b as int));
    (a, b)
}

/// The text without the white space around it.
pub fn trimmed(s: &str) -> (r: String)
    ensures
        r@ == trim(s@),
{
    let v = chars_of(s);
    let (a, b) = trimmed_range(&v, 0, v.len());
    assert(v@.subrange(0, v@.len() as int) =~= v@);
    text_between(&v, a, b)
}

/// What stands before the first white space.
pub open spec fn until_space(s: Seq<char>) -> Seq<char>
    decreases s.len(),
{
    if s.len() == 0 || is_space(s[0]) {
        Seq::empty()
    } else {
        seq![s[0]] + until_space(s.drop_first())
    }
}

/// The first run of characters that are not white space.
pub open spec fn first_word(s: Seq<char>) -> Seq<char> {
    until_space(trim_start(s))
}

/// Where the white space at the start of a text ends.
fn skip_space(v: &Vec<char>) -> (a: usize)
    ensures
        a <= v@.len(),
        trim_start(v@) == v@.skip(a as int),
{
    let mut a: usize = 0;
    assert(v@.skip(0) =~= v@);
    while a < v.len() && space(v[a])
        invariant
            a <= v@.len(),
            trim_start(v@.skip(a as int)) == trim_start(v@),
        decreases v@.len() - a,
    {
        assert(v@.skip(a as int).drop_first() =~= v@.skip(a + 1));
        a = a + 1;
    }
    a
}

/// Where the run of characters that are not white space ends.
fn skip_word(v: &Vec<char>, a: usize) -> (b: usize)
    requires
        a <= v@.len(),
    ensures
        a <= b <= v@.len(),
        until_space(v@.skip(a as int)) == v@.subrange(a as int, b as int),
{
    let mut b: usize = a;
    assert(v@.subrange(a as int, a as int) =~= Seq::<char>::empty());
    assert(Seq::<char>::empty() + until_space(v@.skip(a as int)) =~= until_space(v@.skip(a as int)));
    while b < v.len() && !space(v[b])
        invariant
            a <= b <= v@.len(),
            until_space(v@.skip(a as int)) == v@.subrange(a as int, b as int) + until_space(
                v@.skip(b as int),
            ),
        decreases v@.len() - b,
    {
        let ghost rest = v@.skip(b as int);
        assert(rest.drop_first() =~= v@.skip(b + 1));
        assert(v@.subrange(a as int, b as int) + (seq![rest[0]] + until_space(v@.skip(b + 1)))
            =~= v@.subrange(a as int, b + 1) + until_space(v@.skip(b + 1)));
        b = b + 1;
    }
    assert(until_space(v@.skip(b as int)) =~= Seq::<char>::empty());
    assert(until_space(v@.skip(a as int)) =~= v@.subrange(a as int, b as int));
    b
}

/// The first run of characters that are not white space; empty where there is
/// none.
pub fn word(s: &str) -> (r: String)
    ensures
        r@ == first_word(s@),
{
    let v = chars_of(s);
    let a: usize = skip_space(&v);
    let b: usize = skip_word(&v, a);
    text_between(&v, a, b)
}

// ---------------------------------------------------------------------------
// Splitting
// ---------------------------------------------------------------------------

/// The views of a sequence of texts.
pub open spec fn texts(v: Seq<String>) -> Seq<Seq<char>> {
    v.map_values(|s: String| s@)
}

/// The pieces of a text between separators. There is always at least one.
pub open spec fn split(s: Seq<char>, sep: char) -> Seq<Seq<char>>
    decreases s.len(),
{
    if s.len() == 0 {
        seq![Seq::empty()]
    } else {
        let before = split(s.drop_last(), sep);
        if s.last() == sep {
            before.push(Seq::empty())
        } else {
            before.drop_last().push(before.last().push(s.last()))
        }
    }
}

/// The pieces of a text between separators, each without the white space
/// around it.
pub open spec fn split_trim(s: Seq<char>, sep: char) -> Seq<Seq<char>> {
    split(s, sep).map_values(|p: Seq<char>| trim(p))
}

/// Cuts a text at every separator; gives the range of each piece.
pub fn split_ranges(v: &Vec<char>, sep: char) -> (r: Vec<(usize, usize)>)
    ensures
        r@.len() == split(v@, sep).len(),
        r@.len() >= 1,
        forall|i: int|
            #![trigger r@[i]]
            0 <= i < r@.len() ==> r@[i].0 <= r@[i].1 <= v@.len() && v@.subrange(
                r@[i].0 as int,
                r@[i].1 as int,
            ) == split(v@, sep)[i],
{
    let n: usize = v.len();
    let mut out: Vec<(usize, usize)> = Vec::new();
    let mut start: usize = 0;
    let mut i: usize = 0;
    assert(v@.take(0) =~= Seq::<char>::empty());
    while i < n
        invariant
            start <= i <= n == v@.len(),
            split(v@.take(i as int), sep).len() == out@.len() + 1,
            split(v@.take(i as int), sep).last() == v@.subrange(start as int, i as int),
            forall|k: int|
                #![trigger out@[k]]
                0 <= k < out@.len() ==> out@[k].0 <= out@[k].1 <= v@.len() && v@.subrange(
                    out@[k].0 as int,
                    out@[k].1 as int,
                ) == split(v@.take(i as int), sep)[k],
        decreases n - i,
    {
        assert(v@.take(i + 1).drop_last() =~= v@.take(i as int));
        assert(v@.take(i + 1).last() == v@[i as int]);
        if v[i] == sep {
            out.push((start, i));
            start = i + 1;
        } else {
            assert(v@.subrange(start as int, i + 1) =~= v@.subrange(start as int, i as int).push(
                v@[i as int],
            ));
        }
        i = i + 1;
        assert(split(v@.take(i as int), sep).last() =~= v@.subrange(start as int, i as int));
    }
    assert(v@.take(n as int) =~= v@);
    out.push((start, n));
    out
}

/// Cuts a text at every separator and trims the pieces.
pub fn split_trimmed(s: &str, sep: char) -> (r: Vec<String>)
    ensures
        texts(r@) == split_trim(s@, sep),
        r@.len() >= 1,
{
    let v = chars_of(s);
    let ranges = split_ranges(&v, sep);
    let mut out: Vec<String> = Vec::new();
    let mut i: usize = 0;
    while i < ranges.len()
        invariant
            i <= ranges@.len() == split(v@, sep).len(),
            out@.len() == i,
            forall|k: int| 0 <= k < i ==> (#[trigger] out@[k])@ == trim(split(v@, sep)[k]),
            forall|k: int|
                #![trigger ranges@[k]]
                0 <= k < ranges@.len() ==> ranges@[k].0 <= ranges@[k].1 <= v@.len() && v@.subrange(
                    ranges@[k].0 as int,
                    ranges@[k].1 as int,
                ) == split(v@, sep)[k],
        decreases ranges@.len() - i,
    {
        let (lo, hi) = ranges[i];
        let (a, b) = trimmed_range(&v, lo, hi);
        out.push(text_between(&v, a, b));
        i = i + 1;
    }
    assert(texts(out@) =~= split_trim(s@, sep));
    out
}

// ---------------------------------------------------------------------------
// Numbers
// ---------------------------------------------------------------------------

/// Whether a character is a decimal digit.
pub open spec fn is_digit(c: char) -> bool {
    '0' <= c <= '9'
}

/// The value of a decimal digit.
pub open spec fn digit_value(c: char) -> nat {
    (c as u32 - '0' as u32) as nat
}

/// The character of a digit.
pub open spec fn digit_char(d: nat) -> char {
    (d + '0' as u32) as u32 as char
}

/// Whether a text is a run of at least one decimal digit.
pub open spec fn all_digits(s: Seq<char>) -> bool {
    s.len() > 0 && forall|i: int| 0 <= i < s.len() ==> is_digit(s[i])
}

/// The number that a run of digits stands for.
pub open spec fn digits_value(s: Seq<char>) -> nat
    decreases s.len(),
{
    if s.len() == 0 {
        0
    } else {
        digits_value(s.drop_last()) * 10 + digit_value(s.last())
    }
}

/// An unsigned number, with or without a plus sign in front of its digits.
pub open spec fn unsigned(s: Seq<char>) -> Option<nat> {
    if s.len() > 0 && s[0] == '+' {
        if all_digits(s.drop_first()) {
            Some(digits_value(s.drop_first()))
        } else {
            None
        }
    } else if all_digits(s) {
        Some(digits_value(s))
    } else {
        None
    }
}

/// A number, with or without a sign in front of its digits.
pub open spec fn signed(s: Seq<char>) -> Option<int> {
    if s.len() > 0 && s[0] == '-' {
        if all_digits(s.drop_first()) {
            Some(-(digits_value(s.drop_first()) as int))
        } else {
            None
        }
    } else {
        match unsigned(s) {
            Some(n) => Some(n as int),
            None => None,
        }
    }
}

/// The decimal notation of a number.
pub open spec fn dec(n: nat) -> Seq<char>
    decreases n,
{
    if n < 10 {
        seq![digit_char(n)]
    } else {
        dec(n / 10).push(digit_char(n % 10))
    }
}

/// `n` copies of a character.
pub open spec fn fill(c: char, n: nat) -> Seq<char> {
    Seq::new(n, |i: int| c)
}

/// A text filled up from the left to a width.
pub open spec fn pad_left(s: Seq<char>, width: nat, c: char) -> Seq<char> {
    if s.len() >= width {
        s
    } else {
        fill(c, (width - s.len()) as nat) + s
    }
}

/// A text filled up with blanks from the right to a width.
pub open spec fn pad_right(s: Seq<char>, width: nat) -> Seq<char> {
    if s.len() >= width {
        s
    } else {
        s + fill(' ', (width - s.len()) as nat)
    }
}

/// A number filled up with zeros to a width; a minus sign stays in front and
/// counts.
pub open spec fn zero_padded(n: int, width: nat) -> Seq<char> {
    if n < 0 {
        seq!['-'] + pad_left(dec((-n) as nat), (width - 1) as nat, '0')
    } else {
        pad_left(dec(n as nat), width, '0')
    }
}

/// The character of a hexadecimal digit.
pub open spec fn hex_char(d: nat, upper: bool) -> char {
    if d < 10 {
        digit_char(d)
    } else if upper {
        (d - 10 + 'A' as u32) as u32 as char
    } else {
        (d - 10 + 'a' as u32) as u32 as char
    }
}

/// The last `width` digits of the hexadecimal notation of a number.
pub open spec fn hex(n: nat, width: nat, upper: bool) -> Seq<char>
    decreases width,
{
    if width == 0 {
        Seq::empty()
    } else {
        hex(n / 16, (width - 1) as nat, upper).push(hex_char(n % 16, upper))
    }
}

/// The digits that `dec` writes stand for the number, and there is at least
/// one.
pub proof fn lemma_dec_reads_back(n: nat)
    ensures
        all_digits(dec(n)),
        digits_value(dec(n)) == n,
    decreases n,
{
    if n < 10 {
        assert(dec(n).drop_last() =~= Seq::<char>::empty());
        assert(digits_value(dec(n).drop_last()) == 0);
        assert(dec(n).last() == digit_char(n));
    } else {
        lemma_dec_reads_back(n / 10);
        assert(dec(n).drop_last() =~= dec(n / 10));
        assert(dec(n).last() == digit_char(n % 10));
        assert forall|i: int| 0 <= i < dec(n).len() implies is_digit(dec(n)[i]) by {
            if i < dec(n).len() - 1 {
                assert(dec(n)[i] == dec(n / 10)[i]);
            }
        }
    }
}

/// Leading zeros do not change what digits stand for.
pub proof fn lemma_leading_zeros(k: nat, s: Seq<char>)
    requires
        all_digits(s),
    ensures
        all_digits(fill('0', k) + s),
        digits_value(fill('0', k) + s) == digits_value(s),
    decreases s.len(),
{
    let t = fill('0', k) + s;
    assert forall|i: int| 0 <= i < t.len() implies is_digit(t[i]) by {
        if i >= k {
            assert(t[i] == s[i - k]);
        }
    }
    assert(t.drop_last() =~= fill('0', k) + s.drop_last());
    if s.len() == 1 {
        lemma_zeros(k);
        assert(t.drop_last() =~= fill('0', k));
        assert(digits_value(s.drop_last()) == 0);
    } else {
        lemma_leading_zeros(k, s.drop_last());
    }
}

proof fn lemma_zeros(k: nat)
    ensures
        digits_value(fill('0', k)) == 0,
    decreases k,
{
    if k > 0 {
        lemma_zeros((k - 1) as nat);
        assert(fill('0', k).drop_last() =~= fill('0', (k - 1) as nat));
    }
}

/// The number of digits of a number below a power of ten.
pub proof fn lemma_dec_len(n: nat)
    ensures
        dec(n).len() >= 1,
        n < 10 ==> dec(n).len() == 1,
        10 <= n < 100 ==> dec(n).len() == 2,
        100 <= n < 1000 ==> dec(n).len() == 3,
        1000 <= n < 10000 ==> dec(n).len() == 4,
{
    reveal_with_fuel(dec, 5);
}

/// Appends a number in decimal notation.
pub fn push_dec(out: &mut String, n: u64)
    ensures
        final(out)@ == old(out)@ + dec(n as nat),
    decreases n,
{
    if n >= 10 {
        push_dec(out, n / 10);
    }
    let c: char = ((n % 10) as u8 + 48) as char;
    assert(c == digit_char((n % 10) as nat));
    out.push(c);
    assert(out@ =~= old(out)@ + dec(n as nat));
}

/// A number in decimal notation.
pub fn decimal(n: u64) -> (r: String)
    ensures
        r@ == dec(n as nat),
{
    let mut out = String::new();
    push_dec(&mut out, n);
    assert(out@ =~= dec(n as nat));
    out
}

/// Appends copies of a character.
pub fn push_fill(out: &mut String, c: char, n: usize)
    ensures
        final(out)@ == old(out)@ + fill(c, n as nat),
{
    let mut i: usize = 0;
    assert(out@ =~= old(out)@ + fill(c, 0));
    while i < n
        invariant
            i <= n,
            out@ == old(out)@ + fill(c, i as nat),
        decreases n - i,
    {
        out.push(c);
        i = i + 1;
        assert(out@ =~= old(out)@ + fill(c, i as nat));
    }
}

/// Appends a text, filled up from the left to a width.
pub fn push_padded_left(out: &mut String, s: &str, width: usize, c: char)
    ensures
        final(out)@ == old(out)@ + pad_left(s@, width as nat, c),
{
    let n: usize = s.unicode_len();
    if n < width {
        push_fill(out, c, width - n);
    }
    out.append(s);
    assert(out@ =~= old(out)@ + pad_left(s@, width as nat, c));
}

/// Appends a text, filled up with blanks from the right to a width.
pub fn push_padded_right(out: &mut String, s: &str, width: usize)
    ensures
        final(out)@ == old(out)@ + pad_right(s@, width as nat),
{
    let n: usize = s.unicode_len();
    out.append(s);
    if n < width {
        push_fill(out, ' ', width - n);
    }
    assert(out@ =~= old(out)@ + pad_right(s@, width as nat));
}

/// Appends a number, filled up with zeros to a width.
pub fn push_zero_padded(out: &mut String, n: i64, width: usize)
    requires
        width >= 1,
    ensures
        final(out)@ == old(out)@ + zero_padded(n as int, width as nat),
{
    if n < 0 {
        let magnitude: u64 = (-(n as i128)) as u64;
        let digits = decimal(magnitude);
        out.push('-');
        push_padded_left(out, digits.as_str(), width - 1, '0');
        assert(out@ =~= old(out)@ + zero_padded(n as int, width as nat));
    } else {
        let digits = decimal(n as u64);
        push_padded_left(out, digits.as_str(), width, '0');
    }
}

/// Appends a number, filled up with blanks from the left to a width.
pub fn push_dec_right(out: &mut String, n: u64, width: usize)
    ensures
        final(out)@ == old(out)@ + pad_left(dec(n as nat), width as nat, ' '),
{
    let digits = decimal(n);
    push_padded_left(out, digits.as_str(), width, ' ');
}

/// Appends the last `width` hexadecimal digits of a number.
pub fn push_hex(out: &mut String, n: u32, width: u32, upper: bool)
    ensures
        final(out)@ == old(out)@ + hex(n as nat, width as nat, upper),
    decreases width,
{
    if width > 0 {
        push_hex(out, n / 16, width - 1, upper);
        let d: u8 = (n % 16) as u8;
        let c: char = if d < 10 {
            (d + 48) as char
        } else if upper {
            (d - 10 + 65) as char
        } else {
            (d - 10 + 97) as char
        };
        assert(c == hex_char((n % 16) as nat, upper));
        out.push(c);
    }
    assert(out@ =~= old(out)@ + hex(n as nat, width as nat, upper));
}

/// Reads a run of digits. Gives nothing where it is not one, or where the
/// number is above a limit.
pub fn read_digits(v: &Vec<char>, lo: usize, hi: usize, limit: u64) -> (r: Option<u64>)
    requires
        lo <= hi <= v@.len(),
        limit <= 0xFFFF_FFFF_FFFF,
    ensures
        match r {
            Some(n) => all_digits(v@.subrange(lo as int, hi as int)) && digits_value(
                v@.subrange(lo as int, hi as int),
            ) == n && n <= limit,
            None => !all_digits(v@.subrange(lo as int, hi as int)) || digits_value(
                v@.subrange(lo as int, hi as int),
            ) > limit,
        },
{
    if lo == hi {
        return None;
    }
    let ghost run = v@.subrange(lo as int, hi as int);
    let mut n: u64 = 0;
    let mut above = false;
    let mut i: usize = lo;
    assert(v@.subrange(lo as int, lo as int) =~= Seq::<char>::empty());
    while i < hi
        invariant
            lo <= i <= hi <= v@.len(),
            lo < hi,
            run == v@.subrange(lo as int, hi as int),
            limit <= 0xFFFF_FFFF_FFFF,
            forall|j: int| lo <= j < i ==> is_digit(#[trigger] v@[j]),
            above ==> digits_value(v@.subrange(lo as int, i as int)) > limit,
            !above ==> n <= limit && digits_value(v@.subrange(lo as int, i as int)) == n,
        decreases hi - i,
    {
        let c: char = v[i];
        if c < '0' || c > '9' {
            assert(run[i - lo] == c);
            return None;
        }
        let d: u64 = (c as u32 - 48) as u64;
        assert(v@.subrange(lo as int, i + 1).drop_last() =~= v@.subrange(lo as int, i as int));
        assert(v@.subrange(lo as int, i + 1).last() == c);
        if !above {
            n = n * 10 + d;
            if n > limit {
                above = true;
            }
        }
        i = i + 1;
    }
    assert forall|j: int| 0 <= j < run.len() implies is_digit(run[j]) by {
        assert(run[j] == v@[lo + j]);
    }
    if above {
        None
    } else {
        Some(n)
    }
}

/// Reads an unsigned number; see `unsigned`.
pub fn read_unsigned(v: &Vec<char>, lo: usize, hi: usize, limit: u64) -> (r: Option<u64>)
    requires
        lo <= hi <= v@.len(),
        limit <= 0xFFFF_FFFF_FFFF,
    ensures
        r == (match unsigned(v@.subrange(lo as int, hi as int)) {
            Some(n) => if n <= limit {
                Some(n as u64)
            } else {
                None
            },
            None => None::<u64>,
        }),
{
    if lo < hi && v[lo] == '+' {
        assert(v@.subrange(lo as int, hi as int).drop_first() =~= v@.subrange(lo + 1, hi as int));
        read_digits(v, lo + 1, hi, limit)
    } else {
        read_digits(v, lo, hi, limit)
    }
}

/// Reads a number; see `signed`.
pub fn read_signed(v: &Vec<char>, lo: usize, hi: usize, limit: u64) -> (r: Option<i64>)
    requires
        lo <= hi <= v@.len(),
        limit <= 0xFFFF_FFFF_FFFF,
    ensures
        r == (match signed(v@.subrange(lo as int, hi as int)) {
            Some(n) => if -limit <= n <= limit {
                Some(n as i64)
            } else {
                None
            },
            None => None::<i64>,
        }),
{
    if lo < hi && v[lo] == '-' {
        assert(v@.subrange(lo as int, hi as int).drop_first() =~= v@.subrange(lo + 1, hi as int));
        match read_digits(v, lo + 1, hi, limit) {
            Some(n) => Some(-(n as i64)),
            None => None,
        }
    } else {
        match read_unsigned(v, lo, hi, limit) {
            Some(n) => Some(n as i64),
            None => None,
        }
    }
}

// ---------------------------------------------------------------------------
// Laws
// ---------------------------------------------------------------------------

/// Nothing that prints in ASCII is white space.
pub proof fn law_printing_characters_are_no_space(c: char)
    requires
        '!' <= c <= '~',
    ensures
        !is_space(c),
{
}

/// White space is twenty-five characters of Unicode and no others.
pub proof fn law_white_space_is_listed(c: char)
    ensures
        is_space(c) <==> seq![
            '\u{9}',
            '\u{a}',
            '\u{b}',
            '\u{c}',
            '\u{d}',
            '\u{20}',
            '\u{85}',
            '\u{a0}',
            '\u{1680}',
            '\u{2000}',
            '\u{2001}',
            '\u{2002}',
            '\u{2003}',
            '\u{2004}',
            '\u{2005}',
            '\u{2006}',
            '\u{2007}',
            '\u{2008}',
            '\u{2009}',
            '\u{200a}',
            '\u{2028}',
            '\u{2029}',
            '\u{202f}',
            '\u{205f}',
            '\u{3000}',
        ].contains(c),
{
    let all = seq![
        '\u{9}',
        '\u{a}',
        '\u{b}',
        '\u{c}',
        '\u{d}',
        '\u{20}',
        '\u{85}',
        '\u{a0}',
        '\u{1680}',
        '\u{2000}',
        '\u{2001}',
        '\u{2002}',
        '\u{2003}',
        '\u{2004}',
        '\u{2005}',
        '\u{2006}',
        '\u{2007}',
        '\u{2008}',
        '\u{2009}',
        '\u{200a}',
        '\u{2028}',
        '\u{2029}',
        '\u{202f}',
        '\u{205f}',
        '\u{3000}',
    ];
    assert(all[0] == '\u{9}');
    assert(all[1] == '\u{a}');
    assert(all[2] == '\u{b}');
    assert(all[3] == '\u{c}');
    assert(all[4] == '\u{d}');
    assert(all[5] == '\u{20}');
    assert(all[6] == '\u{85}');
    assert(all[7] == '\u{a0}');
    assert(all[8] == '\u{1680}');
    assert(all[9] == '\u{2000}');
    assert(all[10] == '\u{2001}');
    assert(all[11] == '\u{2002}');
    assert(all[12] == '\u{2003}');
    assert(all[13] == '\u{2004}');
    assert(all[14] == '\u{2005}');
    assert(all[15] == '\u{2006}');
    assert(all[16] == '\u{2007}');
    assert(all[17] == '\u{2008}');
    assert(all[18] == '\u{2009}');
    assert(all[19] == '\u{200a}');
    assert(all[20] == '\u{2028}');
    assert(all[21] == '\u{2029}');
    assert(all[22] == '\u{202f}');
    assert(all[23] == '\u{205f}');
    assert(all[24] == '\u{3000}');
    if is_space(c) {
        assert(exists|i: int| 0 <= i < all.len() && #[trigger] all[i] == c);
    }
}

proof fn lemma_trim_start(s: Seq<char>) -> (a: int)
    ensures
        0 <= a <= s.len(),
        trim_start(s) == s.skip(a),
        forall|i: int| 0 <= i < a ==> is_space(#[trigger] s[i]),
        a < s.len() ==> !is_space(s[a]),
    decreases s.len(),
{
    if s.len() > 0 && is_space(s[0]) {
        let t = s.drop_first();
        let a = lemma_trim_start(t);
        assert(t.skip(a) =~= s.skip(a + 1));
        assert forall|i: int| 0 <= i < a + 1 implies is_space(#[trigger] s[i]) by {
            if i > 0 {
                assert(s[i] == t[i - 1]);
            }
        }
        a + 1
    } else {
        assert(s.skip(0) =~= s);
        0
    }
}

proof fn lemma_trim_end(s: Seq<char>) -> (b: int)
    ensures
        0 <= b <= s.len(),
        trim_end(s) == s.take(b),
        forall|i: int| b <= i < s.len() ==> is_space(#[trigger] s[i]),
        b > 0 ==> !is_space(s[b - 1]),
    decreases s.len(),
{
    if s.len() > 0 && is_space(s.last()) {
        let t = s.drop_last();
        let b = lemma_trim_end(t);
        assert(t.take(b) =~= s.take(b));
        assert forall|i: int| b <= i < s.len() implies is_space(#[trigger] s[i]) by {
            if i < t.len() {
                assert(s[i] == t[i]);
            }
        }
        b
    } else {
        assert(s.take(s.len() as int) =~= s);
        s.len() as int
    }
}

/// Trimming takes away white space at the two ends and nothing else, and leaves
/// none there.
pub proof fn law_trimming_takes_the_space_around(s: Seq<char>)
    ensures
        exists|a: int, b: int|
            0 <= a <= b <= s.len() && #[trigger] s.subrange(a, b) == trim(s) && (forall|i: int|
                0 <= i < a || b <= i < s.len() ==> is_space(#[trigger] s[i])) && (a < b
                ==> !is_space(s[a]) && !is_space(s[b - 1])),
{
    let a = lemma_trim_start(s);
    let t = s.skip(a);
    let n = lemma_trim_end(t);
    let b = a + n;
    assert(s.subrange(a, b) =~= t.take(n));
    assert forall|i: int| 0 <= i < a || b <= i < s.len() implies is_space(#[trigger] s[i]) by {
        if b <= i < s.len() {
            assert(t[i - a] == s[i]);
        }
    }
    if a < b {
        assert(t[n - 1] == s[b - 1]);
    }
}

/// White space around a text that neither starts nor ends with any is what
/// trimming takes away.
pub proof fn law_trimming_finds_the_text(before: Seq<char>, s: Seq<char>, after: Seq<char>)
    requires
        forall|i: int| 0 <= i < before.len() ==> is_space(#[trigger] before[i]),
        forall|i: int| 0 <= i < after.len() ==> is_space(#[trigger] after[i]),
        s.len() > 0 ==> !is_space(s[0]) && !is_space(s.last()),
    ensures
        trim(before + s + after) == s,
    decreases before.len() + after.len(),
{
    let all = before + s + after;
    if before.len() > 0 {
        law_trimming_finds_the_text(before.drop_first(), s, after);
        assert(all[0] == before[0]);
        assert(all.drop_first() =~= before.drop_first() + s + after);
    } else if s.len() == 0 {
        if after.len() > 0 {
            assert forall|i: int| 0 <= i < after.drop_first().len() implies is_space(
                #[trigger] after.drop_first()[i],
            ) by {
                assert(after.drop_first()[i] == after[i + 1]);
            }
            law_trimming_finds_the_text(before, s, after.drop_first());
            assert(all[0] == after[0]);
            assert(all.drop_first() =~= before + s + after.drop_first());
        } else {
            assert(all =~= s);
        }
    } else {
        assert(all[0] == s[0]);
        assert(trim_start(all) == all);
        lemma_tail_trims(s, after);
        assert(all =~= s + after);
    }
}

proof fn lemma_tail_trims(s: Seq<char>, after: Seq<char>)
    requires
        forall|i: int| 0 <= i < after.len() ==> is_space(#[trigger] after[i]),
        s.len() > 0 ==> !is_space(s.last()),
    ensures
        trim_end(s + after) == s,
    decreases after.len(),
{
    let all = s + after;
    if after.len() > 0 {
        assert(all.last() == after[after.len() - 1]);
        assert(all.drop_last() =~= s + after.drop_last());
        lemma_tail_trims(s, after.drop_last());
    } else {
        assert(all =~= s);
    }
}

/// The first word of a text is the run of characters before the next white
/// space, whatever white space stands in front.
pub proof fn law_first_word_is_found(before: Seq<char>, w: Seq<char>, rest: Seq<char>)
    requires
        forall|i: int| 0 <= i < before.len() ==> is_space(#[trigger] before[i]),
        forall|i: int| 0 <= i < w.len() ==> !is_space(#[trigger] w[i]),
        rest.len() > 0 ==> is_space(rest[0]),
        w.len() == 0 ==> rest.len() == 0,
    ensures
        first_word(before + w + rest) == w,
    decreases before.len(),
{
    let all = before + w + rest;
    if before.len() > 0 {
        assert forall|i: int| 0 <= i < before.drop_first().len() implies is_space(
            #[trigger] before.drop_first()[i],
        ) by {
            assert(before.drop_first()[i] == before[i + 1]);
        }
        law_first_word_is_found(before.drop_first(), w, rest);
        assert(all[0] == before[0]);
        assert(all.drop_first() =~= before.drop_first() + w + rest);
    } else {
        assert(all =~= w + rest);
        if w.len() > 0 {
            assert(all[0] == w[0]);
        }
        assert(trim_start(all) == all);
        lemma_until_space(w, rest);
    }
}

proof fn lemma_until_space(w: Seq<char>, rest: Seq<char>)
    requires
        forall|i: int| 0 <= i < w.len() ==> !is_space(#[trigger] w[i]),
        rest.len() > 0 ==> is_space(rest[0]),
    ensures
        until_space(w + rest) == w,
    decreases w.len(),
{
    let all = w + rest;
    if w.len() > 0 {
        assert(all[0] == w[0]);
        assert forall|i: int| 0 <= i < w.drop_first().len() implies !is_space(
            #[trigger] w.drop_first()[i],
        ) by {
            assert(w.drop_first()[i] == w[i + 1]);
        }
        lemma_until_space(w.drop_first(), rest);
        assert(all.drop_first() =~= w.drop_first() + rest);
        assert(seq![w[0]] + w.drop_first() =~= w);
    } else {
        assert(all =~= rest);
        assert(until_space(all) =~= w);
    }
}

/// Pieces with a separator between them.
pub open spec fn joined(pieces: Seq<Seq<char>>, sep: char) -> Seq<char>
    decreases pieces.len(),
{
    if pieces.len() == 0 {
        Seq::empty()
    } else if pieces.len() == 1 {
        pieces[0]
    } else {
        joined(pieces.drop_last(), sep) + seq![sep] + pieces.last()
    }
}

/// Splitting undoes joining: pieces without the separator come back one by one.
pub proof fn law_split_finds_the_pieces(pieces: Seq<Seq<char>>, sep: char)
    requires
        pieces.len() > 0,
        forall|i: int| 0 <= i < pieces.len() ==> !(#[trigger] pieces[i]).contains(sep),
    ensures
        split(joined(pieces, sep), sep) == pieces,
    decreases pieces.len(),
{
    let last = pieces.last();
    assert(pieces[pieces.len() - 1] == last);
    if pieces.len() == 1 {
        lemma_split_one(last, sep);
        assert(pieces =~= seq![last]);
    } else {
        let rest = pieces.drop_last();
        assert forall|i: int| 0 <= i < rest.len() implies !(#[trigger] rest[i]).contains(sep) by {
            assert(rest[i] == pieces[i]);
        }
        law_split_finds_the_pieces(rest, sep);
        lemma_split_more(joined(rest, sep), last, sep);
        assert(rest.push(last) =~= pieces);
    }
}

/// A text without the separator is one piece.
pub proof fn lemma_split_one(s: Seq<char>, sep: char)
    requires
        !s.contains(sep),
    ensures
        split(s, sep) == seq![s],
    decreases s.len(),
{
    if s.len() > 0 {
        assert(s[s.len() - 1] == s.last());
        let t = s.drop_last();
        assert(!t.contains(sep)) by {
            if t.contains(sep) {
                let i = choose|i: int| 0 <= i < t.len() && t[i] == sep;
                assert(s[i] == sep);
            }
        }
        lemma_split_one(t, sep);
        assert(t.push(s.last()) =~= s);
        assert(split(s, sep) =~= seq![s]);
    } else {
        assert(s =~= Seq::<char>::empty());
    }
}

/// What follows a separator is a piece of its own.
pub proof fn lemma_split_more(s: Seq<char>, last: Seq<char>, sep: char)
    requires
        !last.contains(sep),
    ensures
        split(s + seq![sep] + last, sep) == split(s, sep).push(last),
    decreases last.len(),
{
    let all = s + seq![sep] + last;
    if last.len() > 0 {
        let t = last.drop_last();
        assert(last[last.len() - 1] == last.last());
        assert(!t.contains(sep)) by {
            if t.contains(sep) {
                let i = choose|i: int| 0 <= i < t.len() && t[i] == sep;
                assert(last[i] == sep);
            }
        }
        lemma_split_more(s, t, sep);
        assert(all.drop_last() =~= s + seq![sep] + t);
        assert(all.last() == last.last());
        assert(t.push(last.last()) =~= last);
        assert(split(all, sep) =~= split(s, sep).push(last));
    } else {
        assert(all.drop_last() =~= s);
        assert(all.last() == sep);
        assert(last =~= Seq::<char>::empty());
        assert(split(all, sep) =~= split(s, sep).push(last));
    }
}

/// Joining undoes splitting, and no piece holds the separator.
pub proof fn law_split_loses_nothing(s: Seq<char>, sep: char)
    ensures
        split(s, sep).len() > 0,
        joined(split(s, sep), sep) == s,
        forall|i: int| 0 <= i < split(s, sep).len() ==> !(#[trigger] split(s, sep)[i]).contains(sep),
    decreases s.len(),
{
    let all = split(s, sep);
    if s.len() > 0 {
        let t = s.drop_last();
        law_split_loses_nothing(t, sep);
        let before = split(t, sep);
        if s.last() == sep {
            assert(all.drop_last() =~= before);
            assert(joined(all, sep) =~= s);
        } else {
            let longer = before.last().push(s.last());
            assert(before[before.len() - 1] == before.last());
            if before.len() > 1 {
                assert(all.drop_last() =~= before.drop_last());
                assert(joined(all, sep) =~= joined(before, sep).push(s.last()));
            } else {
                assert(joined(all, sep) =~= joined(before, sep).push(s.last()));
            }
            assert(t.push(s.last()) =~= s);
            assert(!longer.contains(sep)) by {
                if longer.contains(sep) {
                    let i = choose|i: int| 0 <= i < longer.len() && longer[i] == sep;
                    if i < before.last().len() {
                        assert(before.last()[i] == sep);
                        assert(before.last().contains(sep));
                    }
                }
            }
        }
        assert forall|i: int| 0 <= i < all.len() implies !(#[trigger] all[i]).contains(sep) by {
            if i < before.len() - 1 {
                assert(all[i] == before[i]);
            } else if s.last() == sep && i == before.len() - 1 {
                assert(all[i] == before[i]);
            }
        }
    } else {
        assert(all[0] =~= s);
    }
}

/// A character is found at its first place, where there is one.
pub proof fn law_first_character_is_found(text: Seq<char>, c: char, from: int)
    requires
        0 <= from,
    ensures
        match char_position(text, c, from) {
            Some(at) => from <= at < text.len() && text[at] == c && forall|i: int|
                from <= i < at ==> #[trigger] text[i] != c,
            None => forall|i: int| from <= i < text.len() ==> #[trigger] text[i] != c,
        },
    decreases text.len() - from,
{
    if from < text.len() && text[from] != c {
        law_first_character_is_found(text, c, from + 1);
    }
}

/// Only one run of digits without a leading zero stands for a number: its
/// decimal notation.
pub proof fn law_decimal_is_canonical(s: Seq<char>)
    requires
        all_digits(s),
        s.len() > 1 ==> s[0] != '0',
    ensures
        s == dec(digits_value(s)),
    decreases s.len(),
{
    let last = s.last();
    assert(is_digit(s[s.len() - 1]));
    let t = s.drop_last();
    if s.len() == 1 {
        assert(digits_value(t) == 0);
        assert(s =~= seq![digit_char(digit_value(last))]);
    } else {
        assert forall|i: int| 0 <= i < t.len() implies is_digit(t[i]) by {
            assert(is_digit(s[i]));
        }
        assert(t[0] == s[0]);
        law_decimal_is_canonical(t);
        lemma_positive(t);
        let v = digits_value(t);
        assert((v * 10 + digit_value(last)) / 10 == v);
        assert((v * 10 + digit_value(last)) % 10 == digit_value(last));
        assert(s =~= dec(v).push(last));
        assert(digit_char(digit_value(last)) == last);
    }
}

proof fn lemma_positive(s: Seq<char>)
    requires
        all_digits(s),
        s[0] != '0',
    ensures
        digits_value(s) > 0,
    decreases s.len(),
{
    assert(is_digit(s[0]));
    if s.len() > 1 {
        let t = s.drop_last();
        assert forall|i: int| 0 <= i < t.len() implies is_digit(t[i]) by {
            assert(is_digit(s[i]));
        }
        lemma_positive(t);
    } else {
        assert(digits_value(s.drop_last()) == 0);
        assert(s.last() == s[0]);
    }
}

/// Decimal notation is a run of digits that stands for the number and has no
/// leading zero.
pub proof fn law_decimal_states_the_number(n: nat)
    ensures
        all_digits(dec(n)),
        digits_value(dec(n)) == n,
        dec(n).len() > 1 ==> dec(n)[0] != '0',
    decreases n,
{
    lemma_dec_reads_back(n);
    if n >= 10 {
        law_decimal_states_the_number(n / 10);
        lemma_dec_reads_back(n / 10);
        assert(dec(n)[0] == dec(n / 10)[0]);
        if dec(n / 10).len() == 1 {
            assert(n / 10 > 0);
            lemma_dec_single(n / 10);
        }
    }
}

proof fn lemma_dec_single(n: nat)
    requires
        n > 0,
        dec(n).len() == 1,
    ensures
        dec(n)[0] != '0',
{
    if n >= 10 {
        lemma_dec_len(n / 10);
    }
}

/// Digits stand for a number by their place: appending one multiplies by ten
/// and adds it.
pub proof fn law_digits_have_place_value(s: Seq<char>, d: nat)
    requires
        d < 10,
    ensures
        digits_value(Seq::<char>::empty()) == 0,
        digits_value(s.push(digit_char(d))) == digits_value(s) * 10 + d,
        digit_char(d) as u32 == 0x30 + d,
{
    assert(s.push(digit_char(d)).drop_last() =~= s);
}

/// A text with anything but digits behind its first character is no number, nor
/// is one that starts with neither a digit nor a sign, nor a sign alone.
pub proof fn law_other_texts_are_no_numbers(s: Seq<char>)
    ensures
        s.len() == 0 ==> unsigned(s) is None && signed(s) is None,
        s.len() == 1 && !('0' <= s[0] <= '9') ==> unsigned(s) is None && signed(s) is None,
        s.len() > 0 && s[0] != '+' && s[0] != '-' && !('0' <= s[0] <= '9') ==> unsigned(s) is None
            && signed(s) is None,
        forall|i: int|
            1 <= i < s.len() && !('0' <= #[trigger] s[i] <= '9') ==> unsigned(s) is None && signed(
                s,
            ) is None,
{
    let t = s.drop_first();
    assert forall|i: int| 1 <= i < s.len() && !('0' <= #[trigger] s[i] <= '9') implies unsigned(s) is None
        && signed(s) is None by {
        assert(t[i - 1] == s[i]);
        assert(!is_digit(s[i]));
    }
    if s.len() > 0 {
        assert(is_digit(s[0]) <==> '0' <= s[0] <= '9');
    }
}

/// Numbers are read back from their decimal notation, with leading zeros and
/// with a sign in front too.
pub proof fn law_numbers_read_back(n: nat, zeros: nat)
    ensures
        ({
            let s = fill('0', zeros) + dec(n);
            &&& unsigned(s) == Some(n)
            &&& signed(s) == Some(n as int)
            &&& unsigned(seq!['+'] + s) == Some(n)
            &&& signed(seq!['+'] + s) == Some(n as int)
            &&& signed(seq!['-'] + s) == Some(-(n as int))
            &&& unsigned(seq!['-'] + s) is None
        }),
{
    let s = fill('0', zeros) + dec(n);
    lemma_dec_reads_back(n);
    lemma_leading_zeros(zeros, dec(n));
    assert(is_digit(s[0]));
    assert((seq!['+'] + s).drop_first() =~= s);
    assert((seq!['-'] + s).drop_first() =~= s);
    assert(!is_digit((seq!['-'] + s)[0]));
}

/// Padding fills a column of the given width and never cuts.
pub proof fn law_padding_fills_the_column(s: Seq<char>, width: nat, c: char)
    ensures
        ({
            let n = if s.len() < width {
                width
            } else {
                s.len()
            };
            let left = pad_left(s, width, c);
            let right = pad_right(s, width);
            &&& left.len() == n && right.len() == n
            &&& left.skip(n - s.len()) == s
            &&& right.take(s.len() as int) == s
            &&& forall|i: int| 0 <= i < n - s.len() ==> #[trigger] left[i] == c
            &&& forall|i: int| s.len() <= i < n ==> #[trigger] right[i] == ' '
        }),
{
    let n = if s.len() < width {
        width
    } else {
        s.len()
    };
    assert(pad_left(s, width, c).skip(n - s.len()) =~= s);
    assert(pad_right(s, width).take(s.len() as int) =~= s);
}

/// A number in a column of zeros reads back as the number, and is no narrower
/// than the column.
pub proof fn law_zero_padding_keeps_the_number(n: int, width: nat)
    requires
        width >= 1,
    ensures
        signed(zero_padded(n, width)) == Some(n),
        zero_padded(n, width).len() >= width,
        zero_padded(n, width).len() > width ==> zero_padded(n, width) == (if n < 0 {
            seq!['-'] + dec((-n) as nat)
        } else {
            dec(n as nat)
        }),
{
    let m = (if n < 0 {
        -n
    } else {
        n
    }) as nat;
    let w = (if n < 0 {
        width - 1
    } else {
        width as int
    }) as nat;
    let d = dec(m);
    let zeros = (if d.len() < w {
        w - d.len()
    } else {
        0
    }) as nat;
    law_numbers_read_back(m, zeros);
    assert(pad_left(d, w, '0') =~= fill('0', zeros) + d);
}

/// The number that hexadecimal digits of either case stand for.
pub open spec fn hex_number(s: Seq<char>) -> int
    decreases s.len(),
{
    if s.len() == 0 {
        0
    } else {
        let c = s.last() as u32;
        hex_number(s.drop_last()) * 16 + (if 0x30 <= c <= 0x39 {
            c - 0x30
        } else if 0x41 <= c <= 0x46 {
            c - 0x41 + 10
        } else if 0x61 <= c <= 0x66 {
            c - 0x61 + 10
        } else {
            -1
        })
    }
}

/// Sixteen to the power of a width.
pub open spec fn hex_range(width: nat) -> nat
    decreases width,
{
    if width == 0 {
        1
    } else {
        hex_range((width - 1) as nat) * 16
    }
}

/// Hexadecimal notation has the given width, the given case, and stands for
/// the number.
pub proof fn law_hexadecimal_states_the_number(n: nat, width: nat, upper: bool)
    ensures
        hex(n, width, upper).len() == width,
        n < hex_range(width) ==> hex_number(hex(n, width, upper)) == n,
        forall|i: int|
            0 <= i < width ==> {
                let c = #[trigger] hex(n, width, upper)[i];
                ('0' <= c <= '9') || (if upper {
                    'A' <= c <= 'F'
                } else {
                    'a' <= c <= 'f'
                })
            },
    decreases width,
{
    if width > 0 {
        let w = (width - 1) as nat;
        law_hexadecimal_states_the_number(n / 16, w, upper);
        let s = hex(n, width, upper);
        assert(s.drop_last() =~= hex(n / 16, w, upper));
        assert(s.last() == hex_char(n % 16, upper));
        assert(n < hex_range(width) ==> n / 16 < hex_range(w));
        assert forall|i: int| 0 <= i < width implies ({
            let c = #[trigger] s[i];
            ('0' <= c <= '9') || (if upper {
                'A' <= c <= 'F'
            } else {
                'a' <= c <= 'f'
            })
        }) by {
            if i < w {
                assert(s[i] == hex(n / 16, w, upper)[i]);
            }
        }
    }
}

/// A line shows a text in a column, at its left edge, with blanks behind it.
pub open spec fn shows_left(line: Seq<char>, from: int, width: int, s: Seq<char>) -> bool {
    &&& 0 <= from && from + width <= line.len()
    &&& s.len() <= width
    &&& line.subrange(from, from + s.len()) == s
    &&& forall|k: int| from + s.len() <= k < from + width ==> line[k] == ' '
}

/// A line shows a text in a column, at its right edge, with blanks before it.
pub open spec fn shows_right(line: Seq<char>, from: int, width: int, s: Seq<char>) -> bool {
    &&& 0 <= from && from + width <= line.len()
    &&& s.len() <= width
    &&& line.subrange(from + width - s.len(), from + width) == s
    &&& forall|k: int| from <= k < from + width - s.len() ==> line[k] == ' '
}

pub proof fn lemma_shows_left(before: Seq<char>, s: Seq<char>, width: nat, after: Seq<char>)
    requires
        s.len() <= width,
    ensures
        shows_left(
            before + pad_right(s, width) + after,
            before.len() as int,
            width as int,
            s,
        ),
{
    let line = before + pad_right(s, width) + after;
    let from = before.len() as int;
    assert(line.subrange(from, from + s.len()) =~= s);
}

pub proof fn lemma_shows_right(before: Seq<char>, s: Seq<char>, width: nat, after: Seq<char>)
    requires
        s.len() <= width,
    ensures
        shows_right(
            before + pad_left(s, width, ' ') + after,
            before.len() as int,
            width as int,
            s,
        ),
{
    let line = before + pad_left(s, width, ' ') + after;
    let from = before.len() as int;
    assert(line.subrange(from + width - s.len(), from + width) =~= s);
}

} // verus!
