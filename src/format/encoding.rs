//! Percent-encoding of component values.
use std::borrow::Cow;

use percent_encoding::{percent_decode, percent_encode, percent_encode_byte, CONTROLS};
use vstd::prelude::*;
use vstd::string::StringSliceAdditionalSpecFns;
use vstd::utf8::*;

verus! {

broadcast use vstd::utf8::is_ascii_chars_encode_utf8;

/// The delimiter that separates the spans of a formatted string.
pub const DELIMITER: u8 = 0x3A;

/// Whether a byte is written as a `%XX` triple: control characters, bytes
/// outside of ASCII, and the delimiter.
pub open spec fn is_escaped(b: u8) -> bool {
    b < 0x20 || b >= 0x7F || b == DELIMITER
}

/// Whether encoding leaves a value as it is.
pub open spec fn is_plain(s: Seq<u8>) -> bool {
    forall|i: int| 0 <= i < s.len() ==> !is_escaped(#[trigger] s[i])
}

/// Upper-case hexadecimal digit of a value below 16.
pub open spec fn hex_digit(n: int) -> u8 {
    if n < 10 {
        (0x30 + n) as u8
    } else {
        (0x41 + n - 10) as u8
    }
}

/// Encoding of a single byte.
pub open spec fn escape_byte(b: u8) -> Seq<u8> {
    if is_escaped(b) {
        seq![0x25u8, hex_digit(b as int / 16), hex_digit(b as int % 16)]
    } else {
        seq![b]
    }
}

/// Encoding of a value, byte by byte.
pub open spec fn escaped(s: Seq<u8>) -> Seq<u8>
    decreases s.len(),
{
    if s.len() == 0 {
        Seq::empty()
    } else {
        escape_byte(s[0]) + escaped(s.subrange(1, s.len() as int))
    }
}

/// Whether a byte is a hexadecimal digit, in either case.
pub open spec fn is_hex(b: u8) -> bool {
    (0x30 <= b <= 0x39) || (0x41 <= b <= 0x46) || (0x61 <= b <= 0x66)
}

/// Value of a hexadecimal digit.
pub open spec fn hex_value(b: u8) -> int {
    if b <= 0x39 {
        b - 0x30
    } else if b <= 0x46 {
        b - 0x41 + 10
    } else {
        b - 0x61 + 10
    }
}

/// Whether a `%` followed by two hexadecimal digits starts at index `p`.
pub open spec fn escape_at(s: Seq<u8>, p: int) -> bool {
    0 <= p && p + 2 < s.len() && s[p] == 0x25 && is_hex(s[p + 1]) && is_hex(s[p + 2])
}

/// Whether a value holds a `%` followed by two hexadecimal digits.
pub open spec fn has_escape(s: Seq<u8>) -> bool {
    exists|p: int| escape_at(s, p)
}

/// Percent-decoding: each `%` followed by two hexadecimal digits becomes the
/// byte they denote; every other byte stays.
pub open spec fn unescaped(s: Seq<u8>) -> Seq<u8>
    decreases s.len(),
{
    if s.len() == 0 {
        Seq::empty()
    } else if escape_at(s, 0) {
        seq![(hex_value(s[1]) * 16 + hex_value(s[2])) as u8] + unescaped(s.subrange(3, s.len() as int))
    } else {
        seq![s[0]] + unescaped(s.subrange(1, s.len() as int))
    }
}

/// The characters of a sequence of ASCII bytes.
pub open spec fn ascii_text(b: Seq<u8>) -> Seq<char> {
    Seq::new(b.len(), |i: int| b[i] as char)
}

/// Text that lossy UTF-8 decoding makes of a byte sequence, where invalid
/// sequences become the replacement character.
pub uninterp spec fn utf8_lossy(b: Seq<u8>) -> Seq<char>;

/// Encoding distributes over concatenation.
pub proof fn lemma_escaped_concat(a: Seq<u8>, b: Seq<u8>)
    ensures
        escaped(a + b) == escaped(a) + escaped(b),
    decreases a.len(),
{
    if a.len() == 0 {
        assert(a + b =~= b);
    } else {
        lemma_escaped_concat(a.subrange(1, a.len() as int), b);
        assert((a + b).subrange(1, (a + b).len() as int) =~= a.subrange(1, a.len() as int) + b);
        assert(escape_byte(a[0]) + (escaped(a.subrange(1, a.len() as int)) + escaped(b))
            =~= (escape_byte(a[0]) + escaped(a.subrange(1, a.len() as int))) + escaped(b));
    }
}

/// Encoding never shortens a value, and keeps its length exactly when it
/// leaves the value as it is.
pub proof fn lemma_escaped_len(s: Seq<u8>)
    ensures
        escaped(s).len() >= s.len(),
        (escaped(s).len() == s.len()) == is_plain(s),
        is_plain(s) ==> escaped(s) == s,
    decreases s.len(),
{
    if s.len() > 0 {
        let t = s.subrange(1, s.len() as int);
        lemma_escaped_len(t);
        if is_plain(s) {
            assert forall|i: int| 0 <= i < t.len() implies !is_escaped(#[trigger] t[i]) by {
                assert(t[i] == s[i + 1]);
            }
            assert(s =~= seq![s[0]] + t);
        }
        if !is_escaped(s[0]) && is_plain(t) {
            assert forall|i: int| 0 <= i < s.len() implies !is_escaped(#[trigger] s[i]) by {
                if i > 0 {
                    assert(s[i] == t[i - 1]);
                }
            }
        }
    } else {
        assert(escaped(s) =~= s);
    }
}

/// Every byte of an encoded value is ASCII.
pub proof fn lemma_escaped_ascii(s: Seq<u8>)
    ensures
        forall|i: int| 0 <= i < escaped(s).len() ==> #[trigger] escaped(s)[i] < 0x80,
    decreases s.len(),
{
    if s.len() > 0 {
        let t = s.subrange(1, s.len() as int);
        lemma_escaped_ascii(t);
        assert(s[0] as int / 16 < 16 && s[0] as int % 16 < 16);
        let e = escaped(s);
        let h = escape_byte(s[0]);
        assert forall|i: int| 0 <= i < e.len() implies #[trigger] e[i] < 0x80 by {
            if i >= h.len() {
                assert(e[i] == escaped(t)[i - h.len()]);
            }
        }
    }
}

/// The text of an encoded value, read as UTF-8, is its bytes.
pub proof fn lemma_escaped_text(s: Seq<u8>)
    ensures
        encode_utf8(ascii_text(escaped(s))) == escaped(s),
        is_ascii_chars(ascii_text(escaped(s))),
        valid_utf8(escaped(s)),
{
    let e = escaped(s);
    lemma_escaped_ascii(s);
    let t = ascii_text(e);
    assert(is_ascii_chars(t));
    assert(encode_utf8(t) =~= e);
    vstd::utf8::encode_utf8_valid_utf8(t);
}

/// An encoded value holds no delimiter.
pub proof fn lemma_escaped_no_delimiter(s: Seq<u8>)
    ensures
        !escaped(s).contains(DELIMITER),
    decreases s.len(),
{
    if s.len() > 0 {
        let t = s.subrange(1, s.len() as int);
        lemma_escaped_no_delimiter(t);
        let e = escaped(s);
        let h = escape_byte(s[0]);
        assert(s[0] as int / 16 < 16 && s[0] as int % 16 < 16);
        if e.contains(DELIMITER) {
            let k = choose|k: int| 0 <= k < e.len() && e[k] == DELIMITER;
            if k >= h.len() {
                assert(e[k] == escaped(t)[k - h.len()]);
            }
        }
    }
}

/// Decoding keeps a value non-empty.
pub proof fn lemma_unescaped_len(s: Seq<u8>)
    ensures
        s.len() > 0 ==> unescaped(s).len() > 0,
{
}

/// A value that encoding changes holds an escape once encoded.
pub proof fn lemma_escaped_has_escape(s: Seq<u8>)
    requires
        !is_plain(s),
    ensures
        has_escape(escaped(s)),
    decreases s.len(),
{
    let t = s.subrange(1, s.len() as int);
    let e = escaped(s);
    if is_escaped(s[0]) {
        lemma_hex_digit(s[0] as int / 16);
        lemma_hex_digit(s[0] as int % 16);
        assert(escape_at(e, 0));
    } else {
        assert(!is_plain(t)) by {
            let k = choose|k: int| 0 <= k < s.len() && is_escaped(#[trigger] s[k]);
            assert(k > 0);
            assert(t[k - 1] == s[k]);
        }
        lemma_escaped_has_escape(t);
        let p = choose|p: int| escape_at(escaped(t), p);
        assert(e == seq![s[0]] + escaped(t));
        assert(escape_at(e, p + 1));
    }
}

proof fn lemma_hex_digit(n: int)
    requires
        0 <= n < 16,
    ensures
        is_hex(hex_digit(n)),
        hex_value(hex_digit(n)) == n,
        hex_digit(n) != 0x25,
{
}

/// Decoding undoes encoding, unless the value itself holds a `%` followed by
/// two hexadecimal digits.
pub proof fn lemma_unescaped_escaped(s: Seq<u8>)
    requires
        !has_escape(s),
    ensures
        unescaped(escaped(s)) == s,
    decreases s.len(),
{
    if s.len() > 0 {
        let b = s[0];
        let t = s.subrange(1, s.len() as int);
        assert forall|p: int| !escape_at(t, p) by {
            if escape_at(t, p) {
                assert(escape_at(s, p + 1));
            }
        }
        lemma_unescaped_escaped(t);
        let e = escaped(s);
        let rest = escaped(t);
        if is_escaped(b) {
            lemma_hex_digit(b as int / 16);
            lemma_hex_digit(b as int % 16);
            assert(escape_at(e, 0));
            assert(e.subrange(3, e.len() as int) =~= rest);
            assert((hex_value(e[1]) * 16 + hex_value(e[2])) as u8 == b);
            assert(unescaped(e) =~= seq![b] + unescaped(rest));
        } else {
            assert(e.subrange(1, e.len() as int) =~= rest);
            if b == 0x25 {
                assert(!escape_at(e, 0)) by {
                    if escape_at(e, 0) {
                        assert(e[1] == rest[0]);
                        assert(e[2] == rest[1]);
                        let t1 = t.subrange(1, t.len() as int);
                        assert(rest == escape_byte(t[0]) + escaped(t1));
                        if is_escaped(t[0]) {
                            assert(rest[0] == 0x25);
                        } else {
                            assert(rest[0] == t[0]);
                            assert(t.len() >= 2) by {
                                if t.len() < 2 {
                                    assert(t1.len() == 0);
                                    assert(escaped(t1).len() == 0);
                                }
                            }
                            let t2 = t1.subrange(1, t1.len() as int);
                            assert(escaped(t1) == escape_byte(t1[0]) + escaped(t2));
                            assert(rest[1] == escaped(t1)[0]);
                            if is_escaped(t1[0]) {
                                assert(rest[1] == 0x25);
                            } else {
                                assert(rest[1] == t1[0]);
                                assert(escape_at(s, 0));
                            }
                        }
                    }
                }
            }
            assert(unescaped(e) =~= seq![b] + unescaped(rest));
            assert(s =~= seq![b] + t);
        }
    } else {
        assert(unescaped(escaped(s)) =~= s);
    }
}

/// Borrows the text of a `Cow`.
pub(crate) fn cow_text<'a>(c: &'a Cow<'a, str>) -> (r: &'a str)
    ensures
        r@ == c@,
{
    match c {
        Cow::Borrowed(s) => *s,
        Cow::Owned(s) => s.as_str(),
    }
}

/// Percent-encodes control characters, bytes outside of ASCII and the
/// delimiter.
///
/// Returns a borrowed view when no byte needed encoding, an owned value
/// otherwise.
pub fn encode(value: &[u8]) -> (r: Cow<'_, str>)
    ensures
        r@ == ascii_text(escaped(value@)),
        r is Borrowed <==> is_plain(value@),
{
    let mut out = String::new();
    let mut start: usize = 0;
    let mut i: usize = 0;
    while i < value.len()
        invariant
            start <= i <= value@.len(),
            out@ == ascii_text(escaped(value@.subrange(0, start as int))),
            start > 0 ==> value@.contains(DELIMITER),
            forall|k: int| start <= k < i ==> value@[k] != DELIMITER,
        decreases value.len() - i,
    {
        if value[i] == DELIMITER {
            let piece = &value[start..i];
            assert(!piece@.contains(DELIMITER)) by {
                if piece@.contains(DELIMITER) {
                    let k = choose|k: int| 0 <= k < piece@.len() && piece@[k] == DELIMITER;
                    assert(value@[start + k] == DELIMITER);
                }
            }
            let encoded = encode_controls(piece);
            out.append(cow_text(&encoded));
            out.append(encode_byte(DELIMITER));
            proof {
                let a = value@.subrange(0, start as int);
                let c = value@.subrange(i as int, i + 1);
                assert(c =~= seq![DELIMITER]);
                assert(escaped(c) =~= escape_byte(DELIMITER) + escaped(c.subrange(1, 1)));
                lemma_escaped_concat(a, piece@);
                lemma_escaped_concat(a + piece@, c);
                assert(a + piece@ + c =~= value@.subrange(0, i + 1));
                assert(out@ =~= ascii_text(escaped(value@.subrange(0, i + 1))));
            }
            start = i + 1;
        }
        i += 1;
    }
    let piece = &value[start..value.len()];
    assert(!piece@.contains(DELIMITER)) by {
        if piece@.contains(DELIMITER) {
            let k = choose|k: int| 0 <= k < piece@.len() && piece@[k] == DELIMITER;
            assert(value@[start + k] == DELIMITER);
        }
    }
    let last = encode_controls(piece);
    proof {
        lemma_escaped_len(value@);
        lemma_escaped_text(value@);
    }
    if start == 0 {
        assert(piece@ =~= value@);
        match last {
            Cow::Borrowed(s) => {
                proof {
                    lemma_escaped_text(piece@);
                    assert(s.spec_bytes() == escaped(value@));
                }
                if s.as_bytes().len() == value.len() {
                    Cow::Borrowed(s)
                } else {
                    Cow::Owned(s.to_owned())
                }
            },
            Cow::Owned(s) => Cow::Owned(s),
        }
    } else {
        out.append(cow_text(&last));
        proof {
            let a = value@.subrange(0, start as int);
            lemma_escaped_concat(a, piece@);
            assert(a + piece@ =~= value@);
            let k = choose|k: int| 0 <= k < value@.len() && value@[k] == DELIMITER;
            assert(is_escaped(value@[k]));
        }
        Cow::Owned(out)
    }
}

/// Percent-decodes a value; invalid UTF-8 becomes the replacement character.
pub fn decode(value: &[u8]) -> (r: Cow<'_, str>)
    ensures
        r@ == decoded_text(value@),
        value@.len() > 0 ==> r@.len() > 0,
        has_escape(value@) ==> r is Owned,
{
    proof {
        lemma_unescaped_len(value@);
    }
    decode_lossy(value)
}

/// The text that percent-decoding makes of a value: its decoded bytes read as
/// UTF-8, lossily where they are not valid UTF-8.
pub open spec fn decoded_text(b: Seq<u8>) -> Seq<char> {
    if valid_utf8(unescaped(b)) {
        decode_utf8(unescaped(b))
    } else {
        utf8_lossy(unescaped(b))
    }
}

/// Relies on `percent_encoding::percent_encode` with the `CONTROLS` set: control
/// bytes and bytes outside of ASCII become upper-case `%XX` triples, the rest
/// is kept; a value with nothing to encode comes back borrowed.
#[verifier::external_body]
fn encode_controls(value: &[u8]) -> (r: Cow<'_, str>)
    requires
        !value@.contains(DELIMITER),
    ensures
        r@ == ascii_text(escaped(value@)),
        is_plain(value@) ==> r is Borrowed,
{
    percent_encode(value, CONTROLS).into()
}

/// Relies on `percent_encoding::percent_encode_byte`: the upper-case `%XX`
/// triple of a byte.
#[verifier::external_body]
fn encode_byte(byte: u8) -> (r: &'static str)
    ensures
        r@ == ascii_text(seq![0x25u8, hex_digit(byte as int / 16), hex_digit(byte as int % 16)]),
{
    percent_encode_byte(byte)
}

/// Relies on `percent_encoding::percent_decode` and its `decode_utf8_lossy`:
/// percent-decoding, then lossy UTF-8 decoding, which keeps valid UTF-8 as it
/// is and never empties a value; a value in which some escape was decoded
/// comes back owned.
#[verifier::external_body]
fn decode_lossy(value: &[u8]) -> (r: Cow<'_, str>)
    ensures
        r@ == utf8_lossy(unescaped(value@)),
        valid_utf8(unescaped(value@)) ==> r@ == decode_utf8(unescaped(value@)),
        unescaped(value@).len() > 0 ==> r@.len() > 0,
        has_escape(value@) ==> r is Owned,
{
    percent_decode(value).decode_utf8_lossy()
}

} // verus!
