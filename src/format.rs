//! Fixed-arity, delimiter-separated strings with independently writable spans.
pub mod container;
pub mod encoding;
pub mod error;
pub mod span;

use std::borrow::Cow;
use std::cmp::Ordering;
use std::str::FromStr;

use vstd::prelude::*;
use vstd::string::StringSliceAdditionalSpecFns;
use vstd::utf8::*;

use container::{Container, Recommended};
use encoding::{
    ascii_text, cow_text, decode, decoded_text, lemma_unescaped_escaped, encode, lemma_escaped_no_delimiter, escape_at, escaped, has_escape, is_hex, is_plain, lemma_escaped_text,
    unescaped, utf8_lossy, DELIMITER,
};
pub use error::{Error, Result};
use span::{init, Span};

verus! {

/// The pieces of a byte sequence between delimiters, in order; a sequence
/// with `k` delimiters has `k + 1` pieces.
pub open spec fn split(s: Seq<u8>) -> Seq<Seq<u8>>
    decreases s.len(),
{
    if s.len() == 0 {
        seq![Seq::empty()]
    } else {
        let p = split(s.drop_last());
        if s.last() == DELIMITER {
            p.push(Seq::empty())
        } else {
            p.update(p.len() - 1, p.last().push(s.last()))
        }
    }
}

/// Lexicographic order of byte sequences.
pub open spec fn compare_bytes(a: Seq<u8>, b: Seq<u8>) -> Ordering
    decreases a.len(),
{
    if a.len() == 0 {
        if b.len() == 0 {
            Ordering::Equal
        } else {
            Ordering::Less
        }
    } else if b.len() == 0 {
        Ordering::Greater
    } else if a[0] < b[0] {
        Ordering::Less
    } else if a[0] > b[0] {
        Ordering::Greater
    } else {
        compare_bytes(a.subrange(1, a.len() as int), b.subrange(1, b.len() as int))
    }
}

/// The text that an encoded piece reads as, when it is marked as encoded
/// exactly if it holds a `%` followed by two hexadecimal digits.
pub open spec fn piece_text(p: Seq<u8>) -> Seq<char> {
    if has_escape(p) {
        decoded_text(p)
    } else {
        decode_utf8(p)
    }
}

/// The text that a span reads as after it was set to a value: the value
/// encoded, and decoded again on reading if encoding changed it.
pub open spec fn written_text(value: Seq<u8>) -> Seq<char> {
    if is_plain(value) {
        decode_utf8(escaped(value))
    } else {
        decoded_text(escaped(value))
    }
}

/// Setting a span to a text that holds the delimiter, and reading it back,
/// gives the text, though the span holds it encoded; unless the text holds a
/// `%` followed by two hexadecimal digits, which reading decodes.
pub proof fn lemma_set_then_get(v: Seq<char>)
    requires
        v.contains(':'),
        !has_escape(encode_utf8(v)),
    ensures
        written_text(encode_utf8(v)) == v,
        escaped(encode_utf8(v)) != encode_utf8(v),
{
    let b = encode_utf8(v);
    let k = choose|k: int| 0 <= k < v.len() && v[k] == ':';
    assert(!is_plain(b)) by {
        lemma_encode_utf8_delimiter(v, k);
    }
    crate::format::encoding::lemma_escaped_len(b);
    lemma_unescaped_escaped(b);
    encode_utf8_valid_utf8(v);
    encode_utf8_decode_utf8(v);
}

/// The encoding of a text that holds `:` holds the delimiter byte.
proof fn lemma_encode_utf8_delimiter(v: Seq<char>, k: int)
    requires
        0 <= k < v.len(),
        v[k] == ':',
    ensures
        encode_utf8(v).contains(DELIMITER),
    decreases v.len(),
{
    let h = encode_scalar(v[0] as u32);
    let t = encode_utf8(v.drop_first());
    assert(encode_utf8(v) == h + t);
    if k == 0 {
        assert((':' as u32) == 0x3A);
        assert(0x3Au32 & 0x7Fu32 == 0x3Au32) by (bit_vector);
        assert(h == seq![DELIMITER]);
        assert((h + t)[0] == DELIMITER);
    } else {
        lemma_encode_utf8_delimiter(v.drop_first(), k - 1);
        let j = choose|j: int| 0 <= j < t.len() && t[j] == DELIMITER;
        assert((h + t)[h.len() + j] == DELIMITER);
    }
}

/// Splitting always yields at least one piece.
pub proof fn lemma_split_len(s: Seq<u8>)
    ensures
        split(s).len() >= 1,
    decreases s.len(),
{
    if s.len() > 0 {
        lemma_split_len(s.drop_last());
    }
}

/// A sequence without delimiters is a single piece.
pub proof fn lemma_split_plain(s: Seq<u8>)
    requires
        !s.contains(DELIMITER),
    ensures
        split(s) == seq![s],
    decreases s.len(),
{
    if s.len() > 0 {
        assert(!s.drop_last().contains(DELIMITER)) by {
            if s.drop_last().contains(DELIMITER) {
                let k = choose|k: int| 0 <= k < s.drop_last().len() && s.drop_last()[k] == DELIMITER;
                assert(s[k] == DELIMITER);
            }
        }
        lemma_split_plain(s.drop_last());
        assert(s.last() != DELIMITER) by {
            assert(s[s.len() - 1] == s.last());
        }
        assert(s.drop_last().push(s.last()) =~= s);
        assert(split(s) =~= seq![s]);
    } else {
        assert(s =~= Seq::<u8>::empty());
    }
}

/// Splitting at a delimiter splits the pieces.
pub proof fn lemma_split_concat(a: Seq<u8>, b: Seq<u8>)
    ensures
        split(a + seq![DELIMITER] + b) == split(a) + split(b),
    decreases b.len(),
{
    let s = a + seq![DELIMITER] + b;
    if b.len() == 0 {
        assert(s.drop_last() =~= a);
        assert(split(s) =~= split(a) + split(b));
    } else {
        let b1 = b.drop_last();
        lemma_split_concat(a, b1);
        lemma_split_len(b1);
        assert(s.drop_last() =~= a + seq![DELIMITER] + b1);
        assert(s.last() == b.last());
        assert(split(s) =~= split(a) + split(b));
    }
}

/// Splitting a longer prefix never yields fewer pieces.
pub proof fn lemma_split_prefix(s: Seq<u8>, i: int, j: int)
    requires
        0 <= i <= j <= s.len(),
    ensures
        split(s.subrange(0, i)).len() <= split(s.subrange(0, j)).len(),
    decreases j - i,
{
    if i < j {
        lemma_split_prefix(s, i, j - 1);
        assert(s.subrange(0, j).drop_last() =~= s.subrange(0, j - 1));
        lemma_split_len(s.subrange(0, j - 1));
    }
}

/// A sequence of ASCII bytes is valid UTF-8 and reads as its bytes.
pub proof fn lemma_ascii_utf8(b: Seq<u8>)
    requires
        forall|i: int| 0 <= i < b.len() ==> #[trigger] b[i] < 0x80,
    ensures
        valid_utf8(b),
        decode_utf8(b) == ascii_text(b),
{
    let t = ascii_text(b);
    assert(is_ascii_chars(t));
    is_ascii_chars_encode_utf8(t);
    assert(encode_utf8(t) =~= b);
    encode_utf8_valid_utf8(t);
    encode_utf8_decode_utf8(t);
}

/// Both sides of a delimiter are character boundaries.
proof fn lemma_delimiter_boundary(b: Seq<u8>, p: int)
    requires
        valid_utf8(b),
        0 <= p < b.len(),
        b[p] == DELIMITER,
    ensures
        is_char_boundary(b, p),
        is_char_boundary(b, p + 1),
{
    is_char_boundary_iff_not_is_continuation_byte(b, p);
    valid_utf8_split(b, p);
    let c = b.subrange(p, b.len() as int);
    assert(c[0] == DELIMITER);
    assert(pop_first_scalar(c) =~= b.subrange(p + 1, b.len() as int));
    if p + 1 == b.len() {
        is_char_boundary_start_end_of_seq(b);
    } else {
        let d = b.subrange(p + 1, b.len() as int);
        assert(valid_utf8(d));
        assert(valid_first_scalar(d));
        assert(d[0] == b[p + 1]);
        is_char_boundary_iff_not_is_continuation_byte(b, p + 1);
    }
}

/// The bytes between two character boundaries are valid UTF-8.
proof fn lemma_utf8_slice(b: Seq<u8>, lo: int, hi: int)
    requires
        valid_utf8(b),
        0 <= lo <= hi <= b.len(),
        is_char_boundary(b, lo),
        is_char_boundary(b, hi),
    ensures
        valid_utf8(b.subrange(lo, hi)),
{
    valid_utf8_split(b, hi);
    let p = b.subrange(0, hi);
    if lo < hi {
        is_char_boundary_iff_not_is_continuation_byte(b, lo);
        is_char_boundary_iff_not_is_continuation_byte(p, lo);
        valid_utf8_split(p, lo);
        assert(p.subrange(lo, p.len() as int) =~= b.subrange(lo, hi));
    } else {
        assert(b.subrange(lo, hi) =~= Seq::<u8>::empty());
    }
}

/// Relies on `std::str::from_utf8`, which accepts exactly valid UTF-8 and
/// borrows it as text.
#[verifier::external_body]
fn utf8_text(b: &[u8]) -> (r: &str)
    requires
        valid_utf8(b@),
    ensures
        r.spec_bytes() == b@,
{
    std::str::from_utf8(b).unwrap()
}

/// A string of `N` spans separated by `N - 1` delimiters, each span readable
/// and writable on its own.
///
/// Span `i` is percent-encoded when flag bit `i` is set. Equality is that of
/// the encoded bytes.
#[derive(Clone, Debug)]
pub struct Format<const N: usize> {
    /// Encoded bytes.
    value: Recommended,
    /// Byte ranges of the spans.
    spans: [Span; N],
    /// Encoding flags, bit `i` for span `i`.
    flags: u64,
}

impl<const N: usize> Format<N> {
    /// The encoded bytes.
    pub closed spec fn bytes(self) -> Seq<u8> {
        self.value@
    }

    /// Lower bound of span `i`.
    pub closed spec fn lo(self, i: int) -> int {
        self.spans@[i].lo()
    }

    /// Upper bound of span `i` (exclusive).
    pub closed spec fn hi(self, i: int) -> int {
        self.spans@[i].hi()
    }

    /// The encoded bytes of span `i`.
    pub open spec fn part(self, i: int) -> Seq<u8> {
        self.bytes().subrange(self.lo(i), self.hi(i))
    }

    /// The encoded bytes of all spans.
    pub open spec fn parts(self) -> Seq<Seq<u8>> {
        Seq::new(N as nat, |i: int| self.part(i))
    }

    /// Whether span `i` must be percent-decoded when read.
    pub closed spec fn flag(self, i: int) -> bool {
        self.flags & (1u64 << (i as u64)) != 0
    }

    /// The text that span `i` reads as.
    pub open spec fn text(self, i: int) -> Seq<char> {
        if self.flag(i) {
            decoded_text(self.part(i))
        } else {
            decode_utf8(self.part(i))
        }
    }

    /// Well-formedness: the spans are laid out as [`Format::layout`] says,
    /// and a span is marked as encoded only if it holds an escape.
    pub closed spec fn wf(self) -> bool {
        &&& self.layout()
        &&& forall|i: int| 0 <= i < N ==> #[trigger] self.flag(i) ==> has_escape(self.part(i))
    }

    /// The spans cover the bytes in order, exactly one delimiter apart, no
    /// span holds a delimiter, and the bytes are valid UTF-8 of at most
    /// `u16::MAX` bytes.
    #[verifier::opaque]
    pub closed spec fn layout(self) -> bool {
        &&& 1 <= N <= 64
        &&& self.value@.len() <= u16::MAX
        &&& valid_utf8(self.value@)
        &&& self.lo(0) == 0
        &&& self.hi(N - 1) == self.value@.len()
        &&& forall|i: int| 0 <= i < N ==> #[trigger] self.lo(i) <= self.hi(i)
        &&& forall|i: int| 1 <= i < N ==> self.hi(i - 1) + 1 == #[trigger] self.lo(i)
        &&& forall|i: int| 0 <= i < N - 1 ==> self.value@[#[trigger] self.hi(i)] == DELIMITER
        &&& forall|i: int, k: int|
            #![trigger self.lo(i), self.value@[k]]
            0 <= i < N && self.lo(i) <= k < self.hi(i) ==> self.value@[k] != DELIMITER
    }

    /// The spans of a well-formed string are the pieces of its bytes.
    pub proof fn lemma_parts(self)
        requires
            self.wf(),
        ensures
            1 <= N <= 64,
            self.bytes().len() <= u16::MAX,
            valid_utf8(self.bytes()),
            split(self.bytes()) == self.parts(),
            forall|i: int| 0 <= i < N ==> !(#[trigger] self.part(i)).contains(DELIMITER),
            forall|i: int| 0 <= i < N ==> valid_utf8(#[trigger] self.part(i)),
            forall|i: int| 0 <= i < N ==> 0 <= #[trigger] self.lo(i) <= self.hi(i) <= self.bytes().len(),
    {
        reveal(Format::layout);
        let b = self.value@;
        self.lemma_bounds();
        assert forall|i: int| 0 <= i < N implies !(#[trigger] self.part(i)).contains(DELIMITER) by {
            if self.part(i).contains(DELIMITER) {
                let k = choose|k: int| 0 <= k < self.part(i).len() && self.part(i)[k] == DELIMITER;
                assert(b[self.lo(i) + k] == DELIMITER);
            }
        }
        assert forall|i: int| 0 <= i < N implies valid_utf8(#[trigger] self.part(i)) by {
            self.lemma_boundaries(i);
            lemma_utf8_slice(b, self.lo(i), self.hi(i));
        }
        self.lemma_prefix(N - 1);
        assert(b.subrange(0, self.hi(N - 1)) =~= b);
        assert(self.parts().subrange(0, N as int) =~= self.parts());
    }

    proof fn lemma_prefix(self, k: int)
        requires
            self.wf(),
            0 <= k < N,
            forall|i: int| 0 <= i < N ==> !(#[trigger] self.part(i)).contains(DELIMITER),
            forall|i: int| 0 <= i < N ==> 0 <= #[trigger] self.lo(i) <= self.hi(i) <= self.bytes().len(),
        ensures
            split(self.bytes().subrange(0, self.hi(k))) == self.parts().subrange(0, k + 1),
        decreases k,
    {
        reveal(Format::layout);
        let b = self.bytes();
        if k == 0 {
            lemma_split_plain(self.part(0));
            assert(b.subrange(0, self.hi(0)) =~= self.part(0));
            assert(self.parts().subrange(0, 1) =~= seq![self.part(0)]);
        } else {
            self.lemma_prefix(k - 1);
            let a = b.subrange(0, self.hi(k - 1));
            let c = self.part(k);
            lemma_split_concat(a, c);
            lemma_split_plain(c);
            self.lemma_bound(k);
            self.lemma_bound(k - 1);
            assert(self.hi(k - 1) + 1 == self.lo(k));
            assert(b[self.hi(k - 1)] == DELIMITER);
            assert(a + seq![DELIMITER] + c =~= b.subrange(0, self.hi(k)));
            assert(self.parts().subrange(0, k + 1) =~= self.parts().subrange(0, k) + seq![c]);
        }
    }

    pub proof fn lemma_bound(self, i: int)
        requires
            self.wf(),
            0 <= i < N,
        ensures
            0 <= self.lo(i) <= self.hi(i) <= self.bytes().len(),
        decreases N - i,
    {
        reveal(Format::layout);
        self.spans@[i].lemma_range();
        if i < N - 1 {
            self.lemma_bound(i + 1);
            assert(self.hi(i) + 1 == self.lo(i + 1));
        }
    }

    proof fn lemma_bounds(self)
        requires
            self.wf(),
        ensures
            forall|i: int| 0 <= i < N ==> 0 <= #[trigger] self.lo(i) <= self.hi(i) <= self.value@.len(),
    {
        assert forall|i: int| 0 <= i < N implies 0 <= #[trigger] self.lo(i) <= self.hi(i) <= self.value@.len() by {
            self.lemma_bound(i);
        }
    }

    proof fn lemma_boundaries(self, i: int)
        requires
            self.wf(),
            0 <= i < N,
        ensures
            is_char_boundary(self.value@, self.lo(i)),
            is_char_boundary(self.value@, self.hi(i)),
    {
        reveal(Format::layout);
        let b = self.value@;
        self.lemma_bounds();
        is_char_boundary_start_end_of_seq(b);
        self.lemma_bound(i);
        if i > 0 {
            self.lemma_bound(i - 1);
            assert(self.hi(i - 1) + 1 == self.lo(i));
            assert(b[self.hi(i - 1)] == DELIMITER);
            lemma_delimiter_boundary(b, self.hi(i - 1));
        }
        if i < N - 1 {
            self.lemma_bound(i + 1);
            assert(self.hi(i) + 1 == self.lo(i + 1));
            assert(b[self.hi(i)] == DELIMITER);
            lemma_delimiter_boundary(b, self.hi(i));
        }
    }

    /// Creates a formatted string whose spans are all empty.
    pub fn new() -> (r: Self)
        requires
            1 <= N <= 64,
        ensures
            r.wf(),
            r.bytes().len() == N - 1,
            forall|k: int| 0 <= k < N - 1 ==> #[trigger] r.bytes()[k] == DELIMITER,
            forall|i: int| 0 <= i < N ==> #[trigger] r.lo(i) == i && r.hi(i) == i,
            forall|i: int| 0 <= i < N ==> #[trigger] r.part(i) == Seq::<u8>::empty() && !r.flag(i),
    {
        let mut value: Vec<u8> = Vec::new();
        let mut i: usize = 1;
        while i < N
            invariant
                1 <= i <= N <= 64,
                value@.len() == i - 1,
                forall|k: int| 0 <= k < value@.len() ==> value@[k] == DELIMITER,
            decreases N - i,
        {
            value.push(DELIMITER);
            i += 1;
        }
        let r = Self { value, spans: init::<N>(), flags: 0 };
        proof {
            reveal(Format::layout);
            assert forall|i: int| 0 <= i < N implies r.lo(i) == i && r.hi(i) == i by {
                assert(r.spans@[i].lo() == i);
            }
            assert(forall|i: int| 0 <= i < r.value@.len() ==> r.value@[i] < 0x80);
            lemma_ascii_utf8(r.value@);
            assert forall|i: int| 0 <= i < N implies #[trigger] r.part(i) == Seq::<u8>::empty() && !r.flag(i) by {
                assert(r.part(i) =~= Seq::<u8>::empty());
                let j = i as u64;
                assert(0u64 & (1u64 << j) == 0) by (bit_vector);
            }
        }
        r
    }

    /// Returns the text of span `index`: borrowed when the span is not
    /// encoded, percent-decoded otherwise.
    pub fn get(&self, index: usize) -> (r: Cow<'_, str>)
        requires
            self.wf(),
            index < N,
        ensures
            r@ == self.text(index as int),
            !self.flag(index as int) ==> r is Borrowed,
            self.flag(index as int) ==> r is Owned,
            self.part(index as int).len() > 0 ==> r@.len() > 0,
    {
        proof {
            self.lemma_parts();
            self.lemma_bound(index as int);
        }
        let span = self.spans[index];
        let bytes = &self.value.as_slice()[span.start() as usize..span.end() as usize];
        assert(bytes@ == self.part(index as int));
        if self.flags & (1u64 << (index as u64)) == 0 {
            let text = utf8_text(bytes);
            proof {
                encode_utf8_decode_utf8(text@);
                reveal_with_fuel(decode_utf8, 1);
            }
            Cow::Borrowed(text)
        } else {
            assert(self.flag(index as int) ==> has_escape(self.part(index as int)));
            decode(bytes)
        }
    }

    /// Change in length of span `index` when it is set to `value`.
    pub open spec fn delta(self, index: int, value: Seq<u8>) -> int {
        escaped(value).len() - self.part(index).len()
    }

    /// Whether span `index` can be set to `value`: the change in length fits
    /// in an `i16` and the result in `u16::MAX` bytes.
    pub open spec fn fits(self, index: int, value: Seq<u8>) -> bool {
        &&& i16::MIN <= self.delta(index, value) <= i16::MAX
        &&& self.bytes().len() + self.delta(index, value) <= u16::MAX
    }

    /// Updates span `index` to the encoded `value`, and shifts every later
    /// span by the change in length.
    ///
    /// Fails with [`Error::Length`], and changes nothing, if the change in
    /// length does not fit in an `i16` or the result in `u16::MAX` bytes.
    pub fn set(&mut self, index: usize, value: &str) -> (r: Result)
        requires
            old(self).wf(),
            index < N,
        ensures
            r is Ok <==> old(self).fits(index as int, value.spec_bytes()),
            r is Err ==> r == Err::<(), Error>(Error::Length) && *final(self) == *old(self),
            r is Ok ==> {
                &&& final(self).wf()
                &&& final(self).bytes() == old(self).bytes().subrange(0, old(self).lo(index as int))
                    + escaped(value.spec_bytes()) + old(self).bytes().subrange(
                    old(self).hi(index as int),
                    old(self).bytes().len() as int,
                )
                &&& final(self).parts() == old(self).parts().update(index as int, escaped(value.spec_bytes()))
                &&& final(self).flag(index as int) == !is_plain(value.spec_bytes())
                &&& final(self).text(index as int) == written_text(value.spec_bytes())
                &&& forall|j: int| 0 <= j < N && j != index ==> #[trigger] final(self).text(j) == old(self).text(j)
                &&& forall|j: int| 0 <= j < N && j != index ==> #[trigger] final(self).flag(j) == old(self).flag(j)
                &&& forall|j: int| 0 <= j <= index ==> #[trigger] final(self).lo(j) == old(self).lo(j)
                &&& forall|j: int| 0 <= j < index ==> #[trigger] final(self).hi(j) == old(self).hi(j)
                &&& final(self).hi(index as int) == old(self).lo(index as int) + escaped(value.spec_bytes()).len()
                &&& forall|j: int| index < j < N ==> #[trigger] final(self).lo(j) == old(self).lo(j) + old(self).delta(index as int, value.spec_bytes())
                    && final(self).hi(j) == old(self).hi(j) + old(self).delta(index as int, value.spec_bytes())
            },
    {
        proof {
            self.lemma_parts();
            self.lemma_bound(index as int);
            reveal(Format::layout);
        }
        let encoded = encode(value.as_bytes());
        let plain = match &encoded {
            Cow::Borrowed(_) => true,
            Cow::Owned(_) => false,
        };
        let text = cow_text(&encoded);
        let bytes = text.as_bytes();
        let ghost e = escaped(value.spec_bytes());
        proof {
            lemma_escaped_text(value.spec_bytes());
            lemma_escaped_no_delimiter(value.spec_bytes());
            assert(bytes@ == e);
        }
        let span = self.spans[index];
        let old_len = span.len();
        let new_len = bytes.len();
        if new_len > u16::MAX as usize {
            return Err(Error::Length);
        }
        let delta: i32 = new_len as i32 - old_len as i32;
        if delta < i16::MIN as i32 || delta > i16::MAX as i32 || self.value.len() as i32 + delta
            > u16::MAX as i32 {
            return Err(Error::Length);
        }
        let by = delta as i16;
        let ghost f0 = *self;
        let bit: u64 = 1u64 << (index as u64);
        if plain {
            self.flags = self.flags & !bit;
        } else {
            self.flags = self.flags | bit;
        }
        Container::splice(&mut self.value, span.start() as usize..span.end() as usize, bytes);
        let mut s = span;
        let _ = s.shift_end(by);
        self.spans[index] = s;
        let mut j: usize = index + 1;
        while j < N
            invariant
                index < j <= N,
                1 <= N <= 64,
                f0.wf(),
                self.value@ == f0.value@.subrange(0, f0.lo(index as int)) + e + f0.value@.subrange(
                    f0.hi(index as int),
                    f0.value@.len() as int,
                ),
                self.flags == f0.flags & !bit || self.flags == f0.flags | bit,
                plain ==> self.flags == f0.flags & !bit,
                !plain ==> self.flags == f0.flags | bit,
                forall|k: int| 0 <= k < N ==> 0 <= #[trigger] f0.lo(k) <= f0.hi(k) <= f0.value@.len(),
                f0.value@.len() + delta <= u16::MAX,
                delta == e.len() - (f0.hi(index as int) - f0.lo(index as int)),
                by == delta,
                forall|k: int| 0 <= k < index ==> #[trigger] self.lo(k) == f0.lo(k),
                forall|k: int| 0 <= k < index ==> #[trigger] self.hi(k) == f0.hi(k),
                self.lo(index as int) == f0.lo(index as int),
                self.hi(index as int) == f0.lo(index as int) + e.len(),
                forall|k: int| index < k < j ==> #[trigger] self.lo(k) == f0.lo(k) + delta,
                forall|k: int| index < k < j ==> #[trigger] self.hi(k) == f0.hi(k) + delta,
                forall|k: int| j <= k < N ==> #[trigger] self.spans@[k] == f0.spans@[k],
            decreases N - j,
        {
            let mut t = self.spans[j];
            let ghost pre = *self;
            let ghost before = self.spans@;
            proof {
                reveal(Format::layout);
                assert(f0.hi(j - 1) + 1 == f0.lo(j as int));
                assert(f0.lo(j as int) <= f0.hi(j as int));
                f0.lemma_order(index as int, j as int);
                assert(t == f0.spans@[j as int]);
            }
            let shifted = t.shift(by);
            assert(shifted is Ok);
            self.spans[j] = t;
            proof {
                assert(self.spans@ == before.update(j as int, t));
                assert forall|k: int| 0 <= k < N && k != j implies #[trigger] self.spans@[k] == before[k] by {}
                assert forall|k: int| 0 <= k < index implies #[trigger] self.lo(k) == f0.lo(k) by {
                    assert(pre.lo(k) == f0.lo(k));
                    assert(self.spans@[k] == before[k]);
                }
                assert forall|k: int| 0 <= k < index implies #[trigger] self.hi(k) == f0.hi(k) by {
                    assert(pre.hi(k) == f0.hi(k));
                    assert(self.spans@[k] == before[k]);
                }
                assert(self.lo(index as int) == f0.lo(index as int)) by {
                    assert(pre.lo(index as int) == f0.lo(index as int));
                }
                assert(self.hi(index as int) == f0.lo(index as int) + e.len()) by {
                    assert(pre.hi(index as int) == f0.lo(index as int) + e.len());
                }
                assert forall|k: int| index < k < j + 1 implies #[trigger] self.lo(k) == f0.lo(k) + delta by {
                    if k < j {
                        assert(pre.lo(k) == f0.lo(k) + delta);
                        assert(self.spans@[k] == before[k]);
                    } else {
                        assert(pre.spans@[k] == f0.spans@[k]);
                    }
                }
                assert forall|k: int| index < k < j + 1 implies #[trigger] self.hi(k) == f0.hi(k) + delta by {
                    if k < j {
                        assert(pre.hi(k) == f0.hi(k) + delta);
                        assert(self.spans@[k] == before[k]);
                    } else {
                        assert(pre.spans@[k] == f0.spans@[k]);
                    }
                }
                assert forall|k: int| j + 1 <= k < N implies #[trigger] self.spans@[k] == f0.spans@[k] by {
                    assert(pre.spans@[k] == f0.spans@[k]);
                }
            }
            j += 1;
        }
        proof {
            self.lemma_set_wf(f0, index as int, e);
            let b = 1u64 << (index as u64);
            assert forall|k: int| 0 <= k < N implies #[trigger] self.flag(k) == (if k == index {
                !plain
            } else {
                f0.flag(k)
            }) by {
                lemma_bit_clear(f0.flags, index as u64, k as u64);
                lemma_bit_or(f0.flags, index as u64, k as u64);
            }
            assert(self.parts()[index as int] == e);
            assert forall|k: int| 0 <= k < N && k != index implies #[trigger] self.text(k) == f0.text(k) by {
                assert(self.parts()[k] == f0.parts()[k]);
                assert(self.flag(k) == f0.flag(k));
            }
            if !plain {
                crate::format::encoding::lemma_escaped_has_escape(value.spec_bytes());
            }
            assert forall|k: int| 0 <= k < N implies #[trigger] self.flag(k) ==> has_escape(self.part(k)) by {
                assert(self.parts()[k] == self.part(k));
                if k != index {
                    assert(self.parts()[k] == f0.parts()[k]);
                    assert(f0.flag(k) ==> has_escape(f0.part(k)));
                }
            }
        }
        Ok(())
    }

    #[verifier::rlimit(60)]
    proof fn lemma_set_wf(self, f0: Self, i: int, e: Seq<u8>)
        requires
            f0.wf(),
            0 <= i < N,
            !e.contains(DELIMITER),
            valid_utf8(e),
            forall|k: int| 0 <= k < N ==> 0 <= #[trigger] f0.lo(k) <= f0.hi(k) <= f0.value@.len(),
            self.value@ == f0.value@.subrange(0, f0.lo(i)) + e + f0.value@.subrange(f0.hi(i), f0.value@.len() as int),
            self.value@.len() <= u16::MAX,
            forall|k: int| 0 <= k < i ==> #[trigger] self.lo(k) == f0.lo(k),
            forall|k: int| 0 <= k < i ==> #[trigger] self.hi(k) == f0.hi(k),
            self.lo(i) == f0.lo(i),
            self.hi(i) == f0.lo(i) + e.len(),
            forall|k: int| i < k < N ==> #[trigger] self.lo(k) == f0.lo(k) + (e.len() - (f0.hi(i) - f0.lo(i))),
            forall|k: int| i < k < N ==> #[trigger] self.hi(k) == f0.hi(k) + (e.len() - (f0.hi(i) - f0.lo(i))),
        ensures
            self.layout(),
            self.parts() == f0.parts().update(i, e),
    {
        reveal(Format::layout);
        let v = f0.value@;
        let w = self.value@;
        let d = e.len() - (f0.hi(i) - f0.lo(i));
        f0.lemma_boundaries(i);
        valid_utf8_split(v, f0.lo(i));
        valid_utf8_split(v, f0.hi(i));
        assert(w.len() == v.len() + d);
        assert forall|k: int| 0 <= k < N implies #[trigger] self.lo(k) <= self.hi(k) by {}
        assert forall|k: int| 1 <= k < N implies self.hi(k - 1) + 1 == #[trigger] self.lo(k) by {
            assert(f0.hi(k - 1) + 1 == f0.lo(k));
        }
        assert forall|k: int| 0 <= k < N - 1 implies w[#[trigger] self.hi(k)] == DELIMITER by {
            assert(f0.hi(k) + 1 == f0.lo(k + 1));
            assert(v[f0.hi(k)] == DELIMITER);
            if k < i {
                f0.lemma_order(k, i);
                assert(0 <= f0.lo(k) <= f0.hi(k));
                assert(w[f0.hi(k)] == v.subrange(0, f0.lo(i))[f0.hi(k)]);
            } else if k == i {
                assert(w[self.hi(k)] == v[f0.hi(i)]);
            } else {
                f0.lemma_order(i, k);
                assert(w[self.hi(k)] == v[f0.hi(k)]);
            }
        }
        assert forall|k: int, m: int|
            #![trigger self.lo(k), w[m]]
            0 <= k < N && self.lo(k) <= m < self.hi(k) implies w[m] != DELIMITER by {
            if k < i {
                f0.lemma_order(k, i);
                assert(w[m] == v[m]);
            } else if k == i {
                assert(w[m] == e[m - f0.lo(i)]);
            } else {
                assert(f0.hi(i) <= f0.lo(k)) by {
                    assert(f0.hi(k - 1) + 1 == f0.lo(k));
                    if k - 1 > i {
                        f0.lemma_order(i, k - 1);
                    }
                }
                assert(w[m] == v[m - d]);
                assert(f0.lo(k) <= m - d < f0.hi(k));
            }
        }
        assert(self.hi(N - 1) == w.len()) by {
            if i < N - 1 {
                assert(f0.hi(N - 1) == v.len());
            }
        }
        assert(self.lo(0) == 0);
        valid_utf8_concat(v.subrange(0, f0.lo(i)), e);
        valid_utf8_concat(v.subrange(0, f0.lo(i)) + e, v.subrange(f0.hi(i), v.len() as int));
        assert(self.layout());
        assert forall|k: int| 0 <= k < N implies #[trigger] self.parts()[k] == f0.parts().update(i, e)[k] by {
            if k < i {
                f0.lemma_order(k, i);
                assert(self.part(k) =~= f0.part(k));
            } else if k == i {
                assert(self.part(k) =~= e);
            } else {
                f0.lemma_order(i, k);
                assert(f0.hi(i) <= f0.lo(k)) by {
                    assert(f0.hi(k - 1) + 1 == f0.lo(k));
                    if k - 1 > i {
                        f0.lemma_order(i, k - 1);
                    }
                }
                assert(self.part(k) =~= f0.part(k));
            }
        }
        assert(self.parts() =~= f0.parts().update(i, e));
    }

    /// Spans come in order.
    proof fn lemma_order(self, a: int, b: int)
        requires
            self.wf(),
            0 <= a <= b < N,
        ensures
            a < b ==> self.hi(a) < self.lo(b),
            self.hi(a) <= self.hi(b),
        decreases b - a,
    {
        reveal(Format::layout);
        if a < b {
            self.lemma_order(a, b - 1);
            assert(self.hi(b - 1) + 1 == self.lo(b));
        }
    }

    /// Parses a string with exactly `N - 1` delimiters into its spans.
    ///
    /// A span is marked as percent-encoded if it holds a `%` followed by two
    /// hexadecimal digits. Fails with [`Error::Length`] if the string is longer
    /// than `u16::MAX` bytes, or with [`Error::Cardinality`] if it does not hold
    /// exactly `N - 1` delimiters.
    #[verifier::rlimit(100)]
    pub fn parse(value: &str) -> (r: Result<Self>)
        requires
            1 <= N <= 64,
        ensures
            value.spec_bytes().len() > u16::MAX ==> r == Err::<Self, Error>(Error::Length),
            value.spec_bytes().len() <= u16::MAX && split(value.spec_bytes()).len() != N ==> r
                == Err::<Self, Error>(Error::Cardinality),
            value.spec_bytes().len() <= u16::MAX && split(value.spec_bytes()).len() == N ==> r is Ok,
            r matches Ok(f) ==> {
                &&& f.wf()
                &&& f.bytes() == value.spec_bytes()
                &&& f.parts() == split(value.spec_bytes())
                &&& forall|i: int| 0 <= i < N ==> #[trigger] f.flag(i) == has_escape(f.part(i))
            },
    {
        let bytes = value.as_bytes();
        if bytes.len() > u16::MAX as usize {
            return Err(Error::Length);
        }
        let mut spans: [Span; N] = init::<N>();
        let mut flags: u64 = 0;
        let mut current = false;
        let mut start: usize = 0;
        let mut index: usize = 0;
        let mut i: usize = 0;
        let ghost b = bytes@;
        assert(b.subrange(0, 0) =~= Seq::<u8>::empty());
        assert forall|k: u64| k < 64 implies (#[trigger] (flags & (1u64 << k)) != 0) == false by {
            assert(0u64 & (1u64 << k) == 0) by (bit_vector);
        }
        while i < bytes.len()
            invariant
                b == bytes@,
                b == value.spec_bytes(),
                1 <= N <= 64,
                b.len() <= u16::MAX,
                index < N,
                start <= i <= b.len(),
                split(b.subrange(0, i as int)).len() == index + 1,
                split(b.subrange(0, i as int))[index as int] == b.subrange(start as int, i as int),
                forall|k: int| 0 <= k < index ==> #[trigger] split(b.subrange(0, i as int))[k]
                    == b.subrange(spans@[k].lo(), spans@[k].hi()),
                forall|k: int| 0 <= k < index ==> spans@[k].lo() <= #[trigger] spans@[k].hi() < start,
                index == 0 ==> start == 0,
                index > 0 ==> spans@[0].lo() == 0 && spans@[index - 1].hi() + 1 == start,
                forall|k: int| 1 <= k < index ==> spans@[k - 1].hi() + 1 == #[trigger] spans@[k].lo(),
                forall|k: int| 0 <= k < index ==> b[#[trigger] spans@[k].hi()] == DELIMITER,
                forall|k: int, m: int|
                    #![trigger spans@[k].lo(), b[m]]
                    0 <= k < index && spans@[k].lo() <= m < spans@[k].hi() ==> b[m] != DELIMITER,
                forall|m: int| start <= m < i ==> b[m] != DELIMITER,
                current == exists|p: int| start <= p < i && escape_at(b, p),
                forall|k: u64| k < 64 ==> (#[trigger] (flags & (1u64 << k)) != 0) == (k < index && has_escape(
                    b.subrange(spans@[k as int].lo(), spans@[k as int].hi()),
                )),
            decreases b.len() - i,
        {
            let c = bytes[i];
            proof {
                assert(b.subrange(0, i + 1).drop_last() =~= b.subrange(0, i as int));
                assert(b.subrange(0, i + 1).last() == c);
            }
            if c == DELIMITER {
                if index == N - 1 {
                    proof {
                        assert(split(b.subrange(0, i + 1)) == split(b.subrange(0, i as int)).push(Seq::empty()));
                        lemma_split_prefix(b, i + 1, b.len() as int);
                        assert(b.subrange(0, b.len() as int) =~= b);
                    }
                    return Err(Error::Cardinality);
                }
                let ghost old_flags = flags;
                let ghost old_spans = spans@;
                proof {
                    lemma_escape_within(b, start as int, i as int);
                }
                spans[index] = Span::new(start as u16, i as u16);
                if current {
                    flags = flags | (1u64 << (index as u64));
                }
                proof {
                    assert forall|k: u64| k < 64 implies (#[trigger] (flags & (1u64 << k)) != 0) == (k < index + 1
                        && has_escape(b.subrange(spans@[k as int].lo(), spans@[k as int].hi()))) by {
                        lemma_bit_or(old_flags, index as u64, k);
                        assert(old_flags & (1u64 << k) != 0 <==> (k < index && has_escape(
                            b.subrange(old_spans[k as int].lo(), old_spans[k as int].hi()))));
                        if k != index && (k as int) < N {
                            assert(spans@[k as int] == old_spans[k as int]);
                        }
                    }
                    let s1 = split(b.subrange(0, i + 1));
                    let s0 = split(b.subrange(0, i as int));
                    assert(s1 == s0.push(Seq::empty()));
                    assert forall|k: int| 0 <= k < index + 1 implies #[trigger] s1[k]
                        == b.subrange(spans@[k].lo(), spans@[k].hi()) by {
                        if k < index {
                            assert(spans@[k] == old_spans[k]);
                        }
                    }
                    assert(s1[index + 1] =~= b.subrange(i + 1, i + 1));
                }
                index += 1;
                start = i + 1;
                current = false;
            } else {
                let ghost before = current;
                if c == 0x25 && i + 2 < bytes.len() && is_hex_digit(bytes[i + 1]) && is_hex_digit(bytes[i + 2]) {
                    current = true;
                }
                proof {
                    if escape_at(b, i as int) {
                        assert(current);
                        assert(start <= i < i + 1 && escape_at(b, i as int));
                    } else {
                        assert(current == before);
                        if exists|p: int| start <= p < i + 1 && escape_at(b, p) {
                            let p = choose|p: int| start <= p < i + 1 && escape_at(b, p);
                            assert(p < i);
                        }
                    }
                    let s1 = split(b.subrange(0, i + 1));
                    let s0 = split(b.subrange(0, i as int));
                    assert(s1 == s0.update(index as int, s0[index as int].push(c)));
                    assert(s1[index as int] =~= b.subrange(start as int, i + 1));
                    assert forall|k: int| 0 <= k < index implies #[trigger] s1[k]
                        == b.subrange(spans@[k].lo(), spans@[k].hi()) by {
                        assert(s1[k] == s0[k]);
                    }
                }
            }
            i += 1;
        }
        assert(b.subrange(0, b.len() as int) =~= b);
        if index != N - 1 {
            return Err(Error::Cardinality);
        }
        let ghost old_flags = flags;
        let ghost old_spans = spans@;
        proof {
            lemma_escape_within(b, start as int, b.len() as int);
        }
        spans[index] = Span::new(start as u16, bytes.len() as u16);
        if current {
            flags = flags | (1u64 << (index as u64));
        }
        let f = Format { value: Container::from_slice(bytes), spans, flags };
        proof {
            reveal(Format::layout);
            encode_utf8_valid_utf8(value@);
            assert forall|k: int| 0 <= k < N implies #[trigger] f.part(k) == split(b)[k] by {
                if k < index {
                    assert(spans@[k] == old_spans[k]);
                }
            }
            assert(f.parts() =~= split(b));
            assert forall|k: int| 0 <= k < N implies #[trigger] f.lo(k) <= f.hi(k) by {
                if k < index {
                    assert(spans@[k] == old_spans[k]);
                }
            }
            assert forall|k: int| 1 <= k < N implies f.hi(k - 1) + 1 == #[trigger] f.lo(k) by {
                if k < index {
                    assert(spans@[k] == old_spans[k]);
                }
                assert(spans@[k - 1] == old_spans[k - 1]);
            }
            assert forall|k: int| 0 <= k < N - 1 implies f.value@[#[trigger] f.hi(k)] == DELIMITER by {
                assert(spans@[k] == old_spans[k]);
            }
            assert forall|k: int, m: int|
                #![trigger f.lo(k), f.value@[m]]
                0 <= k < N && f.lo(k) <= m < f.hi(k) implies f.value@[m] != DELIMITER by {
                if k < index {
                    assert(spans@[k] == old_spans[k]);
                }
            }
            assert forall|k: int| 0 <= k < N implies #[trigger] f.flag(k) == has_escape(f.part(k)) by {
                let kk = k as u64;
                assert(kk as int == k);
                lemma_bit_or(old_flags, index as u64, kk);
                assert(old_flags & (1u64 << kk) != 0 <==> (kk < index && has_escape(
                    b.subrange(old_spans[k].lo(), old_spans[k].hi()))));
                if k < index {
                    assert(spans@[k] == old_spans[k]);
                }
            }
        }
        Ok(f)
    }

    /// Returns the encoded string.
    pub fn as_str(&self) -> (r: &str)
        requires
            self.wf(),
        ensures
            r.spec_bytes() == self.bytes(),
    {
        proof {
            reveal(Format::layout);
        }
        utf8_text(self.value.as_slice())
    }

    /// Returns whether two formatted strings hold the same encoded bytes.
    pub fn same(&self, other: &Self) -> (r: bool)
        ensures
            r == (self.bytes() == other.bytes()),
    {
        let a = self.value.as_slice();
        let b = other.value.as_slice();
        assert(a@ == self.bytes());
        assert(b@ == other.bytes());
        if a.len() != b.len() {
            return false;
        }
        let mut i: usize = 0;
        while i < a.len()
            invariant
                i <= a@.len() == b@.len(),
                a@ == self.bytes(),
                b@ == other.bytes(),
                a@.subrange(0, i as int) == b@.subrange(0, i as int),
            decreases a.len() - i,
        {
            if a[i] != b[i] {
                assert(self.bytes()[i as int] != other.bytes()[i as int]);
                return false;
            }
            proof {
                assert(a@.subrange(0, i + 1) =~= a@.subrange(0, i as int).push(a@[i as int]));
                assert(b@.subrange(0, i + 1) =~= b@.subrange(0, i as int).push(b@[i as int]));
            }
            i += 1;
        }
        assert(a@ =~= a@.subrange(0, i as int));
        assert(b@ =~= b@.subrange(0, i as int));
        true
    }

    /// Orders two formatted strings by their encoded bytes.
    pub fn compare(&self, other: &Self) -> (r: Ordering)
        ensures
            r == compare_bytes(self.bytes(), other.bytes()),
    {
        let a = self.value.as_slice();
        let b = other.value.as_slice();
        let mut i: usize = 0;
        assert(a@.subrange(0, a@.len() as int) =~= a@);
        assert(b@.subrange(0, b@.len() as int) =~= b@);
        while i < a.len() && i < b.len()
            invariant
                i <= a@.len(),
                i <= b@.len(),
                a@ == self.bytes(),
                b@ == other.bytes(),
                compare_bytes(a@, b@) == compare_bytes(
                    a@.subrange(i as int, a@.len() as int),
                    b@.subrange(i as int, b@.len() as int),
                ),
            decreases a.len() - i,
        {
            if a[i] < b[i] {
                return Ordering::Less;
            }
            if a[i] > b[i] {
                return Ordering::Greater;
            }
            proof {
                let x = a@.subrange(i as int, a@.len() as int);
                let y = b@.subrange(i as int, b@.len() as int);
                assert(x.subrange(1, x.len() as int) =~= a@.subrange(i + 1, a@.len() as int));
                assert(y.subrange(1, y.len() as int) =~= b@.subrange(i + 1, b@.len() as int));
            }
            i += 1;
        }
        if i < a.len() {
            Ordering::Greater
        } else if i < b.len() {
            Ordering::Less
        } else {
            Ordering::Equal
        }
    }
}

impl<const N: usize> FromStr for Format<N> {
    type Err = Error;

    fn from_str(value: &str) -> Result<Self> {
        if N == 0 || N > 64 {
            return Err(Error::Cardinality);
        }
        Self::parse(value)
    }
}

impl<const N: usize> PartialEq for Format<N> {
    fn eq(&self, other: &Self) -> (r: bool) {
        self.same(other)
    }
}

impl<const N: usize> vstd::std_specs::cmp::PartialEqSpecImpl for Format<N> {
    open spec fn obeys_eq_spec() -> bool {
        true
    }

    open spec fn eq_spec(&self, other: &Self) -> bool {
        self.bytes() == other.bytes()
    }
}

impl<const N: usize> Eq for Format<N> {

}

impl<const N: usize> PartialOrd for Format<N> {
    fn partial_cmp(&self, other: &Self) -> (r: Option<Ordering>) {
        Some(self.compare(other))
    }
}

impl<const N: usize> vstd::std_specs::cmp::PartialOrdSpecImpl for Format<N> {
    open spec fn obeys_partial_cmp_spec() -> bool {
        true
    }

    open spec fn partial_cmp_spec(&self, other: &Self) -> Option<Ordering> {
        Some(compare_bytes(self.bytes(), other.bytes()))
    }
}

/// Whether a byte is a hexadecimal digit, in either case.
fn is_hex_digit(c: u8) -> (r: bool)
    ensures
        r == is_hex(c),
{
    (0x30 <= c && c <= 0x39) || (0x41 <= c && c <= 0x46) || (0x61 <= c && c <= 0x66)
}

/// A `%` escape that starts inside a piece ends inside it.
proof fn lemma_escape_within(b: Seq<u8>, lo: int, hi: int)
    requires
        0 <= lo <= hi <= b.len(),
        hi == b.len() || b[hi] == DELIMITER,
    ensures
        (exists|p: int| lo <= p < hi && escape_at(b, p)) == has_escape(b.subrange(lo, hi)),
{
    let s = b.subrange(lo, hi);
    if exists|p: int| lo <= p < hi && escape_at(b, p) {
        let p = choose|p: int| lo <= p < hi && escape_at(b, p);
        assert(p + 2 < hi);
        assert(escape_at(s, p - lo));
    }
    if has_escape(s) {
        let q = choose|q: int| escape_at(s, q);
        assert(escape_at(b, q + lo));
    }
}

/// Setting bit `i` of a flag word.
proof fn lemma_bit_or(f: u64, i: u64, k: u64)
    requires
        i < 64,
        k < 64,
    ensures
        ((f | (1u64 << i)) & (1u64 << k) != 0) == (i == k || f & (1u64 << k) != 0),
{
    assert(((f | (1u64 << i)) & (1u64 << k) != 0) == (i == k || f & (1u64 << k) != 0)) by (bit_vector)
        requires
            i < 64,
            k < 64,
    ;
}

/// Clearing bit `i` of a flag word.
proof fn lemma_bit_clear(f: u64, i: u64, k: u64)
    requires
        i < 64,
        k < 64,
    ensures
        ((f & !(1u64 << i)) & (1u64 << k) != 0) == (i != k && f & (1u64 << k) != 0),
{
    assert(((f & !(1u64 << i)) & (1u64 << k) != 0) == (i != k && f & (1u64 << k) != 0)) by (bit_vector)
        requires
            i < 64,
            k < 64,
    ;
}

} // verus!
