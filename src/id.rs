//! Identifiers: formatted strings of a tag and five named components.
use std::borrow::Cow;
use std::cmp::Ordering;
use std::str::FromStr;

use vstd::prelude::*;
use vstd::string::StringSliceAdditionalSpecFns;
use vstd::utf8::*;

use crate::error::{Error, Result};
use crate::format::encoding::{
    cow_text, encode, escaped, has_escape, lemma_escaped_no_delimiter, DELIMITER,
};
use crate::format::{
    compare_bytes, lemma_ascii_utf8, lemma_split_concat, lemma_split_plain, piece_text, split,
    written_text, Format,
};
use crate::path::{self, has_backslash, validate};

verus! {

/// The tag that starts every identifier.
pub open spec fn id_tag() -> Seq<char> {
    seq!['z', 'r', 'i']
}

/// What parsing the bytes of a string as an identifier yields: the text of
/// its six spans (the tag, then scheme, binding, context, path and
/// fragment), or the first error found.
pub open spec fn parse_id(b: Seq<u8>) -> core::result::Result<Seq<Seq<char>>, Error> {
    let p = split(b);
    if has_backslash(b) {
        Err(Error::Path(path::Error::Backslash))
    } else if b.len() > u16::MAX {
        Err(Error::Format(crate::format::Error::Length))
    } else if p.len() != 6 {
        Err(Error::Format(crate::format::Error::Cardinality))
    } else if piece_text(p[0]) != id_tag() {
        Err(Error::Prefix)
    } else if piece_text(p[1]).len() == 0 {
        Err(Error::Component("scheme"))
    } else if piece_text(p[3]).len() == 0 {
        Err(Error::Component("context"))
    } else if piece_text(p[4]).len() == 0 {
        Err(Error::Component("path"))
    } else {
        Ok(Seq::new(6, |i: int| piece_text(p[i])))
    }
}

/// The string that a new identifier is parsed from: the tag, the encoded
/// scheme, an empty binding, the encoded context and path, and an empty
/// fragment.
pub open spec fn new_bytes(scheme: Seq<u8>, context: Seq<u8>, path: Seq<u8>) -> Seq<u8> {
    seq![0x7Au8, 0x72u8, 0x69u8, DELIMITER] + escaped(scheme) + seq![DELIMITER, DELIMITER] + escaped(
        context,
    ) + seq![DELIMITER] + escaped(path) + seq![DELIMITER]
}

/// The identifier that a `Cow` holds.
pub open spec fn cow_id<'a>(c: Cow<'a, Id>) -> Id {
    match c {
        Cow::Borrowed(id) => *id,
        Cow::Owned(id) => id,
    }
}

/// The pieces of the string that a new identifier is parsed from.
pub proof fn lemma_new_parts(scheme: Seq<u8>, context: Seq<u8>, path: Seq<u8>)
    ensures
        split(new_bytes(scheme, context, path)) == seq![
            seq![0x7Au8, 0x72u8, 0x69u8],
            escaped(scheme),
            Seq::<u8>::empty(),
            escaped(context),
            escaped(path),
            Seq::<u8>::empty(),
        ],
        piece_text(seq![0x7Au8, 0x72u8, 0x69u8]) == id_tag(),
        piece_text(Seq::<u8>::empty()) == Seq::<char>::empty(),
{
    let d = seq![DELIMITER];
    let t = seq![0x7Au8, 0x72u8, 0x69u8];
    let e = Seq::<u8>::empty();
    let (s, c, p) = (escaped(scheme), escaped(context), escaped(path));
    lemma_escaped_no_delimiter(scheme);
    lemma_escaped_no_delimiter(context);
    lemma_escaped_no_delimiter(path);
    assert(!t.contains(DELIMITER)) by {
        if t.contains(DELIMITER) {
            let k = choose|k: int| 0 <= k < t.len() && t[k] == DELIMITER;
            assert(k == 0 || k == 1 || k == 2);
        }
    }
    assert(!e.contains(DELIMITER));
    lemma_split_plain(t);
    lemma_split_plain(s);
    lemma_split_plain(c);
    lemma_split_plain(p);
    lemma_split_plain(e);
    let r4 = p + d + e;
    let r3 = c + d + r4;
    let r2 = e + d + r3;
    let r1 = s + d + r2;
    lemma_split_concat(p, e);
    lemma_split_concat(c, r4);
    lemma_split_concat(e, r3);
    lemma_split_concat(s, r2);
    lemma_split_concat(t, r1);
    assert(t + d + r1 =~= new_bytes(scheme, context, path));
    assert(split(new_bytes(scheme, context, path)) =~= seq![t, s, e, c, p, e]);
    lemma_ascii_utf8(t);
    assert(crate::format::encoding::ascii_text(t) =~= id_tag());
    assert(!has_escape(t)) by {
        if has_escape(t) {
            let q = choose|q: int| crate::format::encoding::escape_at(t, q);
        }
    }
    assert(!has_escape(e));
    assert(decode_utf8(e) =~= Seq::<char>::empty());
}

/// What setting span `index` of `pre` to `value` yields: `post`, and the
/// result `r`.
pub open spec fn set_outcome(pre: Id, post: Id, index: int, value: Seq<u8>, r: Result) -> bool {
    if has_backslash(value) {
        r == Err::<(), Error>(Error::Path(path::Error::Backslash)) && post == pre
    } else if !pre.format().fits(index, value) {
        r == Err::<(), Error>(Error::Format(crate::format::Error::Length)) && post == pre
    } else {
        &&& r is Ok
        &&& post.wf()
        &&& post@ == pre@.update(index, written_text(value))
        &&& post.format().parts() == pre.format().parts().update(index, escaped(value))
    }
}

/// Conversion into an identifier, borrowed or owned.
pub trait ToId {
    /// Whether the value can be converted: an identifier must be well-formed.
    spec fn convertible(&self) -> bool;

    /// The identifier this value stands for, by the text of its spans, or the
    /// error that converting it raises.
    spec fn id_view(&self) -> core::result::Result<Seq<Seq<char>>, Error>;

    /// Creates an identifier.
    fn to_id(&self) -> (r: Result<Cow<'_, Id>>)
        requires
            self.convertible(),
        ensures
            r is Ok <==> self.id_view() is Ok,
            r matches Ok(id) ==> self.id_view() == Ok::<Seq<Seq<char>>, Error>(id@) && cow_id(id).wf(),
            r matches Err(e) ==> self.id_view() == Err::<Seq<Seq<char>>, Error>(e),
    ;
}

/// An identifier: a tag and the components scheme, binding, context, path
/// and fragment, separated by `:`.
///
/// Equality is that of the encoded string.
#[derive(Clone, Debug)]
pub struct Id {
    /// Formatted string.
    format: Format<6>,
}

impl View for Id {
    type V = Seq<Seq<char>>;

    /// The text of the six spans.
    closed spec fn view(&self) -> Seq<Seq<char>> {
        Seq::new(6, |i: int| self.format.text(i))
    }
}

impl Id {
    /// Well-formedness: a well-formed formatted string whose first span reads
    /// as the identifier tag.
    pub closed spec fn wf(self) -> bool {
        &&& self.format.wf()
        &&& self.format.text(0) == id_tag()
    }

    /// The formatted string.
    pub closed spec fn format(self) -> Format<6> {
        self.format
    }

    /// The encoded bytes.
    pub closed spec fn bytes(self) -> Seq<u8> {
        self.format.bytes()
    }

    /// The identifier is well-formed and its spans read as its view.
    pub proof fn lemma_view(self)
        requires
            self.wf(),
        ensures
            self.format().wf(),
            self@.len() == 6,
            forall|i: int| 0 <= i < 6 ==> #[trigger] self@[i] == self.format().text(i),
            self@[0] == id_tag(),
            self.bytes() == self.format().bytes(),
    {
    }

    /// Creates an identifier from a scheme, a context and a path.
    ///
    /// Each value is checked for backslashes and percent-encoded, and the
    /// identifier is parsed from `zri:<scheme>::<context>:<path>:`.
    pub fn new(scheme: &str, context: &str, path: &str) -> (r: Result<Self>)
        ensures
            has_backslash(scheme.spec_bytes()) || has_backslash(context.spec_bytes()) || has_backslash(
                path.spec_bytes(),
            ) ==> r == Err::<Self, Error>(Error::Path(path::Error::Backslash)),
            !has_backslash(scheme.spec_bytes()) && !has_backslash(context.spec_bytes()) && !has_backslash(
                path.spec_bytes(),
            ) ==> ({
                let b = new_bytes(scheme.spec_bytes(), context.spec_bytes(), path.spec_bytes());
                &&& r is Ok <==> parse_id(b) is Ok
                &&& r matches Ok(id) ==> parse_id(b) == Ok::<Seq<Seq<char>>, Error>(id@) && id.bytes() == b
                    && id.wf()
                &&& r matches Ok(id) ==> id@ == seq![
                    id_tag(),
                    piece_text(escaped(scheme.spec_bytes())),
                    Seq::<char>::empty(),
                    piece_text(escaped(context.spec_bytes())),
                    piece_text(escaped(path.spec_bytes())),
                    Seq::<char>::empty(),
                ]
                &&& r matches Err(e) ==> parse_id(b) == Err::<Seq<Seq<char>>, Error>(e)
            }),
    {
        let scheme = match validate(scheme) {
            Ok(v) => v,
            Err(e) => return Err(Error::Path(e)),
        };
        let context = match validate(context) {
            Ok(v) => v,
            Err(e) => return Err(Error::Path(e)),
        };
        let path = match validate(path) {
            Ok(v) => v,
            Err(e) => return Err(Error::Path(e)),
        };
        let s = encode(scheme.as_bytes());
        let c = encode(context.as_bytes());
        let p = encode(path.as_bytes());
        let mut buffer = String::new();
        buffer.append("zri:");
        buffer.append(cow_text(&s));
        buffer.append("::");
        buffer.append(cow_text(&c));
        buffer.append(":");
        buffer.append(cow_text(&p));
        buffer.append(":");
        proof {
            reveal_strlit("zri:");
            reveal_strlit("::");
            reveal_strlit(":");
            let t = buffer@;
            let b = new_bytes(scheme.spec_bytes(), context.spec_bytes(), path.spec_bytes());
            crate::format::encoding::lemma_escaped_text(scheme.spec_bytes());
            crate::format::encoding::lemma_escaped_text(context.spec_bytes());
            crate::format::encoding::lemma_escaped_text(path.spec_bytes());
            crate::format::encoding::lemma_escaped_ascii(scheme.spec_bytes());
            crate::format::encoding::lemma_escaped_ascii(context.spec_bytes());
            crate::format::encoding::lemma_escaped_ascii(path.spec_bytes());
            assert(forall|i: int| 0 <= i < b.len() ==> #[trigger] b[i] < 0x80);
            assert(t =~= crate::format::encoding::ascii_text(b));
            lemma_ascii_utf8(b);
            encode_utf8_decode_utf8(t);
            lemma_new_parts(scheme.spec_bytes(), context.spec_bytes(), path.spec_bytes());
            assert(encode_utf8(t) == b) by {
                is_ascii_chars_encode_utf8(t);
                assert(encode_utf8(t) =~= b);
            }
        }
        Self::parse(buffer.as_str())
    }

    /// Parses an identifier from `zri:<scheme>:<binding>:<context>:<path>:<fragment>`.
    pub fn parse(value: &str) -> (r: Result<Self>)
        ensures
            r is Ok <==> parse_id(value.spec_bytes()) is Ok,
            r matches Ok(id) ==> parse_id(value.spec_bytes()) == Ok::<Seq<Seq<char>>, Error>(id@)
                && id.bytes() == value.spec_bytes() && id.wf(),
            r matches Err(e) ==> parse_id(value.spec_bytes()) == Err::<Seq<Seq<char>>, Error>(e),
    {
        let value = match validate(value) {
            Ok(v) => v,
            Err(e) => return Err(Error::Path(e)),
        };
        let format = match Format::<6>::parse(value) {
            Ok(f) => f,
            Err(e) => return Err(Error::Format(e)),
        };
        proof {
            format.lemma_parts();
        }
        let ghost p = split(value.spec_bytes());
        let tag = format.get(0);
        if !is_tag(cow_text(&tag)) {
            return Err(Error::Prefix);
        }
        if cow_text(&format.get(1)).is_empty() {
            return Err(Error::Component("scheme"));
        }
        if cow_text(&format.get(3)).is_empty() {
            return Err(Error::Component("context"));
        }
        if cow_text(&format.get(4)).is_empty() {
            return Err(Error::Component("path"));
        }
        let id = Self { format };
        proof {
            assert(id@ =~= Seq::new(6, |i: int| piece_text(p[i])));
        }
        Ok(id)
    }

    fn set_component(&mut self, index: usize, value: &str) -> (r: Result)
        requires
            old(self).wf(),
            1 <= index < 6,
        ensures
            set_outcome(*old(self), *final(self), index as int, value.spec_bytes(), r),
    {
        let value = match validate(value) {
            Ok(v) => v,
            Err(e) => return Err(Error::Path(e)),
        };
        proof {
            self.lemma_view();
        }
        match self.format.set(index, value) {
            Ok(()) => {
                proof {
                    assert(self@ =~= old(self)@.update(index as int, written_text(value.spec_bytes())));
                }
                Ok(())
            },
            Err(e) => Err(Error::Format(e)),
        }
    }

    /// Updates the `scheme` component.
    pub fn set_scheme(&mut self, scheme: &str) -> (r: Result)
        requires
            old(self).wf(),
        ensures
            set_outcome(*old(self), *final(self), 1, scheme.spec_bytes(), r),
    {
        self.set_component(1, scheme)
    }

    /// Updates the `binding` component.
    pub fn set_binding(&mut self, binding: &str) -> (r: Result)
        requires
            old(self).wf(),
        ensures
            set_outcome(*old(self), *final(self), 2, binding.spec_bytes(), r),
    {
        self.set_component(2, binding)
    }

    /// Updates the `context` component.
    pub fn set_context(&mut self, context: &str) -> (r: Result)
        requires
            old(self).wf(),
        ensures
            set_outcome(*old(self), *final(self), 3, context.spec_bytes(), r),
    {
        self.set_component(3, context)
    }

    /// Updates the `path` component.
    pub fn set_path(&mut self, path: &str) -> (r: Result)
        requires
            old(self).wf(),
        ensures
            set_outcome(*old(self), *final(self), 4, path.spec_bytes(), r),
    {
        self.set_component(4, path)
    }

    /// Updates the `fragment` component.
    pub fn set_fragment(&mut self, fragment: &str) -> (r: Result)
        requires
            old(self).wf(),
        ensures
            set_outcome(*old(self), *final(self), 5, fragment.spec_bytes(), r),
    {
        self.set_component(5, fragment)
    }

    fn optional(&self, index: usize) -> (r: Option<Cow<'_, str>>)
        requires
            self.wf(),
            index < 6,
        ensures
            r is None <==> self@[index as int].len() == 0,
            r matches Some(v) ==> v@ == self@[index as int],
    {
        proof {
            self.lemma_view();
        }
        let value = self.format.get(index);
        if cow_text(&value).is_empty() {
            None
        } else {
            Some(value)
        }
    }

    /// Returns the `scheme` component.
    pub fn scheme(&self) -> (r: Cow<'_, str>)
        requires
            self.wf(),
        ensures
            r@ == self@[1],
    {
        proof {
            self.lemma_view();
        }
        self.format.get(1)
    }

    /// Returns the `binding` component, if any.
    pub fn binding(&self) -> (r: Option<Cow<'_, str>>)
        requires
            self.wf(),
        ensures
            r is None <==> self@[2].len() == 0,
            r matches Some(v) ==> v@ == self@[2],
    {
        self.optional(2)
    }

    /// Returns the `context` component.
    pub fn context(&self) -> (r: Cow<'_, str>)
        requires
            self.wf(),
        ensures
            r@ == self@[3],
    {
        proof {
            self.lemma_view();
        }
        self.format.get(3)
    }

    /// Returns the `path` component.
    pub fn path(&self) -> (r: Cow<'_, str>)
        requires
            self.wf(),
        ensures
            r@ == self@[4],
    {
        proof {
            self.lemma_view();
        }
        self.format.get(4)
    }

    /// Returns the `fragment` component, if any.
    pub fn fragment(&self) -> (r: Option<Cow<'_, str>>)
        requires
            self.wf(),
        ensures
            r is None <==> self@[5].len() == 0,
            r matches Some(v) ==> v@ == self@[5],
    {
        self.optional(5)
    }

    /// Returns the encoded string.
    pub fn as_str(&self) -> (r: &str)
        requires
            self.wf(),
        ensures
            r.spec_bytes() == self.bytes(),
    {
        self.format.as_str()
    }

    /// Returns the encoded string as an owned value.
    pub fn to_string(&self) -> (r: String)
        requires
            self.wf(),
        ensures
            encode_utf8(r@) == self.bytes(),
            r@ == decode_utf8(self.bytes()),
    {
        let r = self.format.as_str().to_owned();
        proof {
            encode_utf8_decode_utf8(r@);
        }
        r
    }
}

impl<'a> ToId for &'a Id {
    open spec fn convertible(&self) -> bool {
        (**self).wf()
    }

    open spec fn id_view(&self) -> core::result::Result<Seq<Seq<char>>, Error> {
        Ok((**self)@)
    }

    /// Borrows the identifier.
    fn to_id(&self) -> (r: Result<Cow<'_, Id>>) {
        Ok(Cow::Borrowed(*self))
    }
}

impl<'a> ToId for &'a str {
    open spec fn convertible(&self) -> bool {
        true
    }

    open spec fn id_view(&self) -> core::result::Result<Seq<Seq<char>>, Error> {
        parse_id((**self).spec_bytes())
    }

    /// Parses an identifier from the string.
    fn to_id(&self) -> (r: Result<Cow<'_, Id>>) {
        match Id::parse(*self) {
            Ok(id) => Ok(Cow::Owned(id)),
            Err(e) => Err(e),
        }
    }
}

impl FromStr for Id {
    type Err = Error;

    fn from_str(value: &str) -> Result<Self> {
        Self::parse(value)
    }
}

impl PartialEq for Id {
    fn eq(&self, other: &Self) -> (r: bool) {
        self.format.same(&other.format)
    }
}

impl vstd::std_specs::cmp::PartialEqSpecImpl for Id {
    open spec fn obeys_eq_spec() -> bool {
        true
    }

    open spec fn eq_spec(&self, other: &Self) -> bool {
        self.bytes() == other.bytes()
    }
}

impl Eq for Id {

}

impl PartialOrd for Id {
    fn partial_cmp(&self, other: &Self) -> (r: Option<Ordering>) {
        Some(self.format.compare(&other.format))
    }
}

impl vstd::std_specs::cmp::PartialOrdSpecImpl for Id {
    open spec fn obeys_partial_cmp_spec() -> bool {
        true
    }

    open spec fn partial_cmp_spec(&self, other: &Self) -> Option<Ordering> {
        Some(compare_bytes(self.bytes(), other.bytes()))
    }
}

/// Parsing the string form of a new identifier gives it back. `Id::new` makes
/// an identifier of the bytes `new_bytes` with the components that parsing
/// them yields, `to_string` gives the text that those bytes encode, and
/// `Id::parse` of that text keeps its bytes: the text encodes exactly the
/// same bytes, so parsing it succeeds with the same components and bytes.
pub proof fn lemma_round_trip(scheme: Seq<u8>, context: Seq<u8>, path: Seq<u8>)
    requires
        !has_backslash(scheme),
        !has_backslash(context),
        !has_backslash(path),
        parse_id(new_bytes(scheme, context, path)) is Ok,
    ensures
        encode_utf8(decode_utf8(new_bytes(scheme, context, path))) == new_bytes(scheme, context, path),
        parse_id(encode_utf8(decode_utf8(new_bytes(scheme, context, path)))) == parse_id(
            new_bytes(scheme, context, path),
        ),
{
    let b = new_bytes(scheme, context, path);
    crate::format::encoding::lemma_escaped_ascii(scheme);
    crate::format::encoding::lemma_escaped_ascii(context);
    crate::format::encoding::lemma_escaped_ascii(path);
    assert(forall|i: int| 0 <= i < b.len() ==> #[trigger] b[i] < 0x80);
    lemma_ascii_utf8(b);
    decode_utf8_encode_utf8(b);
}

/// Whether a text is the identifier tag.
fn is_tag(t: &str) -> (r: bool)
    ensures
        r == (t@ == id_tag()),
{
    let b = t.as_bytes();
    let r = b.len() == 3 && b[0] == 0x7A && b[1] == 0x72 && b[2] == 0x69;
    proof {
        let tag = seq![0x7Au8, 0x72u8, 0x69u8];
        lemma_ascii_utf8(tag);
        assert(crate::format::encoding::ascii_text(tag) =~= id_tag());
        encode_utf8_decode_utf8(t@);
        if r {
            assert(b@ =~= tag);
        } else if t@ == id_tag() {
            assert(encode_utf8(t@) == encode_utf8(decode_utf8(tag)));
            decode_utf8_encode_utf8(tag);
        }
    }
    r
}

} // verus!
