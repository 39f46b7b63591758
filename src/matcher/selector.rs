//! Selectors: formatted strings of glob patterns, one per component.
use std::borrow::Cow;
use std::cmp::Ordering;
use std::str::FromStr;

use vstd::prelude::*;
use vstd::string::StringSliceAdditionalSpecFns;
use vstd::utf8::*;

use super::error::{Error, Result};
use crate::format::encoding::{cow_text, escaped, DELIMITER};
use crate::format::{compare_bytes, lemma_ascii_utf8, piece_text, split, written_text, Format};
use crate::path::{self, has_backslash, validate};

verus! {

/// The tag that starts every selector.
pub open spec fn selector_tag() -> Seq<char> {
    seq!['z', 'r', 's']
}

/// What parsing the bytes of a string as a selector yields: the text of its
/// six spans (the tag, then the patterns for scheme, binding, context, path
/// and fragment), or the first error found.
pub open spec fn parse_selector(b: Seq<u8>) -> core::result::Result<Seq<Seq<char>>, Error> {
    let p = split(b);
    if has_backslash(b) {
        Err(Error::Path(path::Error::Backslash))
    } else if b.len() > u16::MAX {
        Err(Error::Format(crate::format::Error::Length))
    } else if p.len() != 6 {
        Err(Error::Format(crate::format::Error::Cardinality))
    } else if piece_text(p[0]) != selector_tag() {
        Err(Error::Prefix)
    } else {
        Ok(Seq::new(6, |i: int| piece_text(p[i])))
    }
}

/// What setting span `index` of `pre` to `value` yields: `post`, and the
/// result `r`.
pub open spec fn set_outcome(pre: Selector, post: Selector, index: int, value: Seq<u8>, r: Result) -> bool {
    if has_backslash(value) {
        r == Err::<(), Error>(Error::Path(path::Error::Backslash)) && post == pre
    } else if !pre.format().fits(index, value) {
        r == Err::<(), Error>(Error::Format(crate::format::Error::Length)) && post == pre
    } else {
        &&& r is Ok
        &&& post.wf()
        &&& post@ == pre@.update(index, written_text(value))
        &&& post.format().parts() == pre.format().parts().update(index, escaped(value))
    }
}

/// The selector that a `Cow` holds.
pub open spec fn cow_selector<'a>(c: Cow<'a, Selector>) -> Selector {
    match c {
        Cow::Borrowed(s) => *s,
        Cow::Owned(s) => s,
    }
}

/// Conversion into a selector, borrowed or owned.
pub trait ToSelector {
    /// Whether the value can be converted: a selector must be well-formed.
    spec fn convertible(&self) -> bool;

    /// The selector this value stands for, by the text of its spans, or the
    /// error that converting it raises.
    spec fn selector_view(&self) -> core::result::Result<Seq<Seq<char>>, Error>;

    /// Creates a selector.
    fn to_selector(&self) -> (r: Result<Cow<'_, Selector>>)
        requires
            self.convertible(),
        ensures
            r is Ok <==> self.selector_view() is Ok,
            r matches Ok(s) ==> self.selector_view() == Ok::<Seq<Seq<char>>, Error>(s@)
                && cow_selector(s).wf(),
            r matches Err(e) ==> self.selector_view() == Err::<Seq<Seq<char>>, Error>(e),
    ;
}

/// A selector: a tag and a glob pattern for each of the components scheme,
/// binding, context, path and fragment, separated by `:`. An empty pattern
/// matches anything.
///
/// Equality is that of the encoded string.
#[derive(Clone, Debug)]
pub struct Selector {
    /// Formatted string.
    format: Format<6>,
}

impl View for Selector {
    type V = Seq<Seq<char>>;

    /// The text of the six spans.
    closed spec fn view(&self) -> Seq<Seq<char>> {
        Seq::new(6, |i: int| self.format.text(i))
    }
}

impl Selector {
    /// Well-formedness: a well-formed formatted string whose first span reads
    /// as the selector tag.
    pub closed spec fn wf(self) -> bool {
        &&& self.format.wf()
        &&& self.format.text(0) == selector_tag()
    }

    /// The formatted string.
    pub closed spec fn format(self) -> Format<6> {
        self.format
    }

    /// The encoded bytes.
    pub closed spec fn bytes(self) -> Seq<u8> {
        self.format.bytes()
    }

    /// The selector is well-formed and its spans read as its view.
    pub proof fn lemma_view(self)
        requires
            self.wf(),
        ensures
            self.format().wf(),
            self@.len() == 6,
            forall|i: int| 0 <= i < 6 ==> #[trigger] self@[i] == self.format().text(i),
            self@[0] == selector_tag(),
            self.bytes() == self.format().bytes(),
    {
    }

    /// Creates a selector whose patterns are all empty, which matches every
    /// identifier: `zrs:::::`.
    pub fn new() -> (r: Result<Self>)
        ensures
            r matches Ok(s) && s.wf() && s@[0] == selector_tag()
                && forall|i: int| 1 <= i < 6 ==> #[trigger] s@[i] == Seq::<char>::empty(),
            r matches Ok(s) && s.bytes() == seq![0x7Au8, 0x72u8, 0x73u8, DELIMITER, DELIMITER, DELIMITER, DELIMITER, DELIMITER],
    {
        let mut format = Format::<6>::new();
        let res = format.set(0, "zrs");
        proof {
            reveal_strlit("zrs");
            let b = seq![0x7Au8, 0x72u8, 0x73u8];
            assert("zrs"@ =~= seq!['z', 'r', 's']);
            lemma_ascii_utf8(b);
            assert(crate::format::encoding::ascii_text(b) =~= selector_tag());
            encode_utf8_decode_utf8("zrs"@);
            decode_utf8_encode_utf8(b);
            assert("zrs".spec_bytes() == b);
            crate::format::encoding::lemma_escaped_len(b);
            assert(crate::format::encoding::is_plain(b));
            assert(res is Ok);
            assert forall|i: int| 1 <= i < 6 implies #[trigger] format.text(i) == Seq::<char>::empty() by {
                lemma_ascii_utf8(Seq::<u8>::empty());
                assert(crate::format::encoding::ascii_text(Seq::<u8>::empty()) =~= Seq::<char>::empty());
            }
        }
        let s = Self { format };
        proof {
            assert(s@[0] == format.text(0));
            assert(s.bytes() =~= seq![0x7Au8, 0x72u8, 0x73u8, DELIMITER, DELIMITER, DELIMITER, DELIMITER, DELIMITER]);
        }
        Ok(s)
    }

    /// Parses a selector from `zrs:<scheme>:<binding>:<context>:<path>:<fragment>`.
    pub fn parse(value: &str) -> (r: Result<Self>)
        ensures
            r is Ok <==> parse_selector(value.spec_bytes()) is Ok,
            r matches Ok(s) ==> parse_selector(value.spec_bytes()) == Ok::<Seq<Seq<char>>, Error>(s@)
                && s.bytes() == value.spec_bytes() && s.wf(),
            r matches Err(e) ==> parse_selector(value.spec_bytes()) == Err::<Seq<Seq<char>>, Error>(e),
    {
        let value = match validate(value) {
            Ok(v) => v,
            Err(e) => return Err(Error::Path(e)),
        };
        let format = match Format::<6>::parse(value) {
            Ok(f) => f,
            Err(e) => return Err(Error::Format(e)),
        };
        proof {
            format.lemma_parts();
        }
        let ghost p = split(value.spec_bytes());
        let tag = format.get(0);
        if !is_tag(cow_text(&tag)) {
            return Err(Error::Prefix);
        }
        let s = Self { format };
        proof {
            assert(s@ =~= Seq::new(6, |i: int| piece_text(p[i])));
        }
        Ok(s)
    }
    fn set_component(&mut self, index: usize, value: &str) -> (r: Result)
        requires
            old(self).wf(),
            1 <= index < 6,
        ensures
            set_outcome(*old(self), *final(self), index as int, value.spec_bytes(), r),
    {
        let value = match validate(value) {
            Ok(v) => v,
            Err(e) => return Err(Error::Path(e)),
        };
        proof {
            self.lemma_view();
        }
        match self.format.set(index, value) {
            Ok(()) => {
                proof {
                    assert(self@ =~= old(self)@.update(index as int, written_text(value.spec_bytes())));
                }
                Ok(())
            },
            Err(e) => Err(Error::Format(e)),
        }
    }

    /// Updates the `scheme` component.
    pub fn set_scheme(&mut self, scheme: &str) -> (r: Result)
        requires
            old(self).wf(),
        ensures
            set_outcome(*old(self), *final(self), 1, scheme.spec_bytes(), r),
    {
        self.set_component(1, scheme)
    }

    /// Updates the `binding` component.
    pub fn set_binding(&mut self, binding: &str) -> (r: Result)
        requires
            old(self).wf(),
        ensures
            set_outcome(*old(self), *final(self), 2, binding.spec_bytes(), r),
    {
        self.set_component(2, binding)
    }

    /// Updates the `context` component.
    pub fn set_context(&mut self, context: &str) -> (r: Result)
        requires
            old(self).wf(),
        ensures
            set_outcome(*old(self), *final(self), 3, context.spec_bytes(), r),
    {
        self.set_component(3, context)
    }

    /// Updates the `path` component.
    pub fn set_path(&mut self, path: &str) -> (r: Result)
        requires
            old(self).wf(),
        ensures
            set_outcome(*old(self), *final(self), 4, path.spec_bytes(), r),
    {
        self.set_component(4, path)
    }

    /// Updates the `fragment` component.
    pub fn set_fragment(&mut self, fragment: &str) -> (r: Result)
        requires
            old(self).wf(),
        ensures
            set_outcome(*old(self), *final(self), 5, fragment.spec_bytes(), r),
    {
        self.set_component(5, fragment)
    }

    fn optional(&self, index: usize) -> (r: Option<Cow<'_, str>>)
        requires
            self.wf(),
            index < 6,
        ensures
            r is None <==> self@[index as int].len() == 0,
            r matches Some(v) ==> v@ == self@[index as int],
    {
        proof {
            self.lemma_view();
        }
        let value = self.format.get(index);
        if cow_text(&value).is_empty() {
            None
        } else {
            Some(value)
        }
    }

    /// Returns the `scheme` pattern, if any.
    pub fn scheme(&self) -> (r: Option<Cow<'_, str>>)
        requires
            self.wf(),
        ensures
            r is None <==> self@[1].len() == 0,
            r matches Some(v) ==> v@ == self@[1],
    {
        self.optional(1)
    }

    /// Returns the `binding` pattern, if any.
    pub fn binding(&self) -> (r: Option<Cow<'_, str>>)
        requires
            self.wf(),
        ensures
            r is None <==> self@[2].len() == 0,
            r matches Some(v) ==> v@ == self@[2],
    {
        self.optional(2)
    }

    /// Returns the `context` pattern, if any.
    pub fn context(&self) -> (r: Option<Cow<'_, str>>)
        requires
            self.wf(),
        ensures
            r is None <==> self@[3].len() == 0,
            r matches Some(v) ==> v@ == self@[3],
    {
        self.optional(3)
    }

    /// Returns the `path` pattern, if any.
    pub fn path(&self) -> (r: Option<Cow<'_, str>>)
        requires
            self.wf(),
        ensures
            r is None <==> self@[4].len() == 0,
            r matches Some(v) ==> v@ == self@[4],
    {
        self.optional(4)
    }

    /// Returns the `fragment` pattern, if any.
    pub fn fragment(&self) -> (r: Option<Cow<'_, str>>)
        requires
            self.wf(),
        ensures
            r is None <==> self@[5].len() == 0,
            r matches Some(v) ==> v@ == self@[5],
    {
        self.optional(5)
    }

    /// Returns the encoded string.
    pub fn as_str(&self) -> (r: &str)
        requires
            self.wf(),
        ensures
            r.spec_bytes() == self.bytes(),
    {
        self.format.as_str()
    }

    /// Returns the encoded string as an owned value.
    pub fn to_string(&self) -> (r: String)
        requires
            self.wf(),
        ensures
            encode_utf8(r@) == self.bytes(),
            r@ == decode_utf8(self.bytes()),
    {
        let r = self.format.as_str().to_owned();
        proof {
            encode_utf8_decode_utf8(r@);
        }
        r
    }
}

impl<'a> ToSelector for &'a Selector {
    open spec fn convertible(&self) -> bool {
        (**self).wf()
    }

    open spec fn selector_view(&self) -> core::result::Result<Seq<Seq<char>>, Error> {
        Ok((**self)@)
    }

    /// Borrows the selector.
    fn to_selector(&self) -> (r: Result<Cow<'_, Selector>>) {
        Ok(Cow::Borrowed(*self))
    }
}

impl<'a> ToSelector for &'a str {
    open spec fn convertible(&self) -> bool {
        true
    }

    open spec fn selector_view(&self) -> core::result::Result<Seq<Seq<char>>, Error> {
        parse_selector((**self).spec_bytes())
    }

    /// Parses a selector from the string.
    fn to_selector(&self) -> (r: Result<Cow<'_, Selector>>) {
        match Selector::parse(*self) {
            Ok(s) => Ok(Cow::Owned(s)),
            Err(e) => Err(e),
        }
    }
}

impl FromStr for Selector {
    type Err = Error;

    fn from_str(value: &str) -> Result<Self> {
        Self::parse(value)
    }
}

impl PartialEq for Selector {
    fn eq(&self, other: &Self) -> (r: bool) {
        self.format.same(&other.format)
    }
}

impl vstd::std_specs::cmp::PartialEqSpecImpl for Selector {
    open spec fn obeys_eq_spec() -> bool {
        true
    }

    open spec fn eq_spec(&self, other: &Self) -> bool {
        self.bytes() == other.bytes()
    }
}

impl Eq for Selector {

}

impl PartialOrd for Selector {
    fn partial_cmp(&self, other: &Self) -> (r: Option<Ordering>) {
        Some(self.format.compare(&other.format))
    }
}

impl vstd::std_specs::cmp::PartialOrdSpecImpl for Selector {
    open spec fn obeys_partial_cmp_spec() -> bool {
        true
    }

    open spec fn partial_cmp_spec(&self, other: &Self) -> Option<Ordering> {
        Some(compare_bytes(self.bytes(), other.bytes()))
    }
}

/// Whether a text is the selector tag.
fn is_tag(t: &str) -> (r: bool)
    ensures
        r == (t@ == selector_tag()),
{
    let b = t.as_bytes();
    let r = b.len() == 3 && b[0] == 0x7A && b[1] == 0x72 && b[2] == 0x73;
    proof {
        let tag = seq![0x7Au8, 0x72u8, 0x73u8];
        lemma_ascii_utf8(tag);
        assert(crate::format::encoding::ascii_text(tag) =~= selector_tag());
        encode_utf8_decode_utf8(t@);
        if r {
            assert(b@ =~= tag);
        } else if t@ == selector_tag() {
            assert(encode_utf8(t@) == encode_utf8(decode_utf8(tag)));
            decode_utf8_encode_utf8(tag);
        }
    }
    r
}

} // verus!
