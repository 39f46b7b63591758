//! Builders that compile selectors into a matcher.
use std::borrow::Cow;

use globset::GlobSetBuilder;
use vstd::prelude::*;

use super::error::{Error, Result};
use super::glob::{
    add_glob, build_set, compile, everything, glob_valid, matches_everything, new_builder,
    pending_patterns, set_builds,
};
use super::selector::{cow_selector, Selector, ToSelector};
use super::Matcher;
use crate::format::encoding::cow_text;

verus! {

/// The pattern that component `c` of a selector view contributes: its text,
/// or `**` where it is empty.
pub open spec fn pattern(v: Seq<Seq<char>>, c: int) -> Seq<char> {
    if v[c].len() == 0 {
        everything()
    } else {
        v[c]
    }
}

/// Whether every pattern that a selector view contributes compiles.
pub open spec fn compiles(v: Seq<Seq<char>>) -> bool {
    &&& glob_valid(pattern(v, 1))
    &&& glob_valid(pattern(v, 2))
    &&& glob_valid(pattern(v, 3))
    &&& glob_valid(pattern(v, 4))
    &&& glob_valid(pattern(v, 5))
}

/// A builder for a [`Matcher`]: five glob set builders, one per component,
/// that each receive one pattern per selector.
#[derive(Debug)]
pub struct Builder {
    scheme: GlobSetBuilder,
    binding: GlobSetBuilder,
    context: GlobSetBuilder,
    path: GlobSetBuilder,
    fragment: GlobSetBuilder,
}

impl Builder {
    /// The patterns added for component `c` (1 to 5: scheme, binding,
    /// context, path, fragment), one per selector.
    pub closed spec fn column(self, c: int) -> Seq<Seq<char>> {
        if c == 1 {
            pending_patterns(self.scheme)
        } else if c == 2 {
            pending_patterns(self.binding)
        } else if c == 3 {
            pending_patterns(self.context)
        } else if c == 4 {
            pending_patterns(self.path)
        } else {
            pending_patterns(self.fragment)
        }
    }

    /// Well-formedness: every component has one pattern per selector.
    pub open spec fn wf(self) -> bool {
        &&& self.column(2).len() == self.column(1).len()
        &&& self.column(3).len() == self.column(1).len()
        &&& self.column(4).len() == self.column(1).len()
        &&& self.column(5).len() == self.column(1).len()
        &&& forall|c: int, i: int|
            1 <= c <= 5 && 0 <= i < self.column(c).len() && #[trigger] self.column(c)[i] == everything()
                ==> matches_everything(self.column(c)[i])
    }

    /// Creates a builder without selectors.
    pub fn new() -> (r: Self)
        ensures
            r.wf(),
            forall|c: int| 1 <= c <= 5 ==> #[trigger] r.column(c) == Seq::<Seq<char>>::empty(),
    {
        Self {
            scheme: new_builder(),
            binding: new_builder(),
            context: new_builder(),
            path: new_builder(),
            fragment: new_builder(),
        }
    }

    /// Adds a selector: for each component, its pattern, or `**` where it is
    /// empty.
    ///
    /// Fails, and adds nothing, if the selector cannot be created or one of
    /// its patterns does not compile.
    pub fn add<S: ToSelector>(&mut self, selector: S) -> (r: Result)
        requires
            old(self).wf(),
            selector.convertible(),
        ensures
            final(self).wf(),
            selector.selector_view() matches Err(e) ==> r == Err::<(), Error>(e) && *final(self) == *old(self),
            selector.selector_view() is Ok ==> (r is Ok <==> compiles(selector.selector_view()->Ok_0)),
            selector.selector_view() is Ok && r is Ok ==> forall|c: int| 1 <= c <= 5 ==> #[trigger] final(self).column(c)
                == old(self).column(c).push(pattern(selector.selector_view()->Ok_0, c)),
            selector.selector_view() is Ok && r is Err ==> (r matches Err(Error::Glob(_))) && *final(self)
                == *old(self),
    {
        let converted = match selector.to_selector() {
            Ok(s) => s,
            Err(e) => return Err(e),
        };
        let sel: &Selector = match &converted {
            Cow::Borrowed(b) => *b,
            Cow::Owned(o) => o,
        };
        proof {
            sel.lemma_view();
            assert(selector.selector_view() == Ok::<Seq<Seq<char>>, Error>(sel@));
        }
        let scheme = match parse(&sel.scheme()) {
            Ok(g) => g,
            Err(e) => {
                assert(!glob_valid(pattern(sel@, 1)));
                return Err(e);
            },
        };
        let binding = match parse(&sel.binding()) {
            Ok(g) => g,
            Err(e) => {
                assert(!glob_valid(pattern(sel@, 2)));
                return Err(e);
            },
        };
        let context = match parse(&sel.context()) {
            Ok(g) => g,
            Err(e) => {
                assert(!glob_valid(pattern(sel@, 3)));
                return Err(e);
            },
        };
        let path = match parse(&sel.path()) {
            Ok(g) => g,
            Err(e) => {
                assert(!glob_valid(pattern(sel@, 4)));
                return Err(e);
            },
        };
        let fragment = match parse(&sel.fragment()) {
            Ok(g) => g,
            Err(e) => {
                assert(!glob_valid(pattern(sel@, 5)));
                return Err(e);
            },
        };
        add_glob(&mut self.scheme, scheme);
        add_glob(&mut self.binding, binding);
        add_glob(&mut self.context, context);
        add_glob(&mut self.path, path);
        add_glob(&mut self.fragment, fragment);
        proof {
            let v = sel@;
            assert forall|c: int, i: int|
                1 <= c <= 5 && 0 <= i < self.column(c).len() && #[trigger] self.column(c)[i] == everything()
                    implies matches_everything(self.column(c)[i]) by {
                if i < old(self).column(c).len() {
                    assert(self.column(c)[i] == old(self).column(c)[i]) by {
                        if c == 1 {
                        } else if c == 2 {
                        } else if c == 3 {
                        } else if c == 4 {
                        } else {
                        }
                    }
                } else {
                    if c == 1 {
                    } else if c == 2 {
                    } else if c == 3 {
                    } else if c == 4 {
                    } else {
                    }
                }
            }
            assert forall|c: int| 1 <= c <= 5 implies #[trigger] self.column(c) == old(self).column(c).push(
                pattern(v, c),
            ) by {
                if c == 1 {
                } else if c == 2 {
                } else if c == 3 {
                } else if c == 4 {
                } else {
                }
            }
        }
        Ok(())
    }

    /// Compiles the patterns of each component into a matcher.
    pub fn build(self) -> (r: Result<Matcher>)
        requires
            self.wf(),
        ensures
            r is Ok <==> forall|c: int| 1 <= c <= 5 ==> set_builds(#[trigger] self.column(c)),
            self.column(1).len() == 0 ==> r is Ok,
            r matches Ok(m) ==> m.wf() && forall|c: int| 1 <= c <= 5 ==> #[trigger] m.column(c) == self.column(c),
            r matches Err(e) ==> e is Glob,
    {
        let scheme = match build_set(&self.scheme) {
            Ok(s) => s,
            Err(e) => {
                assert(!set_builds(self.column(1)));
                return Err(Error::Glob(e));
            },
        };
        let binding = match build_set(&self.binding) {
            Ok(s) => s,
            Err(e) => {
                assert(!set_builds(self.column(2)));
                return Err(Error::Glob(e));
            },
        };
        let context = match build_set(&self.context) {
            Ok(s) => s,
            Err(e) => {
                assert(!set_builds(self.column(3)));
                return Err(Error::Glob(e));
            },
        };
        let path = match build_set(&self.path) {
            Ok(s) => s,
            Err(e) => {
                assert(!set_builds(self.column(4)));
                return Err(Error::Glob(e));
            },
        };
        let fragment = match build_set(&self.fragment) {
            Ok(s) => s,
            Err(e) => {
                assert(!set_builds(self.column(5)));
                return Err(Error::Glob(e));
            },
        };
        let m = Matcher { scheme, binding, context, path, fragment };
        proof {
            assert forall|c: int| 1 <= c <= 5 implies set_builds(#[trigger] self.column(c)) by {
                if c == 1 {
                } else if c == 2 {
                } else if c == 3 {
                } else if c == 4 {
                } else {
                }
            }
        }
        Ok(m)
    }
}

/// Compiles a selector pattern, or `**` where it is absent.
fn parse(component: &Option<Cow<'_, str>>) -> (r: Result<globset::Glob>)
    ensures
        r is Ok <==> glob_valid(match component {
            Some(c) => c@,
            None => everything(),
        }),
        r matches Ok(g) ==> super::glob::glob_text(g) == match component {
            Some(c) => c@,
            None => everything(),
        },
        r matches Ok(g) && super::glob::glob_text(g) == everything() ==> matches_everything(everything()),
        r matches Err(e) ==> e is Glob,
{
    proof {
        reveal_strlit("**");
        assert("**"@ =~= everything());
    }
    let text = match component {
        Some(c) => cow_text(c),
        None => "**",
    };
    match compile(text) {
        Ok(g) => Ok(g),
        Err(e) => Err(Error::Glob(e)),
    }
}

} // verus!
