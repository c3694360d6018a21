//! A memoizing wrapper around the parser.
//!
//! The first call for a given exact source string performs the full parse and
//! stores the result keyed by that string; every later call with
//! byte-identical text returns an independently-owned copy of the stored
//! sheet without reparsing.  Failures are never cached: a failing text is
//! reparsed in full on every call.  The cache is unbounded and never evicts.
//!
//! The cache is an explicit value, to be wrapped in whatever sharing and
//! locking the embedding program uses; the caller serializes the whole
//! "look up, and if absent parse and insert" step by holding the cache
//! exclusively (`&mut`) for its duration.

use vstd::prelude::*;

use vstd::string::StrSliceExecFns;

use crate::ast::{Sheet, SpecSheet};
use crate::grammar::spec_sheet;
use crate::parser::{ParseError, Parser};

verus! {

broadcast use vstd::std_specs::vec::group_vec_axioms, vstd::seq::group_seq_axioms;

/// Whether two strings hold the same characters.
fn str_eq(a: &str, b: &str) -> (r: bool)
    ensures
        r == (a@ == b@),
{
    let n = a.unicode_len();
    let m = b.unicode_len();
    if n != m {
        return false;
    }
    let mut k: usize = 0;
    while k < n
        invariant
            0 <= k <= n,
            n == a@.len(),
            n == b@.len(),
            forall|q: int| 0 <= q < k ==> a@[q] == b@[q],
        decreases n - k,
    {
        if a.get_char(k) != b.get_char(k) {
            return false;
        }
        k = k + 1;
    }
    proof {
        assert(a@ =~= b@);
    }
    true
}

/// The memoization table: source text to its parsed sheet, plus a counter of
/// the parses actually performed (the cache misses).
pub struct ParseCache {
    entries: Vec<(String, Sheet)>,
    misses: u64,
}

impl ParseCache {
    /// Whether the exact text `text` has a stored result.
    pub closed spec fn spec_has(&self, text: Seq<char>) -> bool {
        exists|q: int| 0 <= q < self.entries@.len() && (#[trigger] self.entries@[q]).0@ == text
    }

    /// How many parses this cache has performed.
    pub closed spec fn spec_misses(&self) -> u64 {
        self.misses
    }

    /// Every stored entry is the parse of its own key.
    pub closed spec fn wf(&self) -> bool {
        forall|q: int|
            0 <= q < self.entries@.len() ==> spec_sheet((#[trigger] self.entries@[q]).0@)
                == Ok::<SpecSheet, int>(self.entries@[q].1.deep_view())
    }

    /// How many parses this cache has performed: calls of [`Self::parse`]
    /// whose text had no stored result.
    pub fn misses(&self) -> (r: u64)
        ensures
            r == self.spec_misses(),
    {
        self.misses
    }

    /// An empty cache: nothing stored, no parse performed yet.
    pub fn new() -> (r: Self)
        ensures
            r.wf(),
            r.spec_misses() == 0,
            forall|t: Seq<char>| !#[trigger] r.spec_has(t),
    {
        ParseCache { entries: Vec::new(), misses: 0 }
    }

    /// The stored entry index for `css`, if any.
    fn lookup(&self, css: &str) -> (r: Option<usize>)
        ensures
            match r {
                Some(q) => q < self.entries@.len() && self.entries@[q as int].0@ == css@,
                None => !self.spec_has(css@),
            },
    {
        let mut q: usize = 0;
        while q < self.entries.len()
            invariant
                0 <= q <= self.entries@.len(),
                forall|p: int| 0 <= p < q ==> (#[trigger] self.entries@[p]).0@ != css@,
            decreases self.entries@.len() - q,
        {
            if str_eq(self.entries[q].0.as_str(), css) {
                return Some(q);
            }
            q = q + 1;
        }
        None
    }

    /// Parse `css`, reusing the stored sheet for byte-identical text.
    ///
    /// From the caller's perspective this is exactly [`Parser::parse`]: the
    /// result is pinned to the grammar whether it was parsed now or found in
    /// the table.  The miss counter grows exactly when the text had no stored
    /// result, so repeated calls with identical text parse at most once; a
    /// successful parse is stored, a failure is not.
    pub fn parse(&mut self, css: &str) -> (r: Result<Sheet, ParseError>)
        requires
            old(self).wf(),
            old(self).spec_misses() < u64::MAX,
        ensures
            final(self).wf(),
            match r {
                Ok(sheet) => spec_sheet(css@) == Ok::<SpecSheet, int>(sheet.deep_view()),
                Err(e) => spec_sheet(css@) == Err::<SpecSheet, int>(e.offset as int),
            },
            final(self).spec_misses() == old(self).spec_misses() + (
            if old(self).spec_has(css@) {
                0int
            } else {
                1int
            }),
            forall|t: Seq<char>|
                #[trigger] final(self).spec_has(t) == (old(self).spec_has(t) || (t == css@
                    && spec_sheet(css@) is Ok)),
    {
        let ghost pre = *self;
        match self.lookup(css) {
            Some(q) => {
                proof {
                    assert(self.spec_has(css@));
                }
                let sheet = self.entries[q].1.duplicate();
                Ok(sheet)
            },
            None => {
                self.misses = self.misses + 1;
                match Parser::parse(css) {
                    Ok(sheet) => {
                        let copy = sheet.duplicate();
                        let key = css.to_owned();
                        self.entries.push((key, copy));
                        proof {
                            let n = pre.entries@.len();
                            assert(self.entries@[n as int].0@ == css@);
                            assert forall|t: Seq<char>|
                                #[trigger] self.spec_has(t) == (pre.spec_has(t) || (t == css@
                                    && spec_sheet(css@) is Ok)) by {
                                if pre.spec_has(t) {
                                    let w = choose|p: int|
                                        0 <= p < pre.entries@.len() && (#[trigger] pre.entries@[p]).0@
                                            == t;
                                    assert(self.entries@[w].0@ == t);
                                }
                                if t == css@ {
                                    assert(self.entries@[n as int].0@ == t);
                                }
                                if self.spec_has(t) && t != css@ {
                                    let w = choose|p: int|
                                        0 <= p < self.entries@.len() && (
                                        #[trigger] self.entries@[p]).0@ == t;
                                    assert(w < n);
                                    assert(pre.entries@[w].0@ == t);
                                }
                            }
                        }
                        Ok(sheet)
                    },
                    Err(e) => {
                        proof {
                            assert(self.entries@ == pre.entries@);
                        }
                        Err(e)
                    },
                }
            },
        }
    }
}

} // verus!
