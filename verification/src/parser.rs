//! The executable stylesheet parser.
//!
//! A hand-rolled recursive-descent parser over character positions, one
//! function per grammar rule.  Every function is proved to return exactly
//! what the corresponding specification function in [`crate::grammar`] says,
//! so [`Parser::parse`] is pinned down completely: it returns `Ok` exactly
//! when [`spec_sheet`] does, with exactly that sheet.

use vstd::prelude::*;
use vstd::string::StrSliceExecFns;

use crate::ast::{Block, Rule, RuleContent, ScopeContent, Selector, Sheet, SpecSheet,
    StringFragment, StyleAttribute};
use crate::grammar::{FragMode, is_ident_char, is_ident_start, is_name_char,
    is_name_start, is_stop, is_ws, media_tag, spec_at_condition, spec_at_rule, spec_attr_list,
    spec_attribute, spec_block, spec_chunk_end, spec_comment_close, spec_comment_end,
    spec_condition, spec_dangling_attribute, spec_dangling_attributes, spec_frag_run,
    spec_ident_end, spec_ident_scan, spec_interp, spec_lit_at, spec_name_end, spec_name_scan,
    spec_opaque_chunk_end, spec_opaque_chunk_end_braces_only, spec_opaque_contents,
    spec_opaque_rule, spec_scope_content, spec_scope_list, spec_selector, spec_sheet,
    spec_starts_with, spec_string_end, spec_string_tail, spec_to_rule_contents, spec_trim,
    spec_trim_final, spec_trim_left, spec_trim_right, spec_trivia_end, spec_ws_end, supports_tag,
    rem, group_grammar_bounds};

verus! {

broadcast use group_grammar_bounds, vstd::std_specs::vec::group_vec_axioms,
    vstd::seq::group_seq_axioms;

// ---------------------------------------------------------------------------
// character classes, executable
// ---------------------------------------------------------------------------
/// Executable mirror of [`is_ws`].
fn ws_char(c: char) -> (r: bool)
    ensures
        r == is_ws(c),
{
    c == ' ' || c == '\t' || c == '\r' || c == '\n'
}

/// Executable mirror of [`is_ident_start`] and [`is_ident_char`]: with
/// `start` set, a digit is refused.
fn ident_char(c: char, start: bool) -> (r: bool)
    ensures
        start ==> r == is_ident_start(c),
        !start ==> r == is_ident_char(c),
{
    if start && '0' <= c && c <= '9' {
        false
    } else {
        c == '-' || c == '_' || ('a' <= c && c <= 'z') || ('A' <= c && c <= 'Z') || ('0' <= c && c
            <= '9') || c > '\x7f'
    }
}

/// Executable mirror of [`is_name_start`] and [`is_name_char`].
fn name_char(c: char, start: bool) -> (r: bool)
    ensures
        start ==> r == is_name_start(c),
        !start ==> r == is_name_char(c),
{
    if start && '0' <= c && c <= '9' {
        false
    } else {
        c == '_' || ('a' <= c && c <= 'z') || ('A' <= c && c <= 'Z') || ('0' <= c && c <= '9') || c
            > '\x7f'
    }
}

/// Executable mirror of [`is_stop`].
fn stop_char(mode: FragMode, c: char) -> (r: bool)
    ensures
        r == is_stop(mode, c),
{
    match mode {
        FragMode::Value => c == ';' || c == '{' || c == '}',
        FragMode::Selector => c == ',' || c == '{',
        FragMode::Prelude => c == '{',
    }
}

/// A lightweight parser over the stylesheet grammar.
#[derive(Debug)]
pub struct Parser {}

impl Parser {
    /// Skip whitespace: the executable [`spec_ws_end`].
    fn sp(s: &str, i: usize) -> (r: usize)
        requires
            i <= s@.len(),
        ensures
            r == spec_ws_end(s@, i as int),
            i <= r <= s@.len(),
    {
        let n = s.unicode_len();
        let mut j = i;
        while j < n && ws_char(s.get_char(j))
            invariant
                i <= j <= n,
                n == s@.len(),
                spec_ws_end(s@, i as int) == spec_ws_end(s@, j as int),
            decreases n - j,
        {
            j = j + 1;
        }
        j
    }

    /// Scan for the closing `*/`: the executable [`spec_comment_close`].
    fn cmt_close(s: &str, i: usize) -> (r: Option<usize>)
        requires
            i <= s@.len(),
        ensures
            match r {
                Some(j) => spec_comment_close(s@, i as int) == Some(j as int) && j <= s@.len(),
                None => spec_comment_close(s@, i as int) is None,
            },
    {
        let n = s.unicode_len();
        let mut j = i;
        while j < n && j + 1 < n && !(s.get_char(j) == '*' && s.get_char(j + 1) == '/')
            invariant
                i <= j <= n,
                n == s@.len(),
                spec_comment_close(s@, i as int) == spec_comment_close(s@, j as int),
            decreases n - j,
        {
            j = j + 1;
        }
        if j < n && j + 1 < n {
            Some(j + 2)
        } else {
            None
        }
    }

    /// Parse a comment starting exactly here: the executable
    /// [`spec_comment_end`].
    fn cmt(s: &str, i: usize) -> (r: Option<usize>)
        requires
            i <= s@.len(),
        ensures
            match r {
                Some(j) => spec_comment_end(s@, i as int) == Some(j as int) && j <= s@.len(),
                None => spec_comment_end(s@, i as int) is None,
            },
    {
        let n = s.unicode_len();
        if i < n && i + 1 < n && s.get_char(i) == '/' && s.get_char(i + 1) == '*' {
            Self::cmt_close(s, i + 2)
        } else {
            None
        }
    }

    /// Skip whitespace and comments: the executable [`spec_trivia_end`].
    fn trivia(s: &str, i: usize) -> (r: usize)
        requires
            i <= s@.len(),
        ensures
            r == spec_trivia_end(s@, i as int),
            i <= r <= s@.len(),
        decreases rem(s@, i as int),
    {
        let w = Self::sp(s, i);
        match Self::cmt(s, w) {
            Some(j) => if i < j {
                Self::trivia(s, j)
            } else {
                w
            },
            None => w,
        }
    }

    /// Parse a double-quoted string starting exactly here, returning the
    /// position just past its closing quote: the executable
    /// [`spec_string_end`].
    fn string(s: &str, i: usize) -> (r: Option<usize>)
        requires
            i <= s@.len(),
        ensures
            match r {
                Some(j) => spec_string_end(s@, i as int) == Some(j as int) && i < j <= s@.len(),
                None => spec_string_end(s@, i as int) is None,
            },
    {
        let n = s.unicode_len();
        if i < n && s.get_char(i) == '"' {
            let mut j = i + 1;
            loop
                invariant
                    i < n,
                    s@[i as int] == '"',
                    i + 1 <= j <= n,
                    n == s@.len(),
                    spec_string_tail(s@, i + 1 as int) == spec_string_tail(s@, j as int),
                decreases n - j,
            {
                if j >= n {
                    return None;
                }
                let c = s.get_char(j);
                if c == '"' {
                    return Some(j + 1);
                } else if c == '\\' {
                    if j + 1 < n {
                        j = j + 2;
                    } else {
                        return None;
                    }
                } else {
                    j = j + 1;
                }
            }
        } else {
            None
        }
    }

    /// Parse an identifier-like key starting exactly here, returning the
    /// position just past it: the executable [`spec_ident_end`].
    fn ident(s: &str, i: usize) -> (r: Option<usize>)
        requires
            i <= s@.len(),
        ensures
            match r {
                Some(e) => spec_ident_end(s@, i as int) == Some(e as int) && i < e <= s@.len(),
                None => spec_ident_end(s@, i as int) is None,
            },
    {
        let n = s.unicode_len();
        if i < n && ident_char(s.get_char(i), true) {
            let mut j = i + 1;
            while j < n && ident_char(s.get_char(j), false)
                invariant
                    i + 1 <= j <= n,
                    n == s@.len(),
                    spec_ident_scan(s@, i + 1 as int) == spec_ident_scan(s@, j as int),
                decreases n - j,
            {
                j = j + 1;
            }
            Some(j)
        } else {
            None
        }
    }

    /// Parse a placeholder name starting exactly here: the executable
    /// [`spec_name_end`].
    fn interp_name(s: &str, i: usize) -> (r: Option<usize>)
        requires
            i <= s@.len(),
        ensures
            match r {
                Some(e) => spec_name_end(s@, i as int) == Some(e as int) && i < e <= s@.len(),
                None => spec_name_end(s@, i as int) is None,
            },
    {
        let n = s.unicode_len();
        if i < n && name_char(s.get_char(i), true) {
            let mut j = i + 1;
            while j < n && name_char(s.get_char(j), false)
                invariant
                    i + 1 <= j <= n,
                    n == s@.len(),
                    spec_name_scan(s@, i + 1 as int) == spec_name_scan(s@, j as int),
                decreases n - j,
            {
                j = j + 1;
            }
            Some(j)
        } else {
            None
        }
    }

    /// Parse a string interpolation `${ name }` starting exactly here,
    /// returning the name: the executable [`spec_interp`].
    fn interpolation(s: &str, i: usize) -> (r: Option<(String, usize)>)
        requires
            i <= s@.len(),
        ensures
            match r {
                Some(p) => spec_interp(s@, i as int) == Some((p.0@, p.1 as int)) && i < p.1
                    <= s@.len(),
                None => spec_interp(s@, i as int) is None,
            },
    {
        let n = s.unicode_len();
        if i < n && i + 1 < n && s.get_char(i) == '$' && s.get_char(i + 1) == '{' {
            let a = Self::sp(s, i + 2);
            match Self::interp_name(s, a) {
                Some(b) => {
                    let w = Self::sp(s, b);
                    if w < n && s.get_char(w) == '}' {
                        let name = s.substring_char(a, b).to_owned();
                        Some((name, w + 1))
                    } else {
                        None
                    }
                },
                None => None,
            }
        } else {
            None
        }
    }
    /// Whether `pat` occurs in `s` exactly at position `i`: the executable
    /// [`spec_lit_at`].
    fn lit_at(s: &str, i: usize, pat: &str) -> (r: bool)
        requires
            i <= s@.len(),
        ensures
            r == spec_lit_at(s@, i as int, pat@),
    {
        let n = s.unicode_len();
        let m = pat.unicode_len();
        if m > n - i {
            return false;
        }
        let mut k: usize = 0;
        while k < m
            invariant
                0 <= k <= m,
                i + m <= n,
                n == s@.len(),
                m == pat@.len(),
                forall|q: int| 0 <= q < k ==> s@[i + q] == pat@[q],
            decreases m - k,
        {
            if s.get_char(i + k) != pat.get_char(k) {
                proof {
                    assert(spec_lit_at(s@, i as int, pat@) ==> s@.subrange(
                        i as int,
                        i + m as int,
                    )[k as int] == pat@[k as int]);
                }
                return false;
            }
            k = k + 1;
        }
        proof {
            assert(s@.subrange(i as int, i + m as int) =~= pat@);
        }
        true
    }

    /// Whether `t` starts with `pat`: the executable [`spec_starts_with`].
    fn starts_with_str(t: &str, pat: &str) -> (r: bool)
        ensures
            r == spec_starts_with(t@, pat@),
    {
        let n = t.unicode_len();
        let m = pat.unicode_len();
        if m > n {
            return false;
        }
        let mut k: usize = 0;
        while k < m
            invariant
                0 <= k <= m,
                m <= n,
                n == t@.len(),
                m == pat@.len(),
                forall|q: int| 0 <= q < k ==> t@[q] == pat@[q],
            decreases m - k,
        {
            if t.get_char(k) != pat.get_char(k) {
                proof {
                    assert(spec_starts_with(t@, pat@) ==> t@.subrange(0, m as int)[k as int]
                        == pat@[k as int]);
                }
                return false;
            }
            k = k + 1;
        }
        proof {
            assert(t@.subrange(0, m as int) =~= pat@);
        }
        true
    }

    /// Scan one maximal literal span: the executable [`spec_chunk_end`].
    fn chunk_end(s: &str, i: usize, mode: FragMode) -> (r: usize)
        requires
            i <= s@.len(),
        ensures
            r == spec_chunk_end(s@, i as int, mode),
            i <= r <= s@.len(),
    {
        let n = s.unicode_len();
        let mut j = i;
        loop
            invariant
                i <= j <= n,
                n == s@.len(),
                spec_chunk_end(s@, i as int, mode) == spec_chunk_end(s@, j as int, mode),
            decreases n - j,
        {
            if j >= n {
                return j;
            }
            let c = s.get_char(j);
            if stop_char(mode, c) || c == '$' {
                return j;
            }
            if c == '"' {
                match Self::string(s, j) {
                    Some(k) => {
                        j = k;
                    },
                    None => {
                        return j;
                    },
                }
            } else if c == '/' && j + 1 < n && s.get_char(j + 1) == '*' {
                return j;
            } else {
                j = j + 1;
            }
        }
    }

    /// Parse a run of fragments: the executable [`spec_frag_run`].
    fn fragments(s: &str, i: usize, mode: FragMode) -> (r: (Vec<StringFragment>, usize))
        requires
            i <= s@.len(),
        ensures
            r.0.deep_view() == spec_frag_run(s@, i as int, mode).0,
            r.1 == spec_frag_run(s@, i as int, mode).1,
            i <= r.1 <= s@.len(),
        decreases rem(s@, i as int),
    {
        let n = s.unicode_len();
        let empty: Vec<StringFragment> = Vec::new();
        proof {
            assert(empty.deep_view() =~= Seq::<crate::ast::SpecFragment>::empty());
        }
        if i >= n {
            return (empty, i);
        }
        let c = s.get_char(i);
        if stop_char(mode, c) {
            return (empty, i);
        }
        if c == '$' {
            match Self::interpolation(s, i) {
                Some((name, j)) => {
                    if i < j {
                        let (mut rest, e) = Self::fragments(s, j, mode);
                        let ghost pre = rest.deep_view();
                        rest.insert(0, StringFragment::Interpolation(name));
                        proof {
                            assert(rest.deep_view() =~= seq![
                                crate::ast::SpecFragment::Interpolation(name@),
                            ] + pre);
                        }
                        (rest, e)
                    } else {
                        (empty, i)
                    }
                },
                None => (empty, i),
            }
        } else if c == '/' && i + 1 < n && s.get_char(i + 1) == '*' {
            match Self::cmt(s, i) {
                Some(j) => if i < j {
                    Self::fragments(s, j, mode)
                } else {
                    (empty, i)
                },
                None => (empty, i),
            }
        } else {
            let e = Self::chunk_end(s, i, mode);
            if i < e {
                let text = s.substring_char(i, e).to_owned();
                let (mut rest, k) = Self::fragments(s, e, mode);
                let ghost pre = rest.deep_view();
                rest.insert(0, StringFragment::Literal(text));
                proof {
                    assert(rest.deep_view() =~= seq![crate::ast::SpecFragment::Literal(text@)]
                        + pre);
                }
                (rest, k)
            } else {
                (empty, i)
            }
        }
    }

    /// Parse one selector entry: the executable [`spec_selector`].
    pub fn selector(s: &str, i: usize) -> (r: Option<(Selector, usize)>)
        requires
            i <= s@.len(),
        ensures
            match r {
                Some(p) => spec_selector(s@, i as int) == Some((p.0@, p.1 as int)) && p.1
                    <= s@.len(),
                None => spec_selector(s@, i as int) is None,
            },
    {
        let n = s.unicode_len();
        let t = Self::trivia(s, i);
        if t < n && (s.get_char(t) == '@' || s.get_char(t) == '}') {
            return None;
        }
        let (raw, j) = Self::fragments(s, t, FragMode::Selector);
        let v = trim_fragments(raw);
        if v.len() == 0 {
            None
        } else {
            Some((Selector { fragments: v }, j))
        }
    }

    /// Parse a selector list: the executable [`spec_condition`].
    fn condition(s: &str, i: usize) -> (r: Option<(Vec<Selector>, usize)>)
        requires
            i <= s@.len(),
        ensures
            match r {
                Some(p) => spec_condition(s@, i as int) == Some((p.0.deep_view(), p.1 as int))
                    && p.1 <= s@.len(),
                None => spec_condition(s@, i as int) is None,
            },
        decreases rem(s@, i as int),
    {
        let n = s.unicode_len();
        match Self::selector(s, i) {
            None => None,
            Some((sel, j)) => {
                if i <= j && j < n && s.get_char(j) == ',' {
                    match Self::condition(s, j + 1) {
                        Some((mut rest, k)) => {
                            let ghost pre = rest.deep_view();
                            rest.insert(0, sel);
                            proof {
                                assert(rest.deep_view() =~= seq![sel@] + pre);
                            }
                            Some((rest, k))
                        },
                        None => {
                            let mut one: Vec<Selector> = Vec::new();
                            one.push(sel);
                            proof {
                                assert(one.deep_view() =~= seq![sel@]);
                            }
                            Some((one, j + 1))
                        },
                    }
                } else {
                    let mut one: Vec<Selector> = Vec::new();
                    one.push(sel);
                    proof {
                        assert(one.deep_view() =~= seq![sel@]);
                    }
                    Some((one, j))
                }
            },
        }
    }

    /// Parse one `key: value` attribute: the executable [`spec_attribute`].
    fn attribute(s: &str, i: usize) -> (r: Option<(StyleAttribute, usize)>)
        requires
            i <= s@.len(),
        ensures
            match r {
                Some(p) => spec_attribute(s@, i as int) == Some((p.0@, p.1 as int)) && i < p.1
                    <= s@.len(),
                None => spec_attribute(s@, i as int) is None,
            },
    {
        let n = s.unicode_len();
        let t0 = Self::trivia(s, i);
        match Self::ident(s, t0) {
            None => None,
            Some(e) => {
                let t1 = Self::trivia(s, e);
                if t1 < n && s.get_char(t1) == ':' {
                    let t2 = Self::trivia(s, t1 + 1);
                    let (raw, j) = Self::fragments(s, t2, FragMode::Value);
                    let v = trim_fragments(raw);
                    if v.len() == 0 {
                        None
                    } else {
                        let key = s.substring_char(t0, e).to_owned();
                        Some((StyleAttribute { key, value: v }, j))
                    }
                } else {
                    None
                }
            },
        }
    }

    /// Parse one dangling attribute `key: value;`: the executable
    /// [`spec_dangling_attribute`].
    fn dangling_attribute(s: &str, i: usize) -> (r: Option<(StyleAttribute, usize)>)
        requires
            i <= s@.len(),
        ensures
            match r {
                Some(p) => spec_dangling_attribute(s@, i as int) == Some((p.0@, p.1 as int)) && i
                    < p.1 <= s@.len(),
                None => spec_dangling_attribute(s@, i as int) is None,
            },
    {
        let n = s.unicode_len();
        match Self::attribute(s, i) {
            Some((a, j)) => if j < n && s.get_char(j) == ';' {
                Some((a, j + 1))
            } else {
                None
            },
            None => None,
        }
    }

    /// Parse a run of dangling attributes: the executable
    /// [`spec_dangling_attributes`].
    fn dangling_attributes(s: &str, i: usize) -> (r: Option<(Vec<StyleAttribute>, usize)>)
        requires
            i <= s@.len(),
        ensures
            match r {
                Some(p) => spec_dangling_attributes(s@, i as int) == Some(
                    (p.0.deep_view(), p.1 as int),
                ) && i < p.1 <= s@.len(),
                None => spec_dangling_attributes(s@, i as int) is None,
            },
        decreases rem(s@, i as int),
    {
        match Self::dangling_attribute(s, i) {
            None => None,
            Some((a, j)) => {
                if i < j {
                    match Self::dangling_attributes(s, j) {
                        Some((mut rest, k)) => {
                            let ghost pre = rest.deep_view();
                            rest.insert(0, a);
                            proof {
                                assert(rest.deep_view() =~= seq![a@] + pre);
                            }
                            Some((rest, k))
                        },
                        None => {
                            let mut one: Vec<StyleAttribute> = Vec::new();
                            one.push(a);
                            proof {
                                assert(one.deep_view() =~= seq![a@]);
                            }
                            Some((one, j))
                        },
                    }
                } else {
                    let mut one: Vec<StyleAttribute> = Vec::new();
                    one.push(a);
                    proof {
                        assert(one.deep_view() =~= seq![a@]);
                    }
                    Some((one, j))
                }
            },
        }
    }

    /// Parse the attribute list of a block body: the executable
    /// [`spec_attr_list`].
    fn attributes(s: &str, i: usize) -> (r: (Vec<StyleAttribute>, usize))
        requires
            i <= s@.len(),
        ensures
            r.0.deep_view() == spec_attr_list(s@, i as int).0,
            r.1 == spec_attr_list(s@, i as int).1,
            i <= r.1 <= s@.len(),
        decreases rem(s@, i as int),
    {
        let n = s.unicode_len();
        match Self::attribute(s, i) {
            None => {
                let empty: Vec<StyleAttribute> = Vec::new();
                proof {
                    assert(empty.deep_view() =~= Seq::<crate::ast::SpecStyleAttribute>::empty());
                }
                (empty, i)
            },
            Some((a, j)) => {
                if i <= j && j < n && s.get_char(j) == ';' {
                    let (mut rest, k) = Self::attributes(s, j + 1);
                    let ghost pre = rest.deep_view();
                    rest.insert(0, a);
                    proof {
                        assert(rest.deep_view() =~= seq![a@] + pre);
                    }
                    (rest, k)
                } else {
                    let mut one: Vec<StyleAttribute> = Vec::new();
                    one.push(a);
                    proof {
                        assert(one.deep_view() =~= seq![a@]);
                    }
                    (one, j)
                }
            },
        }
    }

    /// Parse the prelude of a recognised at-rule: the executable
    /// [`spec_at_condition`].
    fn at_rule_condition(s: &str, i: usize) -> (r: Option<(Vec<StringFragment>, usize)>)
        requires
            i <= s@.len(),
        ensures
            match r {
                Some(p) => spec_at_condition(s@, i as int) == Some((p.0.deep_view(), p.1 as int))
                    && p.1 <= s@.len(),
                None => spec_at_condition(s@, i as int) is None,
            },
    {
        let t = Self::trivia(s, i);
        let is_sup = Self::lit_at(s, t, "@supports ");
        let tag_str: &str = if is_sup {
            "@supports "
        } else {
            "@media "
        };
        proof {
            assert(tag_str@ == if spec_lit_at(s@, t as int, supports_tag()) {
                supports_tag()
            } else {
                media_tag()
            });
        }
        if Self::lit_at(s, t, tag_str) {
            let n = s.unicode_len();
            let tag_len = tag_str.unicode_len();
            proof {
                assert(t + tag_len <= n);
            }
            let t2 = Self::trivia(s, t + tag_len);
            let (raw, j) = Self::fragments(s, t2, FragMode::Prelude);
            let mut v = trim_fragments(raw);
            if v.len() == 0 {
                None
            } else {
                let ghost pre = v.deep_view();
                v.insert(0, StringFragment::Literal(tag_str.to_owned()));
                proof {
                    assert(v.deep_view() =~= seq![crate::ast::SpecFragment::Literal(tag_str@)]
                        + pre);
                }
                Some((v, j))
            }
        } else {
            None
        }
    }

    /// Scan the name/condition span of an opaque at-rule: the executable
    /// [`spec_opaque_chunk_end_braces_only`].
    fn at_name_end(s: &str, i: usize) -> (r: usize)
        requires
            i <= s@.len(),
        ensures
            r == spec_opaque_chunk_end_braces_only(s@, i as int),
            i <= r <= s@.len(),
    {
        let n = s.unicode_len();
        let mut j = i;
        while j < n && s.get_char(j) != '{'
            invariant
                i <= j <= n,
                n == s@.len(),
                spec_opaque_chunk_end_braces_only(s@, i as int)
                    == spec_opaque_chunk_end_braces_only(s@, j as int),
            decreases n - j,
        {
            j = j + 1;
        }
        j
    }

    /// Scan one brace-free text span of an opaque body: the executable
    /// [`spec_opaque_chunk_end`].
    fn rule_text_end(s: &str, i: usize) -> (r: usize)
        requires
            i <= s@.len(),
        ensures
            r == spec_opaque_chunk_end(s@, i as int),
            i <= r <= s@.len(),
    {
        let n = s.unicode_len();
        let mut j = i;
        loop
            invariant
                i <= j <= n,
                n == s@.len(),
                spec_opaque_chunk_end(s@, i as int) == spec_opaque_chunk_end(s@, j as int),
            decreases n - j,
        {
            if j >= n {
                return j;
            }
            let c = s.get_char(j);
            if c == '{' || c == '}' {
                return j;
            }
            if c == '"' {
                match Self::string(s, j) {
                    Some(k) => {
                        j = k;
                    },
                    None => {
                        j = j + 1;
                    },
                }
            } else {
                j = j + 1;
            }
        }
    }

    /// Parse the raw contents of an opaque at-rule body: the executable
    /// [`spec_opaque_contents`].
    fn rule_contents(s: &str, i: usize) -> (r: (Vec<RuleContent>, usize))
        requires
            i <= s@.len(),
        ensures
            r.0.deep_view() == spec_opaque_contents(s@, i as int).0,
            r.1 == spec_opaque_contents(s@, i as int).1,
            i <= r.1 <= s@.len(),
        decreases rem(s@, i as int),
    {
        let n = s.unicode_len();
        let empty: Vec<RuleContent> = Vec::new();
        proof {
            assert(empty.deep_view() =~= Seq::<crate::ast::SpecRuleContent>::empty());
        }
        if i >= n {
            return (empty, i);
        }
        let c = s.get_char(i);
        if c == '}' {
            return (empty, i);
        }
        if c == '{' {
            let (mut sub, k) = Self::rule_contents(s, i + 1);
            if i < k && k < n && s.get_char(k) == '}' {
                let (mut rest, m) = Self::rule_contents(s, k + 1);
                let ghost sub_pre = sub.deep_view();
                let ghost rest_pre = rest.deep_view();
                let mut out: Vec<RuleContent> = Vec::new();
                out.push(RuleContent::String("{".to_owned()));
                out.append(&mut sub);
                out.push(RuleContent::String("}".to_owned()));
                out.append(&mut rest);
                proof {
                    assert(out.deep_view() =~= seq![crate::ast::SpecRuleContent::String("{"@)]
                        + sub_pre + seq![crate::ast::SpecRuleContent::String("}"@)] + rest_pre);
                }
                (out, m)
            } else {
                (empty, i)
            }
        } else {
            let e = Self::rule_text_end(s, i);
            if i < e {
                let text = trim_str(s.substring_char(i, e));
                let (rest, m) = Self::rule_contents(s, e);
                if text.as_str().is_empty() {
                    (rest, m)
                } else {
                    let mut rest = rest;
                    let ghost pre = rest.deep_view();
                    rest.insert(0, RuleContent::String(text));
                    proof {
                        assert(rest.deep_view() =~= seq![
                            crate::ast::SpecRuleContent::String(text@),
                        ] + pre);
                    }
                    (rest, m)
                }
            } else {
                (empty, i)
            }
        }
    }

    /// Parse an opaque at-rule: the executable [`spec_opaque_rule`].
    fn rule(s: &str, i: usize) -> (r: Option<(Rule, usize)>)
        requires
            i <= s@.len(),
        ensures
            match r {
                Some(p) => spec_opaque_rule(s@, i as int) == Some((p.0@, p.1 as int)) && i < p.1
                    <= s@.len(),
                None => spec_opaque_rule(s@, i as int) is None,
            },
    {
        let n = s.unicode_len();
        let t = Self::trivia(s, i);
        if t < n && s.get_char(t) == '@' {
            let e = Self::at_name_end(s, t + 1);
            if t + 1 < e && e < n && s.get_char(e) == '{' {
                let name = s.substring_char(t, e);
                if Self::starts_with_str(name, "@media") || Self::starts_with_str(
                    name,
                    "@supports",
                ) {
                    None
                } else {
                    let (items, k) = Self::rule_contents(s, e + 1);
                    if k < n && s.get_char(k) == '}' {
                        let cond_text = trim_str(name);
                        let mut condition: Vec<StringFragment> = Vec::new();
                        condition.push(StringFragment::Literal(cond_text));
                        let out = Rule { condition, content: items };
                        proof {
                            assert(condition.deep_view() =~= seq![
                                crate::ast::SpecFragment::Literal(
                                    crate::grammar::spec_trim(s@.subrange(t as int, e as int)),
                                ),
                            ]);
                            crate::ast::lemma_rule_contents_model(items@);
                            assert(crate::ast::spec_rule_contents_model(items@)
                                =~= items.deep_view());
                        }
                        Some((out, k + 1))
                    } else {
                        None
                    }
                }
            } else {
                None
            }
        } else {
            None
        }
    }

    /// Turn the scope items of a recognised at-rule body into rule contents:
    /// the executable [`spec_to_rule_contents`].
    fn to_rule_contents(items: Vec<ScopeContent>) -> (r: Vec<RuleContent>)
        ensures
            r.deep_view() == spec_to_rule_contents(items.deep_view()),
        decreases items@.len(),
    {
        let mut items = items;
        let ghost whole = items.deep_view();
        if items.len() == 0 {
            let empty: Vec<RuleContent> = Vec::new();
            proof {
                assert(empty.deep_view() =~= Seq::<crate::ast::SpecRuleContent>::empty());
            }
            empty
        } else {
            let head = items.remove(0);
            proof {
                assert(items.deep_view() =~= whole.drop_first());
            }
            let mapped = match head {
                ScopeContent::Block(b) => RuleContent::Block(b),
                ScopeContent::Rule(r) => RuleContent::Rule(r),
            };
            let mut rest = Self::to_rule_contents(items);
            let ghost pre = rest.deep_view();
            rest.insert(0, mapped);
            proof {
                assert(rest.deep_view() =~= seq![
                    crate::grammar::spec_to_rule_content(whole[0]),
                ] + pre);
            }
            rest
        }
    }

    /// Parse a qualified block: the executable [`spec_block`].
    fn block(s: &str, i: usize) -> (r: Option<(Block, usize)>)
        requires
            i <= s@.len(),
        ensures
            match r {
                Some(p) => spec_block(s@, i as int) == Some((p.0@, p.1 as int)) && i < p.1
                    <= s@.len(),
                None => spec_block(s@, i as int) is None,
            },
    {
        let n = s.unicode_len();
        match Self::condition(s, i) {
            None => None,
            Some((sels, j)) => {
                let t = Self::trivia(s, j);
                if t < n && s.get_char(t) == '{' {
                    let (attrs, k) = Self::attributes(s, t + 1);
                    let t2 = Self::trivia(s, k);
                    if t2 < n && s.get_char(t2) == '}' {
                        Some((Block { condition: sels, style_attributes: attrs }, t2 + 1))
                    } else {
                        None
                    }
                } else {
                    None
                }
            },
        }
    }
}

impl Parser {
    /// Parse a recognised at-rule: the executable [`spec_at_rule`].
    fn at_rule(s: &str, i: usize) -> (r: Option<(Rule, usize)>)
        requires
            i <= s@.len(),
        ensures
            match r {
                Some(p) => spec_at_rule(s@, i as int) == Some((p.0@, p.1 as int)) && i < p.1
                    <= s@.len(),
                None => spec_at_rule(s@, i as int) is None,
            },
        decreases rem(s@, i as int), 0int,
    {
        let n = s.unicode_len();
        match Self::at_rule_condition(s, i) {
            None => None,
            Some((cond, j)) => {
                if i <= j && j < n && s.get_char(j) == '{' {
                    let (items, k) = Self::scope_contents(s, j + 1);
                    let ghost items_deep = items.deep_view();
                    if k < n && s.get_char(k) == '}' {
                        let content = Self::to_rule_contents(items);
                        let out = Rule { condition: cond, content };
                        proof {
                            crate::ast::lemma_rule_contents_model(content@);
                            assert(crate::ast::spec_rule_contents_model(content@)
                                =~= content.deep_view());
                        }
                        Some((out, k + 1))
                    } else {
                        None
                    }
                } else {
                    None
                }
            },
        }
    }

    /// Parse one scope item, trying the four alternatives in their fixed
    /// order: the executable [`spec_scope_content`].
    fn scope_content(s: &str, i: usize) -> (r: Option<(ScopeContent, usize)>)
        requires
            i <= s@.len(),
        ensures
            match r {
                Some(p) => spec_scope_content(s@, i as int) == Some((p.0@, p.1 as int)) && i < p.1
                    <= s@.len(),
                None => spec_scope_content(s@, i as int) is None,
            },
        decreases rem(s@, i as int), 1int,
    {
        match Self::dangling_attributes(s, i) {
            Some((attrs, j)) => {
                let condition: Vec<Selector> = Vec::new();
                proof {
                    assert(condition.deep_view() =~= Seq::<crate::ast::SpecSelector>::empty());
                }
                Some((ScopeContent::Block(Block { condition, style_attributes: attrs }), j))
            },
            None => match Self::block(s, i) {
                Some((b, j)) => Some((ScopeContent::Block(b), j)),
                None => match Self::at_rule(s, i) {
                    Some((r, j)) => Some((ScopeContent::Rule(r), j)),
                    None => match Self::rule(s, i) {
                        Some((r, j)) => Some((ScopeContent::Rule(r), j)),
                        None => None,
                    },
                },
            },
        }
    }

    /// Parse a whole scope: the executable [`spec_scope_list`].
    fn scope_contents(s: &str, i: usize) -> (r: (Vec<ScopeContent>, usize))
        requires
            i <= s@.len(),
        ensures
            r.0.deep_view() == spec_scope_list(s@, i as int).0,
            r.1 == spec_scope_list(s@, i as int).1,
            i <= r.1 <= s@.len(),
        decreases rem(s@, i as int), 2int,
    {
        match Self::scope_content(s, i) {
            Some((item, j)) => {
                if i < j {
                    let (mut rest, k) = Self::scope_contents(s, j);
                    let ghost pre = rest.deep_view();
                    rest.insert(0, item);
                    proof {
                        assert(rest.deep_view() =~= seq![item@] + pre);
                    }
                    (rest, k)
                } else {
                    let empty: Vec<ScopeContent> = Vec::new();
                    proof {
                        assert(empty.deep_view() =~= Seq::<crate::ast::SpecScopeContent>::empty());
                    }
                    (empty, Self::trivia(s, i))
                }
            },
            None => {
                let empty: Vec<ScopeContent> = Vec::new();
                proof {
                    assert(empty.deep_view() =~= Seq::<crate::ast::SpecScopeContent>::empty());
                }
                (empty, Self::trivia(s, i))
            },
        }
    }

    /// Parse a sheet covering all of the input: the executable
    /// [`spec_sheet`].  On failure, the position at which the scope grammar
    /// stalled.
    fn sheet(s: &str) -> (r: Result<Sheet, usize>)
        ensures
            match r {
                Ok(sheet) => spec_sheet(s@) == Ok::<SpecSheet, int>(sheet.deep_view()),
                Err(j) => spec_sheet(s@) == Err::<SpecSheet, int>(j as int),
            },
    {
        let n = s.unicode_len();
        let (items, j) = Self::scope_contents(s, 0);
        if j == n {
            Ok(Sheet { contents: items })
        } else {
            Err(j)
        }
    }

    /// Parse stylesheet source text.
    ///
    /// Returns `Ok` with exactly the sheet that the grammar
    /// ([`spec_sheet`]) assigns to the text, and `Err` exactly when the
    /// grammar assigns none, with the error carrying the character offset at
    /// which no grammar alternative matched.
    pub fn parse(css: &str) -> (r: Result<Sheet, ParseError>)
        ensures
            match r {
                Ok(sheet) => spec_sheet(css@) == Ok::<SpecSheet, int>(sheet.deep_view()),
                Err(e) => spec_sheet(css@) == Err::<SpecSheet, int>(e.offset as int)
                    && e.reason@.len() > 0,
            },
    {
        match Self::sheet(css) {
            Ok(sheet) => Ok(sheet),
            Err(j) => {
                proof {
                    reveal_strlit("expected a style attribute, a block or an at-rule");
                }
                let reason = "expected a style attribute, a block or an at-rule".to_owned();
                Err(ParseError { reason, offset: j })
            },
        }
    }
}

/// Parsing is a function of the source text alone: byte-identical texts
/// parse to structurally equal sheets.  (The memoizing cache adds the other
/// half of the bargain: its miss counter grows only for text that has no
/// stored result, so identical text is parsed at most once.)
pub proof fn lemma_parse_deterministic(t1: Seq<char>, t2: Seq<char>, s1: SpecSheet, s2: SpecSheet)
    requires
        t1 == t2,
        spec_sheet(t1) == Ok::<SpecSheet, int>(s1),
        spec_sheet(t2) == Ok::<SpecSheet, int>(s2),
    ensures
        s1 == s2,
{
}

// ---------------------------------------------------------------------------
// parse errors
// ---------------------------------------------------------------------------
/// A terminal parse failure: a human-readable expectation and the character
/// offset of the offending input.
#[derive(Debug, PartialEq, Eq)]
pub struct ParseError {
    /// What the grammar expected at the failure point.
    pub reason: String,
    /// The character offset at which no grammar alternative matched.
    pub offset: usize,
}

/// The decimal digit character for `d`.
pub open spec fn spec_digit_char(d: int) -> char {
    if d == 0 {
        '0'
    } else if d == 1 {
        '1'
    } else if d == 2 {
        '2'
    } else if d == 3 {
        '3'
    } else if d == 4 {
        '4'
    } else if d == 5 {
        '5'
    } else if d == 6 {
        '6'
    } else if d == 7 {
        '7'
    } else if d == 8 {
        '8'
    } else {
        '9'
    }
}

/// The decimal digit string of `x`, most significant digit first.
pub open spec fn spec_digits(x: nat) -> Seq<char>
    decreases x,
{
    if x < 10 {
        seq![spec_digit_char(x as int)]
    } else {
        spec_digits(x / 10).push(spec_digit_char((x % 10) as int))
    }
}

/// One decimal digit as a string slice.
fn digit_str(d: usize) -> (r: &'static str)
    requires
        d < 10,
    ensures
        r@ =~= seq![spec_digit_char(d as int)],
{
    proof {
        reveal_strlit("0");
        reveal_strlit("1");
        reveal_strlit("2");
        reveal_strlit("3");
        reveal_strlit("4");
        reveal_strlit("5");
        reveal_strlit("6");
        reveal_strlit("7");
        reveal_strlit("8");
        reveal_strlit("9");
    }
    match d {
        0 => "0",
        1 => "1",
        2 => "2",
        3 => "3",
        4 => "4",
        5 => "5",
        6 => "6",
        7 => "7",
        8 => "8",
        _ => "9",
    }
}

/// The decimal digit string of `x`: the executable [`spec_digits`].
fn digits(x: usize) -> (r: String)
    ensures
        r@ == spec_digits(x as nat),
    decreases x,
{
    if x < 10 {
        digit_str(x).to_owned()
    } else {
        let mut out = digits(x / 10);
        out.append(digit_str(x % 10));
        proof {
            assert(out@ =~= spec_digits((x / 10) as nat).push(
                spec_digit_char((x % 10) as int),
            ));
        }
        out
    }
}

impl ParseError {
    /// The failure as one human-readable line: the expectation and the
    /// character offset at which it arose.
    pub fn message(&self) -> (r: String)
        ensures
            r@ == self.reason@ + " at character "@ + spec_digits(self.offset as nat),
    {
        let mut out = self.reason.clone();
        out.append(" at character ");
        let d = digits(self.offset);
        out.append(d.as_str());
        out
    }
}

// ---------------------------------------------------------------------------
// trimming, executable
// ---------------------------------------------------------------------------
/// [`spec_trim_right`] keeps exactly the prefix before the whitespace
/// suffix.
proof fn lemma_trim_right_is_subrange(t: Seq<char>, k: int)
    requires
        0 <= k <= t.len(),
        forall|m: int| k <= m < t.len() ==> is_ws(t[m]),
        k > 0 ==> !is_ws(t[k - 1]),
    ensures
        spec_trim_right(t) == t.subrange(0, k),
    decreases t.len(),
{
    if t.len() == k {
        assert(t.subrange(0, k) =~= t);
    } else {
        assert(is_ws(t.last()));
        lemma_trim_right_is_subrange(t.drop_last(), k);
        assert(t.drop_last().subrange(0, k) =~= t.subrange(0, k));
    }
}

/// [`spec_trim_left`] keeps exactly the suffix after the whitespace prefix.
proof fn lemma_trim_left_is_subrange(t: Seq<char>, a: int)
    requires
        0 <= a <= t.len(),
        forall|m: int| 0 <= m < a ==> is_ws(t[m]),
        a < t.len() ==> !is_ws(t[a]),
    ensures
        spec_trim_left(t) == t.subrange(a, t.len() as int),
    decreases t.len(),
{
    if a == 0 {
        assert(t.subrange(0, t.len() as int) =~= t);
    } else {
        assert(is_ws(t.first()));
        lemma_trim_left_is_subrange(t.drop_first(), a - 1);
        assert(t.drop_first().subrange(a - 1, t.drop_first().len() as int) =~= t.subrange(
            a,
            t.len() as int,
        ));
    }
}

/// Remove trailing whitespace: the executable [`spec_trim_right`].
fn trim_right_str(t: &str) -> (r: String)
    ensures
        r@ == spec_trim_right(t@),
{
    let n = t.unicode_len();
    let mut k = n;
    while k > 0 && ws_char(t.get_char(k - 1))
        invariant
            0 <= k <= n,
            n == t@.len(),
            forall|m: int| k <= m < n ==> is_ws(t@[m]),
        decreases k,
    {
        k = k - 1;
    }
    proof {
        lemma_trim_right_is_subrange(t@, k as int);
    }
    t.substring_char(0, k).to_owned()
}

/// Remove leading and trailing whitespace: the executable [`spec_trim`].
fn trim_str(t: &str) -> (r: String)
    ensures
        r@ == spec_trim(t@),
{
    let n = t.unicode_len();
    let mut k = n;
    while k > 0 && ws_char(t.get_char(k - 1))
        invariant
            0 <= k <= n,
            n == t@.len(),
            forall|m: int| k <= m < n ==> is_ws(t@[m]),
        decreases k,
    {
        k = k - 1;
    }
    let mut a: usize = 0;
    while a < k && ws_char(t.get_char(a))
        invariant
            0 <= a <= k <= n,
            n == t@.len(),
            forall|m: int| 0 <= m < a ==> is_ws(t@[m]),
        decreases k - a,
    {
        a = a + 1;
    }
    proof {
        lemma_trim_right_is_subrange(t@, k as int);
        lemma_trim_left_is_subrange(t@.subrange(0, k as int), a as int);
        assert(t@.subrange(0, k as int).subrange(a as int, k as int) =~= t@.subrange(
            a as int,
            k as int,
        ));
    }
    t.substring_char(a, k).to_owned()
}

/// Apply the outer-boundary trim to a fragment run: the executable
/// [`spec_trim_final`].
fn trim_fragments(frs: Vec<StringFragment>) -> (r: Vec<StringFragment>)
    ensures
        r.deep_view() == spec_trim_final(frs.deep_view()),
    decreases frs@.len(),
{
    let mut frs = frs;
    let ghost whole = frs.deep_view();
    if frs.len() == 0 {
        frs
    } else {
        match frs.pop() {
            Some(StringFragment::Literal(t)) => {
                proof {
                    assert(frs.deep_view() =~= whole.drop_last());
                    assert(whole.last() == crate::ast::SpecFragment::Literal(t@));
                }
                let t2 = trim_right_str(t.as_str());
                if t2.as_str().is_empty() {
                    trim_fragments(frs)
                } else {
                    let ghost pre = frs.deep_view();
                    frs.push(StringFragment::Literal(t2));
                    proof {
                        assert(frs.deep_view() =~= pre.push(
                            crate::ast::SpecFragment::Literal(t2@),
                        ));
                    }
                    frs
                }
            },
            Some(StringFragment::Interpolation(nm)) => {
                proof {
                    assert(frs.deep_view() =~= whole.drop_last());
                    assert(whole.last() == crate::ast::SpecFragment::Interpolation(nm@));
                }
                let ghost pre = frs.deep_view();
                frs.push(StringFragment::Interpolation(nm));
                proof {
                    assert(frs.deep_view() =~= pre.push(
                        crate::ast::SpecFragment::Interpolation(nm@),
                    ));
                    assert(frs.deep_view() =~= whole);
                }
                frs
            },
            None => frs,
        }
    }
}

} // verus!
