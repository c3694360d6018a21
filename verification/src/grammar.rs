//! The stylesheet grammar, written down as specification functions.
//!
//! Every function here is a total spec function over a sequence of characters
//! `s` and a cursor position `i`.  A scanner returns the end position of what
//! it consumed; a rule returns `Option` of the parsed model value together
//! with the position just past it, with `None` meaning "this alternative does
//! not apply here" (no input is consumed on failure).  Repetitions recurse
//! only after checking that the previous step made progress; the checks also
//! carry the termination argument.
//!
//! The executable parser in [`crate::parser`] is proved to return, for every
//! input, exactly what these functions say.

use vstd::prelude::*;

use crate::ast::{
    SpecBlock, SpecFragment, SpecRule, SpecRuleContent, SpecScopeContent, SpecSelector, SpecSheet,
    SpecStyleAttribute,
};

verus! {

/// Remaining input length, clamped at zero; the measure that all grammar
/// recursion decreases.
pub open spec fn rem(s: Seq<char>, i: int) -> nat {
    if i <= s.len() {
        (s.len() - i) as nat
    } else {
        0
    }
}

// ---------------------------------------------------------------------------
// character classes
// ---------------------------------------------------------------------------
/// Stylesheet whitespace: space, tab, carriage return, line feed.
pub open spec fn is_ws(c: char) -> bool {
    c == ' ' || c == '\t' || c == '\r' || c == '\n'
}

/// An ASCII decimal digit.
pub open spec fn is_digit(c: char) -> bool {
    '0' <= c && c <= '9'
}

/// A character that may appear in an identifier-like key: `-`, `_`, ASCII
/// letters and digits, and any non-ASCII character.
pub open spec fn is_ident_char(c: char) -> bool {
    c == '-' || c == '_' || ('a' <= c && c <= 'z') || ('A' <= c && c <= 'Z') || is_digit(c) || c
        > '\x7f'
}

/// A character that may start an identifier-like key: any ident character
/// except a digit.
pub open spec fn is_ident_start(c: char) -> bool {
    is_ident_char(c) && !is_digit(c)
}

/// A character of an interpolation placeholder name: `_`, ASCII letters and
/// digits, and any non-ASCII character (`-` is not allowed here).
pub open spec fn is_name_char(c: char) -> bool {
    c == '_' || ('a' <= c && c <= 'z') || ('A' <= c && c <= 'Z') || is_digit(c) || c > '\x7f'
}

/// A character that may start a placeholder name: any name character except
/// a digit.
pub open spec fn is_name_start(c: char) -> bool {
    is_name_char(c) && !is_digit(c)
}

/// Which characters end a literal run, by caller.
#[derive(Debug, Clone, Copy, PartialEq, Eq, Structural)]
pub enum FragMode {
    /// A property value: ends at `;`, `{` or `}`.
    Value,
    /// One selector of a selector list: ends at `,` or `{`.
    Selector,
    /// An at-rule prelude: ends at `{`.
    Prelude,
}

/// The terminator set of each [`FragMode`].
pub open spec fn is_stop(mode: FragMode, c: char) -> bool {
    match mode {
        FragMode::Value => c == ';' || c == '{' || c == '}',
        FragMode::Selector => c == ',' || c == '{',
        FragMode::Prelude => c == '{',
    }
}

// ---------------------------------------------------------------------------
// leaf scanners
// ---------------------------------------------------------------------------
/// End of the whitespace run starting at `i`.
pub open spec fn spec_ws_end(s: Seq<char>, i: int) -> int
    decreases rem(s, i),
{
    if 0 <= i < s.len() && is_ws(s[i]) {
        spec_ws_end(s, i + 1)
    } else {
        i
    }
}

/// Position just past the first `*/` at or after `i`, if any.
pub open spec fn spec_comment_close(s: Seq<char>, i: int) -> Option<int>
    decreases rem(s, i),
{
    if i + 1 < s.len() {
        if s[i] == '*' && s[i + 1] == '/' {
            Some(i + 2)
        } else {
            spec_comment_close(s, i + 1)
        }
    } else {
        None
    }
}

/// Position just past a comment (`/*` ... `*/`, not nested) starting exactly
/// at `i`, if one does.
pub open spec fn spec_comment_end(s: Seq<char>, i: int) -> Option<int> {
    if 0 <= i && i + 1 < s.len() && s[i] == '/' && s[i + 1] == '*' {
        spec_comment_close(s, i + 2)
    } else {
        None
    }
}

/// End of the run of whitespace and complete comments starting at `i`: the
/// "trimmable" text that every grammar rule skips around its own content.
pub open spec fn spec_trivia_end(s: Seq<char>, i: int) -> int
    decreases rem(s, i),
{
    let w = spec_ws_end(s, i);
    match spec_comment_end(s, w) {
        Some(j) => if i < j && j <= s.len() {
            spec_trivia_end(s, j)
        } else {
            w
        },
        None => w,
    }
}

/// Inside a double-quoted string, position just past the closing quote,
/// scanning from `i`; a backslash escapes exactly one following character.
/// `None` when the string is unterminated.
pub open spec fn spec_string_tail(s: Seq<char>, i: int) -> Option<int>
    decreases rem(s, i),
{
    if 0 <= i < s.len() {
        if s[i] == '"' {
            Some(i + 1)
        } else if s[i] == '\\' {
            if i + 1 < s.len() {
                spec_string_tail(s, i + 2)
            } else {
                None
            }
        } else {
            spec_string_tail(s, i + 1)
        }
    } else {
        None
    }
}

/// Position just past a double-quoted string starting exactly at `i`, if one
/// does.  The consumed span, quotes included, is opaque literal text.
pub open spec fn spec_string_end(s: Seq<char>, i: int) -> Option<int> {
    if 0 <= i < s.len() && s[i] == '"' {
        spec_string_tail(s, i + 1)
    } else {
        None
    }
}

/// End of the run of identifier characters starting at `i`.
pub open spec fn spec_ident_scan(s: Seq<char>, i: int) -> int
    decreases rem(s, i),
{
    if 0 <= i < s.len() && is_ident_char(s[i]) {
        spec_ident_scan(s, i + 1)
    } else {
        i
    }
}

/// End of an identifier-like key starting exactly at `i`, if one does.
pub open spec fn spec_ident_end(s: Seq<char>, i: int) -> Option<int> {
    if 0 <= i < s.len() && is_ident_start(s[i]) {
        Some(spec_ident_scan(s, i + 1))
    } else {
        None
    }
}

/// End of the run of placeholder-name characters starting at `i`.
pub open spec fn spec_name_scan(s: Seq<char>, i: int) -> int
    decreases rem(s, i),
{
    if 0 <= i < s.len() && is_name_char(s[i]) {
        spec_name_scan(s, i + 1)
    } else {
        i
    }
}

/// End of a placeholder name starting exactly at `i`, if one does.
pub open spec fn spec_name_end(s: Seq<char>, i: int) -> Option<int> {
    if 0 <= i < s.len() && is_name_start(s[i]) {
        Some(spec_name_scan(s, i + 1))
    } else {
        None
    }
}

/// An interpolation placeholder starting exactly at `i`: `${`, optional
/// whitespace, a name, optional whitespace, `}`.  Returns the name and the
/// position just past the closing `}`.
pub open spec fn spec_interp(s: Seq<char>, i: int) -> Option<(Seq<char>, int)> {
    if 0 <= i && i + 1 < s.len() && s[i] == '$' && s[i + 1] == '{' {
        let a = spec_ws_end(s, i + 2);
        match spec_name_end(s, a) {
            Some(b) => {
                let w = spec_ws_end(s, b);
                if w < s.len() && s[w] == '}' {
                    Some((s.subrange(a, b), w + 1))
                } else {
                    None
                }
            },
            None => None,
        }
    } else {
        None
    }
}

// ---------------------------------------------------------------------------
// interpolatable text
// ---------------------------------------------------------------------------
/// End of the maximal literal span starting at `i`: plain characters outside
/// the terminator set, with embedded double-quoted strings kept as opaque
/// spans.  The span stops before `$`, before a comment opener, and before a
/// quote that does not open a complete string.
pub open spec fn spec_chunk_end(s: Seq<char>, i: int, mode: FragMode) -> int
    decreases rem(s, i),
{
    if !(0 <= i < s.len()) {
        i
    } else {
        let c = s[i];
        if is_stop(mode, c) || c == '$' {
            i
        } else if c == '"' {
            match spec_string_end(s, i) {
                Some(j) => if i < j && j <= s.len() {
                    spec_chunk_end(s, j, mode)
                } else {
                    i
                },
                None => i,
            }
        } else if c == '/' && i + 1 < s.len() && s[i + 1] == '*' {
            i
        } else {
            spec_chunk_end(s, i + 1, mode)
        }
    }
}

/// The run of fragments starting at `i`: literal spans and interpolation
/// placeholders, with comments between them skipped.  The run ends at a
/// terminator of `mode`, at the end of input, or at a `$`, quote or comment
/// opener that does not parse (the enclosing rule then fails on whatever
/// was left).  Returns the fragments and the position just past the run.
pub open spec fn spec_frag_run(s: Seq<char>, i: int, mode: FragMode) -> (Seq<SpecFragment>, int)
    decreases rem(s, i),
{
    if !(0 <= i < s.len()) {
        (Seq::empty(), i)
    } else {
        let c = s[i];
        if is_stop(mode, c) {
            (Seq::empty(), i)
        } else if c == '$' {
            match spec_interp(s, i) {
                Some((name, j)) => if i < j && j <= s.len() {
                    let (rest, e) = spec_frag_run(s, j, mode);
                    (seq![SpecFragment::Interpolation(name)] + rest, e)
                } else {
                    (Seq::empty(), i)
                },
                None => (Seq::empty(), i),
            }
        } else if c == '/' && i + 1 < s.len() && s[i + 1] == '*' {
            match spec_comment_end(s, i) {
                Some(j) => if i < j && j <= s.len() {
                    spec_frag_run(s, j, mode)
                } else {
                    (Seq::empty(), i)
                },
                None => (Seq::empty(), i),
            }
        } else {
            let e = spec_chunk_end(s, i, mode);
            if i < e && e <= s.len() {
                let (rest, k) = spec_frag_run(s, e, mode);
                (seq![SpecFragment::Literal(s.subrange(i, e))] + rest, k)
            } else {
                (Seq::empty(), i)
            }
        }
    }
}

// ---------------------------------------------------------------------------
// trimming
// ---------------------------------------------------------------------------
/// `t` without its trailing whitespace.
pub open spec fn spec_trim_right(t: Seq<char>) -> Seq<char>
    decreases t.len(),
{
    if t.len() > 0 && is_ws(t.last()) {
        spec_trim_right(t.drop_last())
    } else {
        t
    }
}

/// `t` without its leading whitespace.
pub open spec fn spec_trim_left(t: Seq<char>) -> Seq<char>
    decreases t.len(),
{
    if t.len() > 0 && is_ws(t.first()) {
        spec_trim_left(t.drop_first())
    } else {
        t
    }
}

/// `t` without leading and trailing whitespace.
pub open spec fn spec_trim(t: Seq<char>) -> Seq<char> {
    spec_trim_left(spec_trim_right(t))
}

/// The outer-boundary trim of a fragment run: trailing whitespace is removed
/// from the final literal fragment, and a final literal that becomes empty is
/// dropped altogether (the fragment before it is then the final one).
pub open spec fn spec_trim_final(frs: Seq<SpecFragment>) -> Seq<SpecFragment>
    decreases frs.len(),
{
    if frs.len() == 0 {
        frs
    } else {
        match frs.last() {
            SpecFragment::Literal(t) => {
                let t2 = spec_trim_right(t);
                if t2.len() == 0 {
                    spec_trim_final(frs.drop_last())
                } else {
                    frs.drop_last().push(SpecFragment::Literal(t2))
                }
            },
            SpecFragment::Interpolation(_) => frs,
        }
    }
}

// ---------------------------------------------------------------------------
// selectors and attributes
// ---------------------------------------------------------------------------
/// One selector entry: leading trivia, then a non-empty fragment run that
/// does not begin with `@` (an at-rule, never a selector) or `}` (the end of
/// the enclosing scope), trailing-trimmed.
pub open spec fn spec_selector(s: Seq<char>, i: int) -> Option<(SpecSelector, int)> {
    let t = spec_trivia_end(s, i);
    if 0 <= t < s.len() && (s[t] == '@' || s[t] == '}') {
        None
    } else {
        let (raw, j) = spec_frag_run(s, t, FragMode::Selector);
        let v = spec_trim_final(raw);
        if v.len() == 0 {
            None
        } else {
            Some((SpecSelector { fragments: v }, j))
        }
    }
}

/// A selector list: one or more selectors, each followed by an optional
/// comma.  A comma with no selector after it ends the list; the trailing
/// comma is consumed.
pub open spec fn spec_condition(s: Seq<char>, i: int) -> Option<(Seq<SpecSelector>, int)>
    decreases rem(s, i),
{
    match spec_selector(s, i) {
        None => None,
        Some((sel, j)) => if i <= j && j < s.len() && s[j] == ',' {
            match spec_condition(s, j + 1) {
                Some((rest, k)) => Some((seq![sel] + rest, k)),
                None => Some((seq![sel], j + 1)),
            }
        } else {
            Some((seq![sel], j))
        },
    }
}

/// A style attribute `key: value` (no terminating `;` here): trivia, an
/// identifier-like key, trivia, `:`, trivia, then a non-empty trimmed value
/// fragment run.
pub open spec fn spec_attribute(s: Seq<char>, i: int) -> Option<(SpecStyleAttribute, int)> {
    let t0 = spec_trivia_end(s, i);
    match spec_ident_end(s, t0) {
        None => None,
        Some(e) => {
            let t1 = spec_trivia_end(s, e);
            if t1 < s.len() && s[t1] == ':' {
                let t2 = spec_trivia_end(s, t1 + 1);
                let (raw, j) = spec_frag_run(s, t2, FragMode::Value);
                let v = spec_trim_final(raw);
                if v.len() == 0 {
                    None
                } else {
                    Some((SpecStyleAttribute { key: s.subrange(t0, e), value: v }, j))
                }
            } else {
                None
            }
        },
    }
}

/// A dangling style attribute: `key: value;`, the `;` required.
pub open spec fn spec_dangling_attribute(s: Seq<char>, i: int) -> Option<
    (SpecStyleAttribute, int),
> {
    match spec_attribute(s, i) {
        Some((a, j)) => if 0 <= j < s.len() && s[j] == ';' {
            Some((a, j + 1))
        } else {
            None
        },
        None => None,
    }
}

/// One or more dangling attributes in a row.
pub open spec fn spec_dangling_attributes(s: Seq<char>, i: int) -> Option<
    (Seq<SpecStyleAttribute>, int),
>
    decreases rem(s, i),
{
    match spec_dangling_attribute(s, i) {
        None => None,
        Some((a, j)) => if i < j && j <= s.len() {
            match spec_dangling_attributes(s, j) {
                Some((rest, k)) => Some((seq![a] + rest, k)),
                None => Some((seq![a], j)),
            }
        } else {
            Some((seq![a], j))
        },
    }
}

/// The attribute list of a block body: attributes separated by `;`, a
/// trailing `;` optional, possibly empty.
pub open spec fn spec_attr_list(s: Seq<char>, i: int) -> (Seq<SpecStyleAttribute>, int)
    decreases rem(s, i),
{
    match spec_attribute(s, i) {
        None => (Seq::empty(), i),
        Some((a, j)) => if i <= j && j < s.len() && s[j] == ';' {
            let (rest, k) = spec_attr_list(s, j + 1);
            (seq![a] + rest, k)
        } else {
            (seq![a], j)
        },
    }
}

/// A qualified block: a selector list, `{`, an attribute list, `}`.
pub open spec fn spec_block(s: Seq<char>, i: int) -> Option<(SpecBlock, int)> {
    match spec_condition(s, i) {
        None => None,
        Some((sels, j)) => {
            let t = spec_trivia_end(s, j);
            if t < s.len() && s[t] == '{' {
                let (attrs, k) = spec_attr_list(s, t + 1);
                let t2 = spec_trivia_end(s, k);
                if t2 < s.len() && s[t2] == '}' {
                    Some((SpecBlock { condition: sels, style_attributes: attrs }, t2 + 1))
                } else {
                    None
                }
            } else {
                None
            }
        },
    }
}

// ---------------------------------------------------------------------------
// at-rules
// ---------------------------------------------------------------------------
/// Whether `pat` occurs in `s` exactly at position `i`.
pub open spec fn spec_lit_at(s: Seq<char>, i: int, pat: Seq<char>) -> bool {
    0 <= i && i + pat.len() <= s.len() && s.subrange(i, i + pat.len()) == pat
}

/// Whether `t` starts with `pat`.
pub open spec fn spec_starts_with(t: Seq<char>, pat: Seq<char>) -> bool {
    pat.len() <= t.len() && t.subrange(0, pat.len() as int) == pat
}

/// The `@media ` keyword, trailing space included.
pub open spec fn media_tag() -> Seq<char> {
    "@media "@
}

/// The `@supports ` keyword, trailing space included.
pub open spec fn supports_tag() -> Seq<char> {
    "@supports "@
}

/// The prelude of a recognised at-rule: `@media ` or `@supports `, then a
/// non-empty trimmed fragment run up to the opening `{`.  The fragments are
/// the keyword itself (one literal, trailing space kept) followed by the
/// prelude fragments.
pub open spec fn spec_at_condition(s: Seq<char>, i: int) -> Option<(Seq<SpecFragment>, int)> {
    let t = spec_trivia_end(s, i);
    let tag = if spec_lit_at(s, t, supports_tag()) {
        supports_tag()
    } else {
        media_tag()
    };
    if spec_lit_at(s, t, tag) {
        let t2 = spec_trivia_end(s, t + tag.len());
        let (raw, j) = spec_frag_run(s, t2, FragMode::Prelude);
        let v = spec_trim_final(raw);
        if v.len() == 0 {
            None
        } else {
            Some((seq![SpecFragment::Literal(tag)] + v, j))
        }
    } else {
        None
    }
}

// ---------------------------------------------------------------------------
// opaque at-rule bodies
// ---------------------------------------------------------------------------
/// End of the maximal brace-free text span starting at `i`, inside an opaque
/// at-rule body.  Double-quoted strings are opaque, so braces inside them do
/// not count; an unterminated quote is taken as a plain character.
pub open spec fn spec_opaque_chunk_end(s: Seq<char>, i: int) -> int
    decreases rem(s, i),
{
    if !(0 <= i < s.len()) {
        i
    } else if s[i] == '{' || s[i] == '}' {
        i
    } else if s[i] == '"' {
        match spec_string_end(s, i) {
            Some(j) => if i < j && j <= s.len() {
                spec_opaque_chunk_end(s, j)
            } else {
                spec_opaque_chunk_end(s, i + 1)
            },
            None => spec_opaque_chunk_end(s, i + 1),
        }
    } else {
        spec_opaque_chunk_end(s, i + 1)
    }
}

/// The raw contents of an opaque at-rule body, up to the first unmatched `}`
/// (or a stuck position, on which the enclosing rule fails): trimmed text
/// chunks, with every balanced brace pair kept as its own `{` and `}` items
/// around its own contents.
pub open spec fn spec_opaque_contents(s: Seq<char>, i: int) -> (Seq<SpecRuleContent>, int)
    decreases rem(s, i),
{
    if !(0 <= i < s.len()) {
        (Seq::empty(), i)
    } else if s[i] == '}' {
        (Seq::empty(), i)
    } else if s[i] == '{' {
        let (sub, k) = spec_opaque_contents(s, i + 1);
        if i < k && k < s.len() && s[k] == '}' {
            let (rest, m) = spec_opaque_contents(s, k + 1);
            (
                seq![SpecRuleContent::String("{"@)] + sub + seq![SpecRuleContent::String("}"@)]
                    + rest,
                m,
            )
        } else {
            (Seq::empty(), i)
        }
    } else {
        let e = spec_opaque_chunk_end(s, i);
        if i < e && e <= s.len() {
            let text = spec_trim(s.subrange(i, e));
            let (rest, m) = spec_opaque_contents(s, e);
            if text.len() == 0 {
                (rest, m)
            } else {
                (seq![SpecRuleContent::String(text)] + rest, m)
            }
        } else {
            (Seq::empty(), i)
        }
    }
}

/// An opaque at-rule: `@`, a non-empty brace-free name/condition (kept as a
/// single trimmed literal fragment), `{`, raw balanced contents, `}`.  A name
/// that starts with `@media` or `@supports` is refused here: those must be
/// parsed structurally by the recognised-at-rule alternative.
pub open spec fn spec_opaque_rule(s: Seq<char>, i: int) -> Option<(SpecRule, int)> {
    let t = spec_trivia_end(s, i);
    if t < s.len() && s[t] == '@' {
        let e = spec_opaque_chunk_end_braces_only(s, t + 1);
        if t + 1 < e && e < s.len() && s[e] == '{' {
            let name = s.subrange(t, e);
            if spec_starts_with(name, "@media"@) || spec_starts_with(name, "@supports"@) {
                None
            } else {
                let (items, k) = spec_opaque_contents(s, e + 1);
                if k < s.len() && s[k] == '}' {
                    Some(
                        (
                            SpecRule {
                                condition: seq![SpecFragment::Literal(spec_trim(name))],
                                content: items,
                            },
                            k + 1,
                        ),
                    )
                } else {
                    None
                }
            }
        } else {
            None
        }
    } else {
        None
    }
}

/// End of the run of characters other than `{` starting at `i`: the
/// name/condition span of an opaque at-rule.
pub open spec fn spec_opaque_chunk_end_braces_only(s: Seq<char>, i: int) -> int
    decreases rem(s, i),
{
    if 0 <= i < s.len() && s[i] != '{' {
        spec_opaque_chunk_end_braces_only(s, i + 1)
    } else {
        i
    }
}

// ---------------------------------------------------------------------------
// scopes and the sheet
// ---------------------------------------------------------------------------
/// One scope item of a recognised at-rule body, as a rule content.
pub open spec fn spec_to_rule_content(item: SpecScopeContent) -> SpecRuleContent {
    match item {
        SpecScopeContent::Block(b) => SpecRuleContent::Block(b),
        SpecScopeContent::Rule(r) => SpecRuleContent::Rule(r),
    }
}

/// The scope contents of a recognised at-rule body, as rule contents.
pub open spec fn spec_to_rule_contents(items: Seq<SpecScopeContent>) -> Seq<SpecRuleContent>
    decreases items.len(),
{
    if items.len() == 0 {
        Seq::empty()
    } else {
        seq![spec_to_rule_content(items[0])] + spec_to_rule_contents(items.drop_first())
    }
}

/// [`spec_to_rule_contents`] maps [`spec_to_rule_content`] over the items
/// pointwise.
pub broadcast proof fn lemma_to_rule_contents_pointwise(items: Seq<SpecScopeContent>)
    ensures
        (#[trigger] spec_to_rule_contents(items)).len() == items.len(),
        forall|q: int|
            0 <= q < items.len() ==> spec_to_rule_contents(items)[q] == spec_to_rule_content(
                items[q],
            ),
    decreases items.len(),
{
    if items.len() > 0 {
        lemma_to_rule_contents_pointwise(items.drop_first());
    }
}

/// A recognised at-rule: `@media `/`@supports ` prelude, `{`, a recursively
/// parsed scope, `}`.
pub open spec fn spec_at_rule(s: Seq<char>, i: int) -> Option<(SpecRule, int)>
    decreases rem(s, i), 0int,
{
    match spec_at_condition(s, i) {
        None => None,
        Some((cond, j)) => if i <= j && j < s.len() && s[j] == '{' {
            let (items, k) = spec_scope_list(s, j + 1);
            if k < s.len() && s[k] == '}' {
                Some((SpecRule { condition: cond, content: spec_to_rule_contents(items) }, k + 1))
            } else {
                None
            }
        } else {
            None
        },
    }
}

/// One scope item, decided by the fixed alternative order: a dangling
/// attribute run, else a qualified block, else a recognised at-rule, else an
/// opaque at-rule.
pub open spec fn spec_scope_content(s: Seq<char>, i: int) -> Option<(SpecScopeContent, int)>
    decreases rem(s, i), 1int,
{
    match spec_dangling_attributes(s, i) {
        Some((attrs, j)) => Some(
            (
                SpecScopeContent::Block(
                    SpecBlock { condition: Seq::empty(), style_attributes: attrs },
                ),
                j,
            ),
        ),
        None => match spec_block(s, i) {
            Some((b, j)) => Some((SpecScopeContent::Block(b), j)),
            None => match spec_at_rule(s, i) {
                Some((r, j)) => Some((SpecScopeContent::Rule(r), j)),
                None => match spec_opaque_rule(s, i) {
                    Some((r, j)) => Some((SpecScopeContent::Rule(r), j)),
                    None => None,
                },
            },
        },
    }
}

/// A scope: as many scope items as match, in order, then trailing trivia.
/// Returns the items and the position at which no further alternative
/// matched.
pub open spec fn spec_scope_list(s: Seq<char>, i: int) -> (Seq<SpecScopeContent>, int)
    decreases rem(s, i), 2int,
{
    match spec_scope_content(s, i) {
        Some((item, j)) => if i < j && j <= s.len() {
            let (rest, k) = spec_scope_list(s, j);
            (seq![item] + rest, k)
        } else {
            (Seq::empty(), spec_trivia_end(s, i))
        },
        None => (Seq::empty(), spec_trivia_end(s, i)),
    }
}

/// The whole grammar: a sheet is a scope covering all of the input.  On
/// success the sheet model; on failure the position at which the scope
/// grammar stalled.
pub open spec fn spec_sheet(s: Seq<char>) -> Result<SpecSheet, int> {
    let (items, j) = spec_scope_list(s, 0);
    if j == s.len() {
        Ok(SpecSheet { contents: items })
    } else {
        Err(j)
    }
}

/// Empty source text parses to the empty sheet: no grammar alternative
/// consumes anything, and the scope ends exactly at the end of the input.
pub proof fn lemma_empty_text_parses_to_empty_sheet(s: Seq<char>)
    requires
        s.len() == 0,
    ensures
        spec_sheet(s) == Ok::<SpecSheet, int>(SpecSheet { contents: Seq::empty() }),
{
    reveal_strlit("@media ");
    reveal_strlit("@supports ");
    assert(spec_ws_end(s, 0) == 0);
    assert(spec_trivia_end(s, 0) == 0);
    assert(spec_scope_content(s, 0) is None);
    assert(spec_scope_list(s, 0) == (Seq::<SpecScopeContent>::empty(), 0int));
}

// ---------------------------------------------------------------------------
// bounds of every grammar function
// ---------------------------------------------------------------------------
// Each function returns a position between its argument and the end of the
// input; a successful rule consumed at least one character.  The executable
// parser keeps its cursors inside the input with these facts.

/// The end position carried by a successful scan.
pub open spec fn opt_end(r: Option<int>) -> int {
    match r {
        Some(j) => j,
        None => 0,
    }
}

/// The end position carried by a successful rule.
pub open spec fn pair_end<T>(r: Option<(T, int)>) -> int {
    match r {
        Some(p) => p.1,
        None => 0,
    }
}

/// Bounds of [`spec_ws_end`].
pub broadcast proof fn lemma_ws_end_bounds(s: Seq<char>, i: int)
    ensures
        0 <= i <= s.len() ==> i <= #[trigger] spec_ws_end(s, i) <= s.len(),
    decreases rem(s, i),
{
    if 0 <= i < s.len() && is_ws(s[i]) {
        lemma_ws_end_bounds(s, i + 1);
    }
}

/// Bounds of [`spec_comment_close`].
pub broadcast proof fn lemma_comment_close_bounds(s: Seq<char>, i: int)
    ensures
        0 <= i && (#[trigger] spec_comment_close(s, i)) is Some ==> i + 2 <= opt_end(spec_comment_close(s, i)) <= s.len(),
    decreases rem(s, i),
{
    if i + 1 < s.len() && !(s[i] == '*' && s[i + 1] == '/') {
        lemma_comment_close_bounds(s, i + 1);
    }
}

/// Bounds of [`spec_comment_end`].
pub broadcast proof fn lemma_comment_end_bounds(s: Seq<char>, i: int)
    ensures
        (#[trigger] spec_comment_end(s, i)) is Some ==> i + 4 <= opt_end(spec_comment_end(s, i)) <= s.len(),
{
    lemma_comment_close_bounds(s, i + 2);
}

/// Bounds of [`spec_trivia_end`].
pub broadcast proof fn lemma_trivia_end_bounds(s: Seq<char>, i: int)
    ensures
        0 <= i <= s.len() ==> i <= #[trigger] spec_trivia_end(s, i) <= s.len(),
    decreases rem(s, i),
{
    if 0 <= i <= s.len() {
        lemma_ws_end_bounds(s, i);
        let w = spec_ws_end(s, i);
        lemma_comment_end_bounds(s, w);
        if let Some(j) = spec_comment_end(s, w) {
            if i < j && j <= s.len() {
                lemma_trivia_end_bounds(s, j);
            }
        }
    }
}

/// Bounds of [`spec_string_tail`].
pub broadcast proof fn lemma_string_tail_bounds(s: Seq<char>, i: int)
    ensures
        0 <= i && (#[trigger] spec_string_tail(s, i)) is Some ==> i + 1 <= opt_end(spec_string_tail(s, i)) <= s.len(),
    decreases rem(s, i),
{
    if 0 <= i < s.len() {
        if s[i] == '\\' && i + 1 < s.len() {
            lemma_string_tail_bounds(s, i + 2);
        } else if s[i] != '"' {
            lemma_string_tail_bounds(s, i + 1);
        }
    }
}

/// Bounds of [`spec_string_end`].
pub broadcast proof fn lemma_string_end_bounds(s: Seq<char>, i: int)
    ensures
        (#[trigger] spec_string_end(s, i)) is Some ==> i + 2 <= opt_end(spec_string_end(s, i)) <= s.len(),
{
    lemma_string_tail_bounds(s, i + 1);
}

/// Bounds of [`spec_ident_scan`].
pub broadcast proof fn lemma_ident_scan_bounds(s: Seq<char>, i: int)
    ensures
        0 <= i <= s.len() ==> i <= #[trigger] spec_ident_scan(s, i) <= s.len(),
    decreases rem(s, i),
{
    if 0 <= i < s.len() && is_ident_char(s[i]) {
        lemma_ident_scan_bounds(s, i + 1);
    }
}

/// Bounds of [`spec_ident_end`].
pub broadcast proof fn lemma_ident_end_bounds(s: Seq<char>, i: int)
    ensures
        (#[trigger] spec_ident_end(s, i)) is Some ==> i + 1 <= opt_end(spec_ident_end(s, i)) <= s.len(),
{
    if 0 <= i < s.len() && is_ident_start(s[i]) {
        lemma_ident_scan_bounds(s, i + 1);
    }
}

/// Bounds of [`spec_name_scan`].
pub broadcast proof fn lemma_name_scan_bounds(s: Seq<char>, i: int)
    ensures
        0 <= i <= s.len() ==> i <= #[trigger] spec_name_scan(s, i) <= s.len(),
    decreases rem(s, i),
{
    if 0 <= i < s.len() && is_name_char(s[i]) {
        lemma_name_scan_bounds(s, i + 1);
    }
}

/// Bounds of [`spec_name_end`].
pub broadcast proof fn lemma_name_end_bounds(s: Seq<char>, i: int)
    ensures
        (#[trigger] spec_name_end(s, i)) is Some ==> i + 1 <= opt_end(spec_name_end(s, i)) <= s.len(),
{
    if 0 <= i < s.len() && is_name_start(s[i]) {
        lemma_name_scan_bounds(s, i + 1);
    }
}

/// Bounds of [`spec_interp`].
pub broadcast proof fn lemma_interp_bounds(s: Seq<char>, i: int)
    ensures
        (#[trigger] spec_interp(s, i)) is Some ==> i + 4 <= pair_end(spec_interp(s, i)) <= s.len(),
{
    if 0 <= i && i + 1 < s.len() && s[i] == '$' && s[i + 1] == '{' {
        lemma_ws_end_bounds(s, i + 2);
        let a = spec_ws_end(s, i + 2);
        lemma_name_end_bounds(s, a);
        if let Some(b) = spec_name_end(s, a) {
            lemma_ws_end_bounds(s, b);
        }
    }
}

/// Bounds of [`spec_chunk_end`].
pub broadcast proof fn lemma_chunk_end_bounds(s: Seq<char>, i: int, mode: FragMode)
    ensures
        0 <= i <= s.len() ==> i <= #[trigger] spec_chunk_end(s, i, mode) <= s.len(),
    decreases rem(s, i),
{
    if 0 <= i < s.len() {
        let c = s[i];
        if is_stop(mode, c) || c == '$' {
        } else if c == '"' {
            lemma_string_end_bounds(s, i);
            if let Some(j) = spec_string_end(s, i) {
                if i < j && j <= s.len() {
                    lemma_chunk_end_bounds(s, j, mode);
                }
            }
        } else if c == '/' && i + 1 < s.len() && s[i + 1] == '*' {
        } else {
            lemma_chunk_end_bounds(s, i + 1, mode);
        }
    }
}

/// Bounds of [`spec_frag_run`].
pub broadcast proof fn lemma_frag_run_bounds(s: Seq<char>, i: int, mode: FragMode)
    ensures
        0 <= i <= s.len() ==> i <= (#[trigger] spec_frag_run(s, i, mode)).1 <= s.len(),
    decreases rem(s, i),
{
    if 0 <= i < s.len() {
        let c = s[i];
        if is_stop(mode, c) {
        } else if c == '$' {
            if let Some((_, j)) = spec_interp(s, i) {
                if i < j && j <= s.len() {
                    lemma_frag_run_bounds(s, j, mode);
                }
            }
        } else if c == '/' && i + 1 < s.len() && s[i + 1] == '*' {
            if let Some(j) = spec_comment_end(s, i) {
                if i < j && j <= s.len() {
                    lemma_frag_run_bounds(s, j, mode);
                }
            }
        } else {
            let e = spec_chunk_end(s, i, mode);
            if i < e && e <= s.len() {
                lemma_frag_run_bounds(s, e, mode);
            }
        }
    }
}

/// Bounds of [`spec_selector`].
pub broadcast proof fn lemma_selector_bounds(s: Seq<char>, i: int)
    ensures
        0 <= i <= s.len() && (#[trigger] spec_selector(s, i)) is Some ==> i <= pair_end(
            spec_selector(s, i),
        ) <= s.len(),
{
    if 0 <= i <= s.len() {
        lemma_trivia_end_bounds(s, i);
        let t = spec_trivia_end(s, i);
        lemma_frag_run_bounds(s, t, FragMode::Selector);
    }
}

/// Bounds of [`spec_condition`].
pub broadcast proof fn lemma_condition_bounds(s: Seq<char>, i: int)
    ensures
        0 <= i <= s.len() && (#[trigger] spec_condition(s, i)) is Some ==> i <= pair_end(
            spec_condition(s, i),
        ) <= s.len(),
    decreases rem(s, i),
{
    if 0 <= i <= s.len() {
        lemma_selector_bounds(s, i);
        if let Some((_, j)) = spec_selector(s, i) {
            if i <= j && j < s.len() && s[j] == ',' {
                lemma_condition_bounds(s, j + 1);
            }
        }
    }
}

/// Bounds of [`spec_attribute`].
pub broadcast proof fn lemma_attribute_bounds(s: Seq<char>, i: int)
    ensures
        0 <= i <= s.len() && (#[trigger] spec_attribute(s, i)) is Some ==> i < pair_end(
            spec_attribute(s, i),
        ) <= s.len(),
{
    if 0 <= i <= s.len() {
        lemma_trivia_end_bounds(s, i);
        let t0 = spec_trivia_end(s, i);
        lemma_ident_end_bounds(s, t0);
        if let Some(e) = spec_ident_end(s, t0) {
            lemma_trivia_end_bounds(s, e);
            let t1 = spec_trivia_end(s, e);
            if t1 < s.len() && s[t1] == ':' {
                lemma_trivia_end_bounds(s, t1 + 1);
                let t2 = spec_trivia_end(s, t1 + 1);
                lemma_frag_run_bounds(s, t2, FragMode::Value);
            }
        }
    }
}

/// Bounds of [`spec_dangling_attribute`].
pub broadcast proof fn lemma_dangling_attribute_bounds(s: Seq<char>, i: int)
    ensures
        0 <= i <= s.len() && (#[trigger] spec_dangling_attribute(s, i)) is Some ==> i < pair_end(
            spec_dangling_attribute(s, i),
        ) <= s.len(),
{
    lemma_attribute_bounds(s, i);
}

/// Bounds of [`spec_dangling_attributes`].
pub broadcast proof fn lemma_dangling_attributes_bounds(s: Seq<char>, i: int)
    ensures
        0 <= i <= s.len() && (#[trigger] spec_dangling_attributes(s, i)) is Some ==> i < pair_end(
            spec_dangling_attributes(s, i),
        ) <= s.len(),
    decreases rem(s, i),
{
    if 0 <= i <= s.len() {
        lemma_dangling_attribute_bounds(s, i);
        if let Some((_, j)) = spec_dangling_attribute(s, i) {
            if i < j && j <= s.len() {
                lemma_dangling_attributes_bounds(s, j);
            }
        }
    }
}

/// Bounds of [`spec_attr_list`].
pub broadcast proof fn lemma_attr_list_bounds(s: Seq<char>, i: int)
    ensures
        0 <= i <= s.len() ==> i <= (#[trigger] spec_attr_list(s, i)).1 <= s.len(),
    decreases rem(s, i),
{
    if 0 <= i <= s.len() {
        lemma_attribute_bounds(s, i);
        if let Some((_, j)) = spec_attribute(s, i) {
            if i <= j && j < s.len() && s[j] == ';' {
                lemma_attr_list_bounds(s, j + 1);
            }
        }
    }
}

/// Bounds of [`spec_block`].
pub broadcast proof fn lemma_block_bounds(s: Seq<char>, i: int)
    ensures
        0 <= i <= s.len() && (#[trigger] spec_block(s, i)) is Some ==> i < pair_end(spec_block(s, i))
            <= s.len(),
{
    if 0 <= i <= s.len() {
        lemma_condition_bounds(s, i);
        if let Some((_, j)) = spec_condition(s, i) {
            lemma_trivia_end_bounds(s, j);
            let t = spec_trivia_end(s, j);
            if t < s.len() && s[t] == '{' {
                lemma_attr_list_bounds(s, t + 1);
                let (_, k) = spec_attr_list(s, t + 1);
                lemma_trivia_end_bounds(s, k);
            }
        }
    }
}

/// Bounds of [`spec_at_condition`].
pub broadcast proof fn lemma_at_condition_bounds(s: Seq<char>, i: int)
    ensures
        0 <= i <= s.len() && (#[trigger] spec_at_condition(s, i)) is Some ==> i < pair_end(
            spec_at_condition(s, i),
        ) <= s.len(),
{
    if 0 <= i <= s.len() {
        lemma_trivia_end_bounds(s, i);
        let t = spec_trivia_end(s, i);
        let tag = if spec_lit_at(s, t, supports_tag()) {
            supports_tag()
        } else {
            media_tag()
        };
        if spec_lit_at(s, t, tag) {
            reveal_strlit("@media ");
            reveal_strlit("@supports ");
            lemma_trivia_end_bounds(s, t + tag.len());
            let t2 = spec_trivia_end(s, t + tag.len());
            lemma_frag_run_bounds(s, t2, FragMode::Prelude);
        }
    }
}

/// Bounds of [`spec_opaque_chunk_end_braces_only`].
pub broadcast proof fn lemma_opaque_name_bounds(s: Seq<char>, i: int)
    ensures
        0 <= i <= s.len() ==> i <= #[trigger] spec_opaque_chunk_end_braces_only(s, i) <= s.len(),
    decreases rem(s, i),
{
    if 0 <= i < s.len() && s[i] != '{' {
        lemma_opaque_name_bounds(s, i + 1);
    }
}

/// Bounds of [`spec_opaque_chunk_end`].
pub broadcast proof fn lemma_opaque_chunk_end_bounds(s: Seq<char>, i: int)
    ensures
        0 <= i <= s.len() ==> i <= #[trigger] spec_opaque_chunk_end(s, i) <= s.len(),
    decreases rem(s, i),
{
    if 0 <= i < s.len() && s[i] != '{' && s[i] != '}' {
        if s[i] == '"' {
            lemma_string_end_bounds(s, i);
            match spec_string_end(s, i) {
                Some(j) => if i < j && j <= s.len() {
                    lemma_opaque_chunk_end_bounds(s, j);
                } else {
                    lemma_opaque_chunk_end_bounds(s, i + 1);
                },
                None => lemma_opaque_chunk_end_bounds(s, i + 1),
            }
        } else {
            lemma_opaque_chunk_end_bounds(s, i + 1);
        }
    }
}

/// Bounds of [`spec_opaque_contents`].
pub broadcast proof fn lemma_opaque_contents_bounds(s: Seq<char>, i: int)
    ensures
        0 <= i <= s.len() ==> i <= (#[trigger] spec_opaque_contents(s, i)).1 <= s.len(),
    decreases rem(s, i),
{
    if 0 <= i < s.len() {
        if s[i] == '}' {
        } else if s[i] == '{' {
            lemma_opaque_contents_bounds(s, i + 1);
            let (_, k) = spec_opaque_contents(s, i + 1);
            if i < k && k < s.len() && s[k] == '}' {
                lemma_opaque_contents_bounds(s, k + 1);
            }
        } else {
            lemma_opaque_chunk_end_bounds(s, i);
            let e = spec_opaque_chunk_end(s, i);
            if i < e && e <= s.len() {
                lemma_opaque_contents_bounds(s, e);
            }
        }
    }
}

/// Bounds of [`spec_opaque_rule`].
pub broadcast proof fn lemma_opaque_rule_bounds(s: Seq<char>, i: int)
    ensures
        0 <= i <= s.len() && (#[trigger] spec_opaque_rule(s, i)) is Some ==> i < pair_end(
            spec_opaque_rule(s, i),
        ) <= s.len(),
{
    if 0 <= i <= s.len() {
        lemma_trivia_end_bounds(s, i);
        let t = spec_trivia_end(s, i);
        if t < s.len() && s[t] == '@' {
            lemma_opaque_name_bounds(s, t + 1);
            let e = spec_opaque_chunk_end_braces_only(s, t + 1);
            if t + 1 < e && e < s.len() && s[e] == '{' {
                lemma_opaque_contents_bounds(s, e + 1);
            }
        }
    }
}

/// Bounds of [`spec_at_rule`].
pub broadcast proof fn lemma_at_rule_bounds(s: Seq<char>, i: int)
    ensures
        0 <= i <= s.len() && (#[trigger] spec_at_rule(s, i)) is Some ==> i < pair_end(
            spec_at_rule(s, i),
        ) <= s.len(),
    decreases rem(s, i), 0int,
{
    if 0 <= i <= s.len() {
        lemma_at_condition_bounds(s, i);
        if let Some((_, j)) = spec_at_condition(s, i) {
            if i <= j && j < s.len() && s[j] == '{' {
                lemma_scope_list_bounds(s, j + 1);
            }
        }
    }
}

/// Bounds of [`spec_scope_content`].
pub broadcast proof fn lemma_scope_content_bounds(s: Seq<char>, i: int)
    ensures
        0 <= i <= s.len() && (#[trigger] spec_scope_content(s, i)) is Some ==> i < pair_end(
            spec_scope_content(s, i),
        ) <= s.len(),
    decreases rem(s, i), 1int,
{
    if 0 <= i <= s.len() {
        lemma_dangling_attributes_bounds(s, i);
        lemma_block_bounds(s, i);
        lemma_at_rule_bounds(s, i);
        lemma_opaque_rule_bounds(s, i);
    }
}

/// Bounds of [`spec_scope_list`].
pub broadcast proof fn lemma_scope_list_bounds(s: Seq<char>, i: int)
    ensures
        0 <= i <= s.len() ==> i <= (#[trigger] spec_scope_list(s, i)).1 <= s.len(),
    decreases rem(s, i), 2int,
{
    if 0 <= i <= s.len() {
        lemma_scope_content_bounds(s, i);
        lemma_trivia_end_bounds(s, i);
        if let Some((_, j)) = spec_scope_content(s, i) {
            if i < j && j <= s.len() {
                lemma_scope_list_bounds(s, j);
            }
        }
    }
}

// ---------------------------------------------------------------------------
// well-formedness of everything the grammar produces
// ---------------------------------------------------------------------------
/// A parsed attribute has a non-empty key and a non-empty value.
proof fn lemma_attribute_wf(s: Seq<char>, i: int)
    requires
        0 <= i <= s.len(),
    ensures
        spec_attribute(s, i) matches Some(r) ==> crate::ast::wf_attribute(r.0),
{
    lemma_trivia_end_bounds(s, i);
    let t0 = spec_trivia_end(s, i);
    lemma_ident_end_bounds(s, t0);
}

/// Every selector of a parsed selector list is well-formed.
proof fn lemma_condition_wf(s: Seq<char>, i: int)
    requires
        0 <= i <= s.len(),
    ensures
        spec_condition(s, i) matches Some(r) ==> forall|q: int|
            0 <= q < r.0.len() ==> crate::ast::wf_selector(#[trigger] r.0[q]),
    decreases rem(s, i),
{
    if let Some((sel, j)) = spec_selector(s, i) {
        lemma_selector_bounds(s, i);
        if i <= j && j < s.len() && s[j] == ',' {
            lemma_condition_wf(s, j + 1);
            if let Some((whole, _)) = spec_condition(s, i) {
                if let Some((rest, _)) = spec_condition(s, j + 1) {
                    assert forall|q: int| 0 <= q < whole.len() implies crate::ast::wf_selector(
                        #[trigger] whole[q],
                    ) by {
                        if q == 0 {
                            assert(whole[q] == sel);
                        } else {
                            assert(whole[q] == rest[q - 1]);
                        }
                    }
                } else {
                    assert(whole[0] == sel);
                }
            }
        }
    }
}

/// Every attribute of a parsed attribute list is well-formed.
proof fn lemma_attr_list_wf(s: Seq<char>, i: int)
    requires
        0 <= i <= s.len(),
    ensures
        forall|q: int|
            0 <= q < spec_attr_list(s, i).0.len() ==> crate::ast::wf_attribute(
                #[trigger] spec_attr_list(s, i).0[q],
            ),
    decreases rem(s, i),
{
    lemma_attribute_wf(s, i);
    if let Some((a, j)) = spec_attribute(s, i) {
        lemma_attribute_bounds(s, i);
        let whole = spec_attr_list(s, i).0;
        if i <= j && j < s.len() && s[j] == ';' {
            lemma_attr_list_wf(s, j + 1);
            let rest = spec_attr_list(s, j + 1).0;
            assert forall|q: int| 0 <= q < whole.len() implies crate::ast::wf_attribute(
                #[trigger] whole[q],
            ) by {
                if q == 0 {
                    assert(whole[q] == a);
                } else {
                    assert(whole[q] == rest[q - 1]);
                }
            }
        } else {
            assert(whole[0] == a);
        }
    }
}

/// Every attribute of a parsed dangling run is well-formed.
proof fn lemma_dangling_attributes_wf(s: Seq<char>, i: int)
    requires
        0 <= i <= s.len(),
    ensures
        spec_dangling_attributes(s, i) matches Some(r) ==> forall|q: int|
            0 <= q < r.0.len() ==> crate::ast::wf_attribute(#[trigger] r.0[q]),
    decreases rem(s, i),
{
    lemma_attribute_wf(s, i);
    if let Some((a, j)) = spec_dangling_attribute(s, i) {
        lemma_dangling_attribute_bounds(s, i);
        if i < j && j <= s.len() {
            lemma_dangling_attributes_wf(s, j);
            if let Some((whole, _)) = spec_dangling_attributes(s, i) {
                if let Some((rest, _)) = spec_dangling_attributes(s, j) {
                    assert forall|q: int| 0 <= q < whole.len() implies crate::ast::wf_attribute(
                        #[trigger] whole[q],
                    ) by {
                        if q == 0 {
                            assert(whole[q] == a);
                        } else {
                            assert(whole[q] == rest[q - 1]);
                        }
                    }
                } else {
                    assert(whole[0] == a);
                }
            }
        }
    }
}

/// A parsed block is well-formed.
proof fn lemma_block_wf(s: Seq<char>, i: int)
    requires
        0 <= i <= s.len(),
    ensures
        spec_block(s, i) matches Some(r) ==> crate::ast::wf_block(r.0),
{
    lemma_condition_wf(s, i);
    if let Some((_, j)) = spec_condition(s, i) {
        lemma_condition_bounds(s, i);
        lemma_trivia_end_bounds(s, j);
        let t = spec_trivia_end(s, j);
        if t < s.len() && s[t] == '{' {
            lemma_attr_list_wf(s, t + 1);
        }
    }
}

/// Every item of a parsed opaque body is well-formed: braces and kept chunks
/// are never empty text.
proof fn lemma_opaque_contents_wf(s: Seq<char>, i: int)
    requires
        0 <= i <= s.len(),
    ensures
        forall|q: int|
            0 <= q < spec_opaque_contents(s, i).0.len() ==> crate::ast::wf_rule_content(
                #[trigger] spec_opaque_contents(s, i).0[q],
            ),
    decreases rem(s, i),
{
    reveal_strlit("{");
    reveal_strlit("}");
    if 0 <= i < s.len() {
        let whole = spec_opaque_contents(s, i).0;
        if s[i] == '}' {
        } else if s[i] == '{' {
            lemma_opaque_contents_bounds(s, i + 1);
            lemma_opaque_contents_wf(s, i + 1);
            let (sub, k) = spec_opaque_contents(s, i + 1);
            if i < k && k < s.len() && s[k] == '}' {
                lemma_opaque_contents_wf(s, k + 1);
                let rest = spec_opaque_contents(s, k + 1).0;
                assert forall|q: int| 0 <= q < whole.len() implies crate::ast::wf_rule_content(
                    #[trigger] whole[q],
                ) by {
                    if q == 0 {
                        assert(whole[q] == SpecRuleContent::String("{"@));
                    } else if q <= sub.len() {
                        assert(whole[q] == sub[q - 1]);
                    } else if q == sub.len() + 1 {
                        assert(whole[q] == SpecRuleContent::String("}"@));
                    } else {
                        assert(whole[q] == rest[q - sub.len() - 2]);
                    }
                }
            }
        } else {
            lemma_opaque_chunk_end_bounds(s, i);
            let e = spec_opaque_chunk_end(s, i);
            if i < e && e <= s.len() {
                lemma_opaque_contents_wf(s, e);
                let text = spec_trim(s.subrange(i, e));
                let rest = spec_opaque_contents(s, e).0;
                if text.len() > 0 {
                    assert forall|q: int| 0 <= q < whole.len() implies crate::ast::wf_rule_content(
                        #[trigger] whole[q],
                    ) by {
                        if q == 0 {
                            assert(whole[q] == SpecRuleContent::String(text));
                        } else {
                            assert(whole[q] == rest[q - 1]);
                        }
                    }
                }
            }
        }
    }
}

/// A parsed opaque at-rule is well-formed.
proof fn lemma_opaque_rule_wf(s: Seq<char>, i: int)
    requires
        0 <= i <= s.len(),
    ensures
        spec_opaque_rule(s, i) matches Some(r) ==> crate::ast::wf_rule(r.0),
{
    lemma_trivia_end_bounds(s, i);
    let t = spec_trivia_end(s, i);
    if t < s.len() && s[t] == '@' {
        lemma_opaque_name_bounds(s, t + 1);
        let e = spec_opaque_chunk_end_braces_only(s, t + 1);
        if t + 1 < e && e < s.len() && s[e] == '{' {
            lemma_opaque_contents_wf(s, e + 1);
        }
    }
}

/// A parsed recognised at-rule is well-formed.
proof fn lemma_at_rule_wf(s: Seq<char>, i: int)
    requires
        0 <= i <= s.len(),
    ensures
        spec_at_rule(s, i) matches Some(r) ==> crate::ast::wf_rule(r.0),
    decreases rem(s, i), 0int,
{
    if let Some((cond, j)) = spec_at_condition(s, i) {
        lemma_at_condition_bounds(s, i);
        if i <= j && j < s.len() && s[j] == '{' {
            lemma_scope_list_bounds(s, j + 1);
            lemma_scope_list_wf(s, j + 1);
            let (items, k) = spec_scope_list(s, j + 1);
            lemma_to_rule_contents_pointwise(items);
            if k < s.len() && s[k] == '}' {
                assert forall|q: int|
                    0 <= q < spec_to_rule_contents(items).len() implies crate::ast::wf_rule_content(
                    #[trigger] spec_to_rule_contents(items)[q],
                ) by {
                    assert(crate::ast::wf_scope_content(items[q]));
                    assert(spec_to_rule_contents(items)[q] == spec_to_rule_content(items[q]));
                }
            }
        }
    }
}

/// A parsed scope item is well-formed.
proof fn lemma_scope_content_wf(s: Seq<char>, i: int)
    requires
        0 <= i <= s.len(),
    ensures
        spec_scope_content(s, i) matches Some(r) ==> crate::ast::wf_scope_content(r.0),
    decreases rem(s, i), 1int,
{
    lemma_dangling_attributes_wf(s, i);
    lemma_block_wf(s, i);
    lemma_at_rule_wf(s, i);
    lemma_opaque_rule_wf(s, i);
}

/// Every item of a parsed scope is well-formed.
proof fn lemma_scope_list_wf(s: Seq<char>, i: int)
    requires
        0 <= i <= s.len(),
    ensures
        forall|q: int|
            0 <= q < spec_scope_list(s, i).0.len() ==> crate::ast::wf_scope_content(
                #[trigger] spec_scope_list(s, i).0[q],
            ),
    decreases rem(s, i), 2int,
{
    lemma_scope_content_wf(s, i);
    if let Some((item, j)) = spec_scope_content(s, i) {
        lemma_scope_content_bounds(s, i);
        if i < j && j <= s.len() {
            lemma_scope_list_wf(s, j);
            let whole = spec_scope_list(s, i).0;
            let rest = spec_scope_list(s, j).0;
            assert forall|q: int| 0 <= q < whole.len() implies crate::ast::wf_scope_content(
                #[trigger] whole[q],
            ) by {
                if q == 0 {
                    assert(whole[q] == item);
                } else {
                    assert(whole[q] == rest[q - 1]);
                }
            }
        }
    }
}

/// Everything a successful parse returns is well-formed: every selector,
/// at-rule prelude and attribute value holds at least one fragment, every
/// key and raw body chunk at least one character; only whole attribute lists
/// and rule bodies may be empty.
pub proof fn lemma_parse_output_well_formed(t: Seq<char>, m: SpecSheet)
    requires
        spec_sheet(t) == Ok::<SpecSheet, int>(m),
    ensures
        crate::ast::wf_sheet(m),
{
    lemma_scope_list_wf(t, 0);
}

/// All grammar bounds in one group.
pub broadcast group group_grammar_bounds {
    lemma_ws_end_bounds,
    lemma_comment_close_bounds,
    lemma_comment_end_bounds,
    lemma_trivia_end_bounds,
    lemma_string_tail_bounds,
    lemma_string_end_bounds,
    lemma_ident_scan_bounds,
    lemma_ident_end_bounds,
    lemma_name_scan_bounds,
    lemma_name_end_bounds,
    lemma_interp_bounds,
    lemma_chunk_end_bounds,
    lemma_frag_run_bounds,
    lemma_selector_bounds,
    lemma_condition_bounds,
    lemma_attribute_bounds,
    lemma_dangling_attribute_bounds,
    lemma_dangling_attributes_bounds,
    lemma_attr_list_bounds,
    lemma_block_bounds,
    lemma_at_condition_bounds,
    lemma_opaque_name_bounds,
    lemma_opaque_chunk_end_bounds,
    lemma_opaque_contents_bounds,
    lemma_opaque_rule_bounds,
    lemma_at_rule_bounds,
    lemma_scope_content_bounds,
    lemma_scope_list_bounds,
}

} // verus!
