//! The semantic representation of a stylesheet.
//!
//! ```text
//! struct Sheet
//! └── Vec<enum ScopeContent>
//!     ├── struct Block
//!     │   ├── condition: Vec<Selector>
//!     │   └── style_attributes: Vec<StyleAttribute>
//!     │       ├── key: String
//!     │       └── value: Vec<StringFragment>
//!     └── struct Rule
//!         ├── condition: Vec<StringFragment>
//!         └── content: Vec<enum RuleContent>
//!             ├── Block (*)
//!             ├── Rule (*)
//!             └── String
//! ```
//!
//! Every node is created once by a parse pass and never mutated afterwards.
//! Each executable type has a ghost model (`Spec*`) built from `Seq` and
//! `Seq<char>`, reached through `View`/`DeepView`; all contracts in this
//! crate speak about those models.

use vstd::prelude::*;

verus! {

broadcast use vstd::std_specs::vec::group_vec_axioms, vstd::seq::group_seq_axioms;

/// One piece of interpolatable text: either literal text, kept verbatim, or
/// a named interpolation placeholder (`${name}`) to be substituted by a
/// downstream binding step.
#[derive(Debug, Clone, PartialEq, Eq)]
pub enum StringFragment {
    Literal(String),
    Interpolation(String),
}

/// Ghost model of a [`StringFragment`].
#[verifier::ext_equal]
pub enum SpecFragment {
    Literal(Seq<char>),
    Interpolation(Seq<char>),
}

impl View for StringFragment {
    type V = SpecFragment;

    open spec fn view(&self) -> SpecFragment {
        match self {
            StringFragment::Literal(t) => SpecFragment::Literal(t@),
            StringFragment::Interpolation(n) => SpecFragment::Interpolation(n@),
        }
    }
}

impl DeepView for StringFragment {
    type V = SpecFragment;

    open spec fn deep_view(&self) -> SpecFragment {
        self.view()
    }
}

/// One comma-delimited selector entry, e.g. `.nested` or `:not(${sel})`.
#[derive(Debug, Clone, PartialEq, Eq)]
pub struct Selector {
    pub fragments: Vec<StringFragment>,
}

/// Ghost model of a [`Selector`].
#[verifier::ext_equal]
pub struct SpecSelector {
    pub fragments: Seq<SpecFragment>,
}

impl View for Selector {
    type V = SpecSelector;

    open spec fn view(&self) -> SpecSelector {
        SpecSelector { fragments: self.fragments.deep_view() }
    }
}

impl DeepView for Selector {
    type V = SpecSelector;

    open spec fn deep_view(&self) -> SpecSelector {
        self.view()
    }
}

/// A simple CSS property in the form of a key value pair, e.g. `color: red`.
/// Mirrors what would be called a "declaration" in the CSS standard.
#[derive(Debug, Clone, PartialEq, Eq)]
pub struct StyleAttribute {
    pub key: String,
    pub value: Vec<StringFragment>,
}

/// Ghost model of a [`StyleAttribute`].
#[verifier::ext_equal]
pub struct SpecStyleAttribute {
    pub key: Seq<char>,
    pub value: Seq<SpecFragment>,
}

impl View for StyleAttribute {
    type V = SpecStyleAttribute;

    open spec fn view(&self) -> SpecStyleAttribute {
        SpecStyleAttribute { key: self.key@, value: self.value.deep_view() }
    }
}

impl DeepView for StyleAttribute {
    type V = SpecStyleAttribute;

    open spec fn deep_view(&self) -> SpecStyleAttribute {
        self.view()
    }
}

/// A qualified rule block (`selector-list { attributes }`).  An empty
/// `condition` marks a dangling declaration group that appeared with no
/// selector.
#[derive(Debug, Clone, PartialEq, Eq)]
pub struct Block {
    pub condition: Vec<Selector>,
    pub style_attributes: Vec<StyleAttribute>,
}

/// Ghost model of a [`Block`].
#[verifier::ext_equal]
pub struct SpecBlock {
    pub condition: Seq<SpecSelector>,
    pub style_attributes: Seq<SpecStyleAttribute>,
}

impl View for Block {
    type V = SpecBlock;

    open spec fn view(&self) -> SpecBlock {
        SpecBlock {
            condition: self.condition.deep_view(),
            style_attributes: self.style_attributes.deep_view(),
        }
    }
}

impl DeepView for Block {
    type V = SpecBlock;

    open spec fn deep_view(&self) -> SpecBlock {
        self.view()
    }
}

/// An at-rule, e.g. `@media screen { ... }`.  `condition` is the prelude
/// (the at-keyword itself plus the interpolatable prelude text); `content`
/// is the body.
#[derive(Debug, PartialEq, Eq)]
pub struct Rule {
    pub condition: Vec<StringFragment>,
    pub content: Vec<RuleContent>,
}

/// One item of an at-rule body.  Recognised at-rules (`@media`/`@supports`)
/// contain blocks and nested rules; any other at-rule keeps its body as raw
/// `String` text chunks with brace items preserved.
#[derive(Debug, PartialEq, Eq)]
pub enum RuleContent {
    Block(Block),
    Rule(Rule),
    String(String),
}

/// Ghost model of a [`Rule`].
#[verifier::ext_equal]
pub struct SpecRule {
    pub condition: Seq<SpecFragment>,
    pub content: Seq<SpecRuleContent>,
}

/// Ghost model of a [`RuleContent`].
#[verifier::ext_equal]
pub enum SpecRuleContent {
    Block(SpecBlock),
    Rule(SpecRule),
    String(Seq<char>),
}

/// Ghost model of a sequence of [`RuleContent`] items, element by element.
pub open spec fn spec_rule_contents_model(s: Seq<RuleContent>) -> Seq<SpecRuleContent>
    decreases s,
{
    if s.len() == 0 {
        Seq::empty()
    } else {
        seq![spec_rule_content_model(s[0])] + spec_rule_contents_model(s.drop_first())
    }
}

/// [`spec_rule_contents_model`] maps the model over the sequence pointwise.
pub broadcast proof fn lemma_rule_contents_model(s: Seq<RuleContent>)
    ensures
        #[trigger] spec_rule_contents_model(s).len() == s.len(),
        forall|i: int|
            0 <= i < s.len() ==> spec_rule_contents_model(s)[i] == spec_rule_content_model(s[i]),
    decreases s.len(),
{
    if s.len() > 0 {
        lemma_rule_contents_model(s.drop_first());
    }
}

/// Ghost model of a [`Rule`], computed recursively over the body.
pub open spec fn spec_rule_model(r: Rule) -> SpecRule
    decreases r,
{
    SpecRule {
        condition: r.condition.deep_view(),
        content: spec_rule_contents_model(r.content@),
    }
}

/// Ghost model of a [`RuleContent`], computed recursively.
pub open spec fn spec_rule_content_model(c: RuleContent) -> SpecRuleContent
    decreases c,
{
    match c {
        RuleContent::Block(b) => SpecRuleContent::Block(b.deep_view()),
        RuleContent::Rule(r) => SpecRuleContent::Rule(spec_rule_model(r)),
        RuleContent::String(s) => SpecRuleContent::String(s@),
    }
}

impl View for Rule {
    type V = SpecRule;

    open spec fn view(&self) -> SpecRule {
        spec_rule_model(*self)
    }
}

impl DeepView for Rule {
    type V = SpecRule;

    open spec fn deep_view(&self) -> SpecRule {
        self.view()
    }
}

impl View for RuleContent {
    type V = SpecRuleContent;

    open spec fn view(&self) -> SpecRuleContent {
        spec_rule_content_model(*self)
    }
}

impl DeepView for RuleContent {
    type V = SpecRuleContent;

    open spec fn deep_view(&self) -> SpecRuleContent {
        self.view()
    }
}

/// One top-level scope item: a qualified (or dangling) block, or an at-rule.
#[derive(Debug, PartialEq, Eq)]
pub enum ScopeContent {
    Block(Block),
    Rule(Rule),
}

/// Ghost model of a [`ScopeContent`].
#[verifier::ext_equal]
pub enum SpecScopeContent {
    Block(SpecBlock),
    Rule(SpecRule),
}

impl View for ScopeContent {
    type V = SpecScopeContent;

    open spec fn view(&self) -> SpecScopeContent {
        match self {
            ScopeContent::Block(b) => SpecScopeContent::Block(b.deep_view()),
            ScopeContent::Rule(r) => SpecScopeContent::Rule(r.deep_view()),
        }
    }
}

impl DeepView for ScopeContent {
    type V = SpecScopeContent;

    open spec fn deep_view(&self) -> SpecScopeContent {
        self.view()
    }
}

/// A whole stylesheet: the ordered scope contents of its top level.
#[derive(Debug, PartialEq, Eq)]
pub struct Sheet {
    pub contents: Vec<ScopeContent>,
}

/// Ghost model of a [`Sheet`].
#[verifier::ext_equal]
pub struct SpecSheet {
    pub contents: Seq<SpecScopeContent>,
}

impl View for Sheet {
    type V = SpecSheet;

    open spec fn view(&self) -> SpecSheet {
        SpecSheet { contents: self.contents.deep_view() }
    }
}

impl DeepView for Sheet {
    type V = SpecSheet;

    open spec fn deep_view(&self) -> SpecSheet {
        self.view()
    }
}

impl Sheet {
    /// The number of top-level scope contents.
    pub fn len(&self) -> (n: usize)
        ensures
            n == self@.contents.len(),
    {
        self.contents.len()
    }

    /// Whether the sheet has no contents at all.
    pub fn is_empty(&self) -> (r: bool)
        ensures
            r == (self@.contents.len() == 0),
    {
        self.contents.len() == 0
    }
}

// ---------------------------------------------------------------------------
// deep copies
// ---------------------------------------------------------------------------
// The cache hands every caller an independently-owned sheet; these methods
// produce a copy that provably has the same model.
impl StringFragment {
    /// An independently-owned copy with the same model.
    pub fn duplicate(&self) -> (r: Self)
        ensures
            r@ == self@,
    {
        match self {
            StringFragment::Literal(t) => StringFragment::Literal(t.clone()),
            StringFragment::Interpolation(n) => StringFragment::Interpolation(n.clone()),
        }
    }
}

/// An independently-owned copy of a fragment sequence, with the same model.
fn dup_fragments(v: &Vec<StringFragment>) -> (r: Vec<StringFragment>)
    ensures
        r.deep_view() == v.deep_view(),
{
    let mut out: Vec<StringFragment> = Vec::new();
    let mut idx: usize = 0;
    while idx < v.len()
        invariant
            idx <= v.len(),
            out@.len() == idx,
            forall|q: int| 0 <= q < idx ==> out.deep_view()[q] == #[trigger] v.deep_view()[q],
        decreases v.len() - idx,
    {
        out.push(v[idx].duplicate());
        idx = idx + 1;
    }
    proof {
        assert(out.deep_view() =~= v.deep_view());
    }
    out
}

impl Selector {
    /// An independently-owned copy with the same model.
    pub fn duplicate(&self) -> (r: Self)
        ensures
            r@ == self@,
    {
        Selector { fragments: dup_fragments(&self.fragments) }
    }
}

impl StyleAttribute {
    /// An independently-owned copy with the same model.
    pub fn duplicate(&self) -> (r: Self)
        ensures
            r@ == self@,
    {
        StyleAttribute { key: self.key.clone(), value: dup_fragments(&self.value) }
    }
}

impl Block {
    /// An independently-owned copy with the same model.
    pub fn duplicate(&self) -> (r: Self)
        ensures
            r@ == self@,
    {
        let mut condition: Vec<Selector> = Vec::new();
        let mut idx: usize = 0;
        while idx < self.condition.len()
            invariant
                idx <= self.condition.len(),
                condition@.len() == idx,
                forall|q: int|
                    0 <= q < idx ==> condition.deep_view()[q]
                        == #[trigger] self.condition.deep_view()[q],
            decreases self.condition.len() - idx,
        {
            condition.push(self.condition[idx].duplicate());
            idx = idx + 1;
        }
        let mut style_attributes: Vec<StyleAttribute> = Vec::new();
        let mut adx: usize = 0;
        while adx < self.style_attributes.len()
            invariant
                adx <= self.style_attributes.len(),
                style_attributes@.len() == adx,
                forall|q: int|
                    0 <= q < adx ==> style_attributes.deep_view()[q]
                        == #[trigger] self.style_attributes.deep_view()[q],
            decreases self.style_attributes.len() - adx,
        {
            style_attributes.push(self.style_attributes[adx].duplicate());
            adx = adx + 1;
        }
        proof {
            assert(condition.deep_view() =~= self.condition.deep_view());
            assert(style_attributes.deep_view() =~= self.style_attributes.deep_view());
        }
        Block { condition, style_attributes }
    }
}

impl Rule {
    /// An independently-owned copy with the same model.
    pub fn duplicate(&self) -> (r: Self)
        ensures
            r@ == self@,
        decreases *self,
    {
        let condition = dup_fragments(&self.condition);
        let mut content: Vec<RuleContent> = Vec::new();
        let mut idx: usize = 0;
        while idx < self.content.len()
            invariant
                idx <= self.content.len(),
                content@.len() == idx,
                forall|q: int|
                    0 <= q < idx ==> content.deep_view()[q]
                        == #[trigger] self.content.deep_view()[q],
            decreases self.content.len() - idx,
        {
            content.push(self.content[idx].duplicate());
            idx = idx + 1;
        }
        proof {
            assert(content.deep_view() =~= self.content.deep_view());
            lemma_rule_contents_model(self.content@);
            lemma_rule_contents_model(content@);
            assert forall|q: int| 0 <= q < content@.len() implies spec_rule_contents_model(
                content@,
            )[q] == spec_rule_contents_model(self.content@)[q] by {
                assert(content.deep_view()[q] == self.content.deep_view()[q]);
            }
            assert(spec_rule_contents_model(content@) =~= spec_rule_contents_model(self.content@));
        }
        Rule { condition, content }
    }
}

impl RuleContent {
    /// An independently-owned copy with the same model.
    pub fn duplicate(&self) -> (r: Self)
        ensures
            r@ == self@,
        decreases *self,
    {
        match self {
            RuleContent::Block(b) => RuleContent::Block(b.duplicate()),
            RuleContent::Rule(r) => RuleContent::Rule(r.duplicate()),
            RuleContent::String(s) => RuleContent::String(s.clone()),
        }
    }
}

impl ScopeContent {
    /// An independently-owned copy with the same model.
    pub fn duplicate(&self) -> (r: Self)
        ensures
            r@ == self@,
    {
        match self {
            ScopeContent::Block(b) => ScopeContent::Block(b.duplicate()),
            ScopeContent::Rule(r) => ScopeContent::Rule(r.duplicate()),
        }
    }
}

impl Sheet {
    /// An independently-owned copy with the same model.
    pub fn duplicate(&self) -> (r: Self)
        ensures
            r@ == self@,
    {
        let mut contents: Vec<ScopeContent> = Vec::new();
        let mut idx: usize = 0;
        while idx < self.contents.len()
            invariant
                idx <= self.contents.len(),
                contents@.len() == idx,
                forall|q: int|
                    0 <= q < idx ==> contents.deep_view()[q]
                        == #[trigger] self.contents.deep_view()[q],
            decreases self.contents.len() - idx,
        {
            contents.push(self.contents[idx].duplicate());
            idx = idx + 1;
        }
        proof {
            assert(contents.deep_view() =~= self.contents.deep_view());
        }
        Sheet { contents }
    }
}

// ---------------------------------------------------------------------------
// structural equality
// ---------------------------------------------------------------------------
// Sheets are structurally comparable: two values are the same exactly when
// their models are equal.  The registry compares keys this way.
/// [`spec_rule_contents_model`] of a vector's elements is its deep view.
pub broadcast proof fn lemma_rule_model_bridge(v: Vec<RuleContent>)
    ensures
        #[trigger] spec_rule_contents_model(v@) == v.deep_view(),
{
    lemma_rule_contents_model(v@);
    assert(spec_rule_contents_model(v@) =~= v.deep_view());
}

impl StringFragment {
    /// Whether the two fragments have the same model.
    pub fn same_as(&self, other: &Self) -> (r: bool)
        ensures
            r == (self@ == other@),
    {
        match (self, other) {
            (StringFragment::Literal(a), StringFragment::Literal(b)) => a.eq(b),
            (StringFragment::Interpolation(a), StringFragment::Interpolation(b)) => a.eq(b),
            _ => false,
        }
    }
}

/// Whether two fragment sequences have the same model.
fn fragments_eq(a: &Vec<StringFragment>, b: &Vec<StringFragment>) -> (r: bool)
    ensures
        r == (a.deep_view() == b.deep_view()),
{
    if a.len() != b.len() {
        proof {
            assert(a.deep_view().len() == a@.len());
            assert(b.deep_view().len() == b@.len());
        }
        return false;
    }
    let mut idx: usize = 0;
    while idx < a.len()
        invariant
            idx <= a.len(),
            a@.len() == b@.len(),
            forall|q: int| 0 <= q < idx ==> a.deep_view()[q] == #[trigger] b.deep_view()[q],
        decreases a.len() - idx,
    {
        if !a[idx].same_as(&b[idx]) {
            proof {
                assert(a.deep_view()[idx as int] != b.deep_view()[idx as int]);
            }
            return false;
        }
        idx = idx + 1;
    }
    proof {
        assert(a.deep_view() =~= b.deep_view());
    }
    true
}

impl Selector {
    /// Whether the two selectors have the same model.
    pub fn same_as(&self, other: &Self) -> (r: bool)
        ensures
            r == (self@ == other@),
    {
        fragments_eq(&self.fragments, &other.fragments)
    }
}

impl StyleAttribute {
    /// Whether the two attributes have the same model.
    pub fn same_as(&self, other: &Self) -> (r: bool)
        ensures
            r == (self@ == other@),
    {
        self.key.eq(&other.key) && fragments_eq(&self.value, &other.value)
    }
}

/// Whether two selector lists have the same model.
fn selectors_eq(a: &Vec<Selector>, b: &Vec<Selector>) -> (r: bool)
    ensures
        r == (a.deep_view() == b.deep_view()),
{
    if a.len() != b.len() {
        proof {
            assert(a.deep_view().len() == a@.len());
            assert(b.deep_view().len() == b@.len());
        }
        return false;
    }
    let mut idx: usize = 0;
    while idx < a.len()
        invariant
            idx <= a.len(),
            a@.len() == b@.len(),
            forall|q: int| 0 <= q < idx ==> a.deep_view()[q] == #[trigger] b.deep_view()[q],
        decreases a.len() - idx,
    {
        if !a[idx].same_as(&b[idx]) {
            proof {
                assert(a.deep_view()[idx as int] != b.deep_view()[idx as int]);
            }
            return false;
        }
        idx = idx + 1;
    }
    proof {
        assert(a.deep_view() =~= b.deep_view());
    }
    true
}

/// Whether two attribute lists have the same model.
fn attributes_eq(a: &Vec<StyleAttribute>, b: &Vec<StyleAttribute>) -> (r: bool)
    ensures
        r == (a.deep_view() == b.deep_view()),
{
    if a.len() != b.len() {
        proof {
            assert(a.deep_view().len() == a@.len());
            assert(b.deep_view().len() == b@.len());
        }
        return false;
    }
    let mut idx: usize = 0;
    while idx < a.len()
        invariant
            idx <= a.len(),
            a@.len() == b@.len(),
            forall|q: int| 0 <= q < idx ==> a.deep_view()[q] == #[trigger] b.deep_view()[q],
        decreases a.len() - idx,
    {
        if !a[idx].same_as(&b[idx]) {
            proof {
                assert(a.deep_view()[idx as int] != b.deep_view()[idx as int]);
            }
            return false;
        }
        idx = idx + 1;
    }
    proof {
        assert(a.deep_view() =~= b.deep_view());
    }
    true
}

impl Block {
    /// Whether the two blocks have the same model.
    pub fn same_as(&self, other: &Self) -> (r: bool)
        ensures
            r == (self@ == other@),
    {
        selectors_eq(&self.condition, &other.condition) && attributes_eq(
            &self.style_attributes,
            &other.style_attributes,
        )
    }
}

impl Rule {
    /// Whether the two rules have the same model.
    pub fn same_as(&self, other: &Self) -> (r: bool)
        ensures
            r == (self@ == other@),
        decreases *self,
    {
        proof {
            lemma_rule_model_bridge(self.content);
            lemma_rule_model_bridge(other.content);
        }
        fragments_eq(&self.condition, &other.condition) && rule_contents_eq(
            &self.content,
            &other.content,
        )
    }
}

impl RuleContent {
    /// Whether the two rule contents have the same model.
    pub fn same_as(&self, other: &Self) -> (r: bool)
        ensures
            r == (self@ == other@),
        decreases *self,
    {
        match (self, other) {
            (RuleContent::Block(a), RuleContent::Block(b)) => a.same_as(b),
            (RuleContent::Rule(a), RuleContent::Rule(b)) => a.same_as(b),
            (RuleContent::String(a), RuleContent::String(b)) => a.eq(b),
            _ => false,
        }
    }
}

/// Whether two rule content lists have the same model.
fn rule_contents_eq(a: &Vec<RuleContent>, b: &Vec<RuleContent>) -> (r: bool)
    ensures
        r == (a.deep_view() == b.deep_view()),
    decreases *a,
{
    if a.len() != b.len() {
        proof {
            assert(a.deep_view().len() == a@.len());
            assert(b.deep_view().len() == b@.len());
        }
        return false;
    }
    let mut idx: usize = 0;
    while idx < a.len()
        invariant
            idx <= a.len(),
            a@.len() == b@.len(),
            forall|q: int| 0 <= q < idx ==> a.deep_view()[q] == #[trigger] b.deep_view()[q],
        decreases a.len() - idx,
    {
        if !a[idx].same_as(&b[idx]) {
            proof {
                assert(a.deep_view()[idx as int] != b.deep_view()[idx as int]);
            }
            return false;
        }
        idx = idx + 1;
    }
    proof {
        assert(a.deep_view() =~= b.deep_view());
    }
    true
}

impl ScopeContent {
    /// Whether the two scope contents have the same model.
    pub fn same_as(&self, other: &Self) -> (r: bool)
        ensures
            r == (self@ == other@),
    {
        match (self, other) {
            (ScopeContent::Block(a), ScopeContent::Block(b)) => a.same_as(b),
            (ScopeContent::Rule(a), ScopeContent::Rule(b)) => a.same_as(b),
            _ => false,
        }
    }
}

/// Whether two scope content lists have the same model.
fn scope_contents_eq(a: &Vec<ScopeContent>, b: &Vec<ScopeContent>) -> (r: bool)
    ensures
        r == (a.deep_view() == b.deep_view()),
{
    if a.len() != b.len() {
        proof {
            assert(a.deep_view().len() == a@.len());
            assert(b.deep_view().len() == b@.len());
        }
        return false;
    }
    let mut idx: usize = 0;
    while idx < a.len()
        invariant
            idx <= a.len(),
            a@.len() == b@.len(),
            forall|q: int| 0 <= q < idx ==> a.deep_view()[q] == #[trigger] b.deep_view()[q],
        decreases a.len() - idx,
    {
        if !a[idx].same_as(&b[idx]) {
            proof {
                assert(a.deep_view()[idx as int] != b.deep_view()[idx as int]);
            }
            return false;
        }
        idx = idx + 1;
    }
    proof {
        assert(a.deep_view() =~= b.deep_view());
    }
    true
}

impl Sheet {
    /// Whether the two sheets have the same model: structural equality over
    /// the whole tree.
    pub fn same_as(&self, other: &Self) -> (r: bool)
        ensures
            r == (self@ == other@),
    {
        scope_contents_eq(&self.contents, &other.contents)
    }
}

// ---------------------------------------------------------------------------
// well-formedness
// ---------------------------------------------------------------------------
// The shape of every parsed tree: a selector, an at-rule prelude and an
// attribute value hold at least one fragment, a key and a raw body chunk at
// least one character, while the lists themselves may be empty exactly where
// the construct is (an empty attribute list and an empty rule body are
// legal).
/// A selector holds at least one fragment.
pub open spec fn wf_selector(s: SpecSelector) -> bool {
    s.fragments.len() >= 1
}

/// An attribute has a non-empty key and at least one value fragment.
pub open spec fn wf_attribute(a: SpecStyleAttribute) -> bool {
    a.key.len() >= 1 && a.value.len() >= 1
}

/// Every selector and attribute of the block is well-formed.
pub open spec fn wf_block(b: SpecBlock) -> bool {
    (forall|i: int| 0 <= i < b.condition.len() ==> wf_selector(#[trigger] b.condition[i])) && (
    forall|i: int|
        0 <= i < b.style_attributes.len() ==> wf_attribute(#[trigger] b.style_attributes[i]))
}

/// The rule has a non-empty prelude and a well-formed body.
pub open spec fn wf_rule(r: SpecRule) -> bool
    decreases r,
{
    r.condition.len() >= 1 && (forall|i: int|
        0 <= i < r.content.len() ==> wf_rule_content(#[trigger] r.content[i]))
}

/// A rule body item is well-formed; a raw chunk is never empty.
pub open spec fn wf_rule_content(c: SpecRuleContent) -> bool
    decreases c,
{
    match c {
        SpecRuleContent::Block(b) => wf_block(b),
        SpecRuleContent::Rule(r) => wf_rule(r),
        SpecRuleContent::String(s) => s.len() >= 1,
    }
}

/// A scope item is well-formed.
pub open spec fn wf_scope_content(c: SpecScopeContent) -> bool {
    match c {
        SpecScopeContent::Block(b) => wf_block(b),
        SpecScopeContent::Rule(r) => wf_rule(r),
    }
}

/// Every scope item of the sheet is well-formed.
pub open spec fn wf_sheet(m: SpecSheet) -> bool {
    forall|i: int| 0 <= i < m.contents.len() ==> wf_scope_content(#[trigger] m.contents[i])
}

// ---------------------------------------------------------------------------
// exact text reconstruction
// ---------------------------------------------------------------------------
// Fragments re-emit deterministically: literal text verbatim, a placeholder
// as `${name}`.  A style attribute re-emits as `key: value;`.
/// The exact re-emitted text of one fragment.
pub open spec fn spec_fragment_text(f: SpecFragment) -> Seq<char> {
    match f {
        SpecFragment::Literal(t) => t,
        SpecFragment::Interpolation(n) => "${"@ + n + "}"@,
    }
}

/// The concatenated re-emitted text of a fragment run.
pub open spec fn spec_fragments_text(v: Seq<SpecFragment>) -> Seq<char>
    decreases v.len(),
{
    if v.len() == 0 {
        Seq::empty()
    } else {
        spec_fragment_text(v[0]) + spec_fragments_text(v.drop_first())
    }
}

/// Re-emitting one more fragment appends its text.
pub proof fn lemma_fragments_text_snoc(v: Seq<SpecFragment>, x: SpecFragment)
    ensures
        spec_fragments_text(v.push(x)) == spec_fragments_text(v) + spec_fragment_text(x),
    decreases v.len(),
{
    if v.len() == 0 {
        let p = v.push(x);
        assert(p[0] == x);
        assert(p.drop_first() =~= Seq::<SpecFragment>::empty());
        assert(spec_fragments_text(p.drop_first()) =~= Seq::<char>::empty());
        assert(spec_fragments_text(p) =~= spec_fragment_text(x));
        assert(spec_fragments_text(v) + spec_fragment_text(x) =~= spec_fragment_text(x));
    } else {
        lemma_fragments_text_snoc(v.drop_first(), x);
        assert(v.push(x).drop_first() =~= v.drop_first().push(x));
        assert(spec_fragment_text(v[0]) + (spec_fragments_text(v.drop_first())
            + spec_fragment_text(x)) =~= (spec_fragment_text(v[0]) + spec_fragments_text(
            v.drop_first(),
        )) + spec_fragment_text(x));
    }
}

impl StringFragment {
    /// Append this fragment's exact re-emitted text to `w`.
    pub fn write_style(&self, w: &mut String)
        ensures
            final(w)@ == old(w)@ + spec_fragment_text(self@),
    {
        match self {
            StringFragment::Literal(t) => w.append(t.as_str()),
            StringFragment::Interpolation(n) => {
                w.append("${");
                w.append(n.as_str());
                w.append("}");
                proof {
                    assert(w@ =~= old(w)@ + ("${"@ + n@ + "}"@));
                }
            },
        }
    }
}

impl StyleAttribute {
    /// Append this attribute as `key: value;` to `w`, the value fragments
    /// reconstructed exactly.
    pub fn write_style(&self, w: &mut String)
        ensures
            final(w)@ == old(w)@ + self@.key + ": "@ + spec_fragments_text(self@.value) + ";"@,
    {
        w.append(self.key.as_str());
        w.append(": ");
        proof {
            assert(w@ =~= old(w)@ + self@.key + ": "@ + spec_fragments_text(
                self@.value.take(0),
            ));
        }
        let mut idx: usize = 0;
        while idx < self.value.len()
            invariant
                idx <= self.value.len(),
                w@ == old(w)@ + self@.key + ": "@ + spec_fragments_text(
                    self@.value.take(idx as int),
                ),
            decreases self.value.len() - idx,
        {
            self.value[idx].write_style(w);
            proof {
                lemma_fragments_text_snoc(self@.value.take(idx as int), self@.value[idx as int]);
                assert(self@.value.take(idx + 1) =~= self@.value.take(idx as int).push(
                    self@.value[idx as int],
                ));
                assert(w@ =~= old(w)@ + self@.key + ": "@ + spec_fragments_text(
                    self@.value.take(idx + 1),
                ));
            }
            idx = idx + 1;
        }
        w.append(";");
        proof {
            assert(self@.value.take(self.value@.len() as int) =~= self@.value);
            assert(w@ =~= old(w)@ + self@.key + ": "@ + spec_fragments_text(self@.value) + ";"@);
        }
    }
}

impl From<Vec<ScopeContent>> for Sheet {
    fn from(contents: Vec<ScopeContent>) -> (r: Sheet) {
        Sheet { contents }
    }
}

impl vstd::std_specs::convert::FromSpecImpl<Vec<ScopeContent>> for Sheet {
    open spec fn obeys_from_spec() -> bool {
        true
    }

    open spec fn from_spec(contents: Vec<ScopeContent>) -> Sheet {
        Sheet { contents }
    }
}

} // verus!

