//! The style registry: a table of registered styles that makes sure no style
//! gets lost.
//!
//! A style is identified by its [`StyleKey`] (the user-chosen prefix and the
//! parsed sheet, compared structurally).  Registering a style whose key is
//! already present is a caller error — the scoping layer registers each
//! distinct style exactly once — so [`StyleRegistry::register`] requires the
//! key to be absent.  The registry is an explicit value; the embedding
//! program decides how it is shared and locked.

use vstd::prelude::*;

use crate::ast::{Sheet, SpecSheet};

verus! {

broadcast use vstd::std_specs::vec::group_vec_axioms, vstd::seq::group_seq_axioms;

/// The identity of a registered style: the style prefix and the parsed
/// sheet.
#[derive(Debug)]
pub struct StyleKey {
    pub prefix: String,
    pub sheet: Sheet,
}

/// Ghost model of a [`StyleKey`].
#[verifier::ext_equal]
pub struct SpecStyleKey {
    pub prefix: Seq<char>,
    pub sheet: SpecSheet,
}

impl View for StyleKey {
    type V = SpecStyleKey;

    open spec fn view(&self) -> SpecStyleKey {
        SpecStyleKey { prefix: self.prefix@, sheet: self.sheet@ }
    }
}

impl DeepView for StyleKey {
    type V = SpecStyleKey;

    open spec fn deep_view(&self) -> SpecStyleKey {
        self.view()
    }
}

impl StyleKey {
    /// Whether the two keys have the same model.
    pub fn same_as(&self, other: &Self) -> (r: bool)
        ensures
            r == (self@ == other@),
    {
        self.prefix.eq(&other.prefix) && self.sheet.same_as(&other.sheet)
    }

    /// An independently-owned copy with the same model.
    pub fn duplicate(&self) -> (r: Self)
        ensures
            r@ == self@,
    {
        StyleKey { prefix: self.prefix.clone(), sheet: self.sheet.duplicate() }
    }
}

/// A registered style: its key and the class name that the scoping layer
/// assigned to it.
#[derive(Debug)]
pub struct Style {
    pub key: StyleKey,
    pub class_name: String,
}

/// Ghost model of a [`Style`].
#[verifier::ext_equal]
pub struct SpecStyle {
    pub key: SpecStyleKey,
    pub class_name: Seq<char>,
}

impl View for Style {
    type V = SpecStyle;

    open spec fn view(&self) -> SpecStyle {
        SpecStyle { key: self.key@, class_name: self.class_name@ }
    }
}

impl DeepView for Style {
    type V = SpecStyle;

    open spec fn deep_view(&self) -> SpecStyle {
        self.view()
    }
}

impl Style {
    /// The key under which this style is registered.
    pub fn key(&self) -> (r: &StyleKey)
        ensures
            r@ == self@.key,
    {
        &self.key
    }

    /// The class name the scoping layer assigned.
    pub fn get_class_name(&self) -> (r: &String)
        ensures
            r@ == self@.class_name,
    {
        &self.class_name
    }
}

/// The first index in `styles` whose key is `k`, or `-1` when no style has
/// that key.
pub open spec fn spec_find(styles: Seq<SpecStyle>, k: SpecStyleKey) -> int
    decreases styles.len(),
{
    if styles.len() == 0 {
        -1
    } else if styles[0].key == k {
        0
    } else {
        let r = spec_find(styles.drop_first(), k);
        if r < 0 {
            -1
        } else {
            r + 1
        }
    }
}

/// What [`spec_find`] returns: `-1` exactly when no style has the key, else
/// the first index that has it.
pub broadcast proof fn lemma_spec_find(styles: Seq<SpecStyle>, k: SpecStyleKey)
    ensures
        (#[trigger] spec_find(styles, k) == -1) <==> (forall|p: int|
            0 <= p < styles.len() ==> (#[trigger] styles[p]).key != k),
        spec_find(styles, k) != -1 ==> 0 <= spec_find(styles, k) < styles.len() && styles[spec_find(
            styles,
            k,
        )].key == k && (forall|p: int| 0 <= p < spec_find(styles, k) ==> (#[trigger] styles[p]).key
            != k),
    decreases styles.len(),
{
    if styles.len() > 0 {
        let rest = styles.drop_first();
        lemma_spec_find(rest, k);
        assert forall|p: int| 1 <= p < styles.len() implies #[trigger] styles[p] == rest[p - 1] by {}
        if styles[0].key != k {
            let r = spec_find(rest, k);
            if r < 0 {
                assert forall|p: int| 0 <= p < styles.len() implies (#[trigger] styles[p]).key
                    != k by {
                    if p >= 1 {
                        assert(rest[p - 1].key != k);
                    }
                }
            } else {
                assert forall|p: int| 0 <= p < r + 1 implies (#[trigger] styles[p]).key != k by {
                    if p >= 1 {
                        assert(rest[p - 1].key != k);
                    }
                }
                assert(styles[r + 1].key == k);
            }
        }
    }
}

/// The table of registered styles, in registration order.  Its model is the
/// sequence of style models; every operation says exactly what it does to
/// that sequence.
#[derive(Debug)]
pub struct StyleRegistry {
    styles: Vec<Style>,
}

impl View for StyleRegistry {
    type V = Seq<SpecStyle>;

    closed spec fn view(&self) -> Seq<SpecStyle> {
        self.styles.deep_view()
    }
}

impl StyleRegistry {
    /// Whether some registered style has the key `k`.
    pub open spec fn spec_has_key(&self, k: SpecStyleKey) -> bool {
        spec_find(self@, k) >= 0
    }

    /// An empty registry.
    pub fn new() -> (r: Self)
        ensures
            r@ == Seq::<SpecStyle>::empty(),
    {
        let r = StyleRegistry { styles: Vec::new() };
        proof {
            assert(r@ =~= Seq::<SpecStyle>::empty());
        }
        r
    }

    /// The index of the first registered style with this key, if any.
    fn find(&self, key: &StyleKey) -> (r: Option<usize>)
        ensures
            match r {
                Some(q) => q == spec_find(self@, key@) && q < self@.len(),
                None => spec_find(self@, key@) == -1,
            },
    {
        proof {
            lemma_spec_find(self@, key@);
        }
        let mut q: usize = 0;
        while q < self.styles.len()
            invariant
                0 <= q <= self.styles@.len(),
                self@.len() == self.styles@.len(),
                forall|p: int| 0 <= p < q ==> (#[trigger] self@[p]).key != key@,
            decreases self.styles@.len() - q,
        {
            if self.styles[q].key.same_as(key) {
                proof {
                    lemma_spec_find(self@, key@);
                    assert(self@[q as int].key == key@);
                }
                return Some(q);
            }
            q = q + 1;
        }
        proof {
            lemma_spec_find(self@, key@);
        }
        None
    }

    /// Register a style.  The key must not be registered yet: registering
    /// the same identity twice is an error in the scoping layer.
    pub fn register(&mut self, style: Style)
        requires
            !old(self).spec_has_key(style@.key),
        ensures
            final(self)@ == old(self)@.push(style@),
    {
        self.styles.push(style);
        proof {
            assert(self@ =~= old(self)@.push(style@));
        }
    }

    /// Remove the style registered under this key, if any.
    pub fn unregister(&mut self, key: &StyleKey)
        ensures
            spec_find(old(self)@, key@) == -1 ==> final(self)@ == old(self)@,
            spec_find(old(self)@, key@) >= 0 ==> final(self)@ == old(self)@.remove(
                spec_find(old(self)@, key@),
            ),
            !final(self).spec_has_key(key@) || spec_find(old(self)@, key@) >= 0,
    {
        match self.find(key) {
            Some(q) => {
                self.styles.remove(q);
                proof {
                    assert(self@ =~= old(self)@.remove(q as int));
                }
            },
            None => {
                proof {
                    assert(self@ =~= old(self)@);
                }
            },
        }
    }

    /// The style registered under this key, if any.
    pub fn get(&self, key: &StyleKey) -> (r: Option<&Style>)
        ensures
            match r {
                Some(st) => self.spec_has_key(key@) && st@ == self@[spec_find(self@, key@)],
                None => !self.spec_has_key(key@),
            },
    {
        match self.find(key) {
            Some(q) => Some(&self.styles[q]),
            None => None,
        }
    }
}

} // verus!
