//! Tracking of the kind of expression context an output item appears in.
//!
//! Code generation collaborators build output either from static parts alone
//! or from parts that mention dynamic arguments; a context that has seen a
//! dynamic argument can no longer be treated as static (and, say, cached
//! globally).

use vstd::prelude::*;

verus! {

/// What a reified expression is allowed to be used as.
#[derive(Debug, Clone, Copy, PartialEq, Eq, Structural)]
pub enum AllowedUsage {
    /// A dynamic argument was used somewhere in the expression.
    Dynamic,
    /// Everything seen so far is static.
    Static,
}

/// Records whether the expression built so far is static.  Freshly created
/// contexts are static; seeing a dynamic argument is irreversible.
#[derive(Debug, Clone, Copy, PartialEq, Eq, Structural)]
pub struct ReifyContext {
    /// What the expression seen so far may be used as.
    pub usage: AllowedUsage,
}

impl ReifyContext {
    /// Whether no dynamic argument has been recorded.
    pub open spec fn spec_is_static(&self) -> bool {
        self.usage is Static
    }

    /// A fresh context: static until a dynamic argument is recorded.
    pub fn new() -> (r: Self)
        ensures
            r.spec_is_static(),
    {
        Self { usage: AllowedUsage::Static }
    }

    /// Record the usage of a dynamic expression.
    pub fn uses_dynamic_argument(&mut self)
        ensures
            !final(self).spec_is_static(),
    {
        self.usage = AllowedUsage::Dynamic;
    }

    /// Whether the context is still static.
    pub fn is_static(&self) -> (r: bool)
        ensures
            r == self.spec_is_static(),
    {
        matches!(self.usage, AllowedUsage::Static)
    }
}

impl Default for ReifyContext {
    /// The default context is static.
    fn default() -> (r: Self)
        ensures
            r.spec_is_static(),
    {
        Self::new()
    }
}

} // verus!
