//! The per-subresource state unit and the stitch policy for merging
//! independently recorded histories.

use vstd::prelude::*;

use crate::range::ValueEq;
use crate::usage::TextureUsage;

verus! {

/// Selects, when merging two histories, whether the other side contributes
/// the usage it started at (`Init`) or the usage it ended at (`Last`) as the
/// target of the stitched transition.
#[derive(Clone, Copy, Debug, PartialEq, Eq, Structural)]
pub enum Stitch {
    Init,
    Last,
}

/// The usage history of one subresource slice within one tracking scope:
/// the usage it first entered tracking at, and the usage after the most
/// recent operation. Once set, `init` never changes; only `last` advances.
#[derive(Clone, Copy, Debug, PartialEq, Eq, Structural)]
pub struct Unit {
    pub init: TextureUsage,
    pub last: TextureUsage,
}

impl Unit {
    /// A slice entering tracking at usage `u`.
    pub open spec fn spec_new(u: TextureUsage) -> Unit {
        Unit { init: u, last: u }
    }

    #[verifier::when_used_as_spec(spec_new)]
    pub fn new(u: TextureUsage) -> (r: Unit)
        ensures
            r == Unit::spec_new(u),
    {
        Unit { init: u, last: u }
    }

    /// The zero unit: both ends empty. Stands for an untracked side when two
    /// histories are merged.
    pub open spec fn spec_zero() -> Unit {
        Unit { init: TextureUsage::spec_empty(), last: TextureUsage::spec_empty() }
    }

    #[verifier::when_used_as_spec(spec_zero)]
    pub fn zero() -> (r: Unit)
        ensures
            r == Unit::spec_zero(),
    {
        Unit { init: TextureUsage::empty(), last: TextureUsage::empty() }
    }

    /// The usage this unit contributes as the target of a stitched
    /// transition, under the given policy.
    pub open spec fn spec_select(self, stitch: Stitch) -> TextureUsage {
        match stitch {
            Stitch::Init => self.init,
            Stitch::Last => self.last,
        }
    }

    #[verifier::when_used_as_spec(spec_select)]
    pub fn select(self, stitch: Stitch) -> (r: TextureUsage)
        ensures
            r == self.spec_select(stitch),
    {
        match stitch {
            Stitch::Init => self.init,
            Stitch::Last => self.last,
        }
    }
}

impl ValueEq for Unit {
    fn value_eq(&self, other: &Self) -> (r: bool) {
        *self == *other
    }
}

/// Independent usage histories for the depth and stencil aspects of one
/// layer range: a combined depth-stencil format may use the two aspects
/// differently within the same subresource.
#[derive(Clone, Copy, Debug, PartialEq, Eq, Structural)]
pub struct DepthStencilState {
    pub depth: Unit,
    pub stencil: Unit,
}

impl DepthStencilState {
    /// Both aspects entering tracking at usage `u`.
    pub open spec fn spec_new(u: TextureUsage) -> DepthStencilState {
        DepthStencilState { depth: Unit::spec_new(u), stencil: Unit::spec_new(u) }
    }

    #[verifier::when_used_as_spec(spec_new)]
    pub fn new(u: TextureUsage) -> (r: DepthStencilState)
        ensures
            r == DepthStencilState::spec_new(u),
    {
        DepthStencilState { depth: Unit::new(u), stencil: Unit::new(u) }
    }

    /// The zero state: both aspects untracked.
    pub open spec fn spec_zero() -> DepthStencilState {
        DepthStencilState { depth: Unit::spec_zero(), stencil: Unit::spec_zero() }
    }

    #[verifier::when_used_as_spec(spec_zero)]
    pub fn zero() -> (r: DepthStencilState)
        ensures
            r == DepthStencilState::spec_zero(),
    {
        DepthStencilState { depth: Unit::zero(), stencil: Unit::zero() }
    }
}

impl ValueEq for DepthStencilState {
    fn value_eq(&self, other: &Self) -> (r: bool) {
        *self == *other
    }
}

} // verus!
