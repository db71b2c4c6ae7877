//! Usage flags for texture subresources and the aspect selector.

use vstd::prelude::*;

verus! {

/// Flag: the subresource is read as a copy source.
pub const COPY_SRC: u32 = 1;

/// Flag: the subresource is written as a copy destination.
pub const COPY_DST: u32 = 2;

/// Flag: the subresource is sampled in a shader.
pub const SAMPLED: u32 = 4;

/// Flag: the subresource is accessed as a storage image.
pub const STORAGE: u32 = 8;

/// Flag: the subresource is written as a render attachment.
pub const ATTACHMENT: u32 = 16;

/// The class of usages that write: at most one member of this class may be
/// combined with any other concurrent usage without a barrier.
pub const WRITE_ALL: u32 = COPY_DST | STORAGE | ATTACHMENT;

/// An OR-composable set of usage flags. The empty set is the sentinel for
/// "never tracked".
#[derive(Clone, Copy, Debug, PartialEq, Eq, Structural)]
pub struct TextureUsage {
    pub bits: u32,
}

impl TextureUsage {
    /// The empty usage: no recorded access.
    pub open spec fn spec_empty() -> TextureUsage {
        TextureUsage { bits: 0 }
    }

    #[verifier::when_used_as_spec(spec_empty)]
    pub fn empty() -> (r: TextureUsage)
        ensures
            r == TextureUsage::spec_empty(),
    {
        TextureUsage { bits: 0 }
    }

    pub open spec fn spec_is_empty(self) -> bool {
        self.bits == 0
    }

    #[verifier::when_used_as_spec(spec_is_empty)]
    pub fn is_empty(self) -> (r: bool)
        ensures
            r == self.spec_is_empty(),
    {
        self.bits == 0
    }

    /// The combination of two usages: both accesses are recorded.
    pub open spec fn spec_union(self, other: TextureUsage) -> TextureUsage {
        TextureUsage { bits: self.bits | other.bits }
    }

    #[verifier::when_used_as_spec(spec_union)]
    pub fn union(self, other: TextureUsage) -> (r: TextureUsage)
        ensures
            r == self.spec_union(other),
    {
        TextureUsage { bits: self.bits | other.bits }
    }

    /// Whether the two flag sets share a member.
    pub open spec fn spec_intersects(self, other: TextureUsage) -> bool {
        self.bits & other.bits != 0
    }

    #[verifier::when_used_as_spec(spec_intersects)]
    pub fn intersects(self, other: TextureUsage) -> (r: bool)
        ensures
            r == self.spec_intersects(other),
    {
        self.bits & other.bits != 0
    }
}

/// Holds when moving a subresource whose recorded usage is `old_u` to `new_u`
/// without an explicit barrier is illegal: there is prior recorded use, the
/// target differs from it, and the combination touches the write class.
pub open spec fn spec_conflict(old_u: TextureUsage, new_u: TextureUsage) -> bool {
    old_u != new_u && !old_u.spec_is_empty() && (old_u.bits | new_u.bits) & WRITE_ALL != 0
}

/// Exec mirror of `spec_conflict`.
pub fn usage_conflict(old_u: TextureUsage, new_u: TextureUsage) -> (r: bool)
    ensures
        r == spec_conflict(old_u, new_u),
{
    old_u != new_u && !old_u.is_empty() && (old_u.bits | new_u.bits) & WRITE_ALL != 0
}

/// The union of a usage with itself is itself.
pub proof fn lemma_union_self(x: u32)
    ensures
        x | x == x,
{
    assert(x | x == x) by (bit_vector);
}

/// The union with the empty usage is the other side.
pub proof fn lemma_union_empty(x: u32)
    ensures
        0 | x == x,
        x | 0 == x,
{
    assert(0 | x == x) by (bit_vector);
    assert(x | 0 == x) by (bit_vector);
}


/// Flags whose union avoids a class individually avoid it, and unioning one
/// of them again changes nothing about that.
pub proof fn lemma_union_write_free(x: u32, y: u32, w: u32)
    requires
        (x | y) & w == 0,
    ensures
        x & w == 0,
        y & w == 0,
        ((x | y) | y) & w == 0,
        x | y == (x | y) | y,
{
    assert(x & w == 0 && y & w == 0 && ((x | y) | y) & w == 0 && x | y == (x | y) | y)
        by (bit_vector)
        requires
            (x | y) & w == 0,
    ;
}

/// The set of aspects a selector addresses.
#[derive(Clone, Copy, Debug, PartialEq, Eq, Structural)]
pub struct Aspects {
    pub color: bool,
    pub depth: bool,
    pub stencil: bool,
}

impl Aspects {
    /// The color aspect alone.
    pub open spec fn spec_color_only() -> Aspects {
        Aspects { color: true, depth: false, stencil: false }
    }

    #[verifier::when_used_as_spec(spec_color_only)]
    pub fn color_only() -> (r: Aspects)
        ensures
            r == Aspects::spec_color_only(),
    {
        Aspects { color: true, depth: false, stencil: false }
    }

    /// The depth aspect alone.
    pub open spec fn spec_depth_only() -> Aspects {
        Aspects { color: false, depth: true, stencil: false }
    }

    #[verifier::when_used_as_spec(spec_depth_only)]
    pub fn depth_only() -> (r: Aspects)
        ensures
            r == Aspects::spec_depth_only(),
    {
        Aspects { color: false, depth: true, stencil: false }
    }

    /// The stencil aspect alone.
    pub open spec fn spec_stencil_only() -> Aspects {
        Aspects { color: false, depth: false, stencil: true }
    }

    #[verifier::when_used_as_spec(spec_stencil_only)]
    pub fn stencil_only() -> (r: Aspects)
        ensures
            r == Aspects::spec_stencil_only(),
    {
        Aspects { color: false, depth: false, stencil: true }
    }
}

} // verus!
