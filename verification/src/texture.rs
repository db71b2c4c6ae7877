//! The texture state tracker: per-mip-level layer-range maps for the color
//! aspect and one shared layer-range map for the depth/stencil aspect.

use vstd::prelude::*;

use crate::range::iso_sem;
use crate::range::lemma_entry_state_at;
use crate::range::lemma_state_at_entry;
use crate::range::merged_sem;
use crate::range::or_default;
use crate::range::seq_coalesced;
use crate::range::seq_state_at;
use crate::range::seq_wf;
use crate::range::LayerRange;
use crate::range::RangedStates;
use crate::unit::Stitch;
use crate::unit::DepthStencilState;
use crate::unit::Unit;
use crate::usage::spec_conflict;
use crate::usage::usage_conflict;
use crate::usage::Aspects;
use crate::usage::TextureUsage;

verus! {

/// The hardware bound on the number of mip levels a texture may have.
pub const MAX_MIP_LEVELS: usize = 16;

/// Identifies a tracked texture resource; assigned by the surrounding
/// identity system.
pub type TextureId = u64;

/// A half-open range of mip levels.
#[derive(Clone, Copy, Debug, PartialEq, Eq, Structural)]
pub struct LevelRange {
    pub start: u8,
    pub end: u8,
}

impl LevelRange {
    pub open spec fn spec_contains(self, lv: int) -> bool {
        self.start <= lv < self.end
    }

    pub open spec fn spec_is_empty(self) -> bool {
        self.start >= self.end
    }
}

/// An axis-aligned box of subresources: a set of aspects, a mip-level range
/// and an array-layer range.
#[derive(Clone, Copy, Debug, PartialEq, Eq, Structural)]
pub struct SubresourceRange {
    pub aspects: Aspects,
    pub levels: LevelRange,
    pub layers: LayerRange,
}

/// A usage change `start .. end` that requires a barrier.
#[derive(Clone, Copy, Debug, PartialEq, Eq, Structural)]
pub struct UsageRange {
    pub start: TextureUsage,
    pub end: TextureUsage,
}

/// One required barrier: the resource, the exact slice affected and the
/// usage range to bridge. Immutable once created.
#[derive(Clone, Copy, Debug, PartialEq, Eq, Structural)]
pub struct PendingTransition {
    pub id: TextureId,
    pub selector: SubresourceRange,
    pub usage: UsageRange,
}

/// Tracks the usage state of one texture within one recording scope.
#[derive(Clone, Debug)]
pub struct TextureStates {
    pub color_mips: Vec<RangedStates<Unit>>,
    pub depth_stencil: RangedStates<DepthStencilState>,
}

impl TextureStates {
    /// Color state of the subresource at (`level`, `layer`), `None` where
    /// untracked.
    pub open spec fn color_unit(self, level: int, layer: int) -> Option<Unit> {
        if 0 <= level < self.color_mips@.len() {
            self.color_mips@[level].state_at(layer)
        } else {
            None
        }
    }

    /// Depth/stencil state of the subresources at `layer` (shared across mip
    /// levels), `None` where untracked.
    pub open spec fn ds_unit(self, layer: int) -> Option<DepthStencilState> {
        self.depth_stencil.state_at(layer)
    }

    /// The number of mip levels with a color map.
    pub open spec fn color_len(self) -> int {
        self.color_mips@.len() as int
    }

    pub open spec fn wf(self) -> bool {
        &&& self.color_mips@.len() <= MAX_MIP_LEVELS
        &&& forall|k: int|
            0 <= k < self.color_mips@.len() ==> (#[trigger] self.color_mips@[k]).wf()
                && self.color_mips@[k].coalesced()
        &&& self.depth_stencil.wf()
        &&& self.depth_stencil.coalesced()
    }

    /// An empty tracker: no subresource tracked yet, meaning "whatever state
    /// the resource was created in".
    pub fn new() -> (r: TextureStates)
        ensures
            r.wf(),
            r.color_len() == 0,
            forall|lv: int, la: int| #[trigger] r.color_unit(lv, la) is None,
            forall|la: int| #[trigger] r.ds_unit(la) is None,
    {
        TextureStates { color_mips: Vec::new(), depth_stencil: RangedStates::new() }
    }
}


impl SubresourceRange {
    /// The selector addresses the color subresource at (`lv`, `la`).
    pub open spec fn sel_color(self, lv: int, la: int) -> bool {
        self.aspects.color && self.levels.spec_contains(lv) && self.layers.spec_contains(la)
    }

    /// Whether the depth/stencil map is touched at all: some depth/stencil
    /// aspect is selected and both the level and the layer range are
    /// non-empty.
    pub open spec fn ds_active(self) -> bool {
        (self.aspects.depth || self.aspects.stencil) && !self.levels.spec_is_empty()
            && !self.layers.spec_is_empty()
    }
}

/// The recorded `last` usage, if any.
pub open spec fn unit_last(o: Option<Unit>) -> Option<TextureUsage> {
    match o {
        Some(un) => Some(un.last),
        None => None,
    }
}

/// Conflict against an optional prior usage: an untracked slice never
/// conflicts.
pub open spec fn opt_conflict(o: Option<TextureUsage>, u: TextureUsage) -> bool {
    match o {
        Some(x) => spec_conflict(x, u),
        None => false,
    }
}

/// How one color unit changes under implicit-mode `change`: an untracked
/// slice enters tracking at the target, a tracked one accumulates the union.
pub open spec fn upd_unit_check(o: Option<Unit>, u: TextureUsage) -> Unit {
    match o {
        None => Unit::spec_new(u),
        Some(un) => Unit { init: un.init, last: un.last.spec_union(u) },
    }
}

/// How one color unit changes under explicit-mode `change`: the usage is
/// replaced by the target outright (the caller emits the barrier).
pub open spec fn upd_unit_record(o: Option<Unit>, u: TextureUsage) -> Unit {
    match o {
        None => Unit::spec_new(u),
        Some(un) => Unit { init: un.init, last: u },
    }
}

/// How one depth/stencil state changes under implicit-mode `change`, per
/// selected aspect.
pub open spec fn upd_ds_check(
    o: Option<DepthStencilState>,
    u: TextureUsage,
    dep: bool,
    sten: bool,
) -> DepthStencilState {
    match o {
        None => DepthStencilState::spec_new(u),
        Some(ds) => DepthStencilState {
            depth: if dep {
                Unit { init: ds.depth.init, last: ds.depth.last.spec_union(u) }
            } else {
                ds.depth
            },
            stencil: if sten {
                Unit { init: ds.stencil.init, last: ds.stencil.last.spec_union(u) }
            } else {
                ds.stencil
            },
        },
    }
}

/// How one depth/stencil state changes under explicit-mode `change`.
pub open spec fn upd_ds_record(
    o: Option<DepthStencilState>,
    u: TextureUsage,
    dep: bool,
    sten: bool,
) -> DepthStencilState {
    match o {
        None => DepthStencilState::spec_new(u),
        Some(ds) => DepthStencilState {
            depth: if dep {
                Unit { init: ds.depth.init, last: u }
            } else {
                ds.depth
            },
            stencil: if sten {
                Unit { init: ds.stencil.init, last: u }
            } else {
                ds.stencil
            },
        },
    }
}

/// Some color subresource addressed by `sel` is tracked with `last == u`.
pub open spec fn color_contrib(t: TextureStates, sel: SubresourceRange, u: TextureUsage) -> bool {
    exists|lv: int, la: int|
        sel.sel_color(lv, la) && ((#[trigger] t.color_unit(lv, la)) matches Some(un) && un.last
            == u)
}

/// Some depth subresource addressed by `sel` is tracked with `last == u`.
pub open spec fn depth_contrib(t: TextureStates, sel: SubresourceRange, u: TextureUsage) -> bool {
    sel.aspects.depth && exists|la: int|
        sel.layers.spec_contains(la) && ((#[trigger] t.ds_unit(la)) matches Some(ds)
            && ds.depth.last == u)
}

/// Some stencil subresource addressed by `sel` is tracked with `last == u`.
pub open spec fn stencil_contrib(t: TextureStates, sel: SubresourceRange, u: TextureUsage) -> bool {
    sel.aspects.stencil && exists|la: int|
        sel.layers.spec_contains(la) && ((#[trigger] t.ds_unit(la)) matches Some(ds)
            && ds.stencil.last == u)
}

/// `u` is the usage of some subresource addressed by `sel`.
pub open spec fn is_contrib(t: TextureStates, sel: SubresourceRange, u: TextureUsage) -> bool {
    color_contrib(t, sel, u) || depth_contrib(t, sel, u) || stencil_contrib(t, sel, u)
}

/// Every subresource addressed by `sel` that is tracked has usage `u`, and
/// at least one is tracked.
pub open spec fn uniform_contrib(t: TextureStates, sel: SubresourceRange, u: TextureUsage) -> bool {
    is_contrib(t, sel, u) && forall|u2: TextureUsage| #[trigger] is_contrib(t, sel, u2) ==> u2 == u
}

/// What `query` returns: the single usage shared by every tracked
/// subresource the selector addresses, or `None` when there is none or they
/// disagree.
pub open spec fn query_spec(t: TextureStates, sel: SubresourceRange) -> Option<TextureUsage> {
    if exists|u: TextureUsage| uniform_contrib(t, sel, u) {
        Some(choose|u: TextureUsage| uniform_contrib(t, sel, u))
    } else {
        None
    }
}

/// No subresource addressed by `sel` holds a usage that conflicts with `u`:
/// exactly when implicit-mode `change` succeeds.
pub open spec fn change_ok(t: TextureStates, sel: SubresourceRange, u: TextureUsage) -> bool {
    &&& forall|lv: int, la: int|
        sel.sel_color(lv, la) ==> !opt_conflict(unit_last(#[trigger] t.color_unit(lv, la)), u)
    &&& sel.ds_active() && sel.aspects.depth ==> forall|la: int|
        sel.layers.spec_contains(la) ==> !opt_conflict(
            match #[trigger] t.ds_unit(la) {
                Some(ds) => Some(ds.depth.last),
                None => None,
            },
            u,
        )
    &&& sel.ds_active() && sel.aspects.stencil ==> forall|la: int|
        sel.layers.spec_contains(la) ==> !opt_conflict(
            match #[trigger] t.ds_unit(la) {
                Some(ds) => Some(ds.stencil.last),
                None => None,
            },
            u,
        )
}

/// The number of color maps after a `change`: grown to the selector's level
/// end when the color aspect is addressed.
pub open spec fn grown_len(t0: TextureStates, sel: SubresourceRange) -> int {
    if sel.aspects.color && sel.levels.end as int > t0.color_len() {
        sel.levels.end as int
    } else {
        t0.color_len()
    }
}

/// The state relation of a successful implicit-mode `change`.
pub open spec fn change_check_post(
    t0: TextureStates,
    t1: TextureStates,
    sel: SubresourceRange,
    u: TextureUsage,
) -> bool {
    &&& t1.color_len() == grown_len(t0, sel)
    &&& forall|lv: int, la: int|
        #[trigger] t1.color_unit(lv, la) == (if sel.sel_color(lv, la) {
            Some(upd_unit_check(t0.color_unit(lv, la), u))
        } else {
            t0.color_unit(lv, la)
        })
    &&& forall|la: int|
        #[trigger] t1.ds_unit(la) == (if sel.ds_active() && sel.layers.spec_contains(la) {
            Some(upd_ds_check(t0.ds_unit(la), u, sel.aspects.depth, sel.aspects.stencil))
        } else {
            t0.ds_unit(la)
        })
}

/// The state relation of an explicit-mode `change`: every addressed slice
/// ends at exactly the target usage.
pub open spec fn change_record_post(
    t0: TextureStates,
    t1: TextureStates,
    sel: SubresourceRange,
    u: TextureUsage,
) -> bool {
    &&& t1.color_len() == grown_len(t0, sel)
    &&& forall|lv: int, la: int|
        #[trigger] t1.color_unit(lv, la) == (if sel.sel_color(lv, la) {
            Some(upd_unit_record(t0.color_unit(lv, la), u))
        } else {
            t0.color_unit(lv, la)
        })
    &&& forall|la: int|
        #[trigger] t1.ds_unit(la) == (if sel.ds_active() && sel.layers.spec_contains(la) {
            Some(upd_ds_record(t0.ds_unit(la), u, sel.aspects.depth, sel.aspects.stencil))
        } else {
            t0.ds_unit(la)
        })
}

/// What holds of the error payload of a failed implicit-mode `change`: it
/// describes an actual conflicting slice of the old state, and nothing
/// outside the selector was disturbed.
pub open spec fn change_err_post(
    t0: TextureStates,
    t1: TextureStates,
    sel: SubresourceRange,
    u: TextureUsage,
    id: TextureId,
    p: PendingTransition,
) -> bool {
    &&& p.id == id
    &&& p.usage.end == u
    &&& spec_conflict(p.usage.start, u)
    &&& !p.selector.layers.spec_is_empty()
    &&& p.selector.layers.start >= sel.layers.start && p.selector.layers.end <= sel.layers.end
    &&& p.selector.levels.end == p.selector.levels.start + 1
    &&& sel.levels.spec_contains(p.selector.levels.start as int)
    &&& (p.selector.aspects == Aspects::spec_color_only() ==> sel.aspects.color && exists|la: int|
        p.selector.layers.spec_contains(la) && ((#[trigger] t0.color_unit(
            p.selector.levels.start as int,
            la,
        )) matches Some(un) && un.last == p.usage.start))
    &&& (p.selector.aspects == Aspects::spec_depth_only() ==> sel.aspects.depth && exists|la: int|
        p.selector.layers.spec_contains(la) && ((#[trigger] t0.ds_unit(la)) matches Some(ds)
            && ds.depth.last == p.usage.start))
    &&& (p.selector.aspects == Aspects::spec_stencil_only() ==> sel.aspects.stencil && exists|
        la: int,
    |
        p.selector.layers.spec_contains(la) && ((#[trigger] t0.ds_unit(la)) matches Some(ds)
            && ds.stencil.last == p.usage.start))
    &&& (p.selector.aspects == Aspects::spec_color_only() || p.selector.aspects
        == Aspects::spec_depth_only() || p.selector.aspects == Aspects::spec_stencil_only())
    &&& t1.color_len() == grown_len(t0, sel)
    &&& forall|lv: int, la: int|
        !sel.sel_color(lv, la) ==> #[trigger] t1.color_unit(lv, la) == t0.color_unit(lv, la)
    &&& forall|lv: int, la: int|
        sel.sel_color(lv, la) ==> #[trigger] t1.color_unit(lv, la) == t0.color_unit(lv, la)
            || t1.color_unit(lv, la) == Some(upd_unit_check(t0.color_unit(lv, la), u))
    &&& forall|la: int|
        !(sel.ds_active() && sel.layers.spec_contains(la)) ==> #[trigger] t1.ds_unit(la)
            == t0.ds_unit(la)
    &&& forall|la: int|
        sel.ds_active() && sel.layers.spec_contains(la) ==> #[trigger] t1.ds_unit(la)
            == t0.ds_unit(la) || ds_partial_state(
            t0.ds_unit(la),
            t1.ds_unit(la),
            u,
            sel.aspects.depth,
            sel.aspects.stencil,
        )
}


/// A tracked entry value equal to the target, or the accumulated union,
/// depending on whether the old usage already equals the target.
pub open spec fn upd_entry_check(un: Unit, u: TextureUsage) -> Unit {
    if un.last == u {
        un
    } else {
        Unit { init: un.init, last: un.last.spec_union(u) }
    }
}

/// `upd_entry_check` and `upd_unit_check` agree on tracked units.
proof fn lemma_upd_entry_unit(un: Unit, u: TextureUsage)
    ensures
        upd_entry_check(un, u) == upd_unit_check(Some(un), u),
{
    if un.last == u {
        crate::usage::lemma_union_self(u.bits);
    }
}

/// Implicit-mode update of one color mip map over `layers`: isolates the
/// layer range, accumulates the target usage into every already tracked
/// entry that is compatible, and reports the first conflicting entry (range
/// and its old usage) without touching it.
fn update_color_level_check(
    map: &mut RangedStates<Unit>,
    layers: LayerRange,
    usage: TextureUsage,
) -> (r: Option<(LayerRange, TextureUsage)>)
    requires
        old(map).wf(),
        old(map).coalesced(),
        layers.start < layers.end,
    ensures
        final(map).wf(),
        final(map).coalesced(),
        r is None ==> forall|la: int|
            #[trigger] final(map).state_at(la) == (if layers.spec_contains(la) {
                Some(upd_unit_check(old(map).state_at(la), usage))
            } else {
                old(map).state_at(la)
            }),
        r is None ==> forall|la: int|
            layers.spec_contains(la) ==> !opt_conflict(
                unit_last(#[trigger] old(map).state_at(la)),
                usage,
            ),
        r matches Some((rg, ol)) ==> ({
            &&& spec_conflict(ol, usage)
            &&& rg.start >= layers.start && rg.end <= layers.end && rg.start < rg.end
            &&& exists|la: int|
                rg.spec_contains(la) && ((#[trigger] old(map).state_at(la)) matches Some(un)
                    && un.last == ol)
            &&& forall|la: int|
                !layers.spec_contains(la) ==> #[trigger] final(map).state_at(la) == old(
                    map,
                ).state_at(la)
            &&& forall|la: int|
                layers.spec_contains(la) ==> #[trigger] final(map).state_at(la) == old(
                    map,
                ).state_at(la) || final(map).state_at(la) == Some(
                    upd_unit_check(old(map).state_at(la), usage),
                )
        }),
{
    let ghost orig = map.sv();
    map.isolate(layers, Unit::new(usage));
    let ghost iso = map.sv();
    let ghost miso = *map;
    proof {
        assert forall|la: int|
            #[trigger] seq_state_at(iso, la) == iso_sem(
                orig,
                layers,
                Unit::spec_new(usage),
                la,
            ) by {
            assert(miso.state_at(la) == iso_sem(orig, layers, Unit::spec_new(usage), la));
        }
    }
    let n = map.len();
    let mut i: usize = 0;
    while i < n
        invariant
            map.wf(),
            seq_wf(iso),
            orig == old(map).sv(),
            n == map.sv().len(),
            n == iso.len(),
            0 <= i <= n,
            layers.start < layers.end,
            forall|la: int|
                #[trigger] seq_state_at(iso, la) == iso_sem(orig, layers, Unit::spec_new(usage), la),
            forall|k: int|
                0 <= k < n ==> ({
                    let e = (#[trigger] iso[k]).0;
                    e.end <= layers.start || layers.end <= e.start || (layers.start <= e.start
                        && e.end <= layers.end)
                }),
            forall|k: int| 0 <= k < n ==> (#[trigger] map.sv()[k]).0 == iso[k].0,
            forall|k: int|
                0 <= k < n ==> (#[trigger] map.sv()[k]).1 == (if k < i && layers.start
                    <= iso[k].0.start && iso[k].0.end <= layers.end {
                    upd_entry_check(iso[k].1, usage)
                } else {
                    iso[k].1
                }),
            forall|k: int|
                0 <= k < i && layers.start <= (#[trigger] iso[k]).0.start && iso[k].0.end
                    <= layers.end ==> !spec_conflict(iso[k].1.last, usage),
        decreases n - i,
    {
        let (rg, un) = map.get(i);
        proof {
            assert(map.sv()[i as int].1 == iso[i as int].1);
        }
        if layers.start <= rg.start && rg.end <= layers.end {
            if !(un.last == usage) {
                if usage_conflict(un.last, usage) {
                    proof {
                        let la = rg.start as int;
                        lemma_entry_state_at(iso, i as int, la);
                        // a fresh default entry has `last == usage`, so this one
                        // came from the map's prior entries
                        assert(seq_state_at(orig, la) == Some(un));
                        assert(old(map).state_at(la) == Some(un));
                    }
                    let ghost pre = map.sv();
                    map.coalesce();
                    proof {
                        lemma_check_partial(orig, iso, pre, layers, usage, i as int);
                        assert forall|la: int| !layers.spec_contains(la) implies #[trigger] map.state_at(la)
                            == old(map).state_at(la) by {
                            assert(seq_state_at(pre, la) == seq_state_at(orig, la));
                        }
                        assert forall|la: int| layers.spec_contains(la) implies #[trigger] map.state_at(la)
                            == old(map).state_at(la) || map.state_at(la) == Some(
                            upd_unit_check(old(map).state_at(la), usage),
                        ) by {
                            assert(seq_state_at(pre, la) == seq_state_at(orig, la) || seq_state_at(
                                pre,
                                la,
                            ) == Some(upd_unit_check(seq_state_at(orig, la), usage)));
                        }
                    }
                    return Some((rg, un.last));
                }
                map.set_value(i, Unit { init: un.init, last: un.last.union(usage) });
            }
        }
        i += 1;
    }
    let ghost pre = map.sv();
    map.coalesce();
    proof {
        assert forall|la: int|
            #[trigger] map.state_at(la) == (if layers.spec_contains(la) {
                Some(upd_unit_check(seq_state_at(orig, la), usage))
            } else {
                seq_state_at(orig, la)
            }) by {
            lemma_check_pointwise(orig, iso, pre, layers, usage, la, n as int);
        }
        assert forall|la: int| layers.spec_contains(la) implies !opt_conflict(
            unit_last(#[trigger] seq_state_at(orig, la)),
            usage,
        ) by {
            lemma_check_no_conflict(orig, iso, layers, usage, la, n as int);
        }
    }
    None
}

/// After the implicit-mode loop over an isolated map, the per-layer state is
/// the checked update of the prior state.
proof fn lemma_check_pointwise(
    orig: Seq<(LayerRange, Unit)>,
    iso: Seq<(LayerRange, Unit)>,
    cur: Seq<(LayerRange, Unit)>,
    layers: LayerRange,
    usage: TextureUsage,
    la: int,
    n: int,
)
    requires
        seq_wf(iso),
        seq_wf(cur),
        n == iso.len(),
        n == cur.len(),
        layers.start < layers.end,
        forall|l2: int|
            #[trigger] seq_state_at(iso, l2) == iso_sem(orig, layers, Unit::spec_new(usage), l2),
        forall|k: int|
            0 <= k < n ==> ({
                let e = (#[trigger] iso[k]).0;
                e.end <= layers.start || layers.end <= e.start || (layers.start <= e.start
                    && e.end <= layers.end)
            }),
        forall|k: int| 0 <= k < n ==> (#[trigger] cur[k]).0 == iso[k].0,
        forall|k: int|
            0 <= k < n ==> (#[trigger] cur[k]).1 == (if layers.start <= iso[k].0.start
                && iso[k].0.end <= layers.end {
                upd_entry_check(iso[k].1, usage)
            } else {
                iso[k].1
            }),
    ensures
        seq_state_at(cur, la) == (if layers.spec_contains(la) {
            Some(upd_unit_check(seq_state_at(orig, la), usage))
        } else {
            seq_state_at(orig, la)
        }),
{
    lemma_state_at_entry(iso, la);
    if layers.spec_contains(la) {
        // the window is fully tracked after isolate
        assert(seq_state_at(iso, la) is Some);
        let k = choose|k: int|
            0 <= k < iso.len() && (#[trigger] iso[k]).0.spec_contains(la) && iso[k].1
                == seq_state_at(iso, la)->Some_0;
        // the containing entry lies inside the window
        assert(layers.start <= iso[k].0.start && iso[k].0.end <= layers.end);
        lemma_entry_state_at(cur, k, la);
        lemma_upd_entry_unit(iso[k].1, usage);
        match seq_state_at(orig, la) {
            Some(un) => {
                assert(iso[k].1 == un);
            },
            None => {
                assert(iso[k].1 == Unit::spec_new(usage));
                crate::usage::lemma_union_self(usage.bits);
            },
        }
    } else {
        match seq_state_at(iso, la) {
            Some(v) => {
                let k = choose|k: int|
                    0 <= k < iso.len() && (#[trigger] iso[k]).0.spec_contains(la) && iso[k].1 == v;
                assert(!(layers.start <= iso[k].0.start && iso[k].0.end <= layers.end));
                lemma_entry_state_at(cur, k, la);
            },
            None => {
                lemma_state_at_entry(cur, la);
                if seq_state_at(cur, la) is Some {
                    let k = choose|k: int|
                        0 <= k < cur.len() && (#[trigger] cur[k]).0.spec_contains(la);
                    lemma_entry_state_at(iso, k, la);
                    assert(false);
                }
            },
        }
    }
}

/// After a clean implicit-mode pass, no prior slice in the window
/// conflicted.
proof fn lemma_check_no_conflict(
    orig: Seq<(LayerRange, Unit)>,
    iso: Seq<(LayerRange, Unit)>,
    layers: LayerRange,
    usage: TextureUsage,
    la: int,
    n: int,
)
    requires
        seq_wf(iso),
        n == iso.len(),
        layers.start < layers.end,
        layers.spec_contains(la),
        forall|l2: int|
            #[trigger] seq_state_at(iso, l2) == iso_sem(orig, layers, Unit::spec_new(usage), l2),
        forall|k: int|
            0 <= k < n ==> ({
                let e = (#[trigger] iso[k]).0;
                e.end <= layers.start || layers.end <= e.start || (layers.start <= e.start
                    && e.end <= layers.end)
            }),
        forall|k: int|
            0 <= k < n && layers.start <= (#[trigger] iso[k]).0.start && iso[k].0.end <= layers.end
                ==> !spec_conflict(iso[k].1.last, usage),
    ensures
        !opt_conflict(unit_last(seq_state_at(orig, la)), usage),
{
    match seq_state_at(orig, la) {
        Some(un) => {
            assert(seq_state_at(iso, la) == Some(un));
            lemma_state_at_entry(iso, la);
            let k = choose|k: int|
                0 <= k < iso.len() && (#[trigger] iso[k]).0.spec_contains(la) && iso[k].1 == un;
            assert(layers.start <= iso[k].0.start && iso[k].0.end <= layers.end);
        },
        None => {},
    }
}

/// What holds of the map when an implicit-mode pass stops at a conflict:
/// layers outside the window are untouched, layers inside are either still
/// at their prior state or already checked-updated.
proof fn lemma_check_partial(
    orig: Seq<(LayerRange, Unit)>,
    iso: Seq<(LayerRange, Unit)>,
    cur: Seq<(LayerRange, Unit)>,
    layers: LayerRange,
    usage: TextureUsage,
    i: int,
)
    requires
        seq_wf(iso),
        seq_wf(cur),
        iso.len() == cur.len(),
        0 <= i <= iso.len(),
        layers.start < layers.end,
        forall|l2: int|
            #[trigger] seq_state_at(iso, l2) == iso_sem(orig, layers, Unit::spec_new(usage), l2),
        forall|k: int|
            0 <= k < iso.len() ==> ({
                let e = (#[trigger] iso[k]).0;
                e.end <= layers.start || layers.end <= e.start || (layers.start <= e.start
                    && e.end <= layers.end)
            }),
        forall|k: int| 0 <= k < iso.len() ==> (#[trigger] cur[k]).0 == iso[k].0,
        forall|k: int|
            0 <= k < iso.len() ==> (#[trigger] cur[k]).1 == (if k < i && layers.start
                <= iso[k].0.start && iso[k].0.end <= layers.end {
                upd_entry_check(iso[k].1, usage)
            } else {
                iso[k].1
            }),
    ensures
        forall|la: int|
            !layers.spec_contains(la) ==> #[trigger] seq_state_at(cur, la) == seq_state_at(
                orig,
                la,
            ),
        forall|la: int|
            layers.spec_contains(la) ==> #[trigger] seq_state_at(cur, la) == seq_state_at(orig, la)
                || seq_state_at(cur, la) == Some(upd_unit_check(seq_state_at(orig, la), usage)),
{
    assert forall|la: int| !layers.spec_contains(la) implies #[trigger] seq_state_at(cur, la)
        == seq_state_at(orig, la) by {
        lemma_state_at_entry(iso, la);
        match seq_state_at(iso, la) {
            Some(v) => {
                let k = choose|k: int|
                    0 <= k < iso.len() && (#[trigger] iso[k]).0.spec_contains(la) && iso[k].1 == v;
                assert(!(layers.start <= iso[k].0.start && iso[k].0.end <= layers.end));
                lemma_entry_state_at(cur, k, la);
            },
            None => {
                lemma_state_at_entry(cur, la);
                if seq_state_at(cur, la) is Some {
                    let k = choose|k: int|
                        0 <= k < cur.len() && (#[trigger] cur[k]).0.spec_contains(la);
                    lemma_entry_state_at(iso, k, la);
                    assert(false);
                }
            },
        }
    }
    assert forall|la: int| layers.spec_contains(la) implies #[trigger] seq_state_at(cur, la)
        == seq_state_at(orig, la) || seq_state_at(cur, la) == Some(
        upd_unit_check(seq_state_at(orig, la), usage),
    ) by {
        lemma_state_at_entry(iso, la);
        assert(seq_state_at(iso, la) is Some);
        let k = choose|k: int|
            0 <= k < iso.len() && (#[trigger] iso[k]).0.spec_contains(la) && iso[k].1
                == seq_state_at(iso, la)->Some_0;
        assert(layers.start <= iso[k].0.start && iso[k].0.end <= layers.end);
        lemma_entry_state_at(cur, k, la);
        if k < i {
            lemma_upd_entry_unit(iso[k].1, usage);
            match seq_state_at(orig, la) {
                Some(un) => {},
                None => {
                    crate::usage::lemma_union_self(usage.bits);
                },
            }
        } else {
            match seq_state_at(orig, la) {
                Some(un) => {},
                None => {},
            }
        }
    }
}


/// Entries of `iso` all lie inside or outside the window.
pub open spec fn window_aligned<T>(iso: Seq<(LayerRange, T)>, layers: LayerRange) -> bool {
    forall|k: int|
        0 <= k < iso.len() ==> ({
            let e = (#[trigger] iso[k]).0;
            e.end <= layers.start || layers.end <= e.start || (layers.start <= e.start && e.end
                <= layers.end)
        })
}

/// Entry `k` of `iso` lies inside the window.
pub open spec fn entry_inside<T>(iso: Seq<(LayerRange, T)>, k: int, layers: LayerRange) -> bool {
    layers.start <= iso[k].0.start && iso[k].0.end <= layers.end
}

/// After an isolated map's inside-window entries are rewritten by `f` (or by
/// `f2`, or left alone where `partial` allows), the per-layer state follows.
proof fn lemma_window_state<T>(
    orig: Seq<(LayerRange, T)>,
    iso: Seq<(LayerRange, T)>,
    cur: Seq<(LayerRange, T)>,
    layers: LayerRange,
    dflt: T,
    f: spec_fn(T) -> T,
    f2: spec_fn(T) -> T,
    partial: bool,
    la: int,
)
    requires
        seq_wf(iso),
        seq_wf(cur),
        iso.len() == cur.len(),
        layers.start < layers.end,
        forall|l2: int| #[trigger] seq_state_at(iso, l2) == iso_sem(orig, layers, dflt, l2),
        window_aligned(iso, layers),
        forall|k: int| 0 <= k < iso.len() ==> (#[trigger] cur[k]).0 == iso[k].0,
        forall|k: int|
            0 <= k < iso.len() && !entry_inside(iso, k, layers) ==> (#[trigger] cur[k]).1
                == iso[k].1,
        forall|k: int|
            0 <= k < iso.len() && entry_inside(iso, k, layers) ==> (#[trigger] cur[k]).1 == f(
                iso[k].1,
            ) || (partial && (cur[k].1 == iso[k].1 || cur[k].1 == f2(iso[k].1))),
    ensures
        !layers.spec_contains(la) ==> seq_state_at(cur, la) == seq_state_at(orig, la),
        layers.spec_contains(la) ==> ({
            let base = or_default(seq_state_at(orig, la), dflt);
            seq_state_at(cur, la) == Some(f(base)) || (partial && (seq_state_at(cur, la)
                == Some(base) || seq_state_at(cur, la) == Some(f2(base))))
        }),
{
    lemma_state_at_entry(iso, la);
    if layers.spec_contains(la) {
        assert(seq_state_at(iso, la) is Some);
        let k = choose|k: int|
            0 <= k < iso.len() && (#[trigger] iso[k]).0.spec_contains(la) && iso[k].1
                == seq_state_at(iso, la)->Some_0;
        assert(entry_inside(iso, k, layers));
        lemma_entry_state_at(cur, k, la);
    } else {
        match seq_state_at(iso, la) {
            Some(v) => {
                let k = choose|k: int|
                    0 <= k < iso.len() && (#[trigger] iso[k]).0.spec_contains(la) && iso[k].1 == v;
                assert(!entry_inside(iso, k, layers));
                lemma_entry_state_at(cur, k, la);
            },
            None => {
                lemma_state_at_entry(cur, la);
                if seq_state_at(cur, la) is Some {
                    let k = choose|k: int|
                        0 <= k < cur.len() && (#[trigger] cur[k]).0.spec_contains(la);
                    lemma_entry_state_at(iso, k, la);
                    assert(false);
                }
            },
        }
    }
}

/// A transition emitted for a color slice during explicit-mode `change`:
/// what it says about the old state is true of every layer it covers.
pub open spec fn pt_color_valid(
    p: PendingTransition,
    m0: RangedStates<Unit>,
    layers: LayerRange,
    u: TextureUsage,
    id: TextureId,
    level: u8,
) -> bool {
    &&& p.id == id
    &&& p.usage.end == u
    &&& p.usage.start != u
    &&& p.selector.aspects == Aspects::spec_color_only()
    &&& p.selector.levels.start == level && p.selector.levels.end == level as int + 1
    &&& !p.selector.layers.spec_is_empty()
    &&& p.selector.layers.start >= layers.start && p.selector.layers.end <= layers.end
    &&& forall|la: int|
        p.selector.layers.spec_contains(la) ==> ((#[trigger] m0.state_at(la)) matches Some(un)
            && un.last == p.usage.start)
}

/// Explicit-mode update of one color mip map over `layers`: every addressed
/// slice moves to exactly `usage`, and a transition is recorded for every
/// already tracked slice whose usage differed.
fn update_color_level_record(
    map: &mut RangedStates<Unit>,
    layers: LayerRange,
    usage: TextureUsage,
    id: TextureId,
    level: u8,
    out: &mut Vec<PendingTransition>,
)
    requires
        old(map).wf(),
        old(map).coalesced(),
        layers.start < layers.end,
        level < 255,
    ensures
        final(map).wf(),
        final(map).coalesced(),
        forall|la: int|
            #[trigger] final(map).state_at(la) == (if layers.spec_contains(la) {
                Some(upd_unit_record(old(map).state_at(la), usage))
            } else {
                old(map).state_at(la)
            }),
        final(out)@.len() >= old(out)@.len(),
        forall|j: int| 0 <= j < old(out)@.len() ==> #[trigger] final(out)@[j] == old(out)@[j],
        forall|j: int|
            old(out)@.len() <= j < final(out)@.len() ==> pt_color_valid(
                #[trigger] final(out)@[j],
                *old(map),
                layers,
                usage,
                id,
                level,
            ),
        forall|la: int|
            layers.spec_contains(la) && ((#[trigger] old(map).state_at(la)) matches Some(un)
                && un.last != usage) ==> exists|j: int|
                old(out)@.len() <= j < final(out)@.len()
                    && (#[trigger] final(out)@[j]).selector.layers.spec_contains(la),
{
    let ghost orig = map.sv();
    let ghost out0 = out@;
    map.isolate(layers, Unit::new(usage));
    let ghost iso = map.sv();
    let ghost miso = *map;
    proof {
        assert forall|la: int|
            #[trigger] seq_state_at(iso, la) == iso_sem(
                orig,
                layers,
                Unit::spec_new(usage),
                la,
            ) by {
            assert(miso.state_at(la) == iso_sem(orig, layers, Unit::spec_new(usage), la));
        }
    }
    let n = map.len();
    let mut i: usize = 0;
    while i < n
        invariant
            map.wf(),
            seq_wf(iso),
            orig == old(map).sv(),
            out0 == old(out)@,
            n == map.sv().len(),
            n == iso.len(),
            0 <= i <= n,
            layers.start < layers.end,
            level < 255,
            forall|la: int|
                #[trigger] seq_state_at(iso, la) == iso_sem(orig, layers, Unit::spec_new(usage), la),
            window_aligned(iso, layers),
            forall|k: int| 0 <= k < n ==> (#[trigger] map.sv()[k]).0 == iso[k].0,
            forall|k: int|
                0 <= k < n ==> (#[trigger] map.sv()[k]).1 == (if k < i && entry_inside(
                    iso,
                    k,
                    layers,
                ) {
                    Unit { init: iso[k].1.init, last: usage }
                } else {
                    iso[k].1
                }),
            out@.len() >= out0.len(),
            forall|j: int| 0 <= j < out0.len() ==> #[trigger] out@[j] == out0[j],
            forall|j: int|
                out0.len() <= j < out@.len() ==> pt_color_valid(
                    #[trigger] out@[j],
                    *old(map),
                    layers,
                    usage,
                    id,
                    level,
                ),
            forall|k: int|
                0 <= k < i && entry_inside(iso, k, layers) && (#[trigger] iso[k]).1.last != usage
                    ==> exists|j: int|
                    out0.len() <= j < out@.len() && (#[trigger] out@[j]).selector.layers
                        == iso[k].0,
        decreases n - i,
    {
        let (rg, un) = map.get(i);
        proof {
            assert(map.sv()[i as int].1 == iso[i as int].1);
        }
        if layers.start <= rg.start && rg.end <= layers.end {
            if !(un.last == usage) {
                let pending = PendingTransition {
                    id,
                    selector: SubresourceRange {
                        aspects: Aspects::color_only(),
                        levels: LevelRange { start: level, end: level + 1 },
                        layers: rg,
                    },
                    usage: UsageRange { start: un.last, end: usage },
                };
                proof {
                    assert forall|la: int| rg.spec_contains(la) implies ((#[trigger] old(
                        map,
                    ).state_at(la)) matches Some(un2) && un2.last == un.last) by {
                        lemma_entry_state_at(iso, i as int, la);
                        assert(seq_state_at(orig, la) == Some(un));
                    }
                }
                let ghost out_pre = out@;
                out.push(pending);
                map.set_value(i, Unit { init: un.init, last: usage });
                proof {
                    assert(out@[out@.len() - 1] == pending);
                    assert forall|k: int|
                        0 <= k < i + 1 && entry_inside(iso, k, layers) && (#[trigger] iso[k]).1.last
                            != usage implies exists|j: int|
                        out0.len() <= j < out@.len() && (#[trigger] out@[j]).selector.layers
                            == iso[k].0 by {
                        if k < i {
                            let j = choose|j: int|
                                out0.len() <= j < out_pre.len()
                                    && (#[trigger] out_pre[j]).selector.layers == iso[k].0;
                            assert(out@[j] == out_pre[j]);
                        } else {
                            assert(out@[out@.len() - 1].selector.layers == iso[i as int].0);
                        }
                    }
                }
            }
        }
        i += 1;
    }
    let ghost pre = map.sv();
    map.coalesce();
    proof {
        let f = (|un2: Unit| Unit { init: un2.init, last: usage });
        assert forall|la: int|
            #[trigger] map.state_at(la) == (if layers.spec_contains(la) {
                Some(upd_unit_record(seq_state_at(orig, la), usage))
            } else {
                seq_state_at(orig, la)
            }) by {
            lemma_window_state(orig, iso, pre, layers, Unit::spec_new(usage), f, f, false, la);
        }
        assert forall|la: int|
            layers.spec_contains(la) && ((#[trigger] old(map).state_at(la)) matches Some(un)
                && un.last != usage) implies exists|j: int|
            out0.len() <= j < out@.len() && (#[trigger] out@[j]).selector.layers.spec_contains(
                la,
            ) by {
            lemma_state_at_entry(iso, la);
            assert(seq_state_at(iso, la) == seq_state_at(orig, la));
            let k = choose|k: int|
                0 <= k < iso.len() && (#[trigger] iso[k]).0.spec_contains(la) && iso[k].1
                    == seq_state_at(iso, la)->Some_0;
            assert(entry_inside(iso, k, layers));
            assert(iso[k].1.last != usage);
            let j = choose|j: int|
                out0.len() <= j < out@.len() && (#[trigger] out@[j]).selector.layers == iso[k].0;
            assert(out@[j].selector.layers.spec_contains(la));
        }
    }
}


/// Per-entry implicit-mode update of a depth/stencil state on the selected
/// aspects.
pub open spec fn upd_entry_ds(ds: DepthStencilState, u: TextureUsage, dep: bool, sten: bool) -> DepthStencilState {
    DepthStencilState {
        depth: if dep {
            upd_entry_check(ds.depth, u)
        } else {
            ds.depth
        },
        stencil: if sten {
            upd_entry_check(ds.stencil, u)
        } else {
            ds.stencil
        },
    }
}

/// `upd_entry_ds` agrees with `upd_ds_check` on both tracked and fresh
/// states.
proof fn lemma_upd_entry_ds(o: Option<DepthStencilState>, u: TextureUsage, dep: bool, sten: bool)
    ensures
        upd_entry_ds(or_default(o, DepthStencilState::spec_new(u)), u, dep, sten) == upd_ds_check(
            o,
            u,
            dep,
            sten,
        ),
{
    crate::usage::lemma_union_self(u.bits);
    match o {
        Some(ds) => {
            lemma_upd_entry_unit(ds.depth, u);
            lemma_upd_entry_unit(ds.stencil, u);
        },
        None => {},
    }
}


/// The states a depth/stencil slice may be left in when an implicit-mode
/// pass stops early: untouched, or updated on a subset of the selected
/// aspects; an untracked slice that was isolated holds the fresh state.
pub open spec fn ds_partial_state(
    o: Option<DepthStencilState>,
    cur: Option<DepthStencilState>,
    u: TextureUsage,
    dep: bool,
    sten: bool,
) -> bool {
    match o {
        Some(ds) => cur == Some(ds) || cur == Some(upd_entry_ds(ds, u, dep, false)) || cur == Some(
            upd_entry_ds(ds, u, false, sten),
        ) || cur == Some(upd_entry_ds(ds, u, dep, sten)),
        None => cur == Some(DepthStencilState::spec_new(u)),
    }
}

/// Implicit-mode update of the depth/stencil map over `layers`, evaluating
/// the depth and stencil aspects independently. On the first conflicting
/// aspect of an entry it stops, reporting the entry's range, the old usage
/// and which aspect (`true` = depth) conflicted.
fn update_ds_check(
    map: &mut RangedStates<DepthStencilState>,
    layers: LayerRange,
    usage: TextureUsage,
    dep: bool,
    sten: bool,
) -> (r: Option<(LayerRange, TextureUsage, bool)>)
    requires
        old(map).wf(),
        old(map).coalesced(),
        layers.start < layers.end,
        dep || sten,
    ensures
        final(map).wf(),
        final(map).coalesced(),
        r is None ==> forall|la: int|
            #[trigger] final(map).state_at(la) == (if layers.spec_contains(la) {
                Some(upd_ds_check(old(map).state_at(la), usage, dep, sten))
            } else {
                old(map).state_at(la)
            }),
        r is None && dep ==> forall|la: int|
            layers.spec_contains(la) ==> !opt_conflict(
                match #[trigger] old(map).state_at(la) {
                    Some(ds) => Some(ds.depth.last),
                    None => None,
                },
                usage,
            ),
        r is None && sten ==> forall|la: int|
            layers.spec_contains(la) ==> !opt_conflict(
                match #[trigger] old(map).state_at(la) {
                    Some(ds) => Some(ds.stencil.last),
                    None => None,
                },
                usage,
            ),
        r matches Some((rg, ol, isdep)) ==> ({
            &&& spec_conflict(ol, usage)
            &&& rg.start >= layers.start && rg.end <= layers.end && rg.start < rg.end
            &&& (isdep ==> dep) && (!isdep ==> sten)
            &&& exists|la: int|
                rg.spec_contains(la) && ((#[trigger] old(map).state_at(la)) matches Some(ds) && (if isdep {
                    ds.depth.last
                } else {
                    ds.stencil.last
                }) == ol)
            &&& forall|la: int|
                !layers.spec_contains(la) ==> #[trigger] final(map).state_at(la) == old(
                    map,
                ).state_at(la)
            &&& forall|la: int|
                layers.spec_contains(la) ==> ds_partial_state(
                    old(map).state_at(la),
                    #[trigger] final(map).state_at(la),
                    usage,
                    dep,
                    sten,
                )
        }),
{
    let ghost orig = map.sv();
    map.isolate(layers, DepthStencilState::new(usage));
    let ghost iso = map.sv();
    let ghost miso = *map;
    proof {
        assert forall|la: int|
            #[trigger] seq_state_at(iso, la) == iso_sem(
                orig,
                layers,
                DepthStencilState::spec_new(usage),
                la,
            ) by {
            assert(miso.state_at(la) == iso_sem(
                orig,
                layers,
                DepthStencilState::spec_new(usage),
                la,
            ));
        }
    }
    let n = map.len();
    let mut i: usize = 0;
    while i < n
        invariant
            map.wf(),
            seq_wf(iso),
            orig == old(map).sv(),
            n == map.sv().len(),
            n == iso.len(),
            0 <= i <= n,
            layers.start < layers.end,
            dep || sten,
            forall|la: int|
                #[trigger] seq_state_at(iso, la) == iso_sem(
                    orig,
                    layers,
                    DepthStencilState::spec_new(usage),
                    la,
                ),
            window_aligned(iso, layers),
            forall|k: int| 0 <= k < n ==> (#[trigger] map.sv()[k]).0 == iso[k].0,
            forall|k: int|
                0 <= k < n ==> (#[trigger] map.sv()[k]).1 == (if k < i && entry_inside(
                    iso,
                    k,
                    layers,
                ) {
                    upd_entry_ds(iso[k].1, usage, dep, sten)
                } else {
                    iso[k].1
                }),
            forall|k: int|
                0 <= k < i && entry_inside(iso, k, layers) && dep ==> !spec_conflict(
                    (#[trigger] iso[k]).1.depth.last,
                    usage,
                ),
            forall|k: int|
                0 <= k < i && entry_inside(iso, k, layers) && sten ==> !spec_conflict(
                    (#[trigger] iso[k]).1.stencil.last,
                    usage,
                ),
        decreases n - i,
    {
        let (rg, ds) = map.get(i);
        proof {
            assert(map.sv()[i as int].1 == iso[i as int].1);
        }
        if layers.start <= rg.start && rg.end <= layers.end {
            let mut cur = ds;
            if dep && !(cur.depth.last == usage) {
                if usage_conflict(cur.depth.last, usage) {
                    proof {
                        let la = rg.start as int;
                        lemma_entry_state_at(iso, i as int, la);
                        assert(seq_state_at(orig, la) == Some(ds));
                        assert(old(map).state_at(la) == Some(ds));
                    }
                    let ghost pre = map.sv();
                    map.coalesce();
                    proof {
                        lemma_ds_partial(orig, iso, pre, layers, usage, dep, sten, i as int, false);
                    }
                    return Some((rg, ds.depth.last, true));
                }
                cur = DepthStencilState {
                    depth: Unit { init: cur.depth.init, last: cur.depth.last.union(usage) },
                    stencil: cur.stencil,
                };
            }
            if sten && !(cur.stencil.last == usage) {
                if usage_conflict(cur.stencil.last, usage) {
                    proof {
                        let la = rg.start as int;
                        lemma_entry_state_at(iso, i as int, la);
                        assert(seq_state_at(orig, la) == Some(ds));
                        assert(old(map).state_at(la) == Some(ds));
                    }
                    map.set_value(i, cur);
                    let ghost pre = map.sv();
                    map.coalesce();
                    proof {
                        assert(pre[i as int].1 == upd_entry_ds(iso[i as int].1, usage, dep, false));
                        lemma_ds_partial(orig, iso, pre, layers, usage, dep, sten, i as int, true);
                    }
                    return Some((rg, ds.stencil.last, false));
                }
                cur = DepthStencilState {
                    depth: cur.depth,
                    stencil: Unit { init: cur.stencil.init, last: cur.stencil.last.union(usage) },
                };
            }
            map.set_value(i, cur);
            proof {
                assert(map.sv()[i as int].1 == upd_entry_ds(iso[i as int].1, usage, dep, sten));
            }
        }
        i += 1;
    }
    let ghost pre = map.sv();
    map.coalesce();
    proof {
        let f = (|d: DepthStencilState| upd_entry_ds(d, usage, dep, sten));
        assert forall|la: int|
            #[trigger] map.state_at(la) == (if layers.spec_contains(la) {
                Some(upd_ds_check(seq_state_at(orig, la), usage, dep, sten))
            } else {
                seq_state_at(orig, la)
            }) by {
            lemma_window_state(
                orig,
                iso,
                pre,
                layers,
                DepthStencilState::spec_new(usage),
                f,
                f,
                false,
                la,
            );
            if layers.spec_contains(la) {
                lemma_upd_entry_ds(seq_state_at(orig, la), usage, dep, sten);
            }
        }
        assert forall|la: int| layers.spec_contains(la) implies ({
            &&& dep ==> !opt_conflict(
                match seq_state_at(orig, la) {
                    Some(ds) => Some(ds.depth.last),
                    None => None,
                },
                usage,
            )
            &&& sten ==> !opt_conflict(
                match seq_state_at(orig, la) {
                    Some(ds) => Some(ds.stencil.last),
                    None => None,
                },
                usage,
            )
        }) by {
            match seq_state_at(orig, la) {
                Some(ds) => {
                    assert(seq_state_at(iso, la) == Some(ds));
                    lemma_state_at_entry(iso, la);
                    let k = choose|k: int|
                        0 <= k < iso.len() && (#[trigger] iso[k]).0.spec_contains(la) && iso[k].1
                            == ds;
                    assert(entry_inside(iso, k, layers));
                },
                None => {},
            }
        }
    }
    None
}

/// Partial-state facts when the implicit-mode depth/stencil pass stops at a
/// conflict: entries before the failing one are fully updated, the failing
/// one is untouched or depth-only updated, later ones untouched.
proof fn lemma_ds_partial(
    orig: Seq<(LayerRange, DepthStencilState)>,
    iso: Seq<(LayerRange, DepthStencilState)>,
    cur: Seq<(LayerRange, DepthStencilState)>,
    layers: LayerRange,
    usage: TextureUsage,
    dep: bool,
    sten: bool,
    i: int,
    depth_done: bool,
)
    requires
        seq_wf(iso),
        seq_wf(cur),
        iso.len() == cur.len(),
        0 <= i < iso.len(),
        layers.start < layers.end,
        forall|l2: int|
            #[trigger] seq_state_at(iso, l2) == iso_sem(
                orig,
                layers,
                DepthStencilState::spec_new(usage),
                l2,
            ),
        window_aligned(iso, layers),
        forall|k: int| 0 <= k < iso.len() ==> (#[trigger] cur[k]).0 == iso[k].0,
        forall|k: int|
            0 <= k < iso.len() ==> (#[trigger] cur[k]).1 == (if k < i && entry_inside(
                iso,
                k,
                layers,
            ) {
                upd_entry_ds(iso[k].1, usage, dep, sten)
            } else if k == i && depth_done && entry_inside(iso, k, layers) {
                upd_entry_ds(iso[k].1, usage, dep, false)
            } else {
                iso[k].1
            }),
    ensures
        forall|la: int|
            !layers.spec_contains(la) ==> #[trigger] seq_state_at(cur, la) == seq_state_at(
                orig,
                la,
            ),
        forall|la: int|
            layers.spec_contains(la) ==> ds_partial_state(
                seq_state_at(orig, la),
                #[trigger] seq_state_at(cur, la),
                usage,
                dep,
                sten,
            ),
{
    assert forall|la: int| !layers.spec_contains(la) implies #[trigger] seq_state_at(cur, la)
        == seq_state_at(orig, la) by {
        let f = (|d: DepthStencilState| upd_entry_ds(d, usage, dep, sten));
        let f2 = (|d: DepthStencilState| upd_entry_ds(d, usage, dep, false));
        lemma_window_state(
            orig,
            iso,
            cur,
            layers,
            DepthStencilState::spec_new(usage),
            f,
            f2,
            true,
            la,
        );
    }
    assert forall|la: int| layers.spec_contains(la) implies ds_partial_state(
        seq_state_at(orig, la),
        #[trigger] seq_state_at(cur, la),
        usage,
        dep,
        sten,
    ) by {
        lemma_state_at_entry(iso, la);
        assert(seq_state_at(iso, la) is Some);
        let k = choose|k: int|
            0 <= k < iso.len() && (#[trigger] iso[k]).0.spec_contains(la) && iso[k].1
                == seq_state_at(iso, la)->Some_0;
        assert(entry_inside(iso, k, layers));
        lemma_entry_state_at(cur, k, la);
        let base = iso[k].1;
        match seq_state_at(orig, la) {
            Some(ds) => {
                assert(base == ds);
                if k < i {
                    assert(seq_state_at(cur, la) == Some(upd_entry_ds(ds, usage, dep, sten)));
                } else if k == i && depth_done {
                    assert(seq_state_at(cur, la) == Some(upd_entry_ds(ds, usage, dep, false)));
                } else {
                    assert(seq_state_at(cur, la) == Some(ds));
                }
            },
            None => {
                assert(base == DepthStencilState::spec_new(usage));
                crate::usage::lemma_union_self(usage.bits);
                assert(upd_entry_ds(base, usage, dep, sten) == base);
                assert(upd_entry_ds(base, usage, dep, false) == base);
                assert(seq_state_at(cur, la) == Some(DepthStencilState::spec_new(usage)));
            },
        }
    }
}



/// A coverage witness among appended transitions survives further appends.
proof fn lemma_cover_carry(
    out0_len: int,
    pre: Seq<PendingTransition>,
    cur: Seq<PendingTransition>,
    rg: LayerRange,
    asp: Aspects,
)
    requires
        pre.len() <= cur.len(),
        forall|j: int| 0 <= j < pre.len() ==> #[trigger] cur[j] == pre[j],
        0 <= out0_len,
        exists|j: int|
            out0_len <= j < pre.len() && (#[trigger] pre[j]).selector.layers == rg
                && pre[j].selector.aspects == asp,
    ensures
        exists|j: int|
            out0_len <= j < cur.len() && (#[trigger] cur[j]).selector.layers == rg
                && cur[j].selector.aspects == asp,
{
    let j = choose|j: int|
        out0_len <= j < pre.len() && (#[trigger] pre[j]).selector.layers == rg
            && pre[j].selector.aspects == asp;
    assert(cur[j] == pre[j]);
}

/// A transition emitted for a depth or stencil slice during explicit-mode
/// `change`: what it says about the old state is true of every layer it
/// covers, on the aspect it names.
pub open spec fn pt_ds_valid(
    p: PendingTransition,
    m0: RangedStates<DepthStencilState>,
    layers: LayerRange,
    u: TextureUsage,
    id: TextureId,
    level: u8,
    dep: bool,
    sten: bool,
) -> bool {
    &&& p.id == id
    &&& p.usage.end == u
    &&& p.usage.start != u
    &&& (p.selector.aspects == Aspects::spec_depth_only() || p.selector.aspects
        == Aspects::spec_stencil_only())
    &&& (p.selector.aspects == Aspects::spec_depth_only() ==> dep)
    &&& (p.selector.aspects == Aspects::spec_stencil_only() ==> sten)
    &&& p.selector.levels.start == level && p.selector.levels.end == level as int + 1
    &&& !p.selector.layers.spec_is_empty()
    &&& p.selector.layers.start >= layers.start && p.selector.layers.end <= layers.end
    &&& forall|la: int|
        p.selector.layers.spec_contains(la) ==> ((#[trigger] m0.state_at(la)) matches Some(ds) && (
        if p.selector.aspects == Aspects::spec_depth_only() {
            ds.depth.last
        } else {
            ds.stencil.last
        }) == p.usage.start)
}

/// Per-entry explicit-mode update of a depth/stencil state on the selected
/// aspects: each selected aspect's `last` becomes the target outright.
pub open spec fn upd_entry_ds_record(
    ds: DepthStencilState,
    u: TextureUsage,
    dep: bool,
    sten: bool,
) -> DepthStencilState {
    DepthStencilState {
        depth: if dep {
            Unit { init: ds.depth.init, last: u }
        } else {
            ds.depth
        },
        stencil: if sten {
            Unit { init: ds.stencil.init, last: u }
        } else {
            ds.stencil
        },
    }
}

/// Explicit-mode update of the depth/stencil map over `layers`: every
/// addressed slice moves to exactly `usage` on the selected aspects, and a
/// transition is recorded per aspect for every tracked slice whose usage
/// differed.
#[verifier::rlimit(100)]
fn update_ds_record(
    map: &mut RangedStates<DepthStencilState>,
    layers: LayerRange,
    usage: TextureUsage,
    dep: bool,
    sten: bool,
    id: TextureId,
    level: u8,
    out: &mut Vec<PendingTransition>,
)
    requires
        old(map).wf(),
        old(map).coalesced(),
        layers.start < layers.end,
        dep || sten,
        level < 255,
    ensures
        final(map).wf(),
        final(map).coalesced(),
        forall|la: int|
            #[trigger] final(map).state_at(la) == (if layers.spec_contains(la) {
                Some(upd_ds_record(old(map).state_at(la), usage, dep, sten))
            } else {
                old(map).state_at(la)
            }),
        final(out)@.len() >= old(out)@.len(),
        forall|j: int| 0 <= j < old(out)@.len() ==> #[trigger] final(out)@[j] == old(out)@[j],
        forall|j: int|
            old(out)@.len() <= j < final(out)@.len() ==> pt_ds_valid(
                #[trigger] final(out)@[j],
                *old(map),
                layers,
                usage,
                id,
                level,
                dep,
                sten,
            ),
        dep ==> forall|la: int|
            layers.spec_contains(la) && ((#[trigger] old(map).state_at(la)) matches Some(ds)
                && ds.depth.last != usage) ==> exists|j: int|
                old(out)@.len() <= j < final(out)@.len()
                    && (#[trigger] final(out)@[j]).selector.layers.spec_contains(la)
                    && final(out)@[j].selector.aspects == Aspects::spec_depth_only(),
        sten ==> forall|la: int|
            layers.spec_contains(la) && ((#[trigger] old(map).state_at(la)) matches Some(ds)
                && ds.stencil.last != usage) ==> exists|j: int|
                old(out)@.len() <= j < final(out)@.len()
                    && (#[trigger] final(out)@[j]).selector.layers.spec_contains(la)
                    && final(out)@[j].selector.aspects == Aspects::spec_stencil_only(),
{
    let ghost orig = map.sv();
    let ghost out0 = out@;
    map.isolate(layers, DepthStencilState::new(usage));
    let ghost iso = map.sv();
    let ghost miso = *map;
    proof {
        assert forall|la: int|
            #[trigger] seq_state_at(iso, la) == iso_sem(
                orig,
                layers,
                DepthStencilState::spec_new(usage),
                la,
            ) by {
            assert(miso.state_at(la) == iso_sem(
                orig,
                layers,
                DepthStencilState::spec_new(usage),
                la,
            ));
        }
    }
    let n = map.len();
    let mut i: usize = 0;
    while i < n
        invariant
            map.wf(),
            seq_wf(iso),
            orig == old(map).sv(),
            out0 == old(out)@,
            n == map.sv().len(),
            n == iso.len(),
            0 <= i <= n,
            layers.start < layers.end,
            dep || sten,
            level < 255,
            forall|la: int|
                #[trigger] seq_state_at(iso, la) == iso_sem(
                    orig,
                    layers,
                    DepthStencilState::spec_new(usage),
                    la,
                ),
            window_aligned(iso, layers),
            forall|k: int| 0 <= k < n ==> (#[trigger] map.sv()[k]).0 == iso[k].0,
            forall|k: int|
                0 <= k < n ==> (#[trigger] map.sv()[k]).1 == (if k < i && entry_inside(
                    iso,
                    k,
                    layers,
                ) {
                    upd_entry_ds_record(iso[k].1, usage, dep, sten)
                } else {
                    iso[k].1
                }),
            out@.len() >= out0.len(),
            forall|j: int| 0 <= j < out0.len() ==> #[trigger] out@[j] == out0[j],
            forall|j: int|
                out0.len() <= j < out@.len() ==> pt_ds_valid(
                    #[trigger] out@[j],
                    *old(map),
                    layers,
                    usage,
                    id,
                    level,
                    dep,
                    sten,
                ),
            forall|k: int|
                0 <= k < i && entry_inside(iso, k, layers) && dep && (#[trigger] iso[k]).1.depth.last
                    != usage ==> exists|j: int|
                    out0.len() <= j < out@.len() && (#[trigger] out@[j]).selector.layers
                        == iso[k].0 && out@[j].selector.aspects == Aspects::spec_depth_only(),
            forall|k: int|
                0 <= k < i && entry_inside(iso, k, layers) && sten && (#[trigger] iso[k]).1.stencil.last
                    != usage ==> exists|j: int|
                    out0.len() <= j < out@.len() && (#[trigger] out@[j]).selector.layers
                        == iso[k].0 && out@[j].selector.aspects == Aspects::spec_stencil_only(),
        decreases n - i,
    {
        let (rg, ds) = map.get(i);
        proof {
            assert(map.sv()[i as int].1 == iso[i as int].1);
        }
        if layers.start <= rg.start && rg.end <= layers.end {
            proof {
                assert forall|la: int| rg.spec_contains(la) implies #[trigger] old(map).state_at(
                    la,
                ) == seq_state_at(orig, la) && seq_state_at(iso, la) == Some(ds) by {
                    lemma_entry_state_at(iso, i as int, la);
                }
            }
            let ghost out_a = out@;
            if dep && !(ds.depth.last == usage) {
                let pending = PendingTransition {
                    id,
                    selector: SubresourceRange {
                        aspects: Aspects::depth_only(),
                        levels: LevelRange { start: level, end: level + 1 },
                        layers: rg,
                    },
                    usage: UsageRange { start: ds.depth.last, end: usage },
                };
                out.push(pending);
                proof {
                    assert(out@[out@.len() - 1] == pending);
                }
            }
            let ghost out_b = out@;
            if sten && !(ds.stencil.last == usage) {
                let pending = PendingTransition {
                    id,
                    selector: SubresourceRange {
                        aspects: Aspects::stencil_only(),
                        levels: LevelRange { start: level, end: level + 1 },
                        layers: rg,
                    },
                    usage: UsageRange { start: ds.stencil.last, end: usage },
                };
                out.push(pending);
                proof {
                    assert(out@[out@.len() - 1] == pending);
                    assert forall|j: int| 0 <= j < out_b.len() implies out@[j] == out_b[j] by {}
                }
            }
            proof {
                if dep && ds.depth.last != usage {
                    assert(out@[out_b.len() - 1] == out_b[out_b.len() - 1]);
                    assert(out@[out_b.len() - 1].selector.layers == rg && out@[out_b.len()
                        - 1].selector.aspects == Aspects::spec_depth_only());
                }
                if sten && ds.stencil.last != usage {
                    assert(out@[out@.len() - 1].selector.layers == rg && out@[out@.len()
                        - 1].selector.aspects == Aspects::spec_stencil_only());
                }
                assert forall|k: int|
                    0 <= k < i + 1 && entry_inside(iso, k, layers) && dep && (#[trigger] iso[k]).1.depth.last
                        != usage implies exists|j: int|
                    out0.len() <= j < out@.len() && (#[trigger] out@[j]).selector.layers
                        == iso[k].0 && out@[j].selector.aspects == Aspects::spec_depth_only() by {
                    if k < i {
                        lemma_cover_carry(
                            out0.len() as int,
                            out_a,
                            out@,
                            iso[k].0,
                            Aspects::spec_depth_only(),
                        );
                    }
                }
                assert forall|k: int|
                    0 <= k < i + 1 && entry_inside(iso, k, layers) && sten && (#[trigger] iso[k]).1.stencil.last
                        != usage implies exists|j: int|
                    out0.len() <= j < out@.len() && (#[trigger] out@[j]).selector.layers
                        == iso[k].0 && out@[j].selector.aspects
                        == Aspects::spec_stencil_only() by {
                    if k < i {
                        lemma_cover_carry(
                            out0.len() as int,
                            out_a,
                            out@,
                            iso[k].0,
                            Aspects::spec_stencil_only(),
                        );
                    }
                }
            }
            map.set_value(i, DepthStencilState {
                depth: if dep { Unit { init: ds.depth.init, last: usage } } else { ds.depth },
                stencil: if sten {
                    Unit { init: ds.stencil.init, last: usage }
                } else {
                    ds.stencil
                },
            });
            proof {
                assert(map.sv()[i as int].1 == upd_entry_ds_record(
                    iso[i as int].1,
                    usage,
                    dep,
                    sten,
                ));
            }
        }
        i += 1;
    }
    let ghost pre = map.sv();
    map.coalesce();
    proof {
        let f = (|d: DepthStencilState| upd_entry_ds_record(d, usage, dep, sten));
        assert forall|la: int|
            #[trigger] map.state_at(la) == (if layers.spec_contains(la) {
                Some(upd_ds_record(seq_state_at(orig, la), usage, dep, sten))
            } else {
                seq_state_at(orig, la)
            }) by {
            lemma_window_state(
                orig,
                iso,
                pre,
                layers,
                DepthStencilState::spec_new(usage),
                f,
                f,
                false,
                la,
            );
        }
        if dep {
            assert forall|la: int|
                layers.spec_contains(la) && ((#[trigger] old(map).state_at(la)) matches Some(ds)
                    && ds.depth.last != usage) implies exists|j: int|
                out0.len() <= j < out@.len() && (#[trigger] out@[j]).selector.layers.spec_contains(
                    la,
                ) && out@[j].selector.aspects == Aspects::spec_depth_only() by {
                lemma_state_at_entry(iso, la);
                assert(seq_state_at(iso, la) == seq_state_at(orig, la));
                let k = choose|k: int|
                    0 <= k < iso.len() && (#[trigger] iso[k]).0.spec_contains(la) && iso[k].1
                        == seq_state_at(iso, la)->Some_0;
                assert(entry_inside(iso, k, layers));
                let j = choose|j: int|
                    out0.len() <= j < out@.len() && (#[trigger] out@[j]).selector.layers
                        == iso[k].0 && out@[j].selector.aspects == Aspects::spec_depth_only();
                assert(out@[j].selector.layers.spec_contains(la));
            }
        }
        if sten {
            assert forall|la: int|
                layers.spec_contains(la) && ((#[trigger] old(map).state_at(la)) matches Some(ds)
                    && ds.stencil.last != usage) implies exists|j: int|
                out0.len() <= j < out@.len() && (#[trigger] out@[j]).selector.layers.spec_contains(
                    la,
                ) && out@[j].selector.aspects == Aspects::spec_stencil_only() by {
                lemma_state_at_entry(iso, la);
                assert(seq_state_at(iso, la) == seq_state_at(orig, la));
                let k = choose|k: int|
                    0 <= k < iso.len() && (#[trigger] iso[k]).0.spec_contains(la) && iso[k].1
                        == seq_state_at(iso, la)->Some_0;
                assert(entry_inside(iso, k, layers));
                let j = choose|j: int|
                    out0.len() <= j < out@.len() && (#[trigger] out@[j]).selector.layers
                        == iso[k].0 && out@[j].selector.aspects == Aspects::spec_stencil_only();
                assert(out@[j].selector.layers.spec_contains(la));
            }
        }
    }
}


impl TextureStates {
    /// Moves every subresource addressed by `selector` to `usage` in
    /// implicit mode: compatible usages accumulate as a combined mask, and
    /// the first incompatible slice fails the call, returning the transition
    /// that would resolve it. Slices already processed stay updated (first
    /// conflict wins; no rollback). Addressing color levels beyond the
    /// hardware mip limit is a caller bug, excluded here.
    pub fn change(
        &mut self,
        id: TextureId,
        selector: SubresourceRange,
        usage: TextureUsage,
    ) -> (r: Result<(), PendingTransition>)
        requires
            old(self).wf(),
            selector.aspects.color ==> selector.levels.end as int <= MAX_MIP_LEVELS as int,
        ensures
            final(self).wf(),
            r is Ok <==> change_ok(*old(self), selector, usage),
            r is Ok ==> change_check_post(*old(self), *final(self), selector, usage),
            r matches Err(p) ==> change_err_post(*old(self), *final(self), selector, usage, id, p),
    {
        let ghost t0 = *old(self);
        if selector.aspects.color {
            while self.color_mips.len() < selector.levels.end as usize
                invariant
                    t0.wf(),
                    selector.levels.end as int <= MAX_MIP_LEVELS as int,
                    self.depth_stencil == t0.depth_stencil,
                    t0.color_len() <= self.color_mips@.len(),
                    self.color_mips@.len() <= MAX_MIP_LEVELS,
                    self.color_mips@.len() <= t0.color_len() || self.color_mips@.len()
                        <= selector.levels.end as int,
                    forall|k: int|
                        0 <= k < t0.color_len() ==> #[trigger] self.color_mips@[k]
                            == t0.color_mips@[k],
                    forall|k: int|
                        t0.color_len() <= k < self.color_mips@.len()
                            ==> (#[trigger] self.color_mips@[k]).sv() == Seq::<(
                            LayerRange,
                            Unit,
                        )>::empty(),
                decreases selector.levels.end as int - self.color_mips@.len(),
            {
                self.color_mips.push(RangedStates::new());
            }
        }
        let ghost text = *self;
        proof {
            assert forall|lv: int, la: int| #[trigger] text.color_unit(lv, la) == t0.color_unit(
                lv,
                la,
            ) by {
                if t0.color_len() <= lv < text.color_len() {
                    assert(seq_state_at(text.color_mips@[lv].sv(), la) == None::<Unit>);
                }
            }
            assert(text.color_len() == grown_len(t0, selector));
            assert(text.wf());
        }
        if selector.aspects.color && selector.layers.start < selector.layers.end {
            let lv_end = selector.levels.end as usize;
            let mut lv: usize = selector.levels.start as usize;
            if lv > lv_end {
                lv = lv_end;
            }
            while lv < lv_end
                invariant
                    text.wf(),
                    t0.wf(),
                    t0 == *old(self),
                    selector.aspects.color,
                    selector.layers.start < selector.layers.end,
                    lv_end == selector.levels.end as int,
                    lv_end <= text.color_len(),
                    text.depth_stencil == t0.depth_stencil,
                    text.color_len() == grown_len(t0, selector),
                    selector.levels.start as int <= lv || lv == lv_end,
                    lv <= lv_end,
                    self.depth_stencil == text.depth_stencil,
                    self.color_mips@.len() == text.color_len(),
                    forall|lv2: int, la: int| #[trigger] text.color_unit(lv2, la) == t0.color_unit(
                        lv2,
                        la,
                    ),
                    forall|k: int|
                        0 <= k < text.color_len() && !(selector.levels.start <= k < lv)
                            ==> #[trigger] self.color_mips@[k] == text.color_mips@[k],
                    forall|k: int|
                        0 <= k < text.color_len() ==> (#[trigger] self.color_mips@[k]).wf()
                            && self.color_mips@[k].coalesced(),
                    forall|k: int, la: int|
                        selector.levels.start <= k < lv ==> #[trigger] self.color_mips@[k].state_at(
                            la,
                        ) == (if selector.layers.spec_contains(la) {
                            Some(upd_unit_check(text.color_mips@[k].state_at(la), usage))
                        } else {
                            text.color_mips@[k].state_at(la)
                        }),
                    forall|k: int, la: int|
                        selector.levels.start <= k < lv && selector.layers.spec_contains(la)
                            ==> !opt_conflict(
                            unit_last(#[trigger] text.color_mips@[k].state_at(la)),
                            usage,
                        ),
                decreases lv_end - lv,
            {
                let ghost pre_mips = self.color_mips@;
                let mut m = self.color_mips.remove(lv);
                let ghost m0 = m;
                let res = update_color_level_check(&mut m, selector.layers, usage);
                let ghost m1 = m;
                self.color_mips.insert(lv, m);
                proof {
                    assert(self.color_mips@ =~= pre_mips.update(lv as int, m1));
                    assert(m0 == text.color_mips@[lv as int]);
                }
                match res {
                    None => {},
                    Some((rg, ol)) => {
                        let level = lv as u8;
                        let p = PendingTransition {
                            id,
                            selector: SubresourceRange {
                                aspects: Aspects::color_only(),
                                levels: LevelRange { start: level, end: level + 1 },
                                layers: rg,
                            },
                            usage: UsageRange { start: ol, end: usage },
                        };
                        proof {
                            let la0 = choose|la: int|
                                rg.spec_contains(la) && ((#[trigger] m0.state_at(la)) matches Some(
                                    un,
                                ) && un.last == ol);
                            assert(text.color_unit(lv as int, la0) == m0.state_at(la0));
                            assert(text.color_unit(lv as int, la0) == t0.color_unit(
                                lv as int,
                                la0,
                            ));
                            assert(selector.sel_color(lv as int, la0));
                            assert(opt_conflict(
                                unit_last(t0.color_unit(lv as int, la0)),
                                usage,
                            ));
                            assert(!change_ok(t0, selector, usage));
                            assert forall|lv2: int, la: int|
                                !selector.sel_color(lv2, la) implies #[trigger] self.color_unit(
                                lv2,
                                la,
                            ) == t0.color_unit(lv2, la) by {
                                assert(text.color_unit(lv2, la) == t0.color_unit(lv2, la));
                                if 0 <= lv2 < self.color_mips@.len() {
                                    assert(text.color_unit(lv2, la) == text.color_mips@[
                                        lv2].state_at(la));
                                    if selector.levels.start <= lv2 < lv {
                                        assert(self.color_mips@[lv2].state_at(la)
                                            == text.color_mips@[lv2].state_at(la));
                                    } else if lv2 == lv {
                                        assert(self.color_mips@[lv2] == m1);
                                        assert(m1.state_at(la) == m0.state_at(la));
                                    } else {
                                        assert(self.color_mips@[lv2] == text.color_mips@[lv2]);
                                    }
                                }
                            }
                            assert forall|lv2: int, la: int|
                                selector.sel_color(lv2, la) implies #[trigger] self.color_unit(
                                lv2,
                                la,
                            ) == t0.color_unit(lv2, la) || self.color_unit(lv2, la) == Some(
                                upd_unit_check(t0.color_unit(lv2, la), usage),
                            ) by {
                                assert(text.color_unit(lv2, la) == t0.color_unit(lv2, la));
                                assert(0 <= lv2 < self.color_mips@.len());
                                assert(text.color_unit(lv2, la) == text.color_mips@[lv2].state_at(
                                    la,
                                ));
                                if selector.levels.start <= lv2 < lv {
                                    assert(self.color_mips@[lv2].state_at(la) == Some(
                                        upd_unit_check(text.color_mips@[lv2].state_at(la), usage),
                                    ));
                                } else if lv2 == lv {
                                    assert(self.color_mips@[lv2] == m1);
                                } else {
                                    assert(self.color_mips@[lv2] == text.color_mips@[lv2]);
                                }
                            }
                            assert(p.selector.levels.end == p.selector.levels.start + 1);
                            assert(selector.levels.spec_contains(p.selector.levels.start as int));
                            assert(p.selector.levels.start as int == lv as int);
                            assert(t0.color_unit(p.selector.levels.start as int, la0) matches Some(
                                un,
                            ) && un.last == p.usage.start);
                            assert(p.selector.layers.spec_contains(la0));
                            assert(forall|la: int|
                                !(selector.ds_active() && selector.layers.spec_contains(la))
                                    ==> #[trigger] self.ds_unit(la) == t0.ds_unit(la));
                            assert(self.color_len() == grown_len(t0, selector));
                            assert(change_err_post(t0, *self, selector, usage, id, p));
                        }
                        return Err(p);
                    },
                }
                lv += 1;
            }
        }
        let ghost tcol = *self;
        proof {
            assert forall|la: int| #[trigger] tcol.ds_unit(la) == t0.ds_unit(la) by {}
            assert forall|lv: int, la: int|
                #[trigger] tcol.color_unit(lv, la) == (if selector.sel_color(lv, la) {
                    Some(upd_unit_check(t0.color_unit(lv, la), usage))
                } else {
                    t0.color_unit(lv, la)
                }) by {
                assert(text.color_unit(lv, la) == t0.color_unit(lv, la));
                if 0 <= lv < tcol.color_len() {
                    assert(text.color_unit(lv, la) == text.color_mips@[lv].state_at(la));
                    if selector.aspects.color && selector.layers.start < selector.layers.end
                        && selector.levels.start <= lv < selector.levels.end {
                        assert(tcol.color_mips@[lv].state_at(la) == (
                        if selector.layers.spec_contains(la) {
                            Some(upd_unit_check(text.color_mips@[lv].state_at(la), usage))
                        } else {
                            text.color_mips@[lv].state_at(la)
                        }));
                    } else {
                        assert(tcol.color_mips@[lv] == text.color_mips@[lv]);
                    }
                } else {
                    assert(!selector.sel_color(lv, la));
                }
            }
            assert forall|lv: int, la: int|
                selector.sel_color(lv, la) implies !opt_conflict(
                unit_last(#[trigger] t0.color_unit(lv, la)),
                usage,
            ) by {
                assert(text.color_unit(lv, la) == t0.color_unit(lv, la));
                assert(0 <= lv < text.color_len());
                assert(text.color_unit(lv, la) == text.color_mips@[lv].state_at(la));
            }
            assert(tcol.color_len() == grown_len(t0, selector));
            assert(tcol.wf());
        }
        if (selector.aspects.depth || selector.aspects.stencil) && selector.levels.start
            < selector.levels.end && selector.layers.start < selector.layers.end {
            let ghost ds0 = self.depth_stencil;
            let res = update_ds_check(
                &mut self.depth_stencil,
                selector.layers,
                usage,
                selector.aspects.depth,
                selector.aspects.stencil,
            );
            match res {
                None => {},
                Some((rg, ol, isdep)) => {
                    let level = selector.levels.start;
                    let p = PendingTransition {
                        id,
                        selector: SubresourceRange {
                            aspects: if isdep {
                                Aspects::depth_only()
                            } else {
                                Aspects::stencil_only()
                            },
                            levels: LevelRange { start: level, end: level + 1 },
                            layers: rg,
                        },
                        usage: UsageRange { start: ol, end: usage },
                    };
                    proof {
                        assert(ds0 == t0.depth_stencil);
                        let la0 = choose|la: int|
                            rg.spec_contains(la) && ((#[trigger] ds0.state_at(la)) matches Some(ds)
                                && (if isdep {
                                ds.depth.last
                            } else {
                                ds.stencil.last
                            }) == ol);
                        assert(t0.ds_unit(la0) == ds0.state_at(la0));
                        assert(selector.ds_active());
                        assert(!change_ok(t0, selector, usage));
                        assert(change_err_post(t0, *self, selector, usage, id, p));
                    }
                    return Err(p);
                },
            }
        }
        proof {
            assert(change_ok(t0, selector, usage));
            assert(change_check_post(t0, *self, selector, usage));
        }
        Ok(())
    }
}


/// What is true of every transition that explicit-mode `change` emits: it
/// names the resource, bridges from the actual old usage of every slice it
/// covers to the target, and stays within the selector.
pub open spec fn pt_change_valid(
    p: PendingTransition,
    t0: TextureStates,
    sel: SubresourceRange,
    u: TextureUsage,
    id: TextureId,
) -> bool {
    &&& p.id == id
    &&& p.usage.end == u
    &&& p.usage.start != u
    &&& p.selector.levels.end == p.selector.levels.start + 1
    &&& !p.selector.layers.spec_is_empty()
    &&& p.selector.layers.start >= sel.layers.start && p.selector.layers.end <= sel.layers.end
    &&& (p.selector.aspects == Aspects::spec_color_only() ==> sel.aspects.color
        && sel.levels.spec_contains(p.selector.levels.start as int) && forall|la: int|
        p.selector.layers.spec_contains(la) ==> ((#[trigger] t0.color_unit(
            p.selector.levels.start as int,
            la,
        )) matches Some(un) && un.last == p.usage.start))
    &&& (p.selector.aspects == Aspects::spec_depth_only() ==> sel.aspects.depth
        && p.selector.levels.start == sel.levels.start && forall|la: int|
        p.selector.layers.spec_contains(la) ==> ((#[trigger] t0.ds_unit(la)) matches Some(ds)
            && ds.depth.last == p.usage.start))
    &&& (p.selector.aspects == Aspects::spec_stencil_only() ==> sel.aspects.stencil
        && p.selector.levels.start == sel.levels.start && forall|la: int|
        p.selector.layers.spec_contains(la) ==> ((#[trigger] t0.ds_unit(la)) matches Some(ds)
            && ds.stencil.last == p.usage.start))
    &&& (p.selector.aspects == Aspects::spec_color_only() || p.selector.aspects
        == Aspects::spec_depth_only() || p.selector.aspects == Aspects::spec_stencil_only())
}

impl TextureStates {
    /// Moves every subresource addressed by `selector` to exactly `usage`,
    /// recording in `out` one transition per maximal slice whose tracked
    /// usage differed; the caller is assumed to emit the barriers, so no
    /// conflict check is made and the call always succeeds. The `Result` is
    /// kept for symmetry with the implicit mode.
    #[verifier::rlimit(100)]
    pub fn change_record(
        &mut self,
        id: TextureId,
        selector: SubresourceRange,
        usage: TextureUsage,
        out: &mut Vec<PendingTransition>,
    ) -> (r: Result<(), PendingTransition>)
        requires
            old(self).wf(),
            selector.aspects.color ==> selector.levels.end as int <= MAX_MIP_LEVELS as int,
        ensures
            final(self).wf(),
            r is Ok,
            change_record_post(*old(self), *final(self), selector, usage),
            final(out)@.len() >= old(out)@.len(),
            forall|j: int| 0 <= j < old(out)@.len() ==> #[trigger] final(out)@[j] == old(out)@[j],
            forall|j: int|
                old(out)@.len() <= j < final(out)@.len() ==> pt_change_valid(
                    #[trigger] final(out)@[j],
                    *old(self),
                    selector,
                    usage,
                    id,
                ),
            forall|lv: int, la: int|
                selector.sel_color(lv, la) && ((#[trigger] old(self).color_unit(lv, la)) matches Some(
                    un,
                ) && un.last != usage) ==> exists|j: int|
                    old(out)@.len() <= j < final(out)@.len() && (#[trigger] final(out)@[j]).selector.aspects == Aspects::spec_color_only() && final(out)@[j].selector.levels.start as int == lv && final(out)@[j].selector.layers.spec_contains(la),
            selector.ds_active() && selector.aspects.depth ==> forall|la: int|
                selector.layers.spec_contains(la) && ((#[trigger] old(self).ds_unit(la)) matches Some(
                    ds,
                ) && ds.depth.last != usage) ==> exists|j: int|
                    old(out)@.len() <= j < final(out)@.len() && (#[trigger] final(out)@[j]).selector.aspects == Aspects::spec_depth_only() && final(out)@[j].selector.layers.spec_contains(la),
            selector.ds_active() && selector.aspects.stencil ==> forall|la: int|
                selector.layers.spec_contains(la) && ((#[trigger] old(self).ds_unit(la)) matches Some(
                    ds,
                ) && ds.stencil.last != usage) ==> exists|j: int|
                    old(out)@.len() <= j < final(out)@.len() && (#[trigger] final(out)@[j]).selector.aspects == Aspects::spec_stencil_only() && final(out)@[j].selector.layers.spec_contains(la),
    {
        let ghost t0 = *old(self);
        let ghost out0 = out@;
        if selector.aspects.color {
            while self.color_mips.len() < selector.levels.end as usize
                invariant
                    t0.wf(),
                    selector.levels.end as int <= MAX_MIP_LEVELS as int,
                    self.depth_stencil == t0.depth_stencil,
                    t0.color_len() <= self.color_mips@.len(),
                    self.color_mips@.len() <= MAX_MIP_LEVELS,
                    self.color_mips@.len() <= t0.color_len() || self.color_mips@.len()
                        <= selector.levels.end as int,
                    forall|k: int|
                        0 <= k < t0.color_len() ==> #[trigger] self.color_mips@[k]
                            == t0.color_mips@[k],
                    forall|k: int|
                        t0.color_len() <= k < self.color_mips@.len()
                            ==> (#[trigger] self.color_mips@[k]).sv() == Seq::<(
                            LayerRange,
                            Unit,
                        )>::empty(),
                decreases selector.levels.end as int - self.color_mips@.len(),
            {
                self.color_mips.push(RangedStates::new());
            }
        }
        let ghost text = *self;
        proof {
            assert forall|lv: int, la: int| #[trigger] text.color_unit(lv, la) == t0.color_unit(
                lv,
                la,
            ) by {
                if t0.color_len() <= lv < text.color_len() {
                    assert(seq_state_at(text.color_mips@[lv].sv(), la) == None::<Unit>);
                }
            }
            assert(text.color_len() == grown_len(t0, selector));
            assert(text.wf());
        }
        if selector.aspects.color && selector.layers.start < selector.layers.end {
            let lv_end = selector.levels.end as usize;
            let mut lv: usize = selector.levels.start as usize;
            if lv > lv_end {
                lv = lv_end;
            }
            while lv < lv_end
                invariant
                    text.wf(),
                    t0.wf(),
                    t0 == *old(self),
                    out0 == old(out)@,
                    selector.aspects.color,
                    selector.layers.start < selector.layers.end,
                    lv_end == selector.levels.end as int,
                    lv_end <= text.color_len(),
                    lv_end <= MAX_MIP_LEVELS,
                    text.depth_stencil == t0.depth_stencil,
                    text.color_len() == grown_len(t0, selector),
                    selector.levels.start as int <= lv || lv == lv_end,
                    lv <= lv_end,
                    self.depth_stencil == text.depth_stencil,
                    self.color_mips@.len() == text.color_len(),
                    forall|lv2: int, la: int| #[trigger] text.color_unit(lv2, la) == t0.color_unit(
                        lv2,
                        la,
                    ),
                    forall|k: int|
                        0 <= k < text.color_len() && !(selector.levels.start <= k < lv)
                            ==> #[trigger] self.color_mips@[k] == text.color_mips@[k],
                    forall|k: int|
                        0 <= k < text.color_len() ==> (#[trigger] self.color_mips@[k]).wf()
                            && self.color_mips@[k].coalesced(),
                    forall|k: int, la: int|
                        selector.levels.start <= k < lv ==> #[trigger] self.color_mips@[k].state_at(
                            la,
                        ) == (if selector.layers.spec_contains(la) {
                            Some(upd_unit_record(text.color_mips@[k].state_at(la), usage))
                        } else {
                            text.color_mips@[k].state_at(la)
                        }),
                    out@.len() >= out0.len(),
                    forall|j: int| 0 <= j < out0.len() ==> #[trigger] out@[j] == out0[j],
                    forall|j: int|
                        out0.len() <= j < out@.len() ==> pt_change_valid(
                            #[trigger] out@[j],
                            t0,
                            selector,
                            usage,
                            id,
                        ),
                    forall|k: int, la: int|
                        selector.levels.start <= k < lv && selector.layers.spec_contains(la) && ((
                        #[trigger] text.color_mips@[k].state_at(la)) matches Some(un) && un.last
                            != usage) ==> exists|j: int|
                            out0.len() <= j < out@.len() && (#[trigger] out@[j]).selector.aspects
                                == Aspects::spec_color_only() && out@[j].selector.levels.start as int
                                == k && out@[j].selector.layers.spec_contains(la),
                decreases lv_end - lv,
            {
                let ghost pre_mips = self.color_mips@;
                let ghost out_a = out@;
                let mut m = self.color_mips.remove(lv);
                let ghost m0 = m;
                update_color_level_record(&mut m, selector.layers, usage, id, lv as u8, out);
                let ghost m1 = m;
                self.color_mips.insert(lv, m);
                proof {
                    assert(self.color_mips@ =~= pre_mips.update(lv as int, m1));
                    assert(m0 == text.color_mips@[lv as int]);
                    assert forall|j: int|
                        out0.len() <= j < out@.len() implies pt_change_valid(
                        #[trigger] out@[j],
                        t0,
                        selector,
                        usage,
                        id,
                    ) by {
                        if j < out_a.len() {
                            assert(out@[j] == out_a[j]);
                        } else {
                            assert(pt_color_valid(
                                out@[j],
                                m0,
                                selector.layers,
                                usage,
                                id,
                                lv as u8,
                            ));
                            assert forall|la: int|
                                out@[j].selector.layers.spec_contains(la) implies ((
                            #[trigger] t0.color_unit(
                                out@[j].selector.levels.start as int,
                                la,
                            )) matches Some(un) && un.last == out@[j].usage.start) by {
                                assert(m0.state_at(la) matches Some(un2) && un2.last
                                    == out@[j].usage.start);
                                assert(text.color_unit(lv as int, la) == m0.state_at(la));
                                assert(text.color_unit(lv as int, la) == t0.color_unit(
                                    lv as int,
                                    la,
                                ));
                            }
                        }
                    }
                    assert forall|k: int, la: int|
                        selector.levels.start <= k < lv + 1 && selector.layers.spec_contains(la)
                            && ((#[trigger] text.color_mips@[k].state_at(la)) matches Some(un)
                            && un.last != usage) implies exists|j: int|
                        out0.len() <= j < out@.len() && (#[trigger] out@[j]).selector.aspects
                            == Aspects::spec_color_only() && out@[j].selector.levels.start as int
                            == k && out@[j].selector.layers.spec_contains(la) by {
                        if k < lv {
                            let j = choose|j: int|
                                out0.len() <= j < out_a.len() && (#[trigger] out_a[j]).selector.aspects
                                    == Aspects::spec_color_only()
                                    && out_a[j].selector.levels.start as int == k
                                    && out_a[j].selector.layers.spec_contains(la);
                            assert(out@[j] == out_a[j]);
                        } else {
                            assert(m0.state_at(la) matches Some(un2) && un2.last != usage);
                            let j = choose|j: int|
                                out_a.len() <= j < out@.len() && (#[trigger] out@[j]).selector.layers.spec_contains(
                                    la,
                                );
                            assert(pt_color_valid(
                                out@[j],
                                m0,
                                selector.layers,
                                usage,
                                id,
                                lv as u8,
                            ));
                        }
                    }
                }
                lv += 1;
            }
        }
        let ghost tcol = *self;
        let ghost out_c = out@;
        proof {
            assert forall|la: int| #[trigger] tcol.ds_unit(la) == t0.ds_unit(la) by {}
            assert forall|lv: int, la: int|
                #[trigger] tcol.color_unit(lv, la) == (if selector.sel_color(lv, la) {
                    Some(upd_unit_record(t0.color_unit(lv, la), usage))
                } else {
                    t0.color_unit(lv, la)
                }) by {
                assert(text.color_unit(lv, la) == t0.color_unit(lv, la));
                if 0 <= lv < tcol.color_len() {
                    assert(text.color_unit(lv, la) == text.color_mips@[lv].state_at(la));
                    if selector.aspects.color && selector.layers.start < selector.layers.end
                        && selector.levels.start <= lv < selector.levels.end {
                        assert(tcol.color_mips@[lv].state_at(la) == (
                        if selector.layers.spec_contains(la) {
                            Some(upd_unit_record(text.color_mips@[lv].state_at(la), usage))
                        } else {
                            text.color_mips@[lv].state_at(la)
                        }));
                    } else {
                        assert(tcol.color_mips@[lv] == text.color_mips@[lv]);
                    }
                } else {
                    assert(!selector.sel_color(lv, la));
                }
            }
            assert(tcol.color_len() == grown_len(t0, selector));
            assert(tcol.wf());
            assert forall|lv: int, la: int|
                selector.sel_color(lv, la) && ((#[trigger] t0.color_unit(lv, la)) matches Some(un)
                    && un.last != usage) implies exists|j: int|
                out0.len() <= j < out_c.len() && (#[trigger] out_c[j]).selector.aspects
                    == Aspects::spec_color_only() && out_c[j].selector.levels.start as int == lv
                    && out_c[j].selector.layers.spec_contains(la) by {
                assert(text.color_unit(lv, la) == t0.color_unit(lv, la));
                assert(0 <= lv < text.color_len());
                assert(text.color_unit(lv, la) == text.color_mips@[lv].state_at(la));
            }
        }
        if (selector.aspects.depth || selector.aspects.stencil) && selector.levels.start
            < selector.levels.end && selector.layers.start < selector.layers.end {
            let ghost ds0 = self.depth_stencil;
            update_ds_record(
                &mut self.depth_stencil,
                selector.layers,
                usage,
                selector.aspects.depth,
                selector.aspects.stencil,
                id,
                selector.levels.start,
                out,
            );
            proof {
                assert(ds0 == t0.depth_stencil);
                assert forall|j: int|
                    out0.len() <= j < out@.len() implies pt_change_valid(
                    #[trigger] out@[j],
                    t0,
                    selector,
                    usage,
                    id,
                ) by {
                    if j < out_c.len() {
                        assert(out@[j] == out_c[j]);
                    } else {
                        assert(pt_ds_valid(
                            out@[j],
                            ds0,
                            selector.layers,
                            usage,
                            id,
                            selector.levels.start,
                            selector.aspects.depth,
                            selector.aspects.stencil,
                        ));
                        if out@[j].selector.aspects == Aspects::spec_depth_only() {
                            assert forall|la: int|
                                out@[j].selector.layers.spec_contains(la) implies ((
                            #[trigger] t0.ds_unit(la)) matches Some(ds) && ds.depth.last
                                == out@[j].usage.start) by {
                                assert(ds0.state_at(la) matches Some(d2) && d2.depth.last
                                    == out@[j].usage.start);
                            }
                        }
                        if out@[j].selector.aspects == Aspects::spec_stencil_only() {
                            assert forall|la: int|
                                out@[j].selector.layers.spec_contains(la) implies ((
                            #[trigger] t0.ds_unit(la)) matches Some(ds) && ds.stencil.last
                                == out@[j].usage.start) by {
                                assert(ds0.state_at(la) matches Some(d2) && d2.stencil.last
                                    == out@[j].usage.start);
                            }
                        }
                    }
                }
                assert forall|lv: int, la: int|
                    selector.sel_color(lv, la) && ((#[trigger] t0.color_unit(lv, la)) matches Some(
                        un,
                    ) && un.last != usage) implies exists|j: int|
                    out0.len() <= j < out@.len() && (#[trigger] out@[j]).selector.aspects
                        == Aspects::spec_color_only() && out@[j].selector.levels.start as int == lv
                        && out@[j].selector.layers.spec_contains(la) by {
                    let j = choose|j: int|
                        out0.len() <= j < out_c.len() && (#[trigger] out_c[j]).selector.aspects
                            == Aspects::spec_color_only() && out_c[j].selector.levels.start as int
                            == lv && out_c[j].selector.layers.spec_contains(la);
                    assert(out@[j] == out_c[j]);
                }
            }
        }
        Ok(())
    }
}


/// The unit a merged color slice ends at: `init` from this side (or empty if
/// untracked here), `last` from the other side's contribution under the
/// stitch policy (empty if untracked there).
pub open spec fn merge_unit_res(a: Option<Unit>, b: Option<Unit>, stitch: Stitch) -> Option<Unit> {
    if a is None && b is None {
        None
    } else {
        Some(
            Unit {
                init: or_default(a, Unit::spec_zero()).init,
                last: or_default(b, Unit::spec_zero()).spec_select(stitch),
            },
        )
    }
}

/// The merged depth/stencil state, each aspect stitched independently.
pub open spec fn merge_ds_res(
    a: Option<DepthStencilState>,
    b: Option<DepthStencilState>,
    stitch: Stitch,
) -> Option<DepthStencilState> {
    if a is None && b is None {
        None
    } else {
        let da = or_default(a, DepthStencilState::spec_zero());
        let db = or_default(b, DepthStencilState::spec_zero());
        Some(
            DepthStencilState {
                depth: Unit { init: da.depth.init, last: db.depth.spec_select(stitch) },
                stencil: Unit { init: da.stencil.init, last: db.stencil.spec_select(stitch) },
            },
        )
    }
}

/// A bridge is needed at a merged color slice: some side tracks it and this
/// side's `last` differs from the stitched target.
pub open spec fn bridge_color(a: Option<Unit>, b: Option<Unit>, stitch: Stitch) -> bool {
    (a is Some || b is Some) && or_default(a, Unit::spec_zero()).last != or_default(
        b,
        Unit::spec_zero(),
    ).spec_select(stitch)
}

/// A bridge is needed at a merged depth or stencil slice.
pub open spec fn bridge_ds(
    a: Option<DepthStencilState>,
    b: Option<DepthStencilState>,
    stitch: Stitch,
    depth_aspect: bool,
) -> bool {
    (a is Some || b is Some) && (if depth_aspect {
        or_default(a, DepthStencilState::spec_zero()).depth.last != or_default(
            b,
            DepthStencilState::spec_zero(),
        ).depth.spec_select(stitch)
    } else {
        or_default(a, DepthStencilState::spec_zero()).stencil.last != or_default(
            b,
            DepthStencilState::spec_zero(),
        ).stencil.spec_select(stitch)
    })
}


/// Extending a well-formed prefix by its next entry changes the per-layer
/// state exactly on that entry's range.
proof fn lemma_prefix_step<T>(msv: Seq<(LayerRange, T)>, j: int, la: int)
    requires
        seq_wf(msv),
        0 <= j < msv.len(),
    ensures
        seq_state_at(msv.subrange(0, j + 1), la) == (if msv[j].0.spec_contains(la) {
            Some(msv[j].1)
        } else {
            seq_state_at(msv.subrange(0, j), la)
        }),
{
    let pre = msv.subrange(0, j);
    assert(msv.subrange(0, j + 1) =~= pre.push(msv[j]));
    crate::range::lemma_state_at_push(pre, msv[j].0, msv[j].1, la);
    if msv[j].0.spec_contains(la) {
        assert forall|k: int| 0 <= k < pre.len() implies (#[trigger] pre[k]).0.start
            < pre[k].0.end by {
            assert(pre[k] == msv[k]);
        }
        assert forall|k: int| 0 < k < pre.len() implies (#[trigger] pre[k]).0.start >= pre[k
            - 1].0.end by {
            assert(pre[k] == msv[k]);
            assert(pre[k - 1] == msv[k - 1]);
        }
        if pre.len() > 0 {
            assert(pre.last() == msv[j - 1]);
        }
        crate::range::lemma_state_none_beyond(pre, la);
    }
}

/// A transition emitted while stitching one color mip map: truthful at every
/// layer it covers.
pub open spec fn mt_color_valid(
    p: PendingTransition,
    a: RangedStates<Unit>,
    b: RangedStates<Unit>,
    stitch: Stitch,
    id: TextureId,
    level: u8,
) -> bool {
    &&& p.id == id
    &&& p.selector.aspects == Aspects::spec_color_only()
    &&& p.selector.levels.start == level && p.selector.levels.end == level as int + 1
    &&& !p.selector.layers.spec_is_empty()
    &&& forall|la: int|
        p.selector.layers.spec_contains(la) ==> ({
            let oa = #[trigger] a.state_at(la);
            let ob = b.state_at(la);
            &&& (oa is Some || ob is Some)
            &&& or_default(oa, Unit::spec_zero()).last == p.usage.start
            &&& or_default(ob, Unit::spec_zero()).spec_select(stitch) == p.usage.end
            &&& p.usage.start != p.usage.end
        })
}

/// Stitches one color mip map of `other` into `map`, leaving `map` at the
/// merged state; when `emit` is set, records one transition per maximal
/// layer range whose usage must be bridged.
#[verifier::rlimit(100)]
fn merge_color_level(
    map: &mut RangedStates<Unit>,
    other: &RangedStates<Unit>,
    stitch: Stitch,
    id: TextureId,
    level: u8,
    emit: bool,
    out: &mut Vec<PendingTransition>,
)
    requires
        old(map).wf(),
        other.wf(),
        level < 255,
    ensures
        final(map).wf(),
        final(map).coalesced(),
        forall|la: int|
            #[trigger] final(map).state_at(la) == merge_unit_res(
                old(map).state_at(la),
                other.state_at(la),
                stitch,
            ),
        !emit ==> final(out)@ == old(out)@,
        final(out)@.len() >= old(out)@.len(),
        forall|j: int| 0 <= j < old(out)@.len() ==> #[trigger] final(out)@[j] == old(out)@[j],
        forall|j: int|
            old(out)@.len() <= j < final(out)@.len() ==> mt_color_valid(
                #[trigger] final(out)@[j],
                *old(map),
                *other,
                stitch,
                id,
                level,
            ),
        emit ==> forall|la: int|
            bridge_color(#[trigger] old(map).state_at(la), other.state_at(la), stitch)
                ==> exists|j: int|
                old(out)@.len() <= j < final(out)@.len()
                    && (#[trigger] final(out)@[j]).selector.layers.spec_contains(la),
{
    let ghost a0 = *old(map);
    let ghost out0 = out@;
    let merged = map.merge_with(other, Unit::zero());
    let ghost msv = merged@;
    map.clear();
    let n = merged.len();
    let mut j: usize = 0;
    while j < n
        invariant
            a0 == *old(map),
            out0 == old(out)@,
            other.wf(),
            level < 255,
            n == msv.len(),
            merged@ == msv,
            seq_wf(msv),
            0 <= j <= n,
            forall|la: int|
                #[trigger] seq_state_at(msv, la) == merged_sem(
                    a0.sv(),
                    other.sv(),
                    Unit::spec_zero(),
                    la,
                ),
            map.wf(),
            map.coalesced(),
            map.sv().len() > 0 ==> j > 0 && map.sv().last().0.end == msv[j - 1].0.end,
            forall|la: int|
                #[trigger] map.state_at(la) == (match seq_state_at(msv.subrange(0, j as int), la) {
                    Some(pr) => Some(
                        Unit { init: pr.0.init, last: pr.1.spec_select(stitch) },
                    ),
                    None => None,
                }),
            !emit ==> out@ == out0,
            out@.len() >= out0.len(),
            forall|j2: int| 0 <= j2 < out0.len() ==> #[trigger] out@[j2] == out0[j2],
            forall|j2: int|
                out0.len() <= j2 < out@.len() ==> mt_color_valid(
                    #[trigger] out@[j2],
                    a0,
                    *other,
                    stitch,
                    id,
                    level,
                ),
            emit ==> forall|k: int|
                0 <= k < j && ((#[trigger] msv[k]).1.0.last != msv[k].1.1.spec_select(stitch))
                    ==> exists|j2: int|
                    out0.len() <= j2 < out@.len() && (#[trigger] out@[j2]).selector.layers
                        == msv[k].0,
        decreases n - j,
    {
        let (rg, pair) = merged[j];
        let ua = pair.0;
        let ub = pair.1;
        let chosen = ub.select(stitch);
        let ghost out_a = out@;
        if emit && !(ua.last == chosen) {
            let pending = PendingTransition {
                id,
                selector: SubresourceRange {
                    aspects: Aspects::color_only(),
                    levels: LevelRange { start: level, end: level + 1 },
                    layers: rg,
                },
                usage: UsageRange { start: ua.last, end: chosen },
            };
            proof {
                assert forall|la: int| rg.spec_contains(la) implies ({
                    let oa = #[trigger] a0.state_at(la);
                    let ob = other.state_at(la);
                    &&& (oa is Some || ob is Some)
                    &&& or_default(oa, Unit::spec_zero()).last == ua.last
                    &&& or_default(ob, Unit::spec_zero()).spec_select(stitch) == chosen
                }) by {
                    lemma_entry_state_at(msv, j as int, la);
                }
            }
            out.push(pending);
            proof {
                assert(out@[out@.len() - 1] == pending);
            }
        }
        let ghost map_pre = map.sv();
        map.append(rg, Unit { init: ua.init, last: chosen });
        proof {
            assert forall|la: int|
                #[trigger] map.state_at(la) == (match seq_state_at(msv.subrange(0, j + 1), la) {
                    Some(pr) => Some(
                        Unit { init: pr.0.init, last: pr.1.spec_select(stitch) },
                    ),
                    None => None,
                }) by {
                lemma_prefix_step(msv, j as int, la);
            }
            if emit {
                assert forall|k: int|
                    0 <= k < j + 1 && ((#[trigger] msv[k]).1.0.last != msv[k].1.1.spec_select(
                        stitch,
                    )) implies exists|j2: int|
                    out0.len() <= j2 < out@.len() && (#[trigger] out@[j2]).selector.layers
                        == msv[k].0 by {
                    if k < j {
                        lemma_cover_carry(
                            out0.len() as int,
                            out_a,
                            out@,
                            msv[k].0,
                            Aspects::spec_color_only(),
                        );
                    } else {
                        assert(out@[out@.len() - 1].selector.layers == msv[k].0);
                    }
                }
            }
        }
        j += 1;
    }
    proof {
        assert(msv.subrange(0, n as int) =~= msv);
        assert forall|la: int|
            #[trigger] map.state_at(la) == merge_unit_res(
                a0.state_at(la),
                other.state_at(la),
                stitch,
            ) by {}
        if emit {
            assert forall|la: int|
                bridge_color(#[trigger] a0.state_at(la), other.state_at(la), stitch) implies exists|
                j2: int,
            |
                out0.len() <= j2 < out@.len()
                    && (#[trigger] out@[j2]).selector.layers.spec_contains(la) by {
                assert(seq_state_at(msv, la) is Some);
                crate::range::lemma_state_at_entry(msv, la);
                let k = choose|k: int|
                    0 <= k < msv.len() && (#[trigger] msv[k]).0.spec_contains(la) && msv[k].1
                        == seq_state_at(msv, la)->Some_0;
                assert(msv[k].1.0.last != msv[k].1.1.spec_select(stitch));
                let j2 = choose|j2: int|
                    out0.len() <= j2 < out@.len() && (#[trigger] out@[j2]).selector.layers
                        == msv[k].0;
                assert(out@[j2].selector.layers.spec_contains(la));
            }
        }
    }
}


/// A transition emitted while stitching the depth/stencil map: truthful at
/// every layer it covers, on the aspect it names.
pub open spec fn mt_ds_valid(
    p: PendingTransition,
    a: RangedStates<DepthStencilState>,
    b: RangedStates<DepthStencilState>,
    stitch: Stitch,
    id: TextureId,
) -> bool {
    &&& p.id == id
    &&& (p.selector.aspects == Aspects::spec_depth_only() || p.selector.aspects
        == Aspects::spec_stencil_only())
    &&& p.selector.levels.start == 0 && p.selector.levels.end == 1
    &&& !p.selector.layers.spec_is_empty()
    &&& forall|la: int|
        p.selector.layers.spec_contains(la) ==> ({
            let oa = #[trigger] a.state_at(la);
            let ob = b.state_at(la);
            let da = or_default(oa, DepthStencilState::spec_zero());
            let db = or_default(ob, DepthStencilState::spec_zero());
            &&& (oa is Some || ob is Some)
            &&& (if p.selector.aspects == Aspects::spec_depth_only() {
                da.depth.last == p.usage.start && db.depth.spec_select(stitch) == p.usage.end
            } else {
                da.stencil.last == p.usage.start && db.stencil.spec_select(stitch) == p.usage.end
            })
            &&& p.usage.start != p.usage.end
        })
}


/// From per-range coverage of the merged sequence to per-layer coverage of
/// a needed depth or stencil bridge.
proof fn lemma_ds_bridge_cover(
    a0: RangedStates<DepthStencilState>,
    other: RangedStates<DepthStencilState>,
    msv: Seq<(LayerRange, (DepthStencilState, DepthStencilState))>,
    out0_len: int,
    outv: Seq<PendingTransition>,
    stitch: Stitch,
    depth_aspect: bool,
    la: int,
)
    requires
        forall|l2: int|
            #[trigger] seq_state_at(msv, l2) == merged_sem(
                a0.sv(),
                other.sv(),
                DepthStencilState::spec_zero(),
                l2,
            ),
        0 <= out0_len,
        forall|k: int|
            0 <= k < msv.len() && (if depth_aspect {
                (#[trigger] msv[k]).1.0.depth.last != msv[k].1.1.depth.spec_select(stitch)
            } else {
                msv[k].1.0.stencil.last != msv[k].1.1.stencil.spec_select(stitch)
            }) ==> exists|j2: int|
                out0_len <= j2 < outv.len() && (#[trigger] outv[j2]).selector.layers == msv[k].0
                    && outv[j2].selector.aspects == (if depth_aspect {
                    Aspects::spec_depth_only()
                } else {
                    Aspects::spec_stencil_only()
                }),
        bridge_ds(a0.state_at(la), other.state_at(la), stitch, depth_aspect),
    ensures
        exists|j2: int|
            out0_len <= j2 < outv.len() && (#[trigger] outv[j2]).selector.layers.spec_contains(la)
                && outv[j2].selector.aspects == (if depth_aspect {
                Aspects::spec_depth_only()
            } else {
                Aspects::spec_stencil_only()
            }),
{
    assert(seq_state_at(msv, la) is Some);
    crate::range::lemma_state_at_entry(msv, la);
    let k = choose|k: int|
        0 <= k < msv.len() && (#[trigger] msv[k]).0.spec_contains(la) && msv[k].1 == seq_state_at(
            msv,
            la,
        )->Some_0;
    if depth_aspect {
        assert(msv[k].1.0.depth.last != msv[k].1.1.depth.spec_select(stitch));
    } else {
        assert(msv[k].1.0.stencil.last != msv[k].1.1.stencil.spec_select(stitch));
    }
    let j2 = choose|j2: int|
        out0_len <= j2 < outv.len() && (#[trigger] outv[j2]).selector.layers == msv[k].0
            && outv[j2].selector.aspects == (if depth_aspect {
            Aspects::spec_depth_only()
        } else {
            Aspects::spec_stencil_only()
        });
    assert(outv[j2].selector.layers.spec_contains(la));
}

/// Stitches `other`'s depth/stencil map into `map`, each aspect
/// independently; when `emit` is set, records per aspect one transition per
/// maximal layer range whose usage must be bridged.
#[verifier::rlimit(100)]
fn merge_ds_map(
    map: &mut RangedStates<DepthStencilState>,
    other: &RangedStates<DepthStencilState>,
    stitch: Stitch,
    id: TextureId,
    emit: bool,
    out: &mut Vec<PendingTransition>,
)
    requires
        old(map).wf(),
        other.wf(),
    ensures
        final(map).wf(),
        final(map).coalesced(),
        forall|la: int|
            #[trigger] final(map).state_at(la) == merge_ds_res(
                old(map).state_at(la),
                other.state_at(la),
                stitch,
            ),
        !emit ==> final(out)@ == old(out)@,
        final(out)@.len() >= old(out)@.len(),
        forall|j: int| 0 <= j < old(out)@.len() ==> #[trigger] final(out)@[j] == old(out)@[j],
        forall|j: int|
            old(out)@.len() <= j < final(out)@.len() ==> mt_ds_valid(
                #[trigger] final(out)@[j],
                *old(map),
                *other,
                stitch,
                id,
            ),
        emit ==> forall|la: int|
            bridge_ds(#[trigger] old(map).state_at(la), other.state_at(la), stitch, true)
                ==> exists|j: int|
                old(out)@.len() <= j < final(out)@.len()
                    && (#[trigger] final(out)@[j]).selector.layers.spec_contains(la)
                    && final(out)@[j].selector.aspects == Aspects::spec_depth_only(),
        emit ==> forall|la: int|
            bridge_ds(#[trigger] old(map).state_at(la), other.state_at(la), stitch, false)
                ==> exists|j: int|
                old(out)@.len() <= j < final(out)@.len()
                    && (#[trigger] final(out)@[j]).selector.layers.spec_contains(la)
                    && final(out)@[j].selector.aspects == Aspects::spec_stencil_only(),
{
    let ghost a0 = *old(map);
    let ghost out0 = out@;
    let merged = map.merge_with(other, DepthStencilState::zero());
    let ghost msv = merged@;
    map.clear();
    let n = merged.len();
    let mut j: usize = 0;
    while j < n
        invariant
            a0 == *old(map),
            out0 == old(out)@,
            other.wf(),
            n == msv.len(),
            merged@ == msv,
            seq_wf(msv),
            0 <= j <= n,
            forall|la: int|
                #[trigger] seq_state_at(msv, la) == merged_sem(
                    a0.sv(),
                    other.sv(),
                    DepthStencilState::spec_zero(),
                    la,
                ),
            map.wf(),
            map.coalesced(),
            map.sv().len() > 0 ==> j > 0 && map.sv().last().0.end == msv[j - 1].0.end,
            forall|la: int|
                #[trigger] map.state_at(la) == (match seq_state_at(msv.subrange(0, j as int), la) {
                    Some(pr) => Some(
                        DepthStencilState {
                            depth: Unit {
                                init: pr.0.depth.init,
                                last: pr.1.depth.spec_select(stitch),
                            },
                            stencil: Unit {
                                init: pr.0.stencil.init,
                                last: pr.1.stencil.spec_select(stitch),
                            },
                        },
                    ),
                    None => None,
                }),
            !emit ==> out@ == out0,
            out@.len() >= out0.len(),
            forall|j2: int| 0 <= j2 < out0.len() ==> #[trigger] out@[j2] == out0[j2],
            forall|j2: int|
                out0.len() <= j2 < out@.len() ==> mt_ds_valid(
                    #[trigger] out@[j2],
                    a0,
                    *other,
                    stitch,
                    id,
                ),
            emit ==> forall|k: int|
                0 <= k < j && ((#[trigger] msv[k]).1.0.depth.last != msv[k].1.1.depth.spec_select(
                    stitch,
                )) ==> exists|j2: int|
                    out0.len() <= j2 < out@.len() && (#[trigger] out@[j2]).selector.layers
                        == msv[k].0 && out@[j2].selector.aspects == Aspects::spec_depth_only(),
            emit ==> forall|k: int|
                0 <= k < j && ((#[trigger] msv[k]).1.0.stencil.last
                    != msv[k].1.1.stencil.spec_select(stitch)) ==> exists|j2: int|
                    out0.len() <= j2 < out@.len() && (#[trigger] out@[j2]).selector.layers
                        == msv[k].0 && out@[j2].selector.aspects == Aspects::spec_stencil_only(),
        decreases n - j,
    {
        let (rg, pair) = merged[j];
        let da = pair.0;
        let db = pair.1;
        let chosen_d = db.depth.select(stitch);
        let chosen_s = db.stencil.select(stitch);
        let ghost out_a = out@;
        proof {
            assert forall|la: int| rg.spec_contains(la) implies ({
                let oa = #[trigger] a0.state_at(la);
                let ob = other.state_at(la);
                &&& (oa is Some || ob is Some)
                &&& or_default(oa, DepthStencilState::spec_zero()) == da
                &&& or_default(ob, DepthStencilState::spec_zero()) == db
            }) by {
                lemma_entry_state_at(msv, j as int, la);
            }
        }
        if emit && !(da.depth.last == chosen_d) {
            let pending = PendingTransition {
                id,
                selector: SubresourceRange {
                    aspects: Aspects::depth_only(),
                    levels: LevelRange { start: 0, end: 1 },
                    layers: rg,
                },
                usage: UsageRange { start: da.depth.last, end: chosen_d },
            };
            out.push(pending);
            proof {
                assert(out@[out@.len() - 1] == pending);
            }
        }
        let ghost out_b = out@;
        if emit && !(da.stencil.last == chosen_s) {
            let pending = PendingTransition {
                id,
                selector: SubresourceRange {
                    aspects: Aspects::stencil_only(),
                    levels: LevelRange { start: 0, end: 1 },
                    layers: rg,
                },
                usage: UsageRange { start: da.stencil.last, end: chosen_s },
            };
            out.push(pending);
            proof {
                assert(out@[out@.len() - 1] == pending);
            }
        }
        let ghost map_pre = map.sv();
        map.append(
            rg,
            DepthStencilState {
                depth: Unit { init: da.depth.init, last: chosen_d },
                stencil: Unit { init: da.stencil.init, last: chosen_s },
            },
        );
        proof {
            assert forall|la: int|
                #[trigger] map.state_at(la) == (match seq_state_at(msv.subrange(0, j + 1), la) {
                    Some(pr) => Some(
                        DepthStencilState {
                            depth: Unit {
                                init: pr.0.depth.init,
                                last: pr.1.depth.spec_select(stitch),
                            },
                            stencil: Unit {
                                init: pr.0.stencil.init,
                                last: pr.1.stencil.spec_select(stitch),
                            },
                        },
                    ),
                    None => None,
                }) by {
                lemma_prefix_step(msv, j as int, la);
            }
            if emit {
                if da.depth.last != chosen_d {
                    assert(out@[out_b.len() - 1] == out_b[out_b.len() - 1]);
                    assert(out@[out_b.len() - 1].selector.layers == rg && out@[out_b.len()
                        - 1].selector.aspects == Aspects::spec_depth_only());
                }
                assert forall|k: int|
                    0 <= k < j + 1 && ((#[trigger] msv[k]).1.0.depth.last
                        != msv[k].1.1.depth.spec_select(stitch)) implies exists|j2: int|
                    out0.len() <= j2 < out@.len() && (#[trigger] out@[j2]).selector.layers
                        == msv[k].0 && out@[j2].selector.aspects
                        == Aspects::spec_depth_only() by {
                    if k < j {
                        lemma_cover_carry(
                            out0.len() as int,
                            out_a,
                            out@,
                            msv[k].0,
                            Aspects::spec_depth_only(),
                        );
                    }
                }
                assert forall|k: int|
                    0 <= k < j + 1 && ((#[trigger] msv[k]).1.0.stencil.last
                        != msv[k].1.1.stencil.spec_select(stitch)) implies exists|j2: int|
                    out0.len() <= j2 < out@.len() && (#[trigger] out@[j2]).selector.layers
                        == msv[k].0 && out@[j2].selector.aspects
                        == Aspects::spec_stencil_only() by {
                    if k < j {
                        lemma_cover_carry(
                            out0.len() as int,
                            out_a,
                            out@,
                            msv[k].0,
                            Aspects::spec_stencil_only(),
                        );
                    } else {
                        assert(out@[out@.len() - 1].selector.layers == msv[k].0);
                    }
                }
            }
        }
        j += 1;
    }
    proof {
        assert(msv.subrange(0, n as int) =~= msv);
        assert forall|la: int|
            #[trigger] map.state_at(la) == merge_ds_res(
                a0.state_at(la),
                other.state_at(la),
                stitch,
            ) by {}
        if emit {
            assert forall|la: int|
                bridge_ds(#[trigger] a0.state_at(la), other.state_at(la), stitch, true) implies exists|
                j2: int,
            |
                out0.len() <= j2 < out@.len()
                    && (#[trigger] out@[j2]).selector.layers.spec_contains(la)
                    && out@[j2].selector.aspects == Aspects::spec_depth_only() by {
                lemma_ds_bridge_cover(a0, *other, msv, out0.len() as int, out@, stitch, true, la);
            }
            assert forall|la: int|
                bridge_ds(#[trigger] a0.state_at(la), other.state_at(la), stitch, false) implies exists|
                j2: int,
            |
                out0.len() <= j2 < out@.len()
                    && (#[trigger] out@[j2]).selector.layers.spec_contains(la)
                    && out@[j2].selector.aspects == Aspects::spec_stencil_only() by {
                lemma_ds_bridge_cover(a0, *other, msv, out0.len() as int, out@, stitch, false, la);
            }
        }
    }
}


/// The state relation of `merge`: for every mip level the other side also
/// tracks, the merged per-layer state; levels beyond the other side's maps
/// are untouched; the depth/stencil map is merged unconditionally.
pub open spec fn merge_post(
    t0: TextureStates,
    other: TextureStates,
    t1: TextureStates,
    stitch: Stitch,
) -> bool {
    &&& t1.color_len() == (if other.color_len() > t0.color_len() {
        other.color_len()
    } else {
        t0.color_len()
    })
    &&& forall|lv: int, la: int|
        #[trigger] t1.color_unit(lv, la) == (if 0 <= lv < other.color_len() {
            merge_unit_res(t0.color_unit(lv, la), other.color_unit(lv, la), stitch)
        } else {
            t0.color_unit(lv, la)
        })
    &&& forall|la: int|
        #[trigger] t1.ds_unit(la) == merge_ds_res(t0.ds_unit(la), other.ds_unit(la), stitch)
}

/// What is true of every transition that `merge` emits: it bridges, at
/// every layer it covers and on the aspect it names, from this side's
/// recorded `last` to the other side's stitched contribution, and the two
/// differ.
pub open spec fn mt_merge_valid(
    p: PendingTransition,
    t0: TextureStates,
    other: TextureStates,
    stitch: Stitch,
    id: TextureId,
) -> bool {
    &&& p.id == id
    &&& !p.selector.layers.spec_is_empty()
    &&& (p.selector.aspects == Aspects::spec_color_only() ==> 0 <= p.selector.levels.start
        < other.color_len() && p.selector.levels.end == p.selector.levels.start + 1 && forall|
        la: int,
    |
        p.selector.layers.spec_contains(la) ==> ({
            let oa = #[trigger] t0.color_unit(p.selector.levels.start as int, la);
            let ob = other.color_unit(p.selector.levels.start as int, la);
            &&& (oa is Some || ob is Some)
            &&& or_default(oa, Unit::spec_zero()).last == p.usage.start
            &&& or_default(ob, Unit::spec_zero()).spec_select(stitch) == p.usage.end
            &&& p.usage.start != p.usage.end
        }))
    &&& (p.selector.aspects == Aspects::spec_depth_only() ==> p.selector.levels.start == 0
        && p.selector.levels.end == 1 && forall|la: int|
        p.selector.layers.spec_contains(la) ==> ({
            let oa = #[trigger] t0.ds_unit(la);
            let ob = other.ds_unit(la);
            &&& (oa is Some || ob is Some)
            &&& or_default(oa, DepthStencilState::spec_zero()).depth.last == p.usage.start
            &&& or_default(ob, DepthStencilState::spec_zero()).depth.spec_select(stitch)
                == p.usage.end
            &&& p.usage.start != p.usage.end
        }))
    &&& (p.selector.aspects == Aspects::spec_stencil_only() ==> p.selector.levels.start == 0
        && p.selector.levels.end == 1 && forall|la: int|
        p.selector.layers.spec_contains(la) ==> ({
            let oa = #[trigger] t0.ds_unit(la);
            let ob = other.ds_unit(la);
            &&& (oa is Some || ob is Some)
            &&& or_default(oa, DepthStencilState::spec_zero()).stencil.last == p.usage.start
            &&& or_default(ob, DepthStencilState::spec_zero()).stencil.spec_select(stitch)
                == p.usage.end
            &&& p.usage.start != p.usage.end
        }))
    &&& (p.selector.aspects == Aspects::spec_color_only() || p.selector.aspects
        == Aspects::spec_depth_only() || p.selector.aspects == Aspects::spec_stencil_only())
}

impl TextureStates {
    /// Folds `other`'s independently recorded history into `self`, bridging
    /// `self`'s current state to what `other` contributes under the stitch
    /// policy, and records the needed transitions in `out`. Never fails: an
    /// irreconcilable difference becomes a barrier, not an error; the
    /// `Result` is kept for symmetry with `change`.
    #[verifier::rlimit(100)]
    pub fn merge_record(
        &mut self,
        id: TextureId,
        other: &TextureStates,
        stitch: Stitch,
        out: &mut Vec<PendingTransition>,
    ) -> (r: Result<(), PendingTransition>)
        requires
            old(self).wf(),
            other.wf(),
        ensures
            final(self).wf(),
            r is Ok,
            merge_post(*old(self), *other, *final(self), stitch),
            final(out)@.len() >= old(out)@.len(),
            forall|j: int| 0 <= j < old(out)@.len() ==> #[trigger] final(out)@[j] == old(out)@[j],
            forall|j: int|
                old(out)@.len() <= j < final(out)@.len() ==> mt_merge_valid(
                    #[trigger] final(out)@[j],
                    *old(self),
                    *other,
                    stitch,
                    id,
                ),
            forall|lv: int, la: int|
                0 <= lv < other.color_len() && bridge_color(
                    #[trigger] old(self).color_unit(lv, la),
                    other.color_unit(lv, la),
                    stitch,
                ) ==> exists|j: int|
                    old(out)@.len() <= j < final(out)@.len() && (#[trigger] final(out)@[j]).selector.aspects == Aspects::spec_color_only() && final(out)@[j].selector.levels.start as int == lv && final(out)@[j].selector.layers.spec_contains(la),
            forall|la: int|
                bridge_ds(#[trigger] old(self).ds_unit(la), other.ds_unit(la), stitch, true)
                    ==> exists|j: int|
                    old(out)@.len() <= j < final(out)@.len() && (#[trigger] final(out)@[j]).selector.aspects == Aspects::spec_depth_only() && final(out)@[j].selector.layers.spec_contains(la),
            forall|la: int|
                bridge_ds(#[trigger] old(self).ds_unit(la), other.ds_unit(la), stitch, false)
                    ==> exists|j: int|
                    old(out)@.len() <= j < final(out)@.len() && (#[trigger] final(out)@[j]).selector.aspects == Aspects::spec_stencil_only() && final(out)@[j].selector.layers.spec_contains(la),
    {
        let ghost t0 = *old(self);
        let ghost out0 = out@;
        let other_len = other.color_mips.len();
        while self.color_mips.len() < other_len
            invariant
                t0.wf(),
                other.wf(),
                other_len == other.color_len(),
                self.depth_stencil == t0.depth_stencil,
                t0.color_len() <= self.color_mips@.len(),
                self.color_mips@.len() <= MAX_MIP_LEVELS,
                self.color_mips@.len() <= t0.color_len() || self.color_mips@.len() <= other_len,
                forall|k: int|
                    0 <= k < t0.color_len() ==> #[trigger] self.color_mips@[k]
                        == t0.color_mips@[k],
                forall|k: int|
                    t0.color_len() <= k < self.color_mips@.len()
                        ==> (#[trigger] self.color_mips@[k]).sv() == Seq::<(
                        LayerRange,
                        Unit,
                    )>::empty(),
            decreases other_len - self.color_mips@.len(),
        {
            self.color_mips.push(RangedStates::new());
        }
        let ghost text = *self;
        proof {
            assert forall|lv: int, la: int| #[trigger] text.color_unit(lv, la) == t0.color_unit(
                lv,
                la,
            ) by {
                if t0.color_len() <= lv < text.color_len() {
                    assert(seq_state_at(text.color_mips@[lv].sv(), la) == None::<Unit>);
                }
            }
            assert(text.color_len() == (if other.color_len() > t0.color_len() {
                other.color_len()
            } else {
                t0.color_len()
            }));
            assert(text.wf());
        }
        let mut lv: usize = 0;
        while lv < other_len
            invariant
                text.wf(),
                t0.wf(),
                t0 == *old(self),
                out0 == old(out)@,
                other.wf(),
                other_len == other.color_len(),
                other_len <= text.color_len(),
                other_len <= MAX_MIP_LEVELS,
                text.depth_stencil == t0.depth_stencil,
                0 <= lv <= other_len,
                self.depth_stencil == text.depth_stencil,
                self.color_mips@.len() == text.color_len(),
                forall|lv2: int, la: int| #[trigger] text.color_unit(lv2, la) == t0.color_unit(
                    lv2,
                    la,
                ),
                forall|k: int|
                    0 <= k < text.color_len() && !(k < lv) ==> #[trigger] self.color_mips@[k]
                        == text.color_mips@[k],
                forall|k: int|
                    0 <= k < text.color_len() ==> (#[trigger] self.color_mips@[k]).wf(),
                forall|k: int|
                    0 <= k < lv ==> (#[trigger] self.color_mips@[k]).coalesced(),
                forall|k: int, la: int|
                    0 <= k < lv ==> #[trigger] self.color_mips@[k].state_at(la) == merge_unit_res(
                        text.color_mips@[k].state_at(la),
                        other.color_mips@[k].state_at(la),
                        stitch,
                    ),
                out@.len() >= out0.len(),
                forall|j: int| 0 <= j < out0.len() ==> #[trigger] out@[j] == out0[j],
                forall|j: int|
                    out0.len() <= j < out@.len() ==> mt_merge_valid(
                        #[trigger] out@[j],
                        t0,
                        *other,
                        stitch,
                        id,
                    ),
                forall|k: int, la: int|
                    0 <= k < lv && bridge_color(
                        #[trigger] text.color_mips@[k].state_at(la),
                        other.color_mips@[k].state_at(la),
                        stitch,
                    ) ==> exists|j: int|
                        out0.len() <= j < out@.len() && (#[trigger] out@[j]).selector.aspects
                            == Aspects::spec_color_only() && out@[j].selector.levels.start as int
                            == k && out@[j].selector.layers.spec_contains(la),
            decreases other_len - lv,
        {
            let ghost pre_mips = self.color_mips@;
            let ghost out_a = out@;
            let mut m = self.color_mips.remove(lv);
            let ghost m0 = m;
            merge_color_level(&mut m, &other.color_mips[lv], stitch, id, lv as u8, true, out);
            let ghost m1 = m;
            self.color_mips.insert(lv, m);
            proof {
                assert(self.color_mips@ =~= pre_mips.update(lv as int, m1));
                assert(m0 == text.color_mips@[lv as int]);
                assert forall|j: int|
                    out0.len() <= j < out@.len() implies mt_merge_valid(
                    #[trigger] out@[j],
                    t0,
                    *other,
                    stitch,
                    id,
                ) by {
                    if j < out_a.len() {
                        assert(out@[j] == out_a[j]);
                    } else {
                        assert(mt_color_valid(
                            out@[j],
                            m0,
                            other.color_mips@[lv as int],
                            stitch,
                            id,
                            lv as u8,
                        ));
                        assert forall|la: int|
                            out@[j].selector.layers.spec_contains(la) implies ({
                            let oa = #[trigger] t0.color_unit(
                                out@[j].selector.levels.start as int,
                                la,
                            );
                            let ob = other.color_unit(out@[j].selector.levels.start as int, la);
                            &&& (oa is Some || ob is Some)
                            &&& or_default(oa, Unit::spec_zero()).last == out@[j].usage.start
                            &&& or_default(ob, Unit::spec_zero()).spec_select(stitch)
                                == out@[j].usage.end
                            &&& out@[j].usage.start != out@[j].usage.end
                        }) by {
                            assert(text.color_unit(lv as int, la) == m0.state_at(la));
                            assert(text.color_unit(lv as int, la) == t0.color_unit(lv as int, la));
                            assert(other.color_unit(lv as int, la) == other.color_mips@[
                                lv as int].state_at(la));
                        }
                    }
                }
                assert forall|k: int, la: int|
                    0 <= k < lv + 1 && bridge_color(
                        #[trigger] text.color_mips@[k].state_at(la),
                        other.color_mips@[k].state_at(la),
                        stitch,
                    ) implies exists|j: int|
                    out0.len() <= j < out@.len() && (#[trigger] out@[j]).selector.aspects
                        == Aspects::spec_color_only() && out@[j].selector.levels.start as int == k
                        && out@[j].selector.layers.spec_contains(la) by {
                    if k < lv {
                        let j = choose|j: int|
                            out0.len() <= j < out_a.len() && (#[trigger] out_a[j]).selector.aspects
                                == Aspects::spec_color_only()
                                && out_a[j].selector.levels.start as int == k
                                && out_a[j].selector.layers.spec_contains(la);
                        assert(out@[j] == out_a[j]);
                    } else {
                        assert(bridge_color(
                            m0.state_at(la),
                            other.color_mips@[lv as int].state_at(la),
                            stitch,
                        ));
                        let j = choose|j: int|
                            out_a.len() <= j < out@.len()
                                && (#[trigger] out@[j]).selector.layers.spec_contains(la);
                        assert(mt_color_valid(
                            out@[j],
                            m0,
                            other.color_mips@[lv as int],
                            stitch,
                            id,
                            lv as u8,
                        ));
                    }
                }
            }
            lv += 1;
        }
        let ghost tcol = *self;
        let ghost out_c = out@;
        proof {
            assert forall|lv2: int, la: int|
                #[trigger] tcol.color_unit(lv2, la) == (if 0 <= lv2 < other.color_len() {
                    merge_unit_res(t0.color_unit(lv2, la), other.color_unit(lv2, la), stitch)
                } else {
                    t0.color_unit(lv2, la)
                }) by {
                assert(text.color_unit(lv2, la) == t0.color_unit(lv2, la));
                if 0 <= lv2 < tcol.color_len() {
                    assert(text.color_unit(lv2, la) == text.color_mips@[lv2].state_at(la));
                    if lv2 < other_len {
                        assert(tcol.color_mips@[lv2].state_at(la) == merge_unit_res(
                            text.color_mips@[lv2].state_at(la),
                            other.color_mips@[lv2].state_at(la),
                            stitch,
                        ));
                        assert(other.color_unit(lv2, la) == other.color_mips@[lv2].state_at(la));
                    } else {
                        assert(tcol.color_mips@[lv2] == text.color_mips@[lv2]);
                    }
                } else {
                    if 0 <= lv2 < other.color_len() {
                        assert(false);
                    }
                }
            }
            assert(tcol.wf());
            assert forall|lv2: int, la: int|
                0 <= lv2 < other.color_len() && bridge_color(
                    #[trigger] t0.color_unit(lv2, la),
                    other.color_unit(lv2, la),
                    stitch,
                ) implies exists|j: int|
                out0.len() <= j < out_c.len() && (#[trigger] out_c[j]).selector.aspects
                    == Aspects::spec_color_only() && out_c[j].selector.levels.start as int == lv2
                    && out_c[j].selector.layers.spec_contains(la) by {
                assert(text.color_unit(lv2, la) == t0.color_unit(lv2, la));
                assert(text.color_unit(lv2, la) == text.color_mips@[lv2].state_at(la));
                assert(other.color_unit(lv2, la) == other.color_mips@[lv2].state_at(la));
            }
        }
        let ghost ds0 = self.depth_stencil;
        merge_ds_map(&mut self.depth_stencil, &other.depth_stencil, stitch, id, true, out);
        proof {
            assert(ds0 == t0.depth_stencil);
            assert forall|j: int|
                out0.len() <= j < out@.len() implies mt_merge_valid(
                #[trigger] out@[j],
                t0,
                *other,
                stitch,
                id,
            ) by {
                if j < out_c.len() {
                    assert(out@[j] == out_c[j]);
                } else {
                    assert(mt_ds_valid(out@[j], ds0, other.depth_stencil, stitch, id));
                }
            }
            assert forall|lv2: int, la: int|
                0 <= lv2 < other.color_len() && bridge_color(
                    #[trigger] t0.color_unit(lv2, la),
                    other.color_unit(lv2, la),
                    stitch,
                ) implies exists|j: int|
                out0.len() <= j < out@.len() && (#[trigger] out@[j]).selector.aspects
                    == Aspects::spec_color_only() && out@[j].selector.levels.start as int == lv2
                    && out@[j].selector.layers.spec_contains(la) by {
                let j = choose|j: int|
                    out0.len() <= j < out_c.len() && (#[trigger] out_c[j]).selector.aspects
                        == Aspects::spec_color_only() && out_c[j].selector.levels.start as int
                        == lv2 && out_c[j].selector.layers.spec_contains(la);
                assert(out@[j] == out_c[j]);
            }
        }
        Ok(())
    }

    /// Folds `other`'s history into `self` without recording the bridging
    /// transitions: the state changes exactly as under `merge_record`.
    pub fn merge(
        &mut self,
        id: TextureId,
        other: &TextureStates,
        stitch: Stitch,
    ) -> (r: Result<(), PendingTransition>)
        requires
            old(self).wf(),
            other.wf(),
        ensures
            final(self).wf(),
            r is Ok,
            merge_post(*old(self), *other, *final(self), stitch),
    {
        let mut scratch: Vec<PendingTransition> = Vec::new();
        self.merge_record(id, other, stitch, &mut scratch)
    }
}


/// A map contributes `u` over the queried layers: some addressed layer is
/// tracked with that color `last`.
pub open spec fn map_color_contrib(
    map: RangedStates<Unit>,
    layers: LayerRange,
    u: TextureUsage,
) -> bool {
    exists|la: int|
        layers.spec_contains(la) && ((#[trigger] map.state_at(la)) matches Some(un) && un.last
            == u)
}

/// The depth/stencil map contributes `u` on one aspect over the queried
/// layers.
pub open spec fn map_ds_contrib(
    map: RangedStates<DepthStencilState>,
    layers: LayerRange,
    depth_aspect: bool,
    u: TextureUsage,
) -> bool {
    exists|la: int|
        layers.spec_contains(la) && ((#[trigger] map.state_at(la)) matches Some(ds) && (if depth_aspect {
            ds.depth.last
        } else {
            ds.stencil.last
        }) == u)
}

/// What one map's scan found over the queried layers.
pub enum ScanOutcome {
    NoContrib,
    Uniform(TextureUsage),
    Mixed,
}

/// Scans one color mip map over `layers`, reporting whether the addressed
/// tracked slices hold no usage, one uniform usage, or differing usages.
fn scan_color(map: &RangedStates<Unit>, layers: LayerRange) -> (r: ScanOutcome)
    requires
        map.wf(),
    ensures
        (r is NoContrib) ==> forall|u: TextureUsage| !map_color_contrib(*map, layers, u),
        r matches ScanOutcome::Uniform(u) ==> map_color_contrib(*map, layers, u) && forall|
            u2: TextureUsage,
        | map_color_contrib(*map, layers, u2) ==> u2 == u,
        (r is Mixed) ==> exists|u1: TextureUsage, u2: TextureUsage|
            map_color_contrib(*map, layers, u1) && map_color_contrib(*map, layers, u2) && u1 != u2,
{
    if layers.end <= layers.start {
        proof {
            assert forall|u: TextureUsage| !map_color_contrib(*map, layers, u) by {}
        }
        return ScanOutcome::NoContrib;
    }
    let n = map.len();
    let mut acc: Option<TextureUsage> = None;
    let mut i: usize = 0;
    while i < n
        invariant
            map.wf(),
            n == map.sv().len(),
            0 <= i <= n,
            layers.start < layers.end,
            acc is None ==> forall|k: int|
                0 <= k < i ==> !((#[trigger] map.sv()[k]).0.end > layers.start
                    && map.sv()[k].0.start < layers.end),
            acc matches Some(u) ==> (exists|k: int|
                0 <= k < i && ((#[trigger] map.sv()[k]).0.end > layers.start
                    && map.sv()[k].0.start < layers.end) && map.sv()[k].1.last == u) && forall|
                k: int,
            |
                0 <= k < i && ((#[trigger] map.sv()[k]).0.end > layers.start
                    && map.sv()[k].0.start < layers.end) ==> map.sv()[k].1.last == u,
        decreases n - i,
    {
        let (rg, un) = map.get(i);
        if rg.end > layers.start && rg.start < layers.end {
            match acc {
                None => {
                    acc = Some(un.last);
                },
                Some(u) => {
                    if !(u == un.last) {
                        proof {
                            let kp = choose|k: int|
                                0 <= k < i && ((#[trigger] map.sv()[k]).0.end > layers.start
                                    && map.sv()[k].0.start < layers.end) && map.sv()[k].1.last
                                    == u;
                            lemma_overlap_contrib(*map, layers, kp);
                            lemma_overlap_contrib(*map, layers, i as int);
                        }
                        return ScanOutcome::Mixed;
                    }
                },
            }
        }
        i += 1;
    }
    match acc {
        None => {
            proof {
                assert forall|u: TextureUsage| !map_color_contrib(*map, layers, u) by {
                    if map_color_contrib(*map, layers, u) {
                        lemma_contrib_overlap(*map, layers, u);
                        assert(false);
                    }
                }
            }
            ScanOutcome::NoContrib
        },
        Some(u) => {
            proof {
                let kp = choose|k: int|
                    0 <= k < n && ((#[trigger] map.sv()[k]).0.end > layers.start
                        && map.sv()[k].0.start < layers.end) && map.sv()[k].1.last == u;
                lemma_overlap_contrib(*map, layers, kp);
                assert forall|u2: TextureUsage|
                    map_color_contrib(*map, layers, u2) implies u2 == u by {
                    lemma_contrib_overlap(*map, layers, u2);
                }
            }
            ScanOutcome::Uniform(u)
        },
    }
}

/// An entry overlapping the queried layers yields a contribution.
proof fn lemma_overlap_contrib(map: RangedStates<Unit>, layers: LayerRange, k: int)
    requires
        map.wf(),
        0 <= k < map.sv().len(),
        map.sv()[k].0.end > layers.start,
        map.sv()[k].0.start < layers.end,
        layers.start < layers.end,
    ensures
        map_color_contrib(map, layers, map.sv()[k].1.last),
{
    let la: int = if map.sv()[k].0.start >= layers.start {
        map.sv()[k].0.start as int
    } else {
        layers.start as int
    };
    lemma_entry_state_at(map.sv(), k, la);
    assert(map.state_at(la) == Some(map.sv()[k].1));
    assert(layers.spec_contains(la));
}

/// A contribution comes from an overlapping entry.
proof fn lemma_contrib_overlap(map: RangedStates<Unit>, layers: LayerRange, u: TextureUsage)
    requires
        map.wf(),
        map_color_contrib(map, layers, u),
    ensures
        exists|k: int|
            0 <= k < map.sv().len() && ((#[trigger] map.sv()[k]).0.end > layers.start
                && map.sv()[k].0.start < layers.end) && map.sv()[k].1.last == u,
{
    let la = choose|la: int|
        layers.spec_contains(la) && ((#[trigger] map.state_at(la)) matches Some(un) && un.last
            == u);
    lemma_state_at_entry(map.sv(), la);
    let k = choose|k: int|
        0 <= k < map.sv().len() && (#[trigger] map.sv()[k]).0.spec_contains(la) && map.sv()[k].1
            == map.state_at(la)->Some_0;
    assert(map.sv()[k].0.end > layers.start && map.sv()[k].0.start < layers.end);
}

/// Like `lemma_overlap_contrib`, for one aspect of the depth/stencil map.
proof fn lemma_overlap_contrib_ds(
    map: RangedStates<DepthStencilState>,
    layers: LayerRange,
    depth_aspect: bool,
    k: int,
)
    requires
        map.wf(),
        0 <= k < map.sv().len(),
        map.sv()[k].0.end > layers.start,
        map.sv()[k].0.start < layers.end,
        layers.start < layers.end,
    ensures
        map_ds_contrib(
            map,
            layers,
            depth_aspect,
            if depth_aspect {
                map.sv()[k].1.depth.last
            } else {
                map.sv()[k].1.stencil.last
            },
        ),
{
    let la: int = if map.sv()[k].0.start >= layers.start {
        map.sv()[k].0.start as int
    } else {
        layers.start as int
    };
    lemma_entry_state_at(map.sv(), k, la);
    assert(map.state_at(la) == Some(map.sv()[k].1));
    assert(layers.spec_contains(la));
}

/// Like `lemma_contrib_overlap`, for one aspect of the depth/stencil map.
proof fn lemma_contrib_overlap_ds(
    map: RangedStates<DepthStencilState>,
    layers: LayerRange,
    depth_aspect: bool,
    u: TextureUsage,
)
    requires
        map.wf(),
        map_ds_contrib(map, layers, depth_aspect, u),
    ensures
        exists|k: int|
            0 <= k < map.sv().len() && ((#[trigger] map.sv()[k]).0.end > layers.start
                && map.sv()[k].0.start < layers.end) && (if depth_aspect {
                map.sv()[k].1.depth.last
            } else {
                map.sv()[k].1.stencil.last
            }) == u,
{
    let la = choose|la: int|
        layers.spec_contains(la) && ((#[trigger] map.state_at(la)) matches Some(ds) && (if depth_aspect {
            ds.depth.last
        } else {
            ds.stencil.last
        }) == u);
    lemma_state_at_entry(map.sv(), la);
    let k = choose|k: int|
        0 <= k < map.sv().len() && (#[trigger] map.sv()[k]).0.spec_contains(la) && map.sv()[k].1
            == map.state_at(la)->Some_0;
    assert(map.sv()[k].0.end > layers.start && map.sv()[k].0.start < layers.end);
}

/// Scans one aspect of the depth/stencil map over `layers`.
fn scan_ds(map: &RangedStates<DepthStencilState>, layers: LayerRange, depth_aspect: bool) -> (r:
    ScanOutcome)
    requires
        map.wf(),
    ensures
        (r is NoContrib) ==> forall|u: TextureUsage|
            !map_ds_contrib(*map, layers, depth_aspect, u),
        r matches ScanOutcome::Uniform(u) ==> map_ds_contrib(*map, layers, depth_aspect, u)
            && forall|u2: TextureUsage| map_ds_contrib(*map, layers, depth_aspect, u2) ==> u2 == u,
        (r is Mixed) ==> exists|u1: TextureUsage, u2: TextureUsage|
            map_ds_contrib(*map, layers, depth_aspect, u1) && map_ds_contrib(
                *map,
                layers,
                depth_aspect,
                u2,
            ) && u1 != u2,
{
    if layers.end <= layers.start {
        proof {
            assert forall|u: TextureUsage| !map_ds_contrib(*map, layers, depth_aspect, u) by {}
        }
        return ScanOutcome::NoContrib;
    }
    let n = map.len();
    let mut acc: Option<TextureUsage> = None;
    let mut i: usize = 0;
    while i < n
        invariant
            map.wf(),
            n == map.sv().len(),
            0 <= i <= n,
            layers.start < layers.end,
            acc is None ==> forall|k: int|
                0 <= k < i ==> !((#[trigger] map.sv()[k]).0.end > layers.start
                    && map.sv()[k].0.start < layers.end),
            acc matches Some(u) ==> (exists|k: int|
                0 <= k < i && ((#[trigger] map.sv()[k]).0.end > layers.start
                    && map.sv()[k].0.start < layers.end) && (if depth_aspect {
                    map.sv()[k].1.depth.last
                } else {
                    map.sv()[k].1.stencil.last
                }) == u) && forall|k: int|
                0 <= k < i && ((#[trigger] map.sv()[k]).0.end > layers.start
                    && map.sv()[k].0.start < layers.end) ==> (if depth_aspect {
                    map.sv()[k].1.depth.last
                } else {
                    map.sv()[k].1.stencil.last
                }) == u,
        decreases n - i,
    {
        let (rg, ds) = map.get(i);
        if rg.end > layers.start && rg.start < layers.end {
            let v = if depth_aspect {
                ds.depth.last
            } else {
                ds.stencil.last
            };
            match acc {
                None => {
                    acc = Some(v);
                },
                Some(u) => {
                    if !(u == v) {
                        proof {
                            let kp = choose|k: int|
                                0 <= k < i && ((#[trigger] map.sv()[k]).0.end > layers.start
                                    && map.sv()[k].0.start < layers.end) && (if depth_aspect {
                                    map.sv()[k].1.depth.last
                                } else {
                                    map.sv()[k].1.stencil.last
                                }) == u;
                            lemma_overlap_contrib_ds(*map, layers, depth_aspect, kp);
                            lemma_overlap_contrib_ds(*map, layers, depth_aspect, i as int);
                        }
                        return ScanOutcome::Mixed;
                    }
                },
            }
        }
        i += 1;
    }
    match acc {
        None => {
            proof {
                assert forall|u: TextureUsage|
                    !map_ds_contrib(*map, layers, depth_aspect, u) by {
                    if map_ds_contrib(*map, layers, depth_aspect, u) {
                        lemma_contrib_overlap_ds(*map, layers, depth_aspect, u);
                        assert(false);
                    }
                }
            }
            ScanOutcome::NoContrib
        },
        Some(u) => {
            proof {
                let kp = choose|k: int|
                    0 <= k < n && ((#[trigger] map.sv()[k]).0.end > layers.start
                        && map.sv()[k].0.start < layers.end) && (if depth_aspect {
                        map.sv()[k].1.depth.last
                    } else {
                        map.sv()[k].1.stencil.last
                    }) == u;
                lemma_overlap_contrib_ds(*map, layers, depth_aspect, kp);
                assert forall|u2: TextureUsage|
                    map_ds_contrib(*map, layers, depth_aspect, u2) implies u2 == u by {
                    lemma_contrib_overlap_ds(*map, layers, depth_aspect, u2);
                }
            }
            ScanOutcome::Uniform(u)
        },
    }
}


/// The color contributions of a selector decompose over the mip maps the
/// tracker actually holds.
proof fn lemma_color_contrib_split(
    t: TextureStates,
    sel: SubresourceRange,
    u: TextureUsage,
    ls: int,
    le: int,
)
    requires
        ls == (if (sel.levels.start as int) < t.color_len() {
            sel.levels.start as int
        } else {
            t.color_len()
        }),
        le == (if (sel.levels.end as int) < t.color_len() {
            sel.levels.end as int
        } else {
            t.color_len()
        }),
    ensures
        color_contrib(t, sel, u) <==> (sel.aspects.color && exists|k: int|
            ls <= k < le && sel.levels.spec_contains(k) && map_color_contrib(
                #[trigger] t.color_mips@[k],
                sel.layers,
                u,
            )),
{
    if color_contrib(t, sel, u) {
        let (lv, la) = choose|lv: int, la: int|
            sel.sel_color(lv, la) && ((#[trigger] t.color_unit(lv, la)) matches Some(un)
                && un.last == u);
        assert(0 <= lv < t.color_len());
        assert(t.color_mips@[lv].state_at(la) matches Some(un) && un.last == u);
        assert(ls <= lv < le && sel.levels.spec_contains(lv) && map_color_contrib(
            t.color_mips@[lv],
            sel.layers,
            u,
        ));
    }
    if sel.aspects.color && exists|k: int|
        ls <= k < le && sel.levels.spec_contains(k) && map_color_contrib(
            #[trigger] t.color_mips@[k],
            sel.layers,
            u,
        ) {
        let k = choose|k: int|
            ls <= k < le && sel.levels.spec_contains(k) && map_color_contrib(
                #[trigger] t.color_mips@[k],
                sel.layers,
                u,
            );
        let la = choose|la: int|
            sel.layers.spec_contains(la) && ((#[trigger] t.color_mips@[k].state_at(
                la,
            )) matches Some(un) && un.last == u);
        assert(t.color_unit(k, la) matches Some(un) && un.last == u);
        assert(sel.sel_color(k, la));
    }
}

/// The depth (or stencil) contributions of a selector are those of the one
/// depth/stencil map.
proof fn lemma_ds_contrib_split(
    t: TextureStates,
    sel: SubresourceRange,
    u: TextureUsage,
    depth_aspect: bool,
)
    ensures
        depth_aspect ==> (depth_contrib(t, sel, u) <==> (sel.aspects.depth && map_ds_contrib(
            t.depth_stencil,
            sel.layers,
            true,
            u,
        ))),
        !depth_aspect ==> (stencil_contrib(t, sel, u) <==> (sel.aspects.stencil && map_ds_contrib(
            t.depth_stencil,
            sel.layers,
            false,
            u,
        ))),
{
    if depth_aspect {
        if depth_contrib(t, sel, u) {
            let la = choose|la: int|
                sel.layers.spec_contains(la) && ((#[trigger] t.ds_unit(la)) matches Some(ds)
                    && ds.depth.last == u);
            assert(t.depth_stencil.state_at(la) matches Some(ds) && ds.depth.last == u);
        }
        if sel.aspects.depth && map_ds_contrib(t.depth_stencil, sel.layers, true, u) {
            let la = choose|la: int|
                sel.layers.spec_contains(la) && ((#[trigger] t.depth_stencil.state_at(
                    la,
                )) matches Some(ds) && ds.depth.last == u);
            assert(t.ds_unit(la) matches Some(ds) && ds.depth.last == u);
        }
    } else {
        if stencil_contrib(t, sel, u) {
            let la = choose|la: int|
                sel.layers.spec_contains(la) && ((#[trigger] t.ds_unit(la)) matches Some(ds)
                    && ds.stencil.last == u);
            assert(t.depth_stencil.state_at(la) matches Some(ds) && ds.stencil.last == u);
        }
        if sel.aspects.stencil && map_ds_contrib(t.depth_stencil, sel.layers, false, u) {
            let la = choose|la: int|
                sel.layers.spec_contains(la) && ((#[trigger] t.depth_stencil.state_at(
                    la,
                )) matches Some(ds) && ds.stencil.last == u);
            assert(t.ds_unit(la) matches Some(ds) && ds.stencil.last == u);
        }
    }
}

/// Two differing contributions mean the query is indeterminate.
proof fn lemma_two_contribs_none(
    t: TextureStates,
    sel: SubresourceRange,
    u1: TextureUsage,
    u2: TextureUsage,
)
    requires
        is_contrib(t, sel, u1),
        is_contrib(t, sel, u2),
        u1 != u2,
    ensures
        query_spec(t, sel) == None::<TextureUsage>,
{
    if exists|w: TextureUsage| uniform_contrib(t, sel, w) {
        let w = choose|w: TextureUsage| uniform_contrib(t, sel, w);
        assert(u1 == w && u2 == w);
        assert(false);
    }
}

/// A single uniform contribution is what the query reports.
proof fn lemma_uniform_some(t: TextureStates, sel: SubresourceRange, u: TextureUsage)
    requires
        is_contrib(t, sel, u),
        forall|u2: TextureUsage| #[trigger] is_contrib(t, sel, u2) ==> u2 == u,
    ensures
        query_spec(t, sel) == Some(u),
{
    assert(uniform_contrib(t, sel, u));
    let w = choose|w: TextureUsage| uniform_contrib(t, sel, w);
    assert(is_contrib(t, sel, w));
    assert(w == u);
}

/// With no contribution at all the query is indeterminate.
proof fn lemma_no_contrib_none(t: TextureStates, sel: SubresourceRange)
    requires
        forall|u: TextureUsage| !#[trigger] is_contrib(t, sel, u),
    ensures
        query_spec(t, sel) == None::<TextureUsage>,
{
    if exists|w: TextureUsage| uniform_contrib(t, sel, w) {
        let w = choose|w: TextureUsage| uniform_contrib(t, sel, w);
        assert(is_contrib(t, sel, w));
        assert(false);
    }
}

impl TextureStates {
    /// The single usage every subresource addressed by `selector` currently
    /// holds, or `None` when the selector spans untracked-only or differing
    /// usages (indeterminate: the caller must be conservative). Read-only.
    #[verifier::rlimit(100)]
    pub fn query(&self, selector: SubresourceRange) -> (r: Option<TextureUsage>)
        requires
            self.wf(),
        ensures
            r == query_spec(*self, selector),
    {
        let ghost t = *self;
        let mut acc: Option<TextureUsage> = None;
        let num = self.color_mips.len();
        let ghost ls: int = if (selector.levels.start as int) < t.color_len() {
            selector.levels.start as int
        } else {
            t.color_len()
        };
        let ghost le: int = if (selector.levels.end as int) < t.color_len() {
            selector.levels.end as int
        } else {
            t.color_len()
        };
        if selector.aspects.color {
            let lv_start = if (selector.levels.start as usize) < num {
                selector.levels.start as usize
            } else {
                num
            };
            let lv_end = if (selector.levels.end as usize) < num {
                selector.levels.end as usize
            } else {
                num
            };
            let mut lv: usize = lv_start;
            if lv > lv_end {
                lv = lv_end;
            }
            while lv < lv_end
                invariant
                    t == *self,
                    self.wf(),
                    selector.aspects.color,
                    num == t.color_len(),
                    ls == (if (selector.levels.start as int) < t.color_len() {
                        selector.levels.start as int
                    } else {
                        t.color_len()
                    }),
                    le == (if (selector.levels.end as int) < t.color_len() {
                        selector.levels.end as int
                    } else {
                        t.color_len()
                    }),
                    lv_start == ls,
                    lv_end == le,
                    ls <= lv || lv == lv_end,
                    lv <= lv_end,
                    acc is None ==> forall|k: int, u: TextureUsage|
                        ls <= k < lv ==> !#[trigger] map_color_contrib(
                            t.color_mips@[k],
                            selector.layers,
                            u,
                        ),
                    acc matches Some(u) ==> (exists|k: int|
                        ls <= k < lv && map_color_contrib(
                            #[trigger] t.color_mips@[k],
                            selector.layers,
                            u,
                        )) && forall|k: int, u2: TextureUsage|
                        ls <= k < lv && #[trigger] map_color_contrib(
                            t.color_mips@[k],
                            selector.layers,
                            u2,
                        ) ==> u2 == u,
                decreases lv_end - lv,
            {
                let outcome = scan_color(&self.color_mips[lv], selector.layers);
                match outcome {
                    ScanOutcome::NoContrib => {},
                    ScanOutcome::Uniform(v) => {
                        match acc {
                            None => {
                                acc = Some(v);
                            },
                            Some(u) => {
                                if !(u == v) {
                                    proof {
                                        let kp = choose|k: int|
                                            ls <= k < lv && map_color_contrib(
                                                #[trigger] t.color_mips@[k],
                                                selector.layers,
                                                u,
                                            );
                                        lemma_color_contrib_split(t, selector, u, ls, le);
                                        lemma_color_contrib_split(t, selector, v, ls, le);
                                        assert(sel_levels_ok(selector, kp, ls, le));
                                        assert(sel_levels_ok(selector, lv as int, ls, le));
                                        assert(is_contrib(t, selector, u));
                                        assert(is_contrib(t, selector, v));
                                        lemma_two_contribs_none(t, selector, u, v);
                                    }
                                    return None;
                                }
                            },
                        }
                    },
                    ScanOutcome::Mixed => {
                        proof {
                            let (u1, u2) = choose|u1: TextureUsage, u2: TextureUsage|
                                map_color_contrib(t.color_mips@[lv as int], selector.layers, u1)
                                    && map_color_contrib(
                                    t.color_mips@[lv as int],
                                    selector.layers,
                                    u2,
                                ) && u1 != u2;
                            lemma_color_contrib_split(t, selector, u1, ls, le);
                            lemma_color_contrib_split(t, selector, u2, ls, le);
                            assert(sel_levels_ok(selector, lv as int, ls, le));
                            assert(is_contrib(t, selector, u1));
                            assert(is_contrib(t, selector, u2));
                            lemma_two_contribs_none(t, selector, u1, u2);
                        }
                        return None;
                    },
                }
                lv += 1;
            }
            proof {
                if acc is Some {
                    lemma_acc_color(t, selector, acc->Some_0, ls, le);
                }
            }
        }
        if selector.aspects.depth {
            let outcome = scan_ds(&self.depth_stencil, selector.layers, true);
            match outcome {
                ScanOutcome::NoContrib => {},
                ScanOutcome::Uniform(v) => {
                    match acc {
                        None => {
                            acc = Some(v);
                            proof {
                                lemma_ds_contrib_split(t, selector, v, true);
                                assert(is_contrib(t, selector, v));
                            }
                        },
                        Some(u) => {
                            if !(u == v) {
                                proof {
                                    lemma_acc_color(t, selector, u, ls, le);
                                    lemma_ds_contrib_split(t, selector, v, true);
                                    lemma_two_contribs_none(t, selector, u, v);
                                }
                                return None;
                            }
                        },
                    }
                },
                ScanOutcome::Mixed => {
                    proof {
                        let (u1, u2) = choose|u1: TextureUsage, u2: TextureUsage|
                            map_ds_contrib(t.depth_stencil, selector.layers, true, u1)
                                && map_ds_contrib(t.depth_stencil, selector.layers, true, u2) && u1
                                != u2;
                        lemma_ds_contrib_split(t, selector, u1, true);
                        lemma_ds_contrib_split(t, selector, u2, true);
                        lemma_two_contribs_none(t, selector, u1, u2);
                    }
                    return None;
                },
            }
        }
        if selector.aspects.stencil {
            let outcome = scan_ds(&self.depth_stencil, selector.layers, false);
            match outcome {
                ScanOutcome::NoContrib => {},
                ScanOutcome::Uniform(v) => {
                    match acc {
                        None => {
                            acc = Some(v);
                            proof {
                                lemma_ds_contrib_split(t, selector, v, false);
                                assert(is_contrib(t, selector, v));
                            }
                        },
                        Some(u) => {
                            if !(u == v) {
                                proof {
                                    if selector.aspects.depth && map_ds_contrib(
                                        t.depth_stencil,
                                        selector.layers,
                                        true,
                                        u,
                                    ) {
                                        lemma_ds_contrib_split(t, selector, u, true);
                                    } else {
                                        lemma_acc_color(t, selector, u, ls, le);
                                    }
                                    lemma_ds_contrib_split(t, selector, u, false);
                                    lemma_ds_contrib_split(t, selector, v, false);
                                    lemma_two_contribs_none(t, selector, u, v);
                                }
                                return None;
                            }
                        },
                    }
                },
                ScanOutcome::Mixed => {
                    proof {
                        let (u1, u2) = choose|u1: TextureUsage, u2: TextureUsage|
                            map_ds_contrib(t.depth_stencil, selector.layers, false, u1)
                                && map_ds_contrib(t.depth_stencil, selector.layers, false, u2)
                                && u1 != u2;
                        lemma_ds_contrib_split(t, selector, u1, false);
                        lemma_ds_contrib_split(t, selector, u2, false);
                        lemma_two_contribs_none(t, selector, u1, u2);
                    }
                    return None;
                },
            }
        }
        proof {
            match acc {
                None => {
                    assert forall|u: TextureUsage| !#[trigger] is_contrib(t, selector, u) by {
                        lemma_color_contrib_split(t, selector, u, ls, le);
                        lemma_ds_contrib_split(t, selector, u, true);
                        lemma_ds_contrib_split(t, selector, u, false);
                    }
                    lemma_no_contrib_none(t, selector);
                },
                Some(u) => {
                    assert forall|u2: TextureUsage|
                        #[trigger] is_contrib(t, selector, u2) implies u2 == u by {
                        lemma_color_contrib_split(t, selector, u2, ls, le);
                        lemma_ds_contrib_split(t, selector, u2, true);
                        lemma_ds_contrib_split(t, selector, u2, false);
                    }
                    assert(is_contrib(t, selector, u));
                    lemma_uniform_some(t, selector, u);
                },
            }
        }
        acc
    }
}

/// A processed color level index lies in the selector's level range.
pub open spec fn sel_levels_ok(sel: SubresourceRange, k: int, ls: int, le: int) -> bool {
    ls <= k < le ==> sel.levels.spec_contains(k)
}

/// Lifts a color accumulator fact to a whole-selector contribution.
proof fn lemma_acc_color(
    t: TextureStates,
    sel: SubresourceRange,
    u: TextureUsage,
    ls: int,
    le: int,
)
    requires
        sel.aspects.color,
        ls == (if (sel.levels.start as int) < t.color_len() {
            sel.levels.start as int
        } else {
            t.color_len()
        }),
        le == (if (sel.levels.end as int) < t.color_len() {
            sel.levels.end as int
        } else {
            t.color_len()
        }),
        exists|k: int|
            ls <= k < le && map_color_contrib(#[trigger] t.color_mips@[k], sel.layers, u),
    ensures
        is_contrib(t, sel, u),
{
    let k = choose|k: int|
        ls <= k < le && map_color_contrib(#[trigger] t.color_mips@[k], sel.layers, u);
    assert(sel.levels.spec_contains(k));
    lemma_color_contrib_split(t, sel, u, ls, le);
}


/// Query consistency: when `change` moves a selector to `u` and nothing it
/// addressed held a different prior usage (untracked, empty, or already
/// `u`), a query of the same selector reports exactly `u`.
pub proof fn law_query_consistency(
    t0: TextureStates,
    t1: TextureStates,
    sel: SubresourceRange,
    u: TextureUsage,
)
    requires
        change_check_post(t0, t1, sel, u),
        !sel.levels.spec_is_empty(),
        !sel.layers.spec_is_empty(),
        sel.aspects.color || sel.aspects.depth || sel.aspects.stencil,
        forall|lv: int, la: int|
            sel.sel_color(lv, la) ==> ({
                let o = unit_last(#[trigger] t0.color_unit(lv, la));
                o is None || o == Some(TextureUsage::spec_empty()) || o == Some(u)
            }),
        sel.aspects.depth ==> forall|la: int|
            sel.layers.spec_contains(la) ==> (match #[trigger] t0.ds_unit(la) {
                Some(ds) => ds.depth.last == TextureUsage::spec_empty() || ds.depth.last == u,
                None => true,
            }),
        sel.aspects.stencil ==> forall|la: int|
            sel.layers.spec_contains(la) ==> (match #[trigger] t0.ds_unit(la) {
                Some(ds) => ds.stencil.last == TextureUsage::spec_empty() || ds.stencil.last == u,
                None => true,
            }),
    ensures
        query_spec(t1, sel) == Some(u),
{
    crate::usage::lemma_union_self(u.bits);
    crate::usage::lemma_union_empty(u.bits);
    assert forall|u2: TextureUsage| #[trigger] is_contrib(t1, sel, u2) implies u2 == u by {
        if color_contrib(t1, sel, u2) {
            let (lv, la) = choose|lv: int, la: int|
                sel.sel_color(lv, la) && ((#[trigger] t1.color_unit(lv, la)) matches Some(un)
                    && un.last == u2);
            assert(t1.color_unit(lv, la) == Some(upd_unit_check(t0.color_unit(lv, la), u)));
        }
        if depth_contrib(t1, sel, u2) {
            let la = choose|la: int|
                sel.layers.spec_contains(la) && ((#[trigger] t1.ds_unit(la)) matches Some(ds)
                    && ds.depth.last == u2);
            assert(sel.ds_active());
            assert(t1.ds_unit(la) == Some(
                upd_ds_check(t0.ds_unit(la), u, sel.aspects.depth, sel.aspects.stencil),
            ));
        }
        if stencil_contrib(t1, sel, u2) {
            let la = choose|la: int|
                sel.layers.spec_contains(la) && ((#[trigger] t1.ds_unit(la)) matches Some(ds)
                    && ds.stencil.last == u2);
            assert(sel.ds_active());
            assert(t1.ds_unit(la) == Some(
                upd_ds_check(t0.ds_unit(la), u, sel.aspects.depth, sel.aspects.stencil),
            ));
        }
    }
    let lv0: int = sel.levels.start as int;
    let la0: int = sel.layers.start as int;
    if sel.aspects.color {
        assert(sel.sel_color(lv0, la0));
        assert(t1.color_unit(lv0, la0) == Some(upd_unit_check(t0.color_unit(lv0, la0), u)));
        assert(is_contrib(t1, sel, upd_unit_check(t0.color_unit(lv0, la0), u).last));
    } else if sel.aspects.depth {
        assert(sel.ds_active());
        assert(t1.ds_unit(la0) == Some(
            upd_ds_check(t0.ds_unit(la0), u, sel.aspects.depth, sel.aspects.stencil),
        ));
        assert(is_contrib(
            t1,
            sel,
            upd_ds_check(t0.ds_unit(la0), u, sel.aspects.depth, sel.aspects.stencil).depth.last,
        ));
    } else {
        assert(sel.ds_active());
        assert(t1.ds_unit(la0) == Some(
            upd_ds_check(t0.ds_unit(la0), u, sel.aspects.depth, sel.aspects.stencil),
        ));
        assert(is_contrib(
            t1,
            sel,
            upd_ds_check(t0.ds_unit(la0), u, sel.aspects.depth, sel.aspects.stencil).stencil.last,
        ));
    }
    lemma_uniform_some(t1, sel, u);
}

/// Compatible accumulation: starting from untracked state, a change to `a`
/// and then one to `b` (both read-class, so never conflicting) both succeed
/// in implicit mode, and the query then reports the union of the two.
pub proof fn law_compatible_accumulation(
    t0: TextureStates,
    t1: TextureStates,
    t2: TextureStates,
    sel: SubresourceRange,
    a: TextureUsage,
    b: TextureUsage,
)
    requires
        !sel.levels.spec_is_empty(),
        !sel.layers.spec_is_empty(),
        sel.aspects.color || sel.aspects.depth || sel.aspects.stencil,
        forall|lv: int, la: int|
            sel.sel_color(lv, la) ==> #[trigger] t0.color_unit(lv, la) is None,
        forall|la: int| sel.layers.spec_contains(la) ==> #[trigger] t0.ds_unit(la) is None,
        (a.bits | b.bits) & crate::usage::WRITE_ALL == 0,
        change_check_post(t0, t1, sel, a),
        change_check_post(t1, t2, sel, b),
    ensures
        change_ok(t0, sel, a),
        change_ok(t1, sel, b),
        query_spec(t2, sel) == Some(a.spec_union(b)),
{
    crate::usage::lemma_union_write_free(a.bits, b.bits, crate::usage::WRITE_ALL);
    assert forall|lv: int, la: int|
        sel.sel_color(lv, la) implies !opt_conflict(
        unit_last(#[trigger] t0.color_unit(lv, la)),
        a,
    ) by {}
    assert(change_ok(t0, sel, a));
    assert forall|lv: int, la: int|
        sel.sel_color(lv, la) implies !opt_conflict(
        unit_last(#[trigger] t1.color_unit(lv, la)),
        b,
    ) by {
        assert(t1.color_unit(lv, la) == Some(upd_unit_check(t0.color_unit(lv, la), a)));
    }
    assert(change_ok(t1, sel, b));
    law_query_consistency_union(t0, t1, t2, sel, a, b);
}

/// Helper for the accumulation law: after the two compatible changes every
/// addressed slice holds exactly `a | b`, and the query reports it.
proof fn law_query_consistency_union(
    t0: TextureStates,
    t1: TextureStates,
    t2: TextureStates,
    sel: SubresourceRange,
    a: TextureUsage,
    b: TextureUsage,
)
    requires
        !sel.levels.spec_is_empty(),
        !sel.layers.spec_is_empty(),
        sel.aspects.color || sel.aspects.depth || sel.aspects.stencil,
        forall|lv: int, la: int|
            sel.sel_color(lv, la) ==> #[trigger] t0.color_unit(lv, la) is None,
        forall|la: int| sel.layers.spec_contains(la) ==> #[trigger] t0.ds_unit(la) is None,
        change_check_post(t0, t1, sel, a),
        change_check_post(t1, t2, sel, b),
    ensures
        query_spec(t2, sel) == Some(a.spec_union(b)),
{
    let u = a.spec_union(b);
    assert forall|u2: TextureUsage| #[trigger] is_contrib(t2, sel, u2) implies u2 == u by {
        if color_contrib(t2, sel, u2) {
            let (lv, la) = choose|lv: int, la: int|
                sel.sel_color(lv, la) && ((#[trigger] t2.color_unit(lv, la)) matches Some(un)
                    && un.last == u2);
            assert(t1.color_unit(lv, la) == Some(upd_unit_check(t0.color_unit(lv, la), a)));
            assert(t2.color_unit(lv, la) == Some(upd_unit_check(t1.color_unit(lv, la), b)));
        }
        if depth_contrib(t2, sel, u2) || stencil_contrib(t2, sel, u2) {
            let la = choose|la: int|
                sel.layers.spec_contains(la) && (#[trigger] t2.ds_unit(la)) is Some;
            assert(sel.ds_active());
            assert(t1.ds_unit(la) == Some(
                upd_ds_check(t0.ds_unit(la), a, sel.aspects.depth, sel.aspects.stencil),
            ));
            assert(t2.ds_unit(la) == Some(
                upd_ds_check(t1.ds_unit(la), b, sel.aspects.depth, sel.aspects.stencil),
            ));
            if depth_contrib(t2, sel, u2) {
                let la2 = choose|la2: int|
                    sel.layers.spec_contains(la2) && ((#[trigger] t2.ds_unit(la2)) matches Some(ds)
                        && ds.depth.last == u2);
                assert(t1.ds_unit(la2) == Some(
                    upd_ds_check(t0.ds_unit(la2), a, sel.aspects.depth, sel.aspects.stencil),
                ));
                assert(t2.ds_unit(la2) == Some(
                    upd_ds_check(t1.ds_unit(la2), b, sel.aspects.depth, sel.aspects.stencil),
                ));
            }
            if stencil_contrib(t2, sel, u2) {
                let la2 = choose|la2: int|
                    sel.layers.spec_contains(la2) && ((#[trigger] t2.ds_unit(la2)) matches Some(ds)
                        && ds.stencil.last == u2);
                assert(t1.ds_unit(la2) == Some(
                    upd_ds_check(t0.ds_unit(la2), a, sel.aspects.depth, sel.aspects.stencil),
                ));
                assert(t2.ds_unit(la2) == Some(
                    upd_ds_check(t1.ds_unit(la2), b, sel.aspects.depth, sel.aspects.stencil),
                ));
            }
        }
    }
    let lv0: int = sel.levels.start as int;
    let la0: int = sel.layers.start as int;
    if sel.aspects.color {
        assert(sel.sel_color(lv0, la0));
        assert(t1.color_unit(lv0, la0) == Some(upd_unit_check(t0.color_unit(lv0, la0), a)));
        assert(t2.color_unit(lv0, la0) == Some(upd_unit_check(t1.color_unit(lv0, la0), b)));
        assert(is_contrib(t2, sel, u));
    } else {
        assert(sel.ds_active());
        assert(t1.ds_unit(la0) == Some(
            upd_ds_check(t0.ds_unit(la0), a, sel.aspects.depth, sel.aspects.stencil),
        ));
        assert(t2.ds_unit(la0) == Some(
            upd_ds_check(t1.ds_unit(la0), b, sel.aspects.depth, sel.aspects.stencil),
        ));
        if sel.aspects.depth {
            assert(is_contrib(t2, sel, u));
        } else {
            assert(is_contrib(t2, sel, u));
        }
    }
    lemma_uniform_some(t2, sel, u);
}


/// Query indeterminacy: after an explicit-mode change of a color selector
/// to `a` and then of a strict sub-range of its layers to `b != a`, the
/// wide selector queries as indeterminate while the narrow one reports `b`.
/// `wit` names a layer the wide selector addresses but the narrow one does
/// not.
pub proof fn law_query_indeterminacy(
    t0: TextureStates,
    t1: TextureStates,
    t2: TextureStates,
    sel1: SubresourceRange,
    sel2: SubresourceRange,
    a: TextureUsage,
    b: TextureUsage,
    wit: int,
)
    requires
        sel1.aspects == Aspects::spec_color_only(),
        sel2.aspects == Aspects::spec_color_only(),
        sel2.levels == sel1.levels,
        !sel1.levels.spec_is_empty(),
        !sel1.layers.spec_is_empty(),
        !sel2.layers.spec_is_empty(),
        sel1.layers.start <= sel2.layers.start,
        sel2.layers.end <= sel1.layers.end,
        sel1.layers.spec_contains(wit),
        !sel2.layers.spec_contains(wit),
        a != b,
        change_record_post(t0, t1, sel1, a),
        change_record_post(t1, t2, sel2, b),
    ensures
        query_spec(t2, sel1) == None::<TextureUsage>,
        query_spec(t2, sel2) == Some(b),
{
    let lv0: int = sel1.levels.start as int;
    // the witness layer still holds `a`
    assert(sel1.sel_color(lv0, wit));
    assert(t1.color_unit(lv0, wit) == Some(upd_unit_record(t0.color_unit(lv0, wit), a)));
    assert(!sel2.sel_color(lv0, wit));
    assert(t2.color_unit(lv0, wit) == t1.color_unit(lv0, wit));
    assert(is_contrib(t2, sel1, a));
    // the narrow range holds `b`
    let la0: int = sel2.layers.start as int;
    assert(sel2.sel_color(lv0, la0));
    assert(t2.color_unit(lv0, la0) == Some(upd_unit_record(t1.color_unit(lv0, la0), b)));
    assert(sel1.sel_color(lv0, la0));
    assert(is_contrib(t2, sel1, b));
    lemma_two_contribs_none(t2, sel1, a, b);
    assert forall|u2: TextureUsage| #[trigger] is_contrib(t2, sel2, u2) implies u2 == b by {
        if color_contrib(t2, sel2, u2) {
            let (lv, la) = choose|lv: int, la: int|
                sel2.sel_color(lv, la) && ((#[trigger] t2.color_unit(lv, la)) matches Some(un)
                    && un.last == u2);
            assert(t2.color_unit(lv, la) == Some(upd_unit_record(t1.color_unit(lv, la), b)));
        }
    }
    lemma_uniform_some(t2, sel2, b);
}

/// Merge no-op: merging a tracker with itself, under either stitch policy,
/// emits no transition when `init == last` holds throughout its recorded
/// state. The out-sequence premises are what `merge_record` ensures.
pub proof fn law_merge_self_noop(
    t: TextureStates,
    stitch: Stitch,
    id: TextureId,
    out0: Seq<PendingTransition>,
    out1: Seq<PendingTransition>,
)
    requires
        forall|lv: int, la: int|
            (#[trigger] t.color_unit(lv, la)) matches Some(un) ==> un.init == un.last,
        forall|la: int|
            (#[trigger] t.ds_unit(la)) matches Some(ds) ==> ds.depth.init == ds.depth.last
                && ds.stencil.init == ds.stencil.last,
        out1.len() >= out0.len(),
        forall|j: int| 0 <= j < out0.len() ==> #[trigger] out1[j] == out0[j],
        forall|j: int|
            out0.len() <= j < out1.len() ==> mt_merge_valid(#[trigger] out1[j], t, t, stitch, id),
    ensures
        out1 == out0,
{
    if out1.len() > out0.len() {
        let j = out0.len() as int;
        let p = out1[j];
        assert(mt_merge_valid(p, t, t, stitch, id));
        let la: int = p.selector.layers.start as int;
        assert(p.selector.layers.spec_contains(la));
        if p.selector.aspects == Aspects::spec_color_only() {
            let lv: int = p.selector.levels.start as int;
            let oa = t.color_unit(lv, la);
            assert(oa is Some);
            let un = oa->Some_0;
            assert(un.init == un.last);
            assert(or_default(oa, Unit::spec_zero()).last == p.usage.start);
            assert(or_default(oa, Unit::spec_zero()).spec_select(stitch) == p.usage.end);
            assert(false);
        } else if p.selector.aspects == Aspects::spec_depth_only() {
            let oa = t.ds_unit(la);
            assert(oa is Some);
            let ds = oa->Some_0;
            assert(ds.depth.init == ds.depth.last);
            assert(false);
        } else {
            let oa = t.ds_unit(la);
            assert(oa is Some);
            let ds = oa->Some_0;
            assert(ds.stencil.init == ds.stencil.last);
            assert(false);
        }
    }
    assert(out1.len() == out0.len());
    assert(out1 =~= out0);
}

/// Depth/stencil independence: a `change` that addresses only the depth
/// aspect never alters the stencil history of any tracked layer, in either
/// mode.
pub proof fn law_depth_stencil_independence(
    t0: TextureStates,
    t1: TextureStates,
    sel: SubresourceRange,
    u: TextureUsage,
)
    requires
        sel.aspects.depth,
        !sel.aspects.stencil,
        change_check_post(t0, t1, sel, u) || change_record_post(t0, t1, sel, u),
    ensures
        forall|la: int|
            match #[trigger] t0.ds_unit(la) {
                Some(ds) => (match t1.ds_unit(la) {
                    Some(ds2) => ds2.stencil == ds.stencil,
                    None => false,
                }),
                None => true,
            },
{
    assert forall|la: int|
        (#[trigger] t0.ds_unit(la)) is Some implies (match t0.ds_unit(la) {
        Some(ds) => (match t1.ds_unit(la) {
            Some(ds2) => ds2.stencil == ds.stencil,
            None => false,
        }),
        None => true,
    }) by {
        if sel.ds_active() && sel.layers.spec_contains(la) {
            if change_check_post(t0, t1, sel, u) {
                assert(t1.ds_unit(la) == Some(upd_ds_check(t0.ds_unit(la), u, true, false)));
            } else {
                assert(t1.ds_unit(la) == Some(upd_ds_record(t0.ds_unit(la), u, true, false)));
            }
        } else {
            assert(t1.ds_unit(la) == t0.ds_unit(la));
        }
    }
}

/// Merge bridging: when this tracker ends uniformly at `a` over a layer
/// range at mip level zero and the other tracker's recorded history starts
/// (its `init`) at `b != a` over the same range, with nothing else tracked
/// on either side, merging under `Stitch::Init` emits only transitions of
/// usage `a .. b` lying inside that range, emits at least one, and leaves
/// this tracker's `last` at `b` over the whole range. The out-sequence
/// premises are what `merge_record` ensures.
pub proof fn law_merge_bridging(
    t1: TextureStates,
    t2: TextureStates,
    t1m: TextureStates,
    s: LayerRange,
    a: TextureUsage,
    b: TextureUsage,
    id: TextureId,
    out0: Seq<PendingTransition>,
    out1: Seq<PendingTransition>,
)
    requires
        a != b,
        s.start < s.end,
        t1.color_len() == 1,
        t2.color_len() == 1,
        forall|la: int|
            s.spec_contains(la) ==> ((#[trigger] t1.color_unit(0, la)) matches Some(un) && un.last
                == a),
        forall|la: int|
            s.spec_contains(la) ==> ((#[trigger] t2.color_unit(0, la)) matches Some(un) && un.init
                == b),
        forall|la: int| !s.spec_contains(la) ==> (#[trigger] t1.color_unit(0, la)) is None,
        forall|la: int| !s.spec_contains(la) ==> (#[trigger] t2.color_unit(0, la)) is None,
        forall|la: int| (#[trigger] t1.ds_unit(la)) is None,
        forall|la: int| (#[trigger] t2.ds_unit(la)) is None,
        merge_post(t1, t2, t1m, Stitch::Init),
        out1.len() >= out0.len(),
        forall|j: int| 0 <= j < out0.len() ==> #[trigger] out1[j] == out0[j],
        forall|j: int|
            out0.len() <= j < out1.len() ==> mt_merge_valid(
                #[trigger] out1[j],
                t1,
                t2,
                Stitch::Init,
                id,
            ),
        forall|lv: int, la: int|
            0 <= lv < t2.color_len() && bridge_color(
                #[trigger] t1.color_unit(lv, la),
                t2.color_unit(lv, la),
                Stitch::Init,
            ) ==> exists|j: int|
                out0.len() <= j < out1.len() && (#[trigger] out1[j]).selector.aspects
                    == Aspects::spec_color_only() && out1[j].selector.levels.start as int == lv
                    && out1[j].selector.layers.spec_contains(la),
    ensures
        out1.len() > out0.len(),
        forall|j: int|
            out0.len() <= j < out1.len() ==> (#[trigger] out1[j]).usage.start == a
                && out1[j].usage.end == b && out1[j].selector.layers.start >= s.start
                && out1[j].selector.layers.end <= s.end,
        forall|la: int|
            s.spec_contains(la) ==> ((#[trigger] t1m.color_unit(0, la)) matches Some(un) && un.last
                == b),
{
    let la0: int = s.start as int;
    assert(bridge_color(t1.color_unit(0, la0), t2.color_unit(0, la0), Stitch::Init));
    assert(out1.len() > out0.len());
    assert forall|j: int| out0.len() <= j < out1.len() implies (#[trigger] out1[j]).usage.start
        == a && out1[j].usage.end == b && out1[j].selector.layers.start >= s.start
        && out1[j].selector.layers.end <= s.end by {
        let p = out1[j];
        assert(mt_merge_valid(p, t1, t2, Stitch::Init, id));
        if p.selector.aspects == Aspects::spec_color_only() {
            assert(0 <= (p.selector.levels.start as int) < 1);
            assert(p.selector.levels.start as int == 0);
            assert forall|la: int| #[trigger]
                p.selector.layers.spec_contains(la) implies s.spec_contains(la) by {
                assert((t1.color_unit(p.selector.levels.start as int, la) is Some)
                    || (t2.color_unit(p.selector.levels.start as int, la) is Some));
                if !s.spec_contains(la) {
                    assert(t1.color_unit(0, la) is None && t2.color_unit(0, la) is None);
                }
            }
            assert(p.selector.layers.spec_contains(p.selector.layers.start as int));
            assert(p.selector.layers.spec_contains(p.selector.layers.end - 1));
            assert(p.selector.layers.start >= s.start);
            assert(p.selector.layers.end <= s.end);
            let lax: int = p.selector.layers.start as int;
            assert(s.spec_contains(lax));
            assert(t1.color_unit(0, lax) matches Some(un) && un.last == a);
            assert(or_default(t1.color_unit(p.selector.levels.start as int, lax), Unit::spec_zero()).last == p.usage.start);
            assert(p.usage.start == a);
            assert(t2.color_unit(0, lax) matches Some(un) && un.init == b);
            assert(or_default(t2.color_unit(p.selector.levels.start as int, lax), Unit::spec_zero()).spec_select(Stitch::Init)
                == p.usage.end);
            assert(p.usage.end == b);
        } else if p.selector.aspects == Aspects::spec_depth_only() {
            let lax: int = p.selector.layers.start as int;
            assert(t1.ds_unit(lax) is None && t2.ds_unit(lax) is None);
            assert(false);
        } else {
            let lax: int = p.selector.layers.start as int;
            assert(t1.ds_unit(lax) is None && t2.ds_unit(lax) is None);
            assert(false);
        }
    }
    assert forall|la: int| s.spec_contains(la) implies ((#[trigger] t1m.color_unit(
        0,
        la,
    )) matches Some(un) && un.last == b) by {
        assert(t1m.color_unit(0, la) == merge_unit_res(
            t1.color_unit(0, la),
            t2.color_unit(0, la),
            Stitch::Init,
        ));
    }
}


/// Coalescing invariant: in a well-formed tracker — which `change` and
/// `merge` re-establish after every call — no two adjacent entries of any
/// range map hold equal values.
pub proof fn law_coalescing_invariant(t: TextureStates)
    requires
        t.wf(),
    ensures
        forall|k: int|
            0 <= k < t.color_len() ==> crate::range::seq_coalesced(
                (#[trigger] t.color_mips@[k]).sv(),
            ),
        crate::range::seq_coalesced(t.depth_stencil.sv()),
{
}

} // verus!
