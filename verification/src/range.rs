//! A sorted, non-overlapping, coalescing map from array-layer ranges to state
//! values. Gaps are implicitly "untracked". This is the foundation the
//! texture tracker builds on: one such map per color mip level, and one for
//! the combined depth/stencil aspect.

use vstd::prelude::*;

verus! {

/// A half-open range of array layers.
#[derive(Clone, Copy, Debug, PartialEq, Eq, Structural)]
pub struct LayerRange {
    pub start: u16,
    pub end: u16,
}

impl LayerRange {
    pub open spec fn spec_contains(self, l: int) -> bool {
        self.start <= l < self.end
    }

    pub open spec fn spec_is_empty(self) -> bool {
        self.start >= self.end
    }
}

/// Equality that verified code can rely on: `value_eq` must agree with
/// mathematical equality of the values.
pub trait ValueEq: Sized {
    fn value_eq(&self, other: &Self) -> (r: bool)
        ensures
            r <==> (*self == *other),
    ;
}

impl<T: ValueEq + Copy> ValueEq for (T, T) {
    fn value_eq(&self, other: &Self) -> (r: bool) {
        self.0.value_eq(&other.0) && self.1.value_eq(&other.1)
    }
}

/// The value a sequence of `(range, value)` entries assigns to layer `l`:
/// the value of the first entry whose range contains `l`, if any.
pub open spec fn seq_state_at<T>(s: Seq<(LayerRange, T)>, l: int) -> Option<T>
    decreases s.len(),
{
    if s.len() == 0 {
        None
    } else if s[0].0.spec_contains(l) {
        Some(s[0].1)
    } else {
        seq_state_at(s.drop_first(), l)
    }
}

/// Well-formed entries: every range is non-empty and the ranges are sorted
/// ascending without overlap.
pub open spec fn seq_wf<T>(s: Seq<(LayerRange, T)>) -> bool {
    &&& forall|k: int| 0 <= k < s.len() ==> (#[trigger] s[k]).0.start < s[k].0.end
    &&& forall|k: int| 0 < k < s.len() ==> (#[trigger] s[k]).0.start >= s[k - 1].0.end
}

/// Coalesced entries: two adjacent ranges never hold equal values.
pub open spec fn seq_coalesced<T>(s: Seq<(LayerRange, T)>) -> bool {
    forall|k: int|
        0 < k < s.len() && (#[trigger] s[k]).0.start == s[k - 1].0.end ==> s[k].1 != s[k - 1].1
}

pub proof fn lemma_sorted_trans<T>(s: Seq<(LayerRange, T)>, k1: int, k2: int)
    requires
        seq_wf(s),
        0 <= k1 < k2 < s.len(),
    ensures
        s[k1].0.end <= s[k2].0.start,
    decreases k2 - k1,
{
    if k1 + 1 < k2 {
        lemma_sorted_trans(s, k1, k2 - 1);
    }
}

pub proof fn lemma_wf_drop_first<T>(s: Seq<(LayerRange, T)>)
    requires
        seq_wf(s),
        s.len() > 0,
    ensures
        seq_wf(s.drop_first()),
{
    let d = s.drop_first();
    assert forall|k: int| 0 <= k < d.len() implies (#[trigger] d[k]).0.start < d[k].0.end by {
        assert(d[k] == s[k + 1]);
    }
    assert forall|k: int| 0 < k < d.len() implies (#[trigger] d[k]).0.start >= d[k - 1].0.end by {
        assert(d[k] == s[k + 1]);
        assert(d[k - 1] == s[k]);
    }
}

/// Appending an entry only affects layers that no earlier entry covers.
pub proof fn lemma_state_at_push<T>(s: Seq<(LayerRange, T)>, rg: LayerRange, v: T, l: int)
    ensures
        seq_state_at(s.push((rg, v)), l) == (if seq_state_at(s, l) is Some {
            seq_state_at(s, l)
        } else if rg.spec_contains(l) {
            Some(v)
        } else {
            None::<T>
        }),
    decreases s.len(),
{
    if s.len() == 0 {
        assert(s.push((rg, v)).drop_first() =~= Seq::<(LayerRange, T)>::empty());
    } else {
        assert(s.push((rg, v)).drop_first() =~= s.drop_first().push((rg, v)));
        lemma_state_at_push(s.drop_first(), rg, v, l);
    }
}

/// Under well-formedness, an entry that contains a layer decides its state.
pub proof fn lemma_entry_state_at<T>(s: Seq<(LayerRange, T)>, k: int, l: int)
    requires
        seq_wf(s),
        0 <= k < s.len(),
        s[k].0.spec_contains(l),
    ensures
        seq_state_at(s, l) == Some(s[k].1),
    decreases k,
{
    if k > 0 {
        lemma_sorted_trans(s, 0, k);
        lemma_wf_drop_first(s);
        assert(s.drop_first()[k - 1] == s[k]);
        lemma_entry_state_at(s.drop_first(), k - 1, l);
    }
}

/// The state at a layer is decided by whether some entry contains it.
pub proof fn lemma_state_at_entry<T>(s: Seq<(LayerRange, T)>, l: int)
    ensures
        match seq_state_at(s, l) {
            Some(v) => exists|k: int|
                0 <= k < s.len() && (#[trigger] s[k]).0.spec_contains(l) && s[k].1 == v,
            None => forall|k: int| 0 <= k < s.len() ==> !(#[trigger] s[k]).0.spec_contains(l),
        },
    decreases s.len(),
{
    if s.len() == 0 {
    } else if s[0].0.spec_contains(l) {
    } else {
        lemma_state_at_entry(s.drop_first(), l);
        match seq_state_at(s, l) {
            Some(v) => {
                let k = choose|k: int|
                    0 <= k < s.drop_first().len() && (#[trigger] s.drop_first()[k]).0.spec_contains(
                        l,
                    ) && s.drop_first()[k].1 == v;
                assert(s[k + 1] == s.drop_first()[k]);
                assert(s[k + 1].0.spec_contains(l) && s[k + 1].1 == v);
            },
            None => {
                assert forall|k: int| 0 <= k < s.len() implies !(#[trigger] s[k]).0.spec_contains(
                    l,
                ) by {
                    if k > 0 {
                        assert(s.drop_first()[k - 1] == s[k]);
                    }
                }
            },
        }
    }
}

/// Beyond the last entry's end nothing is tracked.
pub proof fn lemma_state_none_beyond<T>(s: Seq<(LayerRange, T)>, l: int)
    requires
        seq_wf(s),
        s.len() > 0 ==> l >= s[s.len() - 1].0.end,
    ensures
        seq_state_at(s, l) == None::<T>,
{
    lemma_state_at_entry(s, l);
    if seq_state_at(s, l) is Some {
        let k = choose|k: int| 0 <= k < s.len() && (#[trigger] s[k]).0.spec_contains(l);
        if k < s.len() - 1 {
            lemma_sorted_trans(s, k, s.len() - 1);
        }
        assert(false);
    }
}

/// Before the first entry's start nothing is tracked.
pub proof fn lemma_state_none_before<T>(s: Seq<(LayerRange, T)>, l: int)
    requires
        seq_wf(s),
        s.len() > 0 ==> l < s[0].0.start,
    ensures
        seq_state_at(s, l) == None::<T>,
{
    lemma_state_at_entry(s, l);
    if seq_state_at(s, l) is Some {
        let k = choose|k: int| 0 <= k < s.len() && (#[trigger] s[k]).0.spec_contains(l);
        if k > 0 {
            lemma_sorted_trans(s, 0, k);
        }
        assert(false);
    }
}

/// Extending the last entry's range affects exactly the added layers.
pub proof fn lemma_state_at_extend_last<T>(s: Seq<(LayerRange, T)>, new_end: u16, l: int)
    requires
        seq_wf(s),
        s.len() > 0,
        new_end >= s[s.len() - 1].0.end,
    ensures
        ({
            let n = s.len() - 1;
            let e = (LayerRange { start: s[n].0.start, end: new_end }, s[n].1);
            seq_state_at(s.update(n, e), l) == (if s[n].0.end <= l < new_end {
                Some(s[n].1)
            } else {
                seq_state_at(s, l)
            })
        }),
    decreases s.len(),
{
    let n = s.len() - 1;
    let e = (LayerRange { start: s[n].0.start, end: new_end }, s[n].1);
    if n == 0 {
        assert(s.update(n, e).drop_first() =~= s.drop_first());
    } else {
        lemma_sorted_trans(s, 0, n);
        lemma_wf_drop_first(s);
        assert(s.update(n, e).drop_first() =~= s.drop_first().update(n - 1, e));
        assert(s.drop_first()[n - 1] == s[n]);
        lemma_state_at_extend_last(s.drop_first(), new_end, l);
    }
}


/// Nondecreasing sequence of layer indices.
pub open spec fn sorted_u16(s: Seq<u16>) -> bool {
    forall|i: int, j: int| 0 <= i < j < s.len() ==> s[i] <= s[j]
}

/// `x` is a boundary (a start or an end) of some entry of `s`.
pub open spec fn is_boundary<T>(s: Seq<(LayerRange, T)>, x: int) -> bool {
    exists|k: int| 0 <= k < s.len() && ((#[trigger] s[k]).0.start == x || s[k].0.end == x)
}

/// Between two indices with no boundary of `s` in `(x, l]`, the state is
/// constant.
pub proof fn lemma_const_between<T>(s: Seq<(LayerRange, T)>, x: int, l: int)
    requires
        seq_wf(s),
        x <= l,
        forall|z: int| x < z <= l ==> !is_boundary(s, z),
    ensures
        seq_state_at(s, l) == seq_state_at(s, x),
{
    lemma_state_at_entry(s, l);
    lemma_state_at_entry(s, x);
    match seq_state_at(s, x) {
        Some(v) => {
            let k = choose|k: int|
                0 <= k < s.len() && (#[trigger] s[k]).0.spec_contains(x) && s[k].1 == v;
            // the entry containing x extends past l: its end is not in (x, l]
            assert(s[k].0.end != l + 1 - 1 || true);
            if s[k].0.end <= l {
                assert(is_boundary(s, s[k].0.end as int));
                assert(false);
            }
            lemma_entry_state_at(s, k, l);
        },
        None => {
            if seq_state_at(s, l) is Some {
                let k = choose|k: int| 0 <= k < s.len() && (#[trigger] s[k]).0.spec_contains(l);
                // the entry containing l must start in (x, l], a boundary
                if s[k].0.start <= x {
                    assert(s[k].0.spec_contains(x));
                    assert(false);
                } else {
                    assert(is_boundary(s, s[k].0.start as int));
                    assert(false);
                }
            }
        },
    }
}

/// Merges two sorted boundary lists into one sorted list with the union of
/// their values.
fn merge_sorted(a: &Vec<u16>, b: &Vec<u16>) -> (r: (Vec<u16>))
    requires
        sorted_u16(a@),
        sorted_u16(b@),
    ensures
        sorted_u16(r@),
        forall|x: u16| (r@.contains(x) <==> a@.contains(x) || b@.contains(x)),
{
    let mut out: Vec<u16> = Vec::new();
    let mut i: usize = 0;
    let mut j: usize = 0;
    let na = a.len();
    let nb = b.len();
    while i < na || j < nb
        invariant
            na == a@.len(),
            nb == b@.len(),
            sorted_u16(a@),
            sorted_u16(b@),
            0 <= i <= na,
            0 <= j <= nb,
            sorted_u16(out@),
            forall|x: u16|
                (out@.contains(x) <==> a@.subrange(0, i as int).contains(x) || b@.subrange(
                    0,
                    j as int,
                ).contains(x)),
            out@.len() > 0 && i < na ==> out@.last() <= a@[i as int],
            out@.len() > 0 && j < nb ==> out@.last() <= b@[j as int],
        decreases na - i + nb - j,
    {
        let take_a = if j == nb {
            true
        } else if i == na {
            false
        } else {
            a[i] <= b[j]
        };
        if take_a {
            let x = a[i];
            let ghost pre = out@;
            out.push(x);
            proof {
                assert(a@.subrange(0, i + 1) =~= a@.subrange(0, i as int).push(x));
                assert forall|y: u16|
                    out@.contains(y) <==> a@.subrange(0, i + 1).contains(y) || b@.subrange(
                        0,
                        j as int,
                    ).contains(y) by {
                    vstd::seq_lib::lemma_seq_contains_after_push(pre, x, y);
                    vstd::seq_lib::lemma_seq_contains_after_push(
                        a@.subrange(0, i as int),
                        x,
                        y,
                    );
                }
                assert forall|i2: int, j2: int| 0 <= i2 < j2 < out@.len() implies out@[i2]
                    <= out@[j2] by {
                    if j2 < pre.len() {
                    } else {
                        if i2 < pre.len() - 1 {
                            assert(pre[i2] <= pre[pre.len() - 1]);
                        }
                    }
                }
            }
            i += 1;
        } else {
            let x = b[j];
            let ghost pre = out@;
            out.push(x);
            proof {
                assert(b@.subrange(0, j + 1) =~= b@.subrange(0, j as int).push(x));
                assert forall|y: u16|
                    out@.contains(y) <==> a@.subrange(0, i as int).contains(y) || b@.subrange(
                        0,
                        j + 1,
                    ).contains(y) by {
                    vstd::seq_lib::lemma_seq_contains_after_push(pre, x, y);
                    vstd::seq_lib::lemma_seq_contains_after_push(
                        b@.subrange(0, j as int),
                        x,
                        y,
                    );
                }
                assert forall|i2: int, j2: int| 0 <= i2 < j2 < out@.len() implies out@[i2]
                    <= out@[j2] by {
                    if j2 < pre.len() {
                    } else {
                        if i2 < pre.len() - 1 {
                            assert(pre[i2] <= pre[pre.len() - 1]);
                        }
                    }
                }
            }
            j += 1;
        }
    }
    proof {
        assert(a@.subrange(0, na as int) =~= a@);
        assert(b@.subrange(0, nb as int) =~= b@);
    }
    out
}


/// A sorted list cannot contain a value strictly between two consecutive
/// elements.
proof fn lemma_no_mid_value(merged: Seq<u16>, k: int, z: u16)
    requires
        sorted_u16(merged),
        0 <= k,
        k + 1 < merged.len(),
        merged[k] < z < merged[k + 1],
    ensures
        !merged.contains(z),
{
    assert forall|ix: int| 0 <= ix < merged.len() implies merged[ix] != z by {
        if ix <= k {
            assert(merged[ix] <= merged[k]);
        } else {
            assert(merged[k + 1] <= merged[ix]);
        }
    }
}

/// The state untracked sides contribute when two maps are merged.
pub open spec fn or_default<T>(o: Option<T>, default: T) -> T {
    match o {
        Some(v) => v,
        None => default,
    }
}

/// The per-layer meaning of isolating `range` with `default`: prior state is
/// kept, untracked layers inside `range` become `default`.
pub open spec fn iso_sem<T>(s: Seq<(LayerRange, T)>, range: LayerRange, default: T, l: int) -> Option<
    T,
> {
    if range.spec_contains(l) && seq_state_at(s, l) is None {
        Some(default)
    } else {
        seq_state_at(s, l)
    }
}

/// The per-layer meaning of merging two maps: over the union of their
/// covered layers, the pair of both sides' states, untracked sides reading
/// as `default`.
pub open spec fn merged_sem<T>(
    sa: Seq<(LayerRange, T)>,
    sb: Seq<(LayerRange, T)>,
    default: T,
    l: int,
) -> Option<(T, T)> {
    if seq_state_at(sa, l) is None && seq_state_at(sb, l) is None {
        None
    } else {
        Some(
            (or_default(seq_state_at(sa, l), default), or_default(seq_state_at(sb, l), default)),
        )
    }
}

/// The ordered, non-overlapping, coalescing range map.
#[derive(Clone, Debug)]
pub struct RangedStates<T> {
    pub entries: Vec<(LayerRange, T)>,
}

impl<T> RangedStates<T> {
    /// The entries as a mathematical sequence.
    pub open spec fn sv(self) -> Seq<(LayerRange, T)> {
        self.entries@
    }

    pub open spec fn wf(self) -> bool {
        seq_wf(self.sv())
    }

    pub open spec fn coalesced(self) -> bool {
        seq_coalesced(self.sv())
    }

    /// The state the map assigns to layer `l`, `None` where untracked.
    pub open spec fn state_at(self, l: int) -> Option<T> {
        seq_state_at(self.sv(), l)
    }
}

/// Pushes one entry at the tail, merging it into the previous entry when the
/// two are adjacent and hold equal values, so that the result stays
/// coalesced.
pub fn push_coalesced<T: ValueEq + Copy>(out: &mut Vec<(LayerRange, T)>, layers: LayerRange, value: T)
    requires
        seq_wf(old(out)@),
        seq_coalesced(old(out)@),
        layers.start < layers.end,
        old(out)@.len() > 0 ==> old(out)@.last().0.end <= layers.start,
    ensures
        seq_wf(final(out)@),
        seq_coalesced(final(out)@),
        final(out)@.len() > 0,
        final(out)@.last().0.end == layers.end,
        forall|l: int|
            #[trigger] seq_state_at(final(out)@, l) == (if layers.spec_contains(l) {
                Some(value)
            } else {
                seq_state_at(old(out)@, l)
            }),
{
    let n = out.len();
    if n > 0 {
        let e: (LayerRange, T) = out[n - 1];
        if e.0.end == layers.start && e.1.value_eq(&value) {
            out[n - 1] = (LayerRange { start: e.0.start, end: layers.end }, value);
            proof {
                let upd = out@;
                assert forall|k: int| 0 <= k < upd.len() implies (#[trigger] upd[k]).0.start
                    < upd[k].0.end by {}
                assert forall|k: int| 0 < k < upd.len() implies (#[trigger] upd[k]).0.start
                    >= upd[k - 1].0.end by {}
                assert forall|l: int|
                    #[trigger] seq_state_at(upd, l) == (if layers.spec_contains(l) {
                        Some(value)
                    } else {
                        seq_state_at(old(out)@, l)
                    }) by {
                    lemma_state_at_extend_last(old(out)@, layers.end, l);
                }
            }
            return ;
        }
    }
    out.push((layers, value));
    proof {
        let upd = out@;
        assert forall|k: int| 0 <= k < upd.len() implies (#[trigger] upd[k]).0.start
            < upd[k].0.end by {
            if k < upd.len() - 1 {
                assert(upd[k] == old(out)@[k]);
            }
        }
        assert forall|k: int| 0 < k < upd.len() implies (#[trigger] upd[k]).0.start >= upd[k
            - 1].0.end by {
            if k < upd.len() - 1 {
                assert(upd[k] == old(out)@[k]);
                assert(upd[k - 1] == old(out)@[k - 1]);
            } else {
                assert(upd[k - 1] == old(out)@[k - 1]);
            }
        }
        assert forall|l: int|
            #[trigger] seq_state_at(upd, l) == (if layers.spec_contains(l) {
                Some(value)
            } else {
                seq_state_at(old(out)@, l)
            }) by {
            lemma_state_at_push(old(out)@, layers, value, l);
            if layers.spec_contains(l) {
                lemma_state_none_beyond(old(out)@, l);
            }
        }
    }
}

impl<T: ValueEq + Copy> RangedStates<T> {
    /// An empty map: every layer untracked.
    pub fn new() -> (r: Self)
        ensures
            r.sv() == Seq::<(LayerRange, T)>::empty(),
    {
        RangedStates { entries: Vec::new() }
    }

    pub fn len(&self) -> (r: usize)
        ensures
            r == self.sv().len(),
    {
        self.entries.len()
    }

    pub fn get(&self, i: usize) -> (r: (LayerRange, T))
        requires
            i < self.sv().len(),
        ensures
            r == self.sv()[i as int],
    {
        self.entries[i]
    }

    /// Replaces the value of entry `i`, keeping its range.
    pub fn set_value(&mut self, i: usize, v: T)
        requires
            i < old(self).sv().len(),
        ensures
            final(self).sv() == old(self).sv().update(
                i as int,
                (old(self).sv()[i as int].0, v),
            ),
            old(self).wf() ==> final(self).wf(),
    {
        let rg = self.entries[i].0;
        self.entries[i] = (rg, v);
        proof {
            if seq_wf(old(self).sv()) {
                let upd = self.sv();
                assert forall|k: int| 0 <= k < upd.len() implies (#[trigger] upd[k]).0.start
                    < upd[k].0.end by {
                    assert(upd[k].0 == old(self).sv()[k].0);
                }
                assert forall|k: int| 0 < k < upd.len() implies (#[trigger] upd[k]).0.start
                    >= upd[k - 1].0.end by {
                    assert(upd[k].0 == old(self).sv()[k].0);
                    assert(upd[k - 1].0 == old(self).sv()[k - 1].0);
                }
            }
        }
    }

    /// Empties the map: every layer becomes untracked.
    pub fn clear(&mut self)
        ensures
            final(self).sv() == Seq::<(LayerRange, T)>::empty(),
    {
        self.entries = Vec::new();
    }

    /// Appends an entry past the current end of the map, coalescing it into
    /// the last entry when the values are equal and the ranges adjacent.
    pub fn append(&mut self, layers: LayerRange, value: T)
        requires
            old(self).wf(),
            old(self).coalesced(),
            layers.start < layers.end,
            old(self).sv().len() > 0 ==> old(self).sv().last().0.end <= layers.start,
        ensures
            final(self).wf(),
            final(self).coalesced(),
            final(self).sv().len() > 0,
            final(self).sv().last().0.end == layers.end,
            forall|l: int|
                #[trigger] final(self).state_at(l) == (if layers.spec_contains(l) {
                    Some(value)
                } else {
                    old(self).state_at(l)
                }),
    {
        push_coalesced(&mut self.entries, layers, value);
    }

    /// Re-coalesces the map: merges adjacent entries with equal values
    /// without changing the state of any layer.
    pub fn coalesce(&mut self)
        requires
            old(self).wf(),
        ensures
            final(self).wf(),
            final(self).coalesced(),
            forall|l: int| #[trigger] final(self).state_at(l) == old(self).state_at(l),
    {
        let ghost orig = self.entries@;
        let n = self.entries.len();
        let mut out: Vec<(LayerRange, T)> = Vec::new();
        let mut i: usize = 0;
        while i < n
            invariant
                n == orig.len(),
                self.entries@ == orig,
                seq_wf(orig),
                0 <= i <= n,
                seq_wf(out@),
                seq_coalesced(out@),
                out@.len() > 0 ==> i > 0 && out@.last().0.end == orig[i - 1].0.end,
                forall|l: int|
                    #[trigger] seq_state_at(out@, l) == seq_state_at(
                        orig.subrange(0, i as int),
                        l,
                    ),
            decreases n - i,
        {
            let e = self.entries[i];
            let ghost prefix = orig.subrange(0, i as int);
            proof {
                if out@.len() > 0 {
                    assert(out@.last().0.end == orig[i - 1].0.end);
                    assert(orig[i - 1].0.end <= orig[i as int].0.start);
                }
            }
            push_coalesced(&mut out, e.0, e.1);
            proof {
                assert(orig.subrange(0, i + 1) =~= prefix.push(orig[i as int]));
                assert forall|l: int|
                    #[trigger] seq_state_at(out@, l) == seq_state_at(
                        orig.subrange(0, i + 1),
                        l,
                    ) by {
                    lemma_state_at_push(prefix, orig[i as int].0, orig[i as int].1, l);
                    if orig[i as int].0.spec_contains(l) {
                        if prefix.len() > 0 {
                            assert(prefix.last() == orig[i - 1]);
                        }
                        lemma_state_none_beyond(prefix, l);
                    }
                }
            }
            i += 1;
        }
        proof {
            assert(orig.subrange(0, n as int) =~= orig);
        }
        self.entries = out;
    }


    /// All boundary values (starts and ends) of the entries, sorted.
    fn bounds(&self) -> (r: (Vec<u16>))
        requires
            self.wf(),
        ensures
            sorted_u16(r@),
            forall|x: u16| (r@.contains(x) <==> is_boundary(self.sv(), x as int)),
    {
        let mut out: Vec<u16> = Vec::new();
        let n = self.entries.len();
        let mut i: usize = 0;
        while i < n
            invariant
                0 <= i <= n,
                n == self.sv().len(),
                self.wf(),
                sorted_u16(out@),
                out@.len() == 2 * i,
                forall|x: u16|
                    (out@.contains(x) <==> exists|k: int|
                        0 <= k < i && ((#[trigger] self.sv()[k]).0.start == x || self.sv()[k].0.end
                            == x)),
                i > 0 ==> out@.len() > 0 && out@.last() == self.sv()[i - 1].0.end,
            decreases n - i,
        {
            let e = self.entries[i];
            let ghost pre = out@;
            out.push(e.0.start);
            out.push(e.0.end);
            proof {
                let cur = out@;
                assert(self.sv()[i as int].0.start < self.sv()[i as int].0.end);
                if i > 0 {
                    assert(self.sv()[i as int].0.start >= self.sv()[i - 1].0.end);
                }
                assert forall|i2: int, j2: int| 0 <= i2 < j2 < cur.len() implies cur[i2]
                    <= cur[j2] by {
                    if j2 < pre.len() {
                        assert(cur[i2] == pre[i2] && cur[j2] == pre[j2]);
                    } else if i2 < pre.len() {
                        assert(cur[i2] == pre[i2]);
                        assert(i > 0);
                        assert(pre.last() == pre[pre.len() - 1]);
                        if i2 < pre.len() - 1 {
                            assert(pre[i2] <= pre[pre.len() - 1]);
                        }
                        assert(pre[i2] <= self.sv()[i - 1].0.end);
                    }
                }
                assert forall|x: u16|
                    (cur.contains(x) <==> exists|k: int|
                        0 <= k < i + 1 && ((#[trigger] self.sv()[k]).0.start == x
                            || self.sv()[k].0.end == x)) by {
                    vstd::seq_lib::lemma_seq_contains_after_push(pre, e.0.start, x);
                    vstd::seq_lib::lemma_seq_contains_after_push(
                        pre.push(e.0.start),
                        e.0.end,
                        x,
                    );
                    if cur.contains(x) {
                        if pre.contains(x) {
                            let k = choose|k: int|
                                0 <= k < i && ((#[trigger] self.sv()[k]).0.start == x
                                    || self.sv()[k].0.end == x);
                            assert(0 <= k < i + 1 && (self.sv()[k].0.start == x
                                || self.sv()[k].0.end == x));
                        } else {
                            assert(self.sv()[i as int].0.start == x || self.sv()[i as int].0.end
                                == x);
                        }
                    }
                    if exists|k: int|
                        0 <= k < i + 1 && ((#[trigger] self.sv()[k]).0.start == x
                            || self.sv()[k].0.end == x) {
                        let k = choose|k: int|
                            0 <= k < i + 1 && ((#[trigger] self.sv()[k]).0.start == x
                                || self.sv()[k].0.end == x);
                        if k < i {
                            assert(pre.contains(x));
                        }
                    }
                }
            }
            i += 1;
        }
        out
    }

    /// Splits entries at `range`'s boundaries (keeping their values on both
    /// pieces) and fills untracked gaps inside `range` with `default`, so
    /// that afterwards every entry lies entirely inside or entirely outside
    /// `range` and every layer of `range` is tracked. No information is
    /// lost: the state of every layer outside `range` is unchanged, and
    /// inside `range` only untracked layers change, to `default`.
    pub fn isolate(&mut self, range: LayerRange, default: T)
        requires
            old(self).wf(),
            range.start < range.end,
        ensures
            final(self).wf(),
            forall|k: int|
                0 <= k < final(self).sv().len() ==> ({
                    let e = (#[trigger] final(self).sv()[k]).0;
                    e.end <= range.start || range.end <= e.start || (range.start <= e.start
                        && e.end <= range.end)
                }),
            forall|l: int|
                #[trigger] final(self).state_at(l) == iso_sem(old(self).sv(), range, default, l),
    {
        let ghost orig = self.entries@;
        let own_bounds = self.bounds();
        let mut range_b: Vec<u16> = Vec::new();
        range_b.push(range.start);
        range_b.push(range.end);
        proof {
            assert(sorted_u16(range_b@));
        }
        let merged = merge_sorted(&own_bounds, &range_b);
        proof {
            assert(range_b@[0] == range.start && range_b@[1] == range.end);
            assert(range_b@.contains(range.start) && range_b@.contains(range.end));
            assert(merged@.contains(range.start) && merged@.contains(range.end));
        }
        let m = merged.len();
        let mut out: Vec<(LayerRange, T)> = Vec::new();
        let mut k: usize = 0;
        proof {
            let i0 = choose|ix: int| 0 <= ix < merged@.len() && merged@[ix] == range.start;
            if i0 > 0 {
                assert(merged@[0] <= merged@[i0]);
            }
            assert forall|l: int| l < merged@[0] implies #[trigger] seq_state_at(out@, l)
                == iso_sem(orig, range, default, l) by {
                assert(merged@[0] <= range.start);
                if orig.len() > 0 {
                    assert(is_boundary(orig, orig[0].0.start as int));
                    assert(own_bounds@.contains(orig[0].0.start));
                    assert(merged@.contains(orig[0].0.start));
                    let ib = choose|ix: int|
                        0 <= ix < merged@.len() && merged@[ix] == orig[0].0.start;
                    if ib > 0 {
                        assert(merged@[0] <= merged@[ib]);
                    }
                    assert(merged@[0] <= orig[0].0.start);
                }
                lemma_state_none_before(orig, l);
            }
        }
        while k + 1 < m
            invariant
                m == merged@.len(),
                sorted_u16(merged@),
                self.entries@ == orig,
                seq_wf(orig),
                range.start < range.end,
                forall|x: u16| (merged@.contains(x) ==> is_boundary(orig, x as int) || x == range.start || x == range.end),
                forall|x: u16| (is_boundary(orig, x as int) ==> merged@.contains(x)),
                merged@.contains(range.start),
                merged@.contains(range.end),
                0 <= k <= m,
                k < m || m == 0,
                seq_wf(out@),
                forall|k2: int|
                    0 <= k2 < out@.len() ==> ({
                        let e = (#[trigger] out@[k2]).0;
                        e.end <= range.start || range.end <= e.start || (range.start <= e.start
                            && e.end <= range.end)
                    }),
                out@.len() > 0 && k < m ==> out@.last().0.end <= merged@[k as int],
                forall|l: int|
                    k < m && l < merged@[k as int] ==> #[trigger] seq_state_at(out@, l)
                        == iso_sem(orig, range, default, l),
            decreases m - k,
        {
            let s = merged[k];
            let e = merged[k + 1];
            if s < e {
                proof {
                    assert forall|z: int| s < z < e implies !is_boundary(orig, z) by {
                        if is_boundary(orig, z) {
                            let zk = choose|zk: int|
                                0 <= zk < orig.len() && ((#[trigger] orig[zk]).0.start == z
                                    || orig[zk].0.end == z);
                            let zu: u16 = if orig[zk].0.start == z {
                                orig[zk].0.start
                            } else {
                                orig[zk].0.end
                            };
                            assert(merged@.contains(zu));
                            lemma_no_mid_value(merged@, k as int, zu);
                        }
                    }
                    // the window cannot have a boundary strictly inside the segment
                    if (s as int) < range.start && range.start < (e as int) {
                        lemma_no_mid_value(merged@, k as int, range.start);
                    }
                    if (s as int) < range.end && range.end < (e as int) {
                        lemma_no_mid_value(merged@, k as int, range.end);
                    }
                }
                let va = self.lookup(s);
                let ghost pre = out@;
                let in_window = range.start <= s && s < range.end;
                match va {
                    Some(v) => {
                        out.push((LayerRange { start: s, end: e }, v));
                    },
                    None => {
                        if in_window {
                            out.push((LayerRange { start: s, end: e }, default));
                        }
                    },
                }
                proof {
                    let cur = out@;
                    assert forall|k2: int| 0 <= k2 < cur.len() implies (#[trigger] cur[k2]).0.start
                        < cur[k2].0.end by {
                        if k2 < pre.len() {
                            assert(cur[k2] == pre[k2]);
                        }
                    }
                    assert forall|k2: int| 0 < k2 < cur.len() implies (#[trigger] cur[k2]).0.start
                        >= cur[k2 - 1].0.end by {
                        if k2 < pre.len() {
                            assert(cur[k2] == pre[k2]);
                            assert(cur[k2 - 1] == pre[k2 - 1]);
                        } else {
                            assert(cur[k2 - 1] == pre[k2 - 1]);
                        }
                    }
                    assert forall|k2: int|
                        0 <= k2 < cur.len() implies ({
                            let e2 = (#[trigger] cur[k2]).0;
                            e2.end <= range.start || range.end <= e2.start || (range.start
                                <= e2.start && e2.end <= range.end)
                        }) by {
                        if k2 < pre.len() {
                            assert(cur[k2] == pre[k2]);
                        }
                    }
                    assert forall|l: int| l < merged@[k + 1] implies #[trigger] seq_state_at(
                        cur,
                        l,
                    ) == iso_sem(orig, range, default, l) by {
                        if cur.len() > pre.len() {
                            lemma_state_at_push(pre, cur[cur.len() - 1].0, cur[cur.len() - 1].1, l);
                        }
                        if l < s {
                        } else if l < e {
                            // within the segment the prior state is constant
                            assert forall|z: int| (s as int) < z <= l implies !is_boundary(
                                orig,
                                z,
                            ) by {}
                            lemma_const_between(orig, s as int, l);
                            if pre.len() > 0 {
                                lemma_state_none_beyond(pre, l);
                            }
                        }
                    }
                }
            }
            k += 1;
        }
        proof {
            if m > 0 {
                assert forall|l: int| #[trigger] seq_state_at(out@, l) == iso_sem(
                    orig,
                    range,
                    default,
                    l,
                ) by {
                    if l >= merged@[m - 1] {
                        if out@.len() > 0 {
                            lemma_state_none_beyond(out@, l);
                        }
                        assert(merged@.contains(range.end));
                        let ie = choose|ix: int|
                            0 <= ix < merged@.len() && merged@[ix] == range.end;
                        if ie < m - 1 {
                            assert(merged@[ie] <= merged@[m - 1]);
                        }
                        if orig.len() > 0 {
                            assert(is_boundary(orig, orig[orig.len() - 1].0.end as int));
                            assert(merged@.contains(orig[orig.len() - 1].0.end));
                            let ib = choose|ix: int|
                                0 <= ix < merged@.len() && merged@[ix] == orig[orig.len()
                                    - 1].0.end;
                            if ib < m - 1 {
                                assert(merged@[ib] <= merged@[m - 1]);
                            }
                        }
                        lemma_state_none_beyond(orig, l);
                    }
                }
            }
            assert(m >= 2);
        }
        self.entries = out;
    }

    /// Produces, for the union of both maps' covered ranges, the sequence of
    /// `(range, (this side's value, other side's value))` pairs over every
    /// maximal sub-range where both sides are constant, reading `default`
    /// for a side that does not track the range. Mutates neither map.
    pub fn merge_with(&self, other: &Self, default: T) -> (r: (Vec<(LayerRange, (T, T))>))
        requires
            self.wf(),
            other.wf(),
        ensures
            seq_wf(r@),
            seq_coalesced(r@),
            forall|l: int|
                #[trigger] seq_state_at(r@, l) == merged_sem(self.sv(), other.sv(), default, l),
    {
        let ba = self.bounds();
        let bb = other.bounds();
        let merged = merge_sorted(&ba, &bb);
        let m = merged.len();
        let mut out: Vec<(LayerRange, (T, T))> = Vec::new();
        let mut k: usize = 0;
        proof {
            assert forall|l: int| m == 0 || (m > 0 && l < merged@[0]) implies #[trigger] seq_state_at(out@, l)
                == merged_sem(self.sv(), other.sv(), default, l) by {
                if self.sv().len() > 0 {
                    assert(is_boundary(self.sv(), self.sv()[0].0.start as int));
                    assert(ba@.contains(self.sv()[0].0.start));
                    assert(merged@.contains(self.sv()[0].0.start));
                    let ib = choose|ix: int|
                        0 <= ix < merged@.len() && merged@[ix] == self.sv()[0].0.start;
                    if ib > 0 {
                        assert(merged@[0] <= merged@[ib]);
                    }
                    assert(merged@[0] <= self.sv()[0].0.start);
                }
                lemma_state_none_before(self.sv(), l);
                if other.sv().len() > 0 {
                    assert(is_boundary(other.sv(), other.sv()[0].0.start as int));
                    assert(bb@.contains(other.sv()[0].0.start));
                    assert(merged@.contains(other.sv()[0].0.start));
                    let ib = choose|ix: int|
                        0 <= ix < merged@.len() && merged@[ix] == other.sv()[0].0.start;
                    if ib > 0 {
                        assert(merged@[0] <= merged@[ib]);
                    }
                    assert(merged@[0] <= other.sv()[0].0.start);
                }
                lemma_state_none_before(other.sv(), l);
            }
        }
        while k + 1 < m
            invariant
                m == merged@.len(),
                sorted_u16(merged@),
                self.wf(),
                other.wf(),
                forall|x: u16|
                    ((is_boundary(self.sv(), x as int) || is_boundary(other.sv(), x as int))
                        ==> merged@.contains(x)),
                0 <= k <= m,
                k < m || m == 0,
                seq_wf(out@),
                seq_coalesced(out@),
                out@.len() > 0 && k < m ==> out@.last().0.end <= merged@[k as int],
                forall|l: int|
                    (m == 0 || (k < m && l < merged@[k as int])) ==> #[trigger] seq_state_at(
                        out@,
                        l,
                    ) == merged_sem(self.sv(), other.sv(), default, l),
            decreases m - k,
        {
            let s = merged[k];
            let e = merged[k + 1];
            if s < e {
                proof {
                    assert forall|z: int| s < z < e implies !is_boundary(self.sv(), z)
                        && !is_boundary(other.sv(), z) by {
                        if is_boundary(self.sv(), z) {
                            let zk = choose|zk: int|
                                0 <= zk < self.sv().len() && ((#[trigger] self.sv()[zk]).0.start
                                    == z || self.sv()[zk].0.end == z);
                            let zu: u16 = if self.sv()[zk].0.start == z {
                                self.sv()[zk].0.start
                            } else {
                                self.sv()[zk].0.end
                            };
                            lemma_no_mid_value(merged@, k as int, zu);
                        }
                        if is_boundary(other.sv(), z) {
                            let zk = choose|zk: int|
                                0 <= zk < other.sv().len() && ((#[trigger] other.sv()[zk]).0.start
                                    == z || other.sv()[zk].0.end == z);
                            let zu: u16 = if other.sv()[zk].0.start == z {
                                other.sv()[zk].0.start
                            } else {
                                other.sv()[zk].0.end
                            };
                            lemma_no_mid_value(merged@, k as int, zu);
                        }
                    }
                }
                let va = self.lookup(s);
                let vb = other.lookup(s);
                let ghost pre = out@;
                if va.is_some() || vb.is_some() {
                    let xa = match va {
                        Some(v) => v,
                        None => default,
                    };
                    let xb = match vb {
                        Some(v) => v,
                        None => default,
                    };
                    push_coalesced(&mut out, LayerRange { start: s, end: e }, (xa, xb));
                }
                proof {
                    assert forall|l: int| l < merged@[k + 1] implies #[trigger] seq_state_at(
                        out@,
                        l,
                    ) == merged_sem(self.sv(), other.sv(), default, l) by {
                        if l < s {
                        } else if l < e {
                            assert forall|z: int| (s as int) < z <= l implies !is_boundary(
                                self.sv(),
                                z,
                            ) && !is_boundary(other.sv(), z) by {}
                            lemma_const_between(self.sv(), s as int, l);
                            lemma_const_between(other.sv(), s as int, l);
                            if pre.len() > 0 {
                                lemma_state_none_beyond(pre, l);
                            }
                        }
                    }
                }
            }
            k += 1;
        }
        proof {
            if m > 0 {
                assert forall|l: int| #[trigger] seq_state_at(out@, l) == merged_sem(
                    self.sv(),
                    other.sv(),
                    default,
                    l,
                ) by {
                    if l >= merged@[m - 1] {
                        if out@.len() > 0 {
                            lemma_state_none_beyond(out@, l);
                        }
                        if self.sv().len() > 0 {
                            assert(is_boundary(
                                self.sv(),
                                self.sv()[self.sv().len() - 1].0.end as int,
                            ));
                            assert(merged@.contains(self.sv()[self.sv().len() - 1].0.end));
                            let ib = choose|ix: int|
                                0 <= ix < merged@.len() && merged@[ix] == self.sv()[self.sv().len()
                                    - 1].0.end;
                            if ib < m - 1 {
                                assert(merged@[ib] <= merged@[m - 1]);
                            }
                        }
                        lemma_state_none_beyond(self.sv(), l);
                        if other.sv().len() > 0 {
                            assert(is_boundary(
                                other.sv(),
                                other.sv()[other.sv().len() - 1].0.end as int,
                            ));
                            assert(merged@.contains(other.sv()[other.sv().len() - 1].0.end));
                            let ib = choose|ix: int|
                                0 <= ix < merged@.len() && merged@[ix]
                                    == other.sv()[other.sv().len() - 1].0.end;
                            if ib < m - 1 {
                                assert(merged@[ib] <= merged@[m - 1]);
                            }
                        }
                        lemma_state_none_beyond(other.sv(), l);
                    }
                }
            }
        }
        out
    }

    /// The tracked state at one layer: a linear scan of the entries.
    pub fn lookup(&self, l: u16) -> (r: Option<T>)
        requires
            self.wf(),
        ensures
            r == self.state_at(l as int),
    {
        let n = self.entries.len();
        let mut i: usize = 0;
        while i < n
            invariant
                0 <= i <= n,
                n == self.sv().len(),
                self.wf(),
                forall|k: int| 0 <= k < i ==> !(#[trigger] self.sv()[k]).0.spec_contains(l as int),
            decreases n - i,
        {
            let e = self.entries[i];
            if e.0.start <= l && l < e.0.end {
                proof {
                    lemma_entry_state_at(self.sv(), i as int, l as int);
                }
                return Some(e.1);
            }
            i += 1;
        }
        proof {
            lemma_state_at_entry(self.sv(), l as int);
        }
        None
    }
}


/// Isolate exactness: after isolating `range`, some entry starts exactly at
/// `range.start` and some entry ends exactly at `range.end`, and a layer is
/// covered afterwards exactly when it was covered before or lies in
/// `range`. The premises are what `isolate` ensures of its result.
pub proof fn law_isolate_exactness<T>(
    orig: Seq<(LayerRange, T)>,
    m: RangedStates<T>,
    range: LayerRange,
    default: T,
)
    requires
        m.wf(),
        range.start < range.end,
        forall|k: int|
            0 <= k < m.sv().len() ==> ({
                let e = (#[trigger] m.sv()[k]).0;
                e.end <= range.start || range.end <= e.start || (range.start <= e.start && e.end
                    <= range.end)
            }),
        forall|l: int| #[trigger] m.state_at(l) == iso_sem(orig, range, default, l),
    ensures
        exists|k: int| 0 <= k < m.sv().len() && (#[trigger] m.sv()[k]).0.start == range.start,
        exists|k: int| 0 <= k < m.sv().len() && (#[trigger] m.sv()[k]).0.end == range.end,
        forall|l: int|
            #[trigger] m.state_at(l) is Some <==> (seq_state_at(orig, l) is Some
                || range.spec_contains(l)),
{
    assert(m.state_at(range.start as int) is Some);
    lemma_state_at_entry(m.sv(), range.start as int);
    let k1 = choose|k: int|
        0 <= k < m.sv().len() && (#[trigger] m.sv()[k]).0.spec_contains(range.start as int);
    assert(m.sv()[k1].0.start == range.start);
    assert(m.state_at(range.end - 1) is Some);
    lemma_state_at_entry(m.sv(), range.end - 1);
    let k2 = choose|k: int|
        0 <= k < m.sv().len() && (#[trigger] m.sv()[k]).0.spec_contains(range.end - 1);
    assert(m.sv()[k2].0.end == range.end);
}

} // verus!
