use texture_track::range::LayerRange;
use texture_track::texture::LevelRange;
use texture_track::texture::PendingTransition;
use texture_track::texture::SubresourceRange;
use texture_track::texture::TextureStates;
use texture_track::unit::Stitch;
use texture_track::usage::Aspects;
use texture_track::usage::TextureUsage;
use texture_track::usage::ATTACHMENT;
use texture_track::usage::COPY_DST;
use texture_track::usage::COPY_SRC;
use texture_track::usage::SAMPLED;

fn usage(bits: u32) -> TextureUsage {
    TextureUsage { bits }
}

fn color_sel(levels: (u8, u8), layers: (u16, u16)) -> SubresourceRange {
    SubresourceRange {
        aspects: Aspects { color: true, depth: false, stencil: false },
        levels: LevelRange { start: levels.0, end: levels.1 },
        layers: LayerRange { start: layers.0, end: layers.1 },
    }
}

fn ds_sel(depth: bool, stencil: bool, layers: (u16, u16)) -> SubresourceRange {
    SubresourceRange {
        aspects: Aspects { color: false, depth, stencil },
        levels: LevelRange { start: 0, end: 1 },
        layers: LayerRange { start: layers.0, end: layers.1 },
    }
}

#[test]
fn query_of_empty_tracker_is_indeterminate() {
    let t = TextureStates::new();
    assert_eq!(t.query(color_sel((0, 1), (0, 4))), None);
}

#[test]
fn query_consistency_after_change() {
    // change with no prior usage, then query the same selector
    let mut t = TextureStates::new();
    let sel = color_sel((0, 2), (0, 4));
    assert!(t.change(7, sel, usage(SAMPLED)).is_ok());
    assert_eq!(t.query(sel), Some(usage(SAMPLED)));
}

#[test]
fn query_beyond_tracked_levels_contributes_nothing() {
    let mut t = TextureStates::new();
    let sel = color_sel((0, 1), (0, 4));
    assert!(t.change(7, sel, usage(SAMPLED)).is_ok());
    // levels past what was ever tracked are not an error
    assert_eq!(t.query(color_sel((0, 8), (0, 4))), Some(usage(SAMPLED)));
}

#[test]
fn query_indeterminacy_on_partial_overwrite() {
    let mut t = TextureStates::new();
    let wide = color_sel((0, 1), (0, 8));
    let narrow = color_sel((0, 1), (2, 4));
    let mut out: Vec<PendingTransition> = Vec::new();
    assert!(t.change_record(7, wide, usage(SAMPLED), &mut out).is_ok());
    assert!(t.change_record(7, narrow, usage(COPY_SRC), &mut out).is_ok());
    assert_eq!(t.query(wide), None);
    assert_eq!(t.query(narrow), Some(usage(COPY_SRC)));
}

#[test]
fn conflict_detection_between_writes() {
    let mut t = TextureStates::new();
    let sel = color_sel((0, 1), (0, 2));
    assert!(t.change(7, sel, usage(COPY_DST)).is_ok());
    let err = t.change(7, sel, usage(ATTACHMENT));
    match err {
        Err(p) => {
            assert_eq!(p.id, 7);
            assert_eq!(p.usage.start, usage(COPY_DST));
            assert_eq!(p.usage.end, usage(ATTACHMENT));
        },
        Ok(()) => panic!("conflicting writes must fail in implicit mode"),
    }
}

#[test]
fn compatible_accumulation_of_reads() {
    let mut t = TextureStates::new();
    let sel = color_sel((0, 1), (0, 2));
    assert!(t.change(7, sel, usage(COPY_SRC)).is_ok());
    assert!(t.change(7, sel, usage(SAMPLED)).is_ok());
    assert_eq!(t.query(sel), Some(usage(COPY_SRC | SAMPLED)));
}

#[test]
fn explicit_mode_records_transition_and_replaces() {
    let mut t = TextureStates::new();
    let sel = color_sel((0, 1), (0, 2));
    assert!(t.change(7, sel, usage(COPY_DST)).is_ok());
    let mut out: Vec<PendingTransition> = Vec::new();
    assert!(t.change_record(7, sel, usage(ATTACHMENT), &mut out).is_ok());
    assert_eq!(out.len(), 1);
    assert_eq!(out[0].usage.start, usage(COPY_DST));
    assert_eq!(out[0].usage.end, usage(ATTACHMENT));
    assert_eq!(out[0].selector.layers, LayerRange { start: 0, end: 2 });
    assert_eq!(t.query(sel), Some(usage(ATTACHMENT)));
}

#[test]
fn merge_bridging_emits_single_transition() {
    let s = (0u16, 4u16);
    let sel = color_sel((0, 1), s);
    let mut t1 = TextureStates::new();
    assert!(t1.change(7, sel, usage(SAMPLED)).is_ok());
    let mut t2 = TextureStates::new();
    assert!(t2.change(7, sel, usage(COPY_DST)).is_ok());
    let mut out: Vec<PendingTransition> = Vec::new();
    assert!(t1.merge_record(7, &t2, Stitch::Init, &mut out).is_ok());
    assert_eq!(out.len(), 1);
    assert_eq!(out[0].usage.start, usage(SAMPLED));
    assert_eq!(out[0].usage.end, usage(COPY_DST));
    assert_eq!(out[0].selector.layers, LayerRange { start: 0, end: 4 });
    assert_eq!(t1.query(sel), Some(usage(COPY_DST)));
}

#[test]
fn merge_with_self_is_a_noop() {
    let mut t = TextureStates::new();
    let sel = color_sel((0, 2), (0, 4));
    assert!(t.change(7, sel, usage(SAMPLED)).is_ok());
    let ds = ds_sel(true, true, (0, 2));
    assert!(t.change(7, ds, usage(SAMPLED)).is_ok());
    let snapshot = t.clone();
    let mut out: Vec<PendingTransition> = Vec::new();
    assert!(t.merge_record(7, &snapshot, Stitch::Init, &mut out).is_ok());
    assert!(out.is_empty());
    let mut out2: Vec<PendingTransition> = Vec::new();
    assert!(t.merge_record(7, &snapshot, Stitch::Last, &mut out2).is_ok());
    assert!(out2.is_empty());
}

#[test]
fn merge_last_adopts_other_final_state() {
    let sel = color_sel((0, 1), (0, 2));
    let mut t1 = TextureStates::new();
    assert!(t1.change(7, sel, usage(COPY_SRC)).is_ok());
    let mut t2 = TextureStates::new();
    let mut scratch: Vec<PendingTransition> = Vec::new();
    assert!(t2.change_record(7, sel, usage(COPY_SRC), &mut scratch).is_ok());
    assert!(t2.change_record(7, sel, usage(ATTACHMENT), &mut scratch).is_ok());
    assert!(t1.merge(7, &t2, Stitch::Last).is_ok());
    // under Last the other side's final usage is adopted directly
    assert_eq!(t1.query(sel), Some(usage(ATTACHMENT)));
}

#[test]
fn depth_change_leaves_stencil_alone() {
    let mut t = TextureStates::new();
    assert!(t.change(7, ds_sel(true, true, (0, 4)), usage(SAMPLED)).is_ok());
    assert!(t.change(7, ds_sel(true, false, (0, 4)), usage(COPY_SRC)).is_ok());
    assert_eq!(t.query(ds_sel(false, true, (0, 4))), Some(usage(SAMPLED)));
    assert_eq!(t.query(ds_sel(true, false, (0, 4))), Some(usage(SAMPLED | COPY_SRC)));
}

#[test]
fn depth_and_stencil_conflict_independently() {
    let mut t = TextureStates::new();
    assert!(t.change(7, ds_sel(true, true, (0, 2)), usage(COPY_DST)).is_ok());
    // a second write on the depth aspect alone must fail
    let err = t.change(7, ds_sel(true, false, (0, 2)), usage(ATTACHMENT));
    match err {
        Err(p) => {
            assert_eq!(p.usage.start, usage(COPY_DST));
            assert_eq!(p.usage.end, usage(ATTACHMENT));
            assert!(p.selector.aspects.depth);
            assert!(!p.selector.aspects.stencil);
        },
        Ok(()) => panic!("conflicting depth writes must fail"),
    }
}

#[test]
fn tracker_maps_stay_coalesced() {
    // two changes of adjacent layer ranges to the same usage end in one entry
    let mut t = TextureStates::new();
    assert!(t.change(7, color_sel((0, 1), (0, 2)), usage(SAMPLED)).is_ok());
    assert!(t.change(7, color_sel((0, 1), (2, 4)), usage(SAMPLED)).is_ok());
    assert_eq!(t.color_mips[0].entries.len(), 1);
    assert_eq!(t.color_mips[0].entries[0].0, LayerRange { start: 0, end: 4 });
}

#[test]
fn change_on_empty_layer_range_changes_nothing() {
    let mut t = TextureStates::new();
    let sel = color_sel((0, 1), (3, 3));
    assert!(t.change(7, sel, usage(SAMPLED)).is_ok());
    assert_eq!(t.query(color_sel((0, 1), (0, 8))), None);
}

#[test]
fn merge_grows_color_levels() {
    let mut t1 = TextureStates::new();
    let mut t2 = TextureStates::new();
    assert!(t2.change(7, color_sel((0, 3), (0, 2)), usage(SAMPLED)).is_ok());
    assert!(t1.merge(7, &t2, Stitch::Last).is_ok());
    assert_eq!(t1.color_mips.len(), 3);
    assert_eq!(t1.query(color_sel((0, 3), (0, 2))), Some(usage(SAMPLED)));
}
