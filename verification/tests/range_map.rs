use texture_track::range::LayerRange;
use texture_track::range::RangedStates;
use texture_track::unit::Unit;
use texture_track::usage::TextureUsage;
use texture_track::usage::COPY_SRC;
use texture_track::usage::SAMPLED;

fn rg(start: u16, end: u16) -> LayerRange {
    LayerRange { start, end }
}

fn unit(bits: u32) -> Unit {
    Unit { init: TextureUsage { bits }, last: TextureUsage { bits } }
}

#[test]
fn lookup_finds_appended_entry() {
    let mut m: RangedStates<Unit> = RangedStates::new();
    m.append(rg(2, 5), unit(SAMPLED));
    assert_eq!(m.lookup(1), None);
    assert_eq!(m.lookup(2), Some(unit(SAMPLED)));
    assert_eq!(m.lookup(4), Some(unit(SAMPLED)));
    assert_eq!(m.lookup(5), None);
}

#[test]
fn append_coalesces_equal_adjacent() {
    let mut m: RangedStates<Unit> = RangedStates::new();
    m.append(rg(0, 2), unit(SAMPLED));
    m.append(rg(2, 4), unit(SAMPLED));
    assert_eq!(m.len(), 1);
    assert_eq!(m.get(0), (rg(0, 4), unit(SAMPLED)));
}

#[test]
fn append_keeps_distinct_adjacent() {
    let mut m: RangedStates<Unit> = RangedStates::new();
    m.append(rg(0, 2), unit(SAMPLED));
    m.append(rg(2, 4), unit(COPY_SRC));
    assert_eq!(m.len(), 2);
}

#[test]
fn isolate_splits_at_boundaries() {
    let mut m: RangedStates<Unit> = RangedStates::new();
    m.append(rg(0, 10), unit(SAMPLED));
    m.isolate(rg(3, 7), unit(COPY_SRC));
    // the value survives on every piece, boundaries align with the range
    assert_eq!(m.len(), 3);
    assert_eq!(m.get(0), (rg(0, 3), unit(SAMPLED)));
    assert_eq!(m.get(1), (rg(3, 7), unit(SAMPLED)));
    assert_eq!(m.get(2), (rg(7, 10), unit(SAMPLED)));
}

#[test]
fn isolate_fills_gaps_with_default() {
    let mut m: RangedStates<Unit> = RangedStates::new();
    m.append(rg(2, 4), unit(SAMPLED));
    m.isolate(rg(0, 6), unit(COPY_SRC));
    // covered span afterwards is the old span plus the filled gaps
    assert_eq!(m.lookup(0), Some(unit(COPY_SRC)));
    assert_eq!(m.lookup(2), Some(unit(SAMPLED)));
    assert_eq!(m.lookup(3), Some(unit(SAMPLED)));
    assert_eq!(m.lookup(4), Some(unit(COPY_SRC)));
    assert_eq!(m.lookup(5), Some(unit(COPY_SRC)));
    assert_eq!(m.lookup(6), None);
    // boundaries include exactly the range's start and end
    assert_eq!(m.get(0).0.start, 0);
    let last = m.get(m.len() - 1);
    assert_eq!(last.0.end, 6);
}

#[test]
fn isolate_then_coalesce_round_trip() {
    // splitting an entry and re-coalescing yields the original single entry
    let mut m: RangedStates<Unit> = RangedStates::new();
    m.append(rg(0, 8), unit(SAMPLED));
    m.isolate(rg(2, 5), unit(COPY_SRC));
    assert_eq!(m.len(), 3);
    m.coalesce();
    assert_eq!(m.len(), 1);
    assert_eq!(m.get(0), (rg(0, 8), unit(SAMPLED)));
}

#[test]
fn merge_with_covers_union_of_spans() {
    let mut a: RangedStates<Unit> = RangedStates::new();
    a.append(rg(0, 4), unit(SAMPLED));
    let mut b: RangedStates<Unit> = RangedStates::new();
    b.append(rg(2, 6), unit(COPY_SRC));
    let d = unit(0);
    let merged = a.merge_with(&b, d);
    assert_eq!(merged.len(), 3);
    assert_eq!(merged[0], (rg(0, 2), (unit(SAMPLED), d)));
    assert_eq!(merged[1], (rg(2, 4), (unit(SAMPLED), unit(COPY_SRC))));
    assert_eq!(merged[2], (rg(4, 6), (d, unit(COPY_SRC))));
}

#[test]
fn merge_with_empty_other_defaults() {
    let mut a: RangedStates<Unit> = RangedStates::new();
    a.append(rg(1, 3), unit(SAMPLED));
    let b: RangedStates<Unit> = RangedStates::new();
    let d = unit(0);
    let merged = a.merge_with(&b, d);
    assert_eq!(merged.len(), 1);
    assert_eq!(merged[0], (rg(1, 3), (unit(SAMPLED), d)));
}
