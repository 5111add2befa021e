use pullauta::geometry::{Classification, Geometry, Point3, Polylines};
use pullauta::merge::{filter_intermed, merge_stacks, name_ends_with, LineMerger};

// points are opaque bit-pattern pairs; ends are quantised keys
const A: (u64, u64) = (10, 10);
const B: (u64, u64) = (20, 20);
const C: (u64, u64) = (30, 30);
const KA: (i64, i64) = (10_000, 10_000);
const KB: (i64, i64) = (20_000, 20_000);
const KC: (i64, i64) = (30_000, 30_000);

#[test]
fn joins_tail_to_head() {
    let mut merger = LineMerger::new();
    merger.add_line(vec![A, B], KA, KB);
    merger.add_line(vec![B, C], KB, KC);
    let merged = merger.merge();
    assert_eq!(merged.len(), 2);
    // the joined line keeps both copies of the shared end
    assert_eq!(merged[0], vec![A, B, B, C]);
    assert!(merged[1].is_empty());
}

#[test]
fn joins_tail_to_tail_reversing() {
    let mut merger = LineMerger::new();
    merger.add_line(vec![A, B], KA, KB);
    merger.add_line(vec![C, B], KC, KB);
    let merged = merger.merge();
    assert_eq!(merged[0], vec![A, B, B, C]);
    assert!(merged[1].is_empty());
}

#[test]
fn joins_head_to_head_reversing() {
    let mut merger = LineMerger::new();
    merger.add_line(vec![B, A], KB, KA);
    merger.add_line(vec![B, C], KB, KC);
    let merged = merger.merge();
    assert_eq!(merged[0], vec![C, B, B, A]);
    assert!(merged[1].is_empty());
}

#[test]
fn separate_lines_stay_apart() {
    let mut merger = LineMerger::new();
    merger.add_line(vec![A, B], KA, KB);
    merger.add_line(vec![C, (40, 40)], KC, (40_000, 40_000));
    let merged = merger.merge();
    assert_eq!(merged[0], vec![A, B]);
    assert_eq!(merged[1], vec![C, (40, 40)]);
}

#[test]
fn chains_three_lines() {
    let mut merger = LineMerger::new();
    merger.add_line(vec![A, B], KA, KB);
    merger.add_line(vec![B, C], KB, KC);
    merger.add_line(vec![C, (40, 40)], KC, (40_000, 40_000));
    let merged = merger.merge();
    assert_eq!(merged[0], vec![A, B, B, C, C, (40, 40)]);
    assert!(merged[1].is_empty());
    assert!(merged[2].is_empty());
}

#[test]
fn combined_stack_drops_intermediate_contours() {
    let mut lines: Polylines<Point3, (Classification, u64)> = Polylines::new();
    let p = |x: f64| Point3::new(x.to_bits(), x.to_bits(), 5.0f64.to_bits());
    lines.push(vec![p(1.0), p(2.0)], (Classification::Contour, 5.0f64.to_bits()));
    lines.push(vec![p(3.0), p(4.0)], (Classification::ContourIntermed, 7.5f64.to_bits()));
    lines.push(vec![p(5.0), p(6.0)], (Classification::DepressionIndexIntermed, 2.5f64.to_bits()));
    lines.push(vec![p(7.0), p(8.0)], (Classification::ContourIndex, 10.0f64.to_bits()));

    let filtered = filter_intermed(Geometry::Polylines3(lines));
    match filtered {
        Geometry::Polylines3(kept) => {
            let (polys, classes) = kept.iter();
            assert_eq!(polys.len(), 2);
            assert_eq!(classes[0].0, Classification::Contour);
            assert_eq!(classes[1].0, Classification::ContourIndex);
            assert_eq!(polys[0][0], p(1.0));
            assert_eq!(polys[1][1], p(8.0));
        }
        _ => panic!("variant should be preserved"),
    }
}

#[test]
fn merge_stacks_concatenates_in_tile_order() {
    let mut a: Polylines<Point3, (Classification, u64)> = Polylines::new();
    a.push(vec![Point3::new(1, 1, 1)], (Classification::Contour, 0));
    let mut b: Polylines<Point3, (Classification, u64)> = Polylines::new();
    b.push(vec![Point3::new(2, 2, 2)], (Classification::Depression, 0));
    let merged = merge_stacks(vec![
        vec![Geometry::Polylines3(a)],
        vec![],
        vec![Geometry::Polylines3(b)],
    ]);
    assert_eq!(merged.len(), 2);
    match (&merged[0], &merged[1]) {
        (Geometry::Polylines3(first), Geometry::Polylines3(second)) => {
            assert_eq!(first.iter().1[0].0, Classification::Contour);
            assert_eq!(second.iter().1[0].0, Classification::Depression);
        }
        _ => panic!("order should be kept"),
    }
}

#[test]
fn name_suffix_matching() {
    let chars = |s: &str| s.chars().collect::<Vec<char>>();
    assert!(name_ends_with(&chars("tile_1_contours.dxf.bin"), &chars("_contours.dxf.bin")));
    assert!(!name_ends_with(&chars("tile_1_cliffs.dxf.bin"), &chars("_contours.dxf.bin")));
    assert!(!name_ends_with(&chars("short"), &chars("_contours.dxf.bin")));
    assert!(name_ends_with(&chars("anything"), &chars("")));
}
