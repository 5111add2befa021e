use pullauta::contours::{thin_polyline, ContourAssembler};

#[test]
fn assembles_closed_loop() {
    let mut assembler = ContourAssembler::new();
    assembler.add_segment(0, 0, 100, 0);
    assembler.add_segment(100, 0, 100, 100);
    assembler.add_segment(100, 100, 0, 100);
    assembler.add_segment(0, 100, 0, 0);
    let lines = assembler.assemble();
    assert_eq!(lines.len(), 1);
    assert_eq!(lines[0], vec![(0, 0), (100, 0), (100, 100), (0, 100), (0, 0)]);
}

#[test]
fn assembles_open_chain() {
    let mut assembler = ContourAssembler::new();
    assembler.add_segment(0, 0, 10, 0);
    assembler.add_segment(10, 0, 20, 5);
    assembler.add_segment(20, 5, 30, 5);
    let lines = assembler.assemble();
    assert_eq!(lines.len(), 1);
    assert_eq!(lines[0], vec![(0, 0), (10, 0), (20, 5), (30, 5)]);
}

#[test]
fn separate_chains_make_separate_polylines() {
    let mut assembler = ContourAssembler::new();
    assembler.add_segment(0, 0, 10, 0);
    assembler.add_segment(50, 50, 60, 50);
    let lines = assembler.assemble();
    assert_eq!(lines.len(), 2);
    for line in &lines {
        assert!(line.len() >= 2);
    }
}

#[test]
fn degenerate_segments_are_dropped() {
    let mut assembler = ContourAssembler::new();
    assembler.add_segment(7, 7, 7, 7);
    let lines = assembler.assemble();
    assert_eq!(lines.len(), 0);
}

#[test]
fn thinning_drops_even_interior_points_of_long_lines() {
    let line: Vec<(i64, i64)> = (0..20).map(|i| (i, i)).collect();
    let thinned = thin_polyline(&line);
    let expected: Vec<(i64, i64)> =
        [0, 1, 2, 3, 4, 6, 8, 10, 12, 13, 14, 15, 16, 17, 18, 19]
            .iter()
            .map(|&i| (i, i))
            .collect();
    assert_eq!(thinned, expected);
}

#[test]
fn thinning_keeps_short_lines() {
    let line: Vec<(i64, i64)> = (0..13).map(|i| (i, 2 * i)).collect();
    assert_eq!(thin_polyline(&line), line);
}
