use pullauta::crop::{crop_lines, crop_points};
use pullauta::geometry::{
    program_version, BinaryDxf, Bounds, Classification, Geometry, Point2, Point3, Points,
    Polylines,
};

fn p2(x: f64, y: f64) -> Point2 {
    Point2::new(x.to_bits(), y.to_bits())
}

#[test]
fn test_classification_size_is_single_byte() {
    assert_eq!(
        std::mem::size_of::<Classification>(),
        1,
        "Classification should be a single byte"
    );
}

#[test]
fn classification_layers() {
    assert_eq!(Classification::ContourSimple.to_layer(), "cont");
    assert_eq!(Classification::Contour.to_layer(), "contour");
    assert_eq!(Classification::DepressionIndexIntermed.to_layer(), "depression_index_intermed");
    assert_eq!(Classification::UglyUdepression.to_layer(), "uglyudepression");
    assert_eq!(Classification::Cliff4.to_layer(), "cliff4");
}

#[test]
fn classification_predicates() {
    assert!(Classification::Contour.is_contour());
    assert!(!Classification::Depression.is_contour());
    assert!(Classification::DepressionIndex.is_depression());
    assert!(!Classification::ContourIndex.is_depression());
    assert!(Classification::ContourIndex.is_index());
    assert!(!Classification::ContourIntermed.is_index());
    assert!(Classification::DepressionIntermed.is_intermed());
    assert!(!Classification::Dotknoll.is_intermed());
}

#[test]
fn crop_keeps_inside_run_and_anchors() {
    let mut lines: Polylines<Point2, Classification> = Polylines::new();
    // the line enters across the lower x boundary, runs inside, and
    // leaves across the upper x boundary
    lines.push(
        vec![p2(-5.0, 5.0), p2(1.0, 5.0), p2(2.0, 6.0), p2(15.0, 6.0), p2(16.0, 6.0)],
        Classification::ContourSimple,
    );
    let out = crop_lines(
        &lines,
        0.0f64.to_bits(),
        0.0f64.to_bits(),
        10.0f64.to_bits(),
        10.0f64.to_bits(),
    );
    let (polys, classes) = out.iter();
    assert_eq!(polys.len(), 1);
    assert_eq!(classes[0], Classification::ContourSimple);
    // the anchor before the entry is kept, the exit across the upper
    // boundary is not
    assert_eq!(polys[0], vec![p2(-5.0, 5.0), p2(1.0, 5.0), p2(2.0, 6.0)]);
}

#[test]
fn crop_keeps_trailing_point_on_lower_exit() {
    let mut lines: Polylines<Point3, (Classification, u64)> = Polylines::new();
    let p = |x: f64, y: f64| Point3::new(x.to_bits(), y.to_bits(), 7.0f64.to_bits());
    lines.push(
        vec![p(1.0, 5.0), p(2.0, 5.0), p(3.0, -1.0), p(4.0, -2.0)],
        (Classification::Contour, 7.0f64.to_bits()),
    );
    let out = crop_lines(
        &lines,
        0.0f64.to_bits(),
        0.0f64.to_bits(),
        10.0f64.to_bits(),
        10.0f64.to_bits(),
    );
    let (polys, _) = out.iter();
    assert_eq!(polys.len(), 1);
    // the first point beyond the lower boundary closes the line
    assert_eq!(polys[0], vec![p(1.0, 5.0), p(2.0, 5.0), p(3.0, -1.0)]);
}

#[test]
fn crop_drops_single_point_runs() {
    let mut lines: Polylines<Point2, Classification> = Polylines::new();
    lines.push(vec![p2(20.0, 20.0), p2(5.0, 5.0), p2(20.0, 21.0)], Classification::ContourSimple);
    let out = crop_lines(
        &lines,
        0.0f64.to_bits(),
        0.0f64.to_bits(),
        10.0f64.to_bits(),
        10.0f64.to_bits(),
    );
    let (polys, _) = out.iter();
    assert_eq!(polys.len(), 0);
}

#[test]
fn crop_points_filters_exactly() {
    let mut points = Points::new();
    points.push(p2(1.0, 1.0), Classification::Dotknoll);
    points.push(p2(11.0, 1.0), Classification::Udepression);
    points.push(p2(5.0, 5.0), Classification::Dotknoll);
    points.push(p2(5.0, -0.5), Classification::Dotknoll);
    let out = crop_points(
        &points,
        0.0f64.to_bits(),
        0.0f64.to_bits(),
        10.0f64.to_bits(),
        10.0f64.to_bits(),
    );
    assert_eq!(out.len(), 2);
    let (pts, classes) = out.iter();
    assert_eq!(pts[0], p2(1.0, 1.0));
    assert_eq!(pts[1], p2(5.0, 5.0));
    assert_eq!(classes[0], Classification::Dotknoll);
    assert_eq!(classes[1], Classification::Dotknoll);
}

#[test]
fn nan_coordinates_are_cropped_out() {
    let mut points = Points::new();
    points.push(p2(f64::NAN, 1.0), Classification::Dotknoll);
    points.push(p2(2.0, 2.0), Classification::Dotknoll);
    let out = crop_points(
        &points,
        0.0f64.to_bits(),
        0.0f64.to_bits(),
        10.0f64.to_bits(),
        10.0f64.to_bits(),
    );
    assert_eq!(out.len(), 1);
}

#[test]
fn polylines_container_basics() {
    let mut lines: Polylines<Point2, Classification> = Polylines::with_capacity(4);
    assert_eq!(lines.len(), 0);
    lines.push(vec![p2(0.0, 0.0), p2(1.0, 1.0)], Classification::Contour);
    lines.push(vec![p2(2.0, 2.0)], Classification::Depression);
    assert_eq!(lines.len(), 2);
    let (polys, classes) = lines.iter();
    assert_eq!(polys[0].len(), 2);
    assert_eq!(classes[1], Classification::Depression);
}

#[test]
fn binary_dxf_envelope_keeps_its_parts() {
    let bounds = Bounds::new(
        0.0f64.to_bits(),
        10.0f64.to_bits(),
        0.0f64.to_bits(),
        10.0f64.to_bits(),
    );
    let mut lines: Polylines<Point2, Classification> = Polylines::new();
    lines.push(vec![p2(1.0, 1.0), p2(2.0, 2.0)], Classification::ContourSimple);
    let container = BinaryDxf::new(bounds, vec![Geometry::Polylines2(lines)]);
    assert_eq!(*container.bounds(), bounds);

    let (version, bounds2, data) = container.into_parts();
    // a fresh container is stamped with the producing program's version
    assert_eq!(version, program_version());
    assert_eq!(bounds2, bounds);

    let reread = BinaryDxf::from_parts(version, bounds2, data);
    let geometry = reread.take_geometry();
    assert_eq!(geometry.len(), 1);
    match &geometry[0] {
        Geometry::Polylines2(lines) => {
            let (polys, _) = lines.iter();
            assert_eq!(polys[0].len(), 2);
        }
        _ => panic!("expected polylines"),
    }
}
