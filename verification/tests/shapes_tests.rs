use whiteboard_core::canvas::Stroke;
use whiteboard_core::geom::{Point, MILLI};
use whiteboard_core::shapes::{
    calculate_bounds, calculate_centroid, calculate_straightness, detect_arrow_head,
    detect_shapes, is_stroke_closed, DetectionParams, ShapeType, SCORE_ONE,
};

fn spt(x: i64, y: i64, timestamp: u64) -> Point {
    Point { x, y, pressure: None, timestamp }
}

fn sstroke(id: &str, points: Vec<Point>) -> Stroke {
    Stroke {
        id: id.to_string(),
        points,
        color: "#000000".to_string(),
        width: 2 * MILLI,
        tool: "pen".to_string(),
    }
}

#[test]
fn test_calculate_bounds() {
    let points = vec![
        spt(10 * MILLI, 20 * MILLI, 0),
        spt(100 * MILLI, 200 * MILLI, 1),
        spt(50 * MILLI, 100 * MILLI, 2),
    ];

    let bounds = calculate_bounds(&points);
    assert_eq!(bounds.x, 10 * MILLI);
    assert_eq!(bounds.y, 20 * MILLI);
    assert_eq!(bounds.width, 90 * MILLI);
    assert_eq!(bounds.height, 180 * MILLI);
}

#[test]
fn test_calculate_centroid() {
    let points = vec![
        spt(0, 0, 0),
        spt(100 * MILLI, 0, 1),
        spt(100 * MILLI, 100 * MILLI, 2),
        spt(0, 100 * MILLI, 3),
    ];

    let center = calculate_centroid(&points);
    assert_eq!(center.0, 50 * MILLI);
    assert_eq!(center.1, 50 * MILLI);
}

#[test]
fn test_is_stroke_closed() {
    let closed_points = vec![
        spt(0, 0, 0),
        spt(100 * MILLI, 0, 1),
        spt(100 * MILLI, 100 * MILLI, 2),
        spt(5 * MILLI, 5 * MILLI, 3),
    ];

    assert!(is_stroke_closed(&closed_points, 10 * MILLI));

    let open_points = vec![spt(0, 0, 0), spt(100 * MILLI, 100 * MILLI, 1)];

    assert!(!is_stroke_closed(&open_points, 10 * MILLI));
}

#[test]
fn test_calculate_straightness() {
    let straight_points: Vec<Point> = (0..10)
        .map(|i| spt(i * 10 * MILLI, i * 10 * MILLI, i as u64))
        .collect();

    let straightness = calculate_straightness(&straight_points);
    assert!(straightness > 9900);
}

#[test]
fn test_bounds_contain_points() {
    let points: Vec<Point> = (0..20)
        .map(|i| spt((i * 37) % 450 * MILLI, ((i * 91) % 300) * MILLI, i as u64))
        .collect();
    let bounds = calculate_bounds(&points);
    for p in &points {
        assert!(bounds.x <= p.x && p.x <= bounds.x + bounds.width);
        assert!(bounds.y <= p.y && p.y <= bounds.y + bounds.height);
    }
}

#[test]
fn test_closed_square_classifies_rectangle() {
    // A square stroke: the four corners plus samples along the top and
    // bottom edges, drawn in order and closed.
    let xs = [0, 30, 40, 50, 60, 70, 100];
    let mut pts: Vec<Point> = Vec::new();
    for (k, &x) in xs.iter().enumerate() {
        pts.push(spt(x * MILLI, 0, k as u64));
    }
    pts.push(spt(100 * MILLI, 100 * MILLI, 7));
    for (k, &x) in xs.iter().rev().enumerate() {
        pts.push(spt(x * MILLI, 100 * MILLI, 8 + k as u64));
    }
    pts.push(spt(0, 0, 15));
    let shapes = detect_shapes(&[sstroke("sq", pts)]);
    assert_eq!(shapes.len(), 1);
    assert_eq!(shapes[0].shape_type, ShapeType::Rectangle);
    assert!(shapes[0].confidence > 8000);
}

#[test]
fn test_circle_classifies_circle() {
    // 360 points sampled evenly on a circle of radius 50 units.
    let mut pts: Vec<Point> = Vec::new();
    for i in 0..360 {
        let theta = (i as f64) * std::f64::consts::PI / 180.0;
        let x = (50000.0 * theta.cos()).round() as i64;
        let y = (50000.0 * theta.sin()).round() as i64;
        pts.push(spt(x, y, i as u64));
    }
    let shapes = detect_shapes(&[sstroke("c", pts)]);
    assert_eq!(shapes.len(), 1);
    assert_eq!(shapes[0].shape_type, ShapeType::Circle);
    assert!(shapes[0].confidence > 9500);
    assert!(shapes[0].confidence <= SCORE_ONE);
    assert!(shapes[0].properties.radius.is_some());
    let r = shapes[0].properties.radius.unwrap();
    assert!((r - 50 * MILLI).abs() < MILLI);
}

#[test]
fn test_colinear_points_classify_line() {
    // 10 colinear points from (0,0) to (90,90).
    let pts: Vec<Point> = (0..10)
        .map(|i| spt(i * 10 * MILLI, i * 10 * MILLI, i as u64))
        .collect();
    let shapes = detect_shapes(&[sstroke("l", pts)]);
    assert_eq!(shapes.len(), 1);
    assert_eq!(shapes[0].shape_type, ShapeType::Line);
    assert!(shapes[0].confidence > 9900);
    assert!(shapes[0].properties.arrow_head.is_none());
}

#[test]
fn test_barbed_stroke_classifies_arrow() {
    // A long straight run with a short backward barb at the tip.
    let mut pts: Vec<Point> = (0..10)
        .map(|i| spt(i * 100 * MILLI, 0, i as u64))
        .collect();
    pts.push(spt(880 * MILLI, 14 * MILLI, 10));
    let shapes = detect_shapes(&[sstroke("a", pts)]);
    assert_eq!(shapes.len(), 1);
    assert_eq!(shapes[0].shape_type, ShapeType::Arrow);
    let head = shapes[0].properties.arrow_head.as_ref().unwrap();
    assert_eq!(head.style, "classic");
    assert_eq!(head.size, 10 * MILLI);
}

#[test]
fn test_bent_stroke_classifies_connector() {
    let pts = vec![
        spt(0, 0, 0),
        spt(50 * MILLI, 0, 1),
        spt(100 * MILLI, 0, 2),
        spt(100 * MILLI, 50 * MILLI, 3),
        spt(100 * MILLI, 100 * MILLI, 4),
    ];
    let shapes = detect_shapes(&[sstroke("k", pts)]);
    assert_eq!(shapes.len(), 1);
    assert_eq!(shapes[0].shape_type, ShapeType::Connector);
    assert_eq!(shapes[0].confidence, 6000);
}

#[test]
fn test_short_strokes_are_skipped() {
    // Fewer than the default minimum of five points: no shape.
    let pts = vec![spt(0, 0, 0), spt(10 * MILLI, 0, 1), spt(20 * MILLI, 0, 2)];
    let shapes = detect_shapes(&[sstroke("tiny", pts)]);
    assert!(shapes.is_empty());
}

#[test]
fn test_detected_shape_ids_are_fresh() {
    let mk = |id: &str| {
        sstroke(
            id,
            (0..10)
                .map(|i| spt(i * 10 * MILLI, i * 10 * MILLI, i as u64))
                .collect(),
        )
    };
    let shapes = detect_shapes(&[mk("one"), mk("two")]);
    assert_eq!(shapes.len(), 2);
    assert_eq!(shapes[0].id.len(), 36);
    assert_eq!(shapes[1].id.len(), 36);
    assert_ne!(shapes[0].id, shapes[1].id);
    assert_eq!(shapes[0].stroke_ids, vec!["one".to_string()]);
    assert_eq!(shapes[1].stroke_ids, vec!["two".to_string()]);
}

#[test]
fn test_arrow_head_requires_five_points() {
    let pts = vec![spt(0, 0, 0), spt(10 * MILLI, 0, 1), spt(20 * MILLI, 5 * MILLI, 2)];
    assert!(detect_arrow_head(&pts, 30).is_none());
}

#[test]
fn test_detection_params_default() {
    let p = DetectionParams::default();
    assert_eq!(p.min_points, 5);
    assert_eq!(p.circularity_threshold, 8500);
    assert_eq!(p.rectangularity_threshold, 8000);
    assert_eq!(p.line_straightness_threshold, 9500);
    assert_eq!(p.arrow_angle_tolerance, 30);
}
