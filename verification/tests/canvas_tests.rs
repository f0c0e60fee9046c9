use whiteboard_core::canvas::{
    calculate_bounding_box, normalize_strokes, parse_color, simplify_stroke, CanvasConfig, Stroke,
};
use whiteboard_core::geom::{Point, MILLI};

fn cpt(x: i64, y: i64, timestamp: u64) -> Point {
    Point { x, y, pressure: None, timestamp }
}

fn cstroke(id: &str, points: Vec<Point>) -> Stroke {
    Stroke {
        id: id.to_string(),
        points,
        color: "#000000".to_string(),
        width: 2 * MILLI,
        tool: "pen".to_string(),
    }
}

#[test]
fn test_parse_color() {
    let color = parse_color("#ff0000".as_bytes());
    assert_eq!(color, (255, 0, 0, 255));

    let color2 = parse_color("#00ff00ff".as_bytes());
    assert_eq!(color2, (0, 255, 0, 255));
}

#[test]
fn test_bounding_box() {
    let strokes = vec![cstroke(
        "1",
        vec![cpt(10 * MILLI, 20 * MILLI, 0), cpt(100 * MILLI, 200 * MILLI, 1)],
    )];

    let bbox = calculate_bounding_box(&strokes);
    assert_eq!(bbox, Some((10 * MILLI, 20 * MILLI, 100 * MILLI, 200 * MILLI)));
}

#[test]
fn test_simplify_stroke() {
    // x steps of one unit, y wobbling by a tenth of a unit.
    let points = vec![
        cpt(0, 0, 0),
        cpt(1000, 100, 1),
        cpt(2000, 0, 2),
        cpt(3000, 100, 3),
        cpt(4000, 0, 4),
    ];

    let simplified = simplify_stroke(&points, 500);
    assert!(simplified.len() <= points.len());
}

#[test]
fn test_simplify_preserves_endpoints() {
    let points: Vec<Point> = (0..50)
        .map(|i| cpt(i * 1000, (i % 7) * 300, i as u64))
        .collect();
    let simplified = simplify_stroke(&points, 2000);
    assert!(!simplified.is_empty());
    assert!(simplified.len() <= points.len());
    let first = simplified.first().unwrap();
    let last = simplified.last().unwrap();
    assert_eq!((first.x, first.y), (points[0].x, points[0].y));
    assert_eq!((last.x, last.y), (points[49].x, points[49].y));
}

#[test]
fn test_simplify_deterministic() {
    let points: Vec<Point> = (0..30)
        .map(|i| cpt(i * 500, ((i * i) % 11) * 200, i as u64))
        .collect();
    let a = simplify_stroke(&points, 700);
    let b = simplify_stroke(&points, 700);
    assert_eq!(a.len(), b.len());
    for (p, q) in a.iter().zip(b.iter()) {
        assert_eq!((p.x, p.y), (q.x, q.y));
    }
}

#[test]
fn test_normalize_preserves_aspect_ratio() {
    // A 100 x 50 unit box normalized into a 1000 x 1000 viewport with
    // 10 units of padding: the scaled box must keep the 2:1 ratio.
    let strokes = vec![cstroke(
        "s",
        vec![cpt(0, 0, 0), cpt(100 * MILLI, 0, 1), cpt(100 * MILLI, 50 * MILLI, 2)],
    )];
    let normalized = normalize_strokes(&strokes, 1000 * MILLI, 1000 * MILLI, 10 * MILLI);
    let bbox = calculate_bounding_box(&normalized).unwrap();
    let w = bbox.2 - bbox.0;
    let h = bbox.3 - bbox.1;
    // Exact ratio up to the milliunit rounding of each coordinate.
    assert!((w - 2 * h).abs() <= 2);
    // The scaled content fits the padded viewport.
    assert!(bbox.0 >= 10 * MILLI && bbox.2 <= 990 * MILLI);
    assert!(bbox.1 >= 10 * MILLI && bbox.3 <= 990 * MILLI);
}

#[test]
fn test_normalize_degenerate_unchanged() {
    // A single point has a zero-size box: the batch passes through.
    let strokes = vec![cstroke("s", vec![cpt(5 * MILLI, 5 * MILLI, 0)])];
    let normalized = normalize_strokes(&strokes, 1000 * MILLI, 1000 * MILLI, 10 * MILLI);
    assert_eq!(normalized.len(), 1);
    assert_eq!(normalized[0].points[0].x, 5 * MILLI);
    assert_eq!(normalized[0].points[0].y, 5 * MILLI);
}

#[test]
fn test_canvas_config_default() {
    let config = CanvasConfig::default();
    assert_eq!(config.width, 1920);
    assert_eq!(config.height, 1080);
    assert_eq!(config.background_color, "#ffffff");
    assert_eq!(config.grid_size, Some(20));
}

#[test]
fn test_point_creation() {
    let point = Point {
        x: 100 * MILLI,
        y: 200 * MILLI,
        pressure: Some(500),
        timestamp: 12345,
    };
    assert_eq!(point.x, 100 * MILLI);
    assert_eq!(point.y, 200 * MILLI);
}

#[test]
fn test_stroke_creation() {
    let stroke = Stroke {
        id: "test-1".to_string(),
        points: vec![],
        color: "#000000".to_string(),
        width: 2 * MILLI,
        tool: "pen".to_string(),
    };
    assert_eq!(stroke.id, "test-1");
}
