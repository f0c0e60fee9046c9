use whiteboard_core::diagram::classify_diagram;
use whiteboard_core::ocr::{TextBounds, TextRegion};
use whiteboard_core::shapes::{
    ArrowHead, DetectedShape, ShapeBounds, ShapeProperties, ShapeType,
};

fn dshape(id: &str, shape_type: ShapeType) -> DetectedShape {
    DetectedShape {
        id: id.to_string(),
        shape_type,
        bounds: ShapeBounds { x: 0, y: 0, width: 100_000, height: 50_000, rotation: 0 },
        confidence: 9000,
        stroke_ids: vec![format!("{}-stroke", id)],
        properties: ShapeProperties {
            center_x: 50_000,
            center_y: 25_000,
            radius: None,
            start_point: Some((0, 0)),
            end_point: Some((100_000, 50_000)),
            corner_radius: None,
            arrow_head: None,
        },
    }
}

fn dtext(text: &str) -> TextRegion {
    TextRegion {
        id: format!("t-{}", text),
        text: text.as_bytes().to_vec(),
        bounds: TextBounds { x: 10_000, y: 10_000, width: 40_000, height: 20_000 },
        confidence: 8000,
        font_size_estimate: 14_000,
    }
}

#[test]
fn test_flowchart_classification() {
    // One diamond, one arrow, one rectangle, and yes/no text.
    let shapes = vec![
        dshape("d", ShapeType::Diamond),
        dshape("a", ShapeType::Arrow),
        dshape("r", ShapeType::Rectangle),
    ];
    let texts = vec![dtext("yes"), dtext("no")];
    let (label, confidence) = classify_diagram(&shapes, &texts);
    assert_eq!(label, "flowchart");
    // 0.3 + 2 keyword hits * 0.1 + (1 diamond + 1 arrow) / 3 * 0.3.
    assert_eq!(confidence, 7000);
    assert!((3000..=9500).contains(&confidence));
}

#[test]
fn test_empty_input_safety() {
    let (label, confidence) = classify_diagram(&[], &[]);
    assert_eq!(label, "freeform");
    assert_eq!(confidence, 3000);
}

#[test]
fn test_uml_classification() {
    let shapes = vec![
        dshape("r1", ShapeType::Rectangle),
        dshape("r2", ShapeType::Rectangle),
        dshape("r3", ShapeType::Rectangle),
        dshape("a", ShapeType::Line),
    ];
    let texts = vec![dtext("class Foo extends Bar")];
    let (label, confidence) = classify_diagram(&shapes, &texts);
    assert_eq!(label, "uml_class");
    // 0.3 + 2 keyword hits * 0.15.
    assert_eq!(confidence, 6000);
}

#[test]
fn test_state_diagram_classification() {
    let shapes = vec![
        dshape("c1", ShapeType::Circle),
        dshape("c2", ShapeType::Ellipse),
        dshape("k", ShapeType::Connector),
    ];
    let (label, confidence) = classify_diagram(&shapes, &[]);
    assert_eq!(label, "state_diagram");
    assert_eq!(confidence, 6000);
}

#[test]
fn test_block_diagram_classification() {
    let shapes = vec![dshape("r", ShapeType::Rectangle), dshape("a", ShapeType::Arrow)];
    let (label, confidence) = classify_diagram(&shapes, &[]);
    assert_eq!(label, "block_diagram");
    assert_eq!(confidence, 5000);
}

#[test]
fn test_keyword_matching_is_case_insensitive() {
    // Uppercase text still matches: the haystack is lowercased before
    // the keyword scan.
    let shapes = vec![
        dshape("d", ShapeType::Diamond),
        dshape("a", ShapeType::Arrow),
        dshape("r", ShapeType::Rectangle),
    ];
    let texts = vec![dtext("START"), dtext("End")];
    let (label, confidence) = classify_diagram(&shapes, &texts);
    assert_eq!(label, "flowchart");
    // 0.3 + 2 hits * 0.1 + 2/3 * 0.3.
    assert_eq!(confidence, 7000);
}

#[test]
fn test_keywords_span_region_boundary_with_separator() {
    // Regions are joined with a space, so a keyword split across two
    // regions does not match.
    let shapes = vec![
        dshape("d", ShapeType::Diamond),
        dshape("a", ShapeType::Arrow),
        dshape("r", ShapeType::Rectangle),
    ];
    let texts = vec![dtext("sta"), dtext("rt")];
    let (_, confidence) = classify_diagram(&shapes, &texts);
    // No keyword hits: 0.3 + 0 + 2/3 * 0.3.
    assert_eq!(confidence, 5000);
}

#[test]
fn test_arrow_head_fields() {
    let head = ArrowHead { style: "classic".to_string(), size: 10_000, direction: 4500 };
    assert_eq!(head.style, "classic");
    assert_eq!(head.size, 10_000);
    assert_eq!(head.direction, 4500);
}
