use whiteboard_core::drawio::{
    find_connection_endpoints, get_connector_style, get_style_for_shape, get_style_for_type,
    DiagramMetadata, DiagramNode, StylePresets,
};
use whiteboard_core::enhance::{
    bounds_overlap, detect_diagram_type, enhance_with_rules, find_node_at_point,
    get_default_style, get_edge_style, is_container_shape, is_connector_shape,
    map_shape_to_diagram_type,
};
use whiteboard_core::ocr::{
    analyze_handwriting_style, estimate_font_size, HandwritingStyle, OcrConfig, OcrMode,
    TextBounds, TextRegion,
};
use whiteboard_core::shapes::{DetectedShape, ShapeBounds, ShapeProperties, ShapeType};

fn eshape(id: &str, shape_type: ShapeType, x: i64, y: i64) -> DetectedShape {
    DetectedShape {
        id: id.to_string(),
        shape_type,
        bounds: ShapeBounds { x, y, width: 100_000, height: 50_000, rotation: 0 },
        confidence: 9000,
        stroke_ids: vec![format!("{}-stroke", id)],
        properties: ShapeProperties {
            center_x: x + 50_000,
            center_y: y + 25_000,
            radius: None,
            start_point: Some((x, y)),
            end_point: Some((x + 100_000, y + 50_000)),
            corner_radius: None,
            arrow_head: None,
        },
    }
}

fn etext(text: &str, x: i64, y: i64) -> TextRegion {
    TextRegion {
        id: format!("t-{}", text),
        text: text.as_bytes().to_vec(),
        bounds: TextBounds { x, y, width: 40_000, height: 20_000 },
        confidence: 8000,
        font_size_estimate: 14_000,
    }
}

#[test]
fn test_style_presets() {
    assert!(StylePresets::rectangle().contains("rounded=0"));
    assert!(StylePresets::diamond().contains("rhombus"));
    assert!(StylePresets::circle().contains("ellipse"));
    assert!(StylePresets::arrow().contains("endArrow=classic"));
}

#[test]
fn test_is_container_shape() {
    assert!(is_container_shape(&ShapeType::Rectangle));
    assert!(is_container_shape(&ShapeType::Circle));
    assert!(!is_container_shape(&ShapeType::Arrow));
}

#[test]
fn test_is_connector_shape() {
    assert!(is_connector_shape(&ShapeType::Arrow));
    assert!(is_connector_shape(&ShapeType::Line));
    assert!(!is_connector_shape(&ShapeType::Rectangle));
}

#[test]
fn test_map_shape_to_diagram_type() {
    assert_eq!(map_shape_to_diagram_type(&ShapeType::Rectangle), "process");
    assert_eq!(map_shape_to_diagram_type(&ShapeType::Diamond), "decision");
    assert_eq!(map_shape_to_diagram_type(&ShapeType::Circle), "terminator");
    assert_eq!(map_shape_to_diagram_type(&ShapeType::Triangle), "data");
    assert_eq!(map_shape_to_diagram_type(&ShapeType::Line), "shape");
}

#[test]
fn test_default_and_edge_styles() {
    assert!(get_default_style(&ShapeType::Rectangle).contains("rounded=0"));
    assert!(get_default_style(&ShapeType::Diamond).contains("rhombus"));
    assert!(get_edge_style(&ShapeType::Arrow).contains("endArrow=classic"));
    assert!(get_edge_style(&ShapeType::Line).contains("endArrow=none"));
}

#[test]
fn test_vertex_and_connector_styles() {
    assert!(get_style_for_shape(&ShapeType::Rectangle).contains("rounded=1"));
    assert!(get_style_for_shape(&ShapeType::Triangle).contains("triangle"));
    assert!(get_connector_style(&ShapeType::Line).contains("endArrow=none"));
    assert_eq!(get_style_for_type("decision"), StylePresets::diamond());
    assert_eq!(get_style_for_type("unknown-kind"), StylePresets::rectangle());
}

#[test]
fn test_bounds_overlap() {
    let s = ShapeBounds { x: 0, y: 0, width: 100_000, height: 50_000, rotation: 0 };
    let inside = TextBounds { x: 10_000, y: 10_000, width: 20_000, height: 10_000 };
    let outside = TextBounds { x: 200_000, y: 0, width: 20_000, height: 10_000 };
    assert!(bounds_overlap(&s, &inside));
    assert!(!bounds_overlap(&s, &outside));
}

#[test]
fn test_detect_diagram_type_variants() {
    let flow = vec![
        eshape("d", ShapeType::Diamond, 0, 0),
        eshape("a", ShapeType::Arrow, 0, 200_000),
    ];
    assert_eq!(detect_diagram_type(&flow, &[]), "flowchart");

    let uml = vec![eshape("r", ShapeType::Rectangle, 0, 0)];
    assert_eq!(detect_diagram_type(&uml, &[etext("interface Foo", 0, 0)]), "uml_class");

    let block = vec![
        eshape("r", ShapeType::Rectangle, 0, 0),
        eshape("a", ShapeType::Arrow, 0, 200_000),
    ];
    assert_eq!(detect_diagram_type(&block, &[]), "block_diagram");

    assert_eq!(detect_diagram_type(&[], &[]), "generic");
}

#[test]
fn test_enhance_with_rules_builds_nodes_and_edges() {
    // Two rectangles and an arrow whose endpoints touch them.
    let mut arrow = eshape("edge", ShapeType::Arrow, 0, 0);
    arrow.properties.start_point = Some((50_000, 25_000));
    arrow.properties.end_point = Some((450_000, 25_000));
    let shapes = vec![
        eshape("left", ShapeType::Rectangle, 0, 0),
        eshape("right", ShapeType::Rectangle, 400_000, 0),
        arrow,
    ];
    let texts = vec![etext("Start", 10_000, 10_000)];
    let structure = enhance_with_rules(&shapes, &texts, "").unwrap();
    assert_eq!(structure.diagram_type, "block_diagram");
    assert_eq!(structure.nodes.len(), 2);
    assert_eq!(structure.edges.len(), 1);
    assert_eq!(structure.nodes[0].id, "left");
    assert_eq!(structure.nodes[0].label, b"Start".to_vec());
    assert_eq!(structure.nodes[0].shape_type, "process");
    // Grid-snapped geometry: 100 x 50 units stays 100 x 50.
    assert_eq!(structure.nodes[0].x, 0);
    assert_eq!(structure.nodes[0].width, 100_000);
    assert_eq!(structure.nodes[0].height, 60_000);
    assert_eq!(structure.edges[0].source, "left");
    assert_eq!(structure.edges[0].target, "right");
}

#[test]
fn test_find_node_at_point() {
    let node = DiagramNode {
        id: "n1".to_string(),
        label: Vec::new(),
        shape_type: "process".to_string(),
        x: 0,
        y: 0,
        width: 100_000,
        height: 50_000,
        style: String::new(),
    };
    let nodes = vec![node];
    assert_eq!(find_node_at_point(&nodes, (50_000, 25_000)), Some("n1".to_string()));
    // Below the box but within 50 units of its center.
    assert_eq!(find_node_at_point(&nodes, (50_000, 70_000)), Some("n1".to_string()));
    assert_eq!(find_node_at_point(&nodes, (900_000, 900_000)), None);
}

#[test]
fn test_find_connection_endpoints() {
    let mut conn = eshape("c", ShapeType::Connector, 0, 0);
    conn.properties.start_point = Some((50_000, 25_000));
    conn.properties.end_point = Some((450_000, 25_000));
    let shapes = vec![
        eshape("left", ShapeType::Rectangle, 0, 0),
        eshape("right", ShapeType::Rectangle, 400_000, 0),
        conn.clone(),
    ];
    let (src, dst) = find_connection_endpoints(&conn, &shapes);
    assert_eq!(src, Some(0));
    assert_eq!(dst, Some(1));
}

#[test]
fn test_diagram_metadata_default() {
    let m = DiagramMetadata::default();
    assert!(m.title.is_none());
    assert!(m.author.is_none());
    assert!(m.created_at.is_none());
    assert!(m.version.is_none());
}

#[test]
fn test_text_region_creation() {
    let region = TextRegion {
        id: "test".to_string(),
        text: "Hello".as_bytes().to_vec(),
        bounds: TextBounds { x: 0, y: 0, width: 50_000, height: 20_000 },
        confidence: 9000,
        font_size_estimate: 14_000,
    };

    assert_eq!(region.text, b"Hello".to_vec());
    assert_eq!(region.confidence, 9000);
}

#[test]
fn test_ocr_config_default() {
    let config = OcrConfig::default();
    assert_eq!(config.language, "eng");
    assert_eq!(config.min_confidence, 5000);
    assert_eq!(config.mode, OcrMode::Auto);
}

#[test]
fn test_estimate_font_size() {
    // A 30-unit-high region with 0.2 density stays within 8 to 72.
    let size = estimate_font_size(30_000, 2000);
    assert!(size >= 8_000 && size <= 72_000);
    // 30 * 0.7 * 1.2 = 25.2 units.
    assert_eq!(size, 25_200);
}

#[test]
fn test_handwriting_style_default() {
    let style = HandwritingStyle::default();
    assert_eq!(style.style, "unknown");
}

#[test]
fn test_analyze_handwriting_style() {
    let regions = vec![etext("hello", 0, 0), etext("world", 0, 100_000)];
    let style = analyze_handwriting_style(&regions);
    // Average height 20 units, estimate 0.7 of that; confidence 0.8.
    assert_eq!(style.estimated_font_size, 14_000);
    assert_eq!(style.legibility_score, 8000);
    assert_eq!(style.style, "neat");
}
