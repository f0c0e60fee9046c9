//! Draw.io-oriented export model: style presets per shape type, the
//! diagram structure handed to the serializer, and the geometric
//! helpers that attach labels and connector endpoints to shapes.

use vstd::prelude::*;
use vstd::string::*;

use crate::geom::MAX_ELEMS;
use crate::ocr::TextRegion;
use crate::shapes::{DetectedShape, ShapeType};

verus! {

/// Diagram structure for export.
#[derive(Clone, Debug)]
pub struct DiagramStructure {
    pub diagram_type: String,
    pub nodes: Vec<DiagramNode>,
    pub edges: Vec<DiagramEdge>,
    pub metadata: DiagramMetadata,
}

/// A node in the diagram; position and size in milliunits, the label
/// as UTF-8 bytes.
#[derive(Clone, Debug)]
pub struct DiagramNode {
    pub id: String,
    pub label: Vec<u8>,
    pub shape_type: String,
    pub x: i64,
    pub y: i64,
    pub width: i64,
    pub height: i64,
    pub style: String,
}

/// An edge/connection in the diagram.
#[derive(Clone, Debug)]
pub struct DiagramEdge {
    pub id: String,
    pub source: String,
    pub target: String,
    pub label: Option<String>,
    pub style: String,
}

/// Diagram metadata.
#[derive(Clone, Debug)]
pub struct DiagramMetadata {
    pub title: Option<String>,
    pub author: Option<String>,
    pub created_at: Option<String>,
    pub version: Option<String>,
}

impl Default for DiagramMetadata {
    /// All fields absent.
    fn default() -> (r: DiagramMetadata)
        ensures
            r.title is None,
            r.author is None,
            r.created_at is None,
            r.version is None,
    {
        DiagramMetadata { title: None, author: None, created_at: None, version: None }
    }
}

/// Style presets for different shape types.
pub struct StylePresets;

impl StylePresets {
    pub fn rectangle() -> (r: &'static str)
        ensures
            r@ == "rounded=0;whiteSpace=wrap;html=1;fillColor=#dae8fc;strokeColor=#6c8ebf;"@,
    {
        "rounded=0;whiteSpace=wrap;html=1;fillColor=#dae8fc;strokeColor=#6c8ebf;"
    }

    pub fn rounded_rectangle() -> (r: &'static str)
        ensures
            r@ == "rounded=1;whiteSpace=wrap;html=1;fillColor=#dae8fc;strokeColor=#6c8ebf;"@,
    {
        "rounded=1;whiteSpace=wrap;html=1;fillColor=#dae8fc;strokeColor=#6c8ebf;"
    }

    pub fn diamond() -> (r: &'static str)
        ensures
            r@ == "rhombus;whiteSpace=wrap;html=1;fillColor=#fff2cc;strokeColor=#d6b656;"@,
    {
        "rhombus;whiteSpace=wrap;html=1;fillColor=#fff2cc;strokeColor=#d6b656;"
    }

    pub fn circle() -> (r: &'static str)
        ensures
            r@
                == "ellipse;whiteSpace=wrap;html=1;aspect=fixed;fillColor=#d5e8d4;strokeColor=#82b366;"@,
    {
        "ellipse;whiteSpace=wrap;html=1;aspect=fixed;fillColor=#d5e8d4;strokeColor=#82b366;"
    }

    pub fn ellipse() -> (r: &'static str)
        ensures
            r@ == "ellipse;whiteSpace=wrap;html=1;fillColor=#d5e8d4;strokeColor=#82b366;"@,
    {
        "ellipse;whiteSpace=wrap;html=1;fillColor=#d5e8d4;strokeColor=#82b366;"
    }

    pub fn terminator() -> (r: &'static str)
        ensures
            r@ == "ellipse;whiteSpace=wrap;html=1;fillColor=#f8cecc;strokeColor=#b85450;"@,
    {
        "ellipse;whiteSpace=wrap;html=1;fillColor=#f8cecc;strokeColor=#b85450;"
    }

    pub fn arrow() -> (r: &'static str)
        ensures
            r@
                == "edgeStyle=orthogonalEdgeStyle;rounded=0;orthogonalLoop=1;jettySize=auto;html=1;endArrow=classic;endFill=1;"@,
    {
        "edgeStyle=orthogonalEdgeStyle;rounded=0;orthogonalLoop=1;jettySize=auto;html=1;endArrow=classic;endFill=1;"
    }

    pub fn line() -> (r: &'static str)
        ensures
            r@
                == "edgeStyle=orthogonalEdgeStyle;rounded=0;orthogonalLoop=1;jettySize=auto;html=1;endArrow=none;"@,
    {
        "edgeStyle=orthogonalEdgeStyle;rounded=0;orthogonalLoop=1;jettySize=auto;html=1;endArrow=none;"
    }

    pub fn dashed_arrow() -> (r: &'static str)
        ensures
            r@
                == "edgeStyle=orthogonalEdgeStyle;rounded=0;orthogonalLoop=1;jettySize=auto;html=1;endArrow=classic;endFill=1;dashed=1;"@,
    {
        "edgeStyle=orthogonalEdgeStyle;rounded=0;orthogonalLoop=1;jettySize=auto;html=1;endArrow=classic;endFill=1;dashed=1;"
    }
}

/// The draw.io style for a detected vertex shape.
pub open spec fn style_for_shape(t: ShapeType) -> Seq<char> {
    match t {
        ShapeType::Rectangle => "rounded=1;whiteSpace=wrap;html=1;fillColor=#dae8fc;strokeColor=#6c8ebf;"@,
        ShapeType::Diamond => "rhombus;whiteSpace=wrap;html=1;fillColor=#fff2cc;strokeColor=#d6b656;"@,
        ShapeType::Circle => "ellipse;whiteSpace=wrap;html=1;aspect=fixed;fillColor=#d5e8d4;strokeColor=#82b366;"@,
        ShapeType::Ellipse => "ellipse;whiteSpace=wrap;html=1;fillColor=#d5e8d4;strokeColor=#82b366;"@,
        ShapeType::Triangle => "triangle;whiteSpace=wrap;html=1;fillColor=#ffe6cc;strokeColor=#d79b00;"@,
        ShapeType::Freeform => "shape=curlyBracket;whiteSpace=wrap;html=1;"@,
        _ => "rounded=0;whiteSpace=wrap;html=1;fillColor=#dae8fc;strokeColor=#6c8ebf;"@,
    }
}

/// Draw.io style string for a detected shape type.
pub fn get_style_for_shape(shape_type: &ShapeType) -> (r: String)
    ensures
        r@ == style_for_shape(*shape_type),
{
    match shape_type {
        ShapeType::Rectangle => String::from_str(StylePresets::rounded_rectangle()),
        ShapeType::Diamond => String::from_str(StylePresets::diamond()),
        ShapeType::Circle => String::from_str(StylePresets::circle()),
        ShapeType::Ellipse => String::from_str(StylePresets::ellipse()),
        ShapeType::Triangle => String::from_str(
            "triangle;whiteSpace=wrap;html=1;fillColor=#ffe6cc;strokeColor=#d79b00;",
        ),
        ShapeType::Freeform => String::from_str("shape=curlyBracket;whiteSpace=wrap;html=1;"),
        _ => String::from_str(StylePresets::rectangle()),
    }
}

/// The draw.io style for a connector shape.
pub open spec fn connector_style_for(t: ShapeType) -> Seq<char> {
    match t {
        ShapeType::Line => "edgeStyle=orthogonalEdgeStyle;rounded=0;orthogonalLoop=1;jettySize=auto;html=1;endArrow=none;"@,
        _ => "edgeStyle=orthogonalEdgeStyle;rounded=0;orthogonalLoop=1;jettySize=auto;html=1;endArrow=classic;endFill=1;"@,
    }
}

/// Connector style string.
pub fn get_connector_style(shape_type: &ShapeType) -> (r: String)
    ensures
        r@ == connector_style_for(*shape_type),
{
    match shape_type {
        ShapeType::Arrow => String::from_str(StylePresets::arrow()),
        ShapeType::Line => String::from_str(StylePresets::line()),
        _ => String::from_str(StylePresets::arrow()),
    }
}

/// The draw.io style for a node type named by the enhancement layer.
pub open spec fn style_for_type(t: Seq<char>) -> Seq<char> {
    if t == "process"@ || t == "rectangle"@ {
        "rounded=1;whiteSpace=wrap;html=1;fillColor=#dae8fc;strokeColor=#6c8ebf;"@
    } else if t == "decision"@ || t == "diamond"@ {
        "rhombus;whiteSpace=wrap;html=1;fillColor=#fff2cc;strokeColor=#d6b656;"@
    } else if t == "terminator"@ || t == "circle"@ || t == "ellipse"@ {
        "ellipse;whiteSpace=wrap;html=1;fillColor=#f8cecc;strokeColor=#b85450;"@
    } else if t == "data"@ || t == "triangle"@ {
        "shape=parallelogram;whiteSpace=wrap;html=1;fillColor=#ffe6cc;strokeColor=#d79b00;"@
    } else {
        "rounded=0;whiteSpace=wrap;html=1;fillColor=#dae8fc;strokeColor=#6c8ebf;"@
    }
}

/// Style string for a named node type.
pub fn get_style_for_type(shape_type: &str) -> (r: String)
    ensures
        r@ == style_for_type(shape_type@),
{
    let t = shape_type.to_owned();
    if t == String::from_str("process") || t == String::from_str("rectangle") {
        String::from_str(StylePresets::rounded_rectangle())
    } else if t == String::from_str("decision") || t == String::from_str("diamond") {
        String::from_str(StylePresets::diamond())
    } else if t == String::from_str("terminator") || t == String::from_str("circle") || t
        == String::from_str("ellipse") {
        String::from_str(StylePresets::terminator())
    } else if t == String::from_str("data") || t == String::from_str("triangle") {
        String::from_str(
            "shape=parallelogram;whiteSpace=wrap;html=1;fillColor=#ffe6cc;strokeColor=#d79b00;",
        )
    } else {
        String::from_str(StylePresets::rectangle())
    }
}

// ---------------------------------------------------------------------
// Label and connector-endpoint attachment
// ---------------------------------------------------------------------

/// The text region's center lies within the shape's bounds expanded by
/// a 20-unit margin on every side.
pub open spec fn label_matches(shape: DetectedShape, t: TextRegion) -> bool {
    let tcx = t.bounds.x + t.bounds.width / 2;
    let tcy = t.bounds.y + t.bounds.height / 2;
    &&& tcx >= shape.bounds.x - 20000
    &&& tcx <= shape.bounds.x + shape.bounds.width + 20000
    &&& tcy >= shape.bounds.y - 20000
    &&& tcy <= shape.bounds.y + shape.bounds.height + 20000
}

/// Some of the first `k` regions matches the shape.
pub open spec fn any_label_match(shape: DetectedShape, rs: Seq<TextRegion>, k: int) -> bool {
    exists|i: int| 0 <= i < k && label_matches(shape, #[trigger] rs[i])
}

/// The matching region texts joined with the two-byte draw.io line
/// break (a backslash and an `n`).
pub open spec fn label_join(shape: DetectedShape, rs: Seq<TextRegion>, k: int) -> Seq<u8>
    decreases k,
{
    if k <= 0 {
        Seq::empty()
    } else {
        let rest = label_join(shape, rs, k - 1);
        if label_matches(shape, rs[k - 1]) {
            if any_label_match(shape, rs, k - 1) {
                rest + seq![92u8, 110u8] + rs[k - 1].text@
            } else {
                rs[k - 1].text@
            }
        } else {
            rest
        }
    }
}

/// Collect the text that belongs to a shape: every region whose
/// center falls inside the shape's margin-expanded bounds, joined with
/// draw.io line breaks.
pub fn find_label_for_shape(shape: &DetectedShape, text_regions: &[TextRegion]) -> (r: Vec<u8>)
    requires
        -(crate::geom::COORD_LIMIT as int) <= shape.bounds.x <= crate::geom::COORD_LIMIT as int,
        -(crate::geom::COORD_LIMIT as int) <= shape.bounds.y <= crate::geom::COORD_LIMIT as int,
        0 <= shape.bounds.width <= 2 * crate::geom::COORD_LIMIT,
        0 <= shape.bounds.height <= 2 * crate::geom::COORD_LIMIT,
        forall|i: int|
            0 <= i < text_regions@.len() ==> {
                &&& -(crate::geom::COORD_LIMIT as int) <= (#[trigger] text_regions@[i]).bounds.x
                    <= crate::geom::COORD_LIMIT as int
                &&& -(crate::geom::COORD_LIMIT as int) <= text_regions@[i].bounds.y
                    <= crate::geom::COORD_LIMIT as int
                &&& 0 <= text_regions@[i].bounds.width <= crate::geom::COORD_LIMIT as int
                &&& 0 <= text_regions@[i].bounds.height <= crate::geom::COORD_LIMIT as int
            },
    ensures
        r@ == label_join(*shape, text_regions@, text_regions@.len() as int),
{
    let mut out: Vec<u8> = Vec::new();
    let mut any: bool = false;
    let mut i: usize = 0;
    while i < text_regions.len()
        invariant
            0 <= i <= text_regions@.len(),
            -(crate::geom::COORD_LIMIT as int) <= shape.bounds.x <= crate::geom::COORD_LIMIT
                as int,
            -(crate::geom::COORD_LIMIT as int) <= shape.bounds.y <= crate::geom::COORD_LIMIT
                as int,
            0 <= shape.bounds.width <= 2 * crate::geom::COORD_LIMIT,
            0 <= shape.bounds.height <= 2 * crate::geom::COORD_LIMIT,
            forall|t: int|
                0 <= t < text_regions@.len() ==> {
                    &&& -(crate::geom::COORD_LIMIT as int) <= (#[trigger] text_regions@[t]).bounds.x
                        <= crate::geom::COORD_LIMIT as int
                    &&& -(crate::geom::COORD_LIMIT as int) <= text_regions@[t].bounds.y
                        <= crate::geom::COORD_LIMIT as int
                    &&& 0 <= text_regions@[t].bounds.width <= crate::geom::COORD_LIMIT as int
                    &&& 0 <= text_regions@[t].bounds.height <= crate::geom::COORD_LIMIT as int
                },
            any == any_label_match(*shape, text_regions@, i as int),
            out@ == label_join(*shape, text_regions@, i as int),
        decreases text_regions@.len() - i,
    {
        let t = &text_regions[i];
        let tcx = t.bounds.x + t.bounds.width / 2;
        let tcy = t.bounds.y + t.bounds.height / 2;
        let hit = tcx >= shape.bounds.x - 20000 && tcx <= shape.bounds.x + shape.bounds.width
            + 20000 && tcy >= shape.bounds.y - 20000 && tcy <= shape.bounds.y
            + shape.bounds.height + 20000;
        if hit {
            let ghost pre = out@;
            if any {
                out.push(92);
                out.push(110);
            }
            let mut j: usize = 0;
            while j < t.text.len()
                invariant
                    0 <= i < text_regions@.len(),
                    0 <= j <= t.text@.len(),
                    t == text_regions@[i as int],
                    any ==> out@ == pre + seq![92u8, 110u8] + t.text@.subrange(0, j as int),
                    !any ==> out@ == pre + t.text@.subrange(0, j as int),
                decreases t.text@.len() - j,
            {
                let b = t.text[j];
                out.push(b);
                proof {
                    if any {
                        assert(out@ =~= pre + seq![92u8, 110u8] + t.text@.subrange(
                            0,
                            j as int + 1,
                        ));
                    } else {
                        assert(out@ =~= pre + t.text@.subrange(0, j as int + 1));
                    }
                }
                j = j + 1;
            }
            proof {
                assert(t.text@.subrange(0, t.text@.len() as int) =~= t.text@);
                assert(label_matches(*shape, text_regions@[i as int]));
                if !any {
                    assert(out@ =~= pre + t.text@);
                    assert(pre =~= Seq::<u8>::empty()) by {
                        assert(!any_label_match(*shape, text_regions@, i as int));
                        lemma_label_join_empty(*shape, text_regions@, i as int);
                    }
                    assert(out@ =~= t.text@);
                }
            }
            any = true;
        }
        proof {
            assert(any_label_match(*shape, text_regions@, i as int + 1) == (any_label_match(
                *shape,
                text_regions@,
                i as int,
            ) || label_matches(*shape, text_regions@[i as int]))) by {
                if any_label_match(*shape, text_regions@, i as int + 1) {
                    let w = choose|w: int|
                        0 <= w < i as int + 1 && label_matches(
                            *shape,
                            #[trigger] text_regions@[w],
                        );
                    if w < i as int {
                        assert(any_label_match(*shape, text_regions@, i as int));
                    }
                }
            }
        }
        i = i + 1;
    }
    out
}

/// Without any match among the first `k` regions, the join is empty.
proof fn lemma_label_join_empty(shape: DetectedShape, rs: Seq<TextRegion>, k: int)
    requires
        !any_label_match(shape, rs, k),
    ensures
        label_join(shape, rs, k) == Seq::<u8>::empty(),
    decreases k,
{
    if k > 0 {
        assert(!label_matches(shape, rs[k - 1]));
        assert(!any_label_match(shape, rs, k - 1)) by {
            if any_label_match(shape, rs, k - 1) {
                let w = choose|w: int| 0 <= w < k - 1 && label_matches(shape, #[trigger] rs[w]);
                assert(0 <= w < k && label_matches(shape, rs[w]));
            }
        }
        lemma_label_join_empty(shape, rs, k - 1);
    }
}

/// The point lies inside the shape's bounds expanded by `threshold`
/// on every side.
pub open spec fn point_near(px: int, py: int, shape: DetectedShape, threshold: int) -> bool {
    &&& px >= shape.bounds.x - threshold
    &&& px <= shape.bounds.x + shape.bounds.width + threshold
    &&& py >= shape.bounds.y - threshold
    &&& py <= shape.bounds.y + shape.bounds.height + threshold
}

/// Whether a point is near a shape, executable.
pub fn point_near_shape(px: i64, py: i64, shape: &DetectedShape, threshold: i64) -> (r: bool)
    requires
        -(crate::geom::COORD_LIMIT as int) <= shape.bounds.x <= crate::geom::COORD_LIMIT as int,
        -(crate::geom::COORD_LIMIT as int) <= shape.bounds.y <= crate::geom::COORD_LIMIT as int,
        0 <= shape.bounds.width <= 2 * crate::geom::COORD_LIMIT,
        0 <= shape.bounds.height <= 2 * crate::geom::COORD_LIMIT,
        0 <= threshold <= crate::geom::COORD_LIMIT,
    ensures
        r == point_near(px as int, py as int, *shape, threshold as int),
{
    px >= shape.bounds.x - threshold && px <= shape.bounds.x + shape.bounds.width + threshold
        && py >= shape.bounds.y - threshold && py <= shape.bounds.y + shape.bounds.height
        + threshold
}

/// A connector-kind shape: arrow, line, or connector.
pub open spec fn connector_kind(t: ShapeType) -> bool {
    t == ShapeType::Arrow || t == ShapeType::Line || t == ShapeType::Connector
}

/// First non-connector shape among the first `k` that the point is
/// within 30 units of; -1 when none.
pub open spec fn first_near_idx(shapes: Seq<DetectedShape>, px: int, py: int, k: int) -> int
    decreases k,
{
    if k <= 0 {
        -1
    } else {
        let prev = first_near_idx(shapes, px, py, k - 1);
        if prev != -1 {
            prev
        } else if !connector_kind(shapes[k - 1].shape_type) && point_near(
            px,
            py,
            shapes[k - 1],
            30000,
        ) {
            k - 1
        } else {
            -1
        }
    }
}

/// All shape bounds are in coordinate range.
pub open spec fn shapes_bounds_ok(shapes: Seq<DetectedShape>) -> bool {
    forall|i: int|
        0 <= i < shapes.len() ==> {
            &&& -(crate::geom::COORD_LIMIT as int) <= (#[trigger] shapes[i]).bounds.x
                <= crate::geom::COORD_LIMIT as int
            &&& -(crate::geom::COORD_LIMIT as int) <= shapes[i].bounds.y <= crate::geom::COORD_LIMIT
                as int
            &&& 0 <= shapes[i].bounds.width <= 2 * crate::geom::COORD_LIMIT
            &&& 0 <= shapes[i].bounds.height <= 2 * crate::geom::COORD_LIMIT
        }
}

/// Find the source and target shapes of a connector: the first
/// non-connector shape within 30 units of its start point, and of its
/// end point, as indexes into the shape list.
pub fn find_connection_endpoints(connector: &DetectedShape, all_shapes: &[DetectedShape]) -> (r: (
    Option<usize>,
    Option<usize>,
))
    requires
        shapes_bounds_ok(all_shapes@),
        all_shapes@.len() <= MAX_ELEMS,
    ensures
        r.0 == endpoint_opt(connector.properties.start_point, all_shapes@),
        r.1 == endpoint_opt(connector.properties.end_point, all_shapes@),
{
    let source = match connector.properties.start_point {
        Some(p) => find_first_near(all_shapes, p.0, p.1),
        None => None,
    };
    let target = match connector.properties.end_point {
        Some(p) => find_first_near(all_shapes, p.0, p.1),
        None => None,
    };
    (source, target)
}

/// The endpoint resolution of an optional point: the first
/// non-connector shape near it, when the point exists and some shape
/// is near.
pub open spec fn endpoint_opt(p: Option<(i64, i64)>, shapes: Seq<DetectedShape>) -> Option<
    usize,
> {
    match p {
        None => None,
        Some(q) => {
            let idx = first_near_idx(shapes, q.0 as int, q.1 as int, shapes.len() as int);
            if idx == -1 {
                None
            } else {
                Some(idx as usize)
            }
        },
    }
}

/// First non-connector shape near the point, executable.
fn find_first_near(shapes: &[DetectedShape], px: i64, py: i64) -> (r: Option<usize>)
    requires
        shapes_bounds_ok(shapes@),
        shapes@.len() <= MAX_ELEMS,
    ensures
        ({
            let idx = first_near_idx(shapes@, px as int, py as int, shapes@.len() as int);
            r == (if idx == -1 {
                None
            } else {
                Some(idx as usize)
            })
        }),
{
    let mut i: usize = 0;
    while i < shapes.len()
        invariant
            shapes_bounds_ok(shapes@),
            0 <= i <= shapes@.len() <= MAX_ELEMS,
            first_near_idx(shapes@, px as int, py as int, i as int) == -1,
        decreases shapes@.len() - i,
    {
        let shape = &shapes[i];
        let is_conn = matches!(
            shape.shape_type,
            ShapeType::Arrow | ShapeType::Line | ShapeType::Connector
        );
        if !is_conn && point_near_shape(px, py, shape, 30000) {
            proof {
                assert(first_near_idx(shapes@, px as int, py as int, i as int + 1) == i as int);
                lemma_first_near_stable(shapes@, px as int, py as int, i as int + 1, shapes@.len() as int);
            }
            return Some(i);
        }
        i = i + 1;
    }
    None
}

/// Once found, the first-near index persists for longer prefixes.
proof fn lemma_first_near_stable(shapes: Seq<DetectedShape>, px: int, py: int, k: int, m: int)
    requires
        0 <= k <= m,
        first_near_idx(shapes, px, py, k) != -1,
    ensures
        first_near_idx(shapes, px, py, m) == first_near_idx(shapes, px, py, k),
    decreases m - k,
{
    if k < m {
        lemma_first_near_stable(shapes, px, py, k, m - 1);
    }
}

} // verus!
