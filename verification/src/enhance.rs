//! Rule-based diagram enhancement: map detected shapes to diagram
//! nodes, attach overlapping text as labels, turn connectors into
//! edges anchored at nearby nodes, and snap the layout to a grid.

use vstd::prelude::*;
use vstd::string::*;

use crate::drawio::{DiagramEdge, DiagramMetadata, DiagramNode, DiagramStructure};
use crate::geom::{COORD_LIMIT, MAX_ELEMS};
use crate::ocr::{TextBounds, TextRegion};
use crate::shapes::{DetectedShape, ShapeBounds, ShapeType};

verus! {

/// A container shape can hold content: any closed vertex kind.
pub open spec fn container_kind(t: ShapeType) -> bool {
    t == ShapeType::Rectangle || t == ShapeType::Circle || t == ShapeType::Ellipse || t
        == ShapeType::Diamond || t == ShapeType::Triangle
}

/// Whether a shape type is a container, executable.
pub fn is_container_shape(shape_type: &ShapeType) -> (r: bool)
    ensures
        r == container_kind(*shape_type),
{
    matches!(
        shape_type,
        ShapeType::Rectangle | ShapeType::Circle | ShapeType::Ellipse | ShapeType::Diamond
            | ShapeType::Triangle
    )
}

/// Whether a shape type is a connector, executable.
pub fn is_connector_shape(shape_type: &ShapeType) -> (r: bool)
    ensures
        r == crate::drawio::connector_kind(*shape_type),
{
    matches!(shape_type, ShapeType::Arrow | ShapeType::Line | ShapeType::Connector)
}

/// The diagram node type a shape maps to.
pub open spec fn diagram_type_of(t: ShapeType) -> Seq<char> {
    match t {
        ShapeType::Rectangle => "process"@,
        ShapeType::Diamond => "decision"@,
        ShapeType::Circle => "terminator"@,
        ShapeType::Ellipse => "terminator"@,
        ShapeType::Triangle => "data"@,
        _ => "shape"@,
    }
}

/// Map a shape type to its diagram node type, executable.
pub fn map_shape_to_diagram_type(shape_type: &ShapeType) -> (r: String)
    ensures
        r@ == diagram_type_of(*shape_type),
{
    match shape_type {
        ShapeType::Rectangle => String::from_str("process"),
        ShapeType::Diamond => String::from_str("decision"),
        ShapeType::Circle => String::from_str("terminator"),
        ShapeType::Ellipse => String::from_str("terminator"),
        ShapeType::Triangle => String::from_str("data"),
        _ => String::from_str("shape"),
    }
}

/// The default node style for a shape type.
pub open spec fn default_style_of(t: ShapeType) -> Seq<char> {
    match t {
        ShapeType::Rectangle => "rounded=0;whiteSpace=wrap;html=1;"@,
        ShapeType::Diamond => "rhombus;whiteSpace=wrap;html=1;"@,
        ShapeType::Circle => "ellipse;whiteSpace=wrap;html=1;aspect=fixed;"@,
        ShapeType::Ellipse => "ellipse;whiteSpace=wrap;html=1;"@,
        _ => "whiteSpace=wrap;html=1;"@,
    }
}

/// Default style for a shape type, executable.
pub fn get_default_style(shape_type: &ShapeType) -> (r: String)
    ensures
        r@ == default_style_of(*shape_type),
{
    match shape_type {
        ShapeType::Rectangle => String::from_str("rounded=0;whiteSpace=wrap;html=1;"),
        ShapeType::Diamond => String::from_str("rhombus;whiteSpace=wrap;html=1;"),
        ShapeType::Circle => String::from_str("ellipse;whiteSpace=wrap;html=1;aspect=fixed;"),
        ShapeType::Ellipse => String::from_str("ellipse;whiteSpace=wrap;html=1;"),
        _ => String::from_str("whiteSpace=wrap;html=1;"),
    }
}

/// The edge style for a connector shape type.
pub open spec fn edge_style_of(t: ShapeType) -> Seq<char> {
    match t {
        ShapeType::Arrow => "edgeStyle=orthogonalEdgeStyle;rounded=0;orthogonalLoop=1;jettySize=auto;html=1;endArrow=classic;"@,
        ShapeType::Line => "edgeStyle=orthogonalEdgeStyle;rounded=0;orthogonalLoop=1;jettySize=auto;html=1;endArrow=none;"@,
        _ => "edgeStyle=orthogonalEdgeStyle;html=1;"@,
    }
}

/// Edge style for a shape type, executable.
pub fn get_edge_style(shape_type: &ShapeType) -> (r: String)
    ensures
        r@ == edge_style_of(*shape_type),
{
    match shape_type {
        ShapeType::Arrow => String::from_str(
            "edgeStyle=orthogonalEdgeStyle;rounded=0;orthogonalLoop=1;jettySize=auto;html=1;endArrow=classic;",
        ),
        ShapeType::Line => String::from_str(
            "edgeStyle=orthogonalEdgeStyle;rounded=0;orthogonalLoop=1;jettySize=auto;html=1;endArrow=none;",
        ),
        _ => String::from_str("edgeStyle=orthogonalEdgeStyle;html=1;"),
    }
}

/// Open-interval overlap of a shape box with a text box.
pub open spec fn boxes_overlap(s: ShapeBounds, t: TextBounds) -> bool {
    &&& s.x < t.x + t.width
    &&& s.x + s.width > t.x
    &&& s.y < t.y + t.height
    &&& s.y + s.height > t.y
}

/// Whether two bounds overlap, executable.
pub fn bounds_overlap(shape_bounds: &ShapeBounds, text_bounds: &TextBounds) -> (r: bool)
    requires
        -(COORD_LIMIT as int) <= shape_bounds.x <= COORD_LIMIT as int,
        -(COORD_LIMIT as int) <= shape_bounds.y <= COORD_LIMIT as int,
        0 <= shape_bounds.width <= 2 * COORD_LIMIT,
        0 <= shape_bounds.height <= 2 * COORD_LIMIT,
        -(COORD_LIMIT as int) <= text_bounds.x <= COORD_LIMIT as int,
        -(COORD_LIMIT as int) <= text_bounds.y <= COORD_LIMIT as int,
        0 <= text_bounds.width <= COORD_LIMIT as int,
        0 <= text_bounds.height <= COORD_LIMIT as int,
    ensures
        r == boxes_overlap(*shape_bounds, *text_bounds),
{
    shape_bounds.x < text_bounds.x + text_bounds.width && shape_bounds.x + shape_bounds.width
        > text_bounds.x && shape_bounds.y < text_bounds.y + text_bounds.height && shape_bounds.y
        + shape_bounds.height > text_bounds.y
}

// ---------------------------------------------------------------------
// Text attachment
// ---------------------------------------------------------------------

/// Some of the first `k` regions overlaps the shape bounds.
pub open spec fn any_text_match(b: ShapeBounds, rs: Seq<TextRegion>, k: int) -> bool {
    exists|i: int| 0 <= i < k && boxes_overlap(b, (#[trigger] rs[i]).bounds)
}

/// The overlapping region texts joined with single spaces.
pub open spec fn text_join(b: ShapeBounds, rs: Seq<TextRegion>, k: int) -> Seq<u8>
    decreases k,
{
    if k <= 0 {
        Seq::empty()
    } else {
        let rest = text_join(b, rs, k - 1);
        if boxes_overlap(b, rs[k - 1].bounds) {
            if any_text_match(b, rs, k - 1) {
                rest + seq![32u8] + rs[k - 1].text@
            } else {
                rs[k - 1].text@
            }
        } else {
            rest
        }
    }
}

/// Without any overlap among the first `k` regions, the join is empty.
proof fn lemma_text_join_empty(b: ShapeBounds, rs: Seq<TextRegion>, k: int)
    requires
        !any_text_match(b, rs, k),
    ensures
        text_join(b, rs, k) == Seq::<u8>::empty(),
    decreases k,
{
    if k > 0 {
        assert(!boxes_overlap(b, rs[k - 1].bounds));
        assert(!any_text_match(b, rs, k - 1)) by {
            if any_text_match(b, rs, k - 1) {
                let w = choose|w: int|
                    0 <= w < k - 1 && boxes_overlap(b, (#[trigger] rs[w]).bounds);
                assert(0 <= w < k && boxes_overlap(b, rs[w].bounds));
            }
        }
        lemma_text_join_empty(b, rs, k - 1);
    }
}

/// Text bounds within coordinate range.
pub open spec fn text_bounds_ok(rs: Seq<TextRegion>) -> bool {
    forall|i: int|
        0 <= i < rs.len() ==> {
            &&& -(COORD_LIMIT as int) <= (#[trigger] rs[i]).bounds.x <= COORD_LIMIT as int
            &&& -(COORD_LIMIT as int) <= rs[i].bounds.y <= COORD_LIMIT as int
            &&& 0 <= rs[i].bounds.width <= COORD_LIMIT as int
            &&& 0 <= rs[i].bounds.height <= COORD_LIMIT as int
        }
}

/// Shape bounds within coordinate range.
pub open spec fn shape_bounds_ok(b: ShapeBounds) -> bool {
    &&& -(COORD_LIMIT as int) <= b.x <= COORD_LIMIT as int
    &&& -(COORD_LIMIT as int) <= b.y <= COORD_LIMIT as int
    &&& 0 <= b.width <= 2 * COORD_LIMIT
    &&& 0 <= b.height <= 2 * COORD_LIMIT
}

/// Collect the text that belongs to a shape: every region overlapping
/// its bounds, joined with spaces; `None` when no region overlaps.
pub fn find_text_for_shape(shape: &DetectedShape, text_regions: &[TextRegion]) -> (r: Option<
    Vec<u8>,
>)
    requires
        shape_bounds_ok(shape.bounds),
        text_bounds_ok(text_regions@),
    ensures
        r is Some <==> any_text_match(shape.bounds, text_regions@, text_regions@.len() as int),
        r matches Some(v) ==> v@ == text_join(
            shape.bounds,
            text_regions@,
            text_regions@.len() as int,
        ),
{
    let mut out: Vec<u8> = Vec::new();
    let mut any: bool = false;
    let mut i: usize = 0;
    while i < text_regions.len()
        invariant
            0 <= i <= text_regions@.len(),
            shape_bounds_ok(shape.bounds),
            text_bounds_ok(text_regions@),
            any == any_text_match(shape.bounds, text_regions@, i as int),
            out@ == text_join(shape.bounds, text_regions@, i as int),
        decreases text_regions@.len() - i,
    {
        let t = &text_regions[i];
        if bounds_overlap(&shape.bounds, &t.bounds) {
            let ghost pre = out@;
            if any {
                out.push(32);
            }
            let mut j: usize = 0;
            while j < t.text.len()
                invariant
                    0 <= i < text_regions@.len(),
                    0 <= j <= t.text@.len(),
                    t == text_regions@[i as int],
                    any ==> out@ == pre + seq![32u8] + t.text@.subrange(0, j as int),
                    !any ==> out@ == pre + t.text@.subrange(0, j as int),
                decreases t.text@.len() - j,
            {
                let b = t.text[j];
                out.push(b);
                proof {
                    if any {
                        assert(out@ =~= pre + seq![32u8] + t.text@.subrange(0, j as int + 1));
                    } else {
                        assert(out@ =~= pre + t.text@.subrange(0, j as int + 1));
                    }
                }
                j = j + 1;
            }
            proof {
                assert(t.text@.subrange(0, t.text@.len() as int) =~= t.text@);
                assert(boxes_overlap(shape.bounds, text_regions@[i as int].bounds));
                if !any {
                    assert(out@ =~= pre + t.text@);
                    assert(pre =~= Seq::<u8>::empty()) by {
                        lemma_text_join_empty(shape.bounds, text_regions@, i as int);
                    }
                    assert(out@ =~= t.text@);
                }
            }
            any = true;
        }
        proof {
            assert(any_text_match(shape.bounds, text_regions@, i as int + 1) == (any_text_match(
                shape.bounds,
                text_regions@,
                i as int,
            ) || boxes_overlap(shape.bounds, text_regions@[i as int].bounds))) by {
                if any_text_match(shape.bounds, text_regions@, i as int + 1) {
                    let w = choose|w: int|
                        0 <= w < i as int + 1 && boxes_overlap(
                            shape.bounds,
                            (#[trigger] text_regions@[w]).bounds,
                        );
                    if w < i as int {
                        assert(any_text_match(shape.bounds, text_regions@, i as int));
                    }
                }
            }
        }
        i = i + 1;
    }
    if any {
        Some(out)
    } else {
        None
    }
}

// ---------------------------------------------------------------------
// Node lookup and grid layout
// ---------------------------------------------------------------------

/// The point lies inside the node's box (inclusive edges).
pub open spec fn inside_node(n: DiagramNode, qx: int, qy: int) -> bool {
    n.x <= qx <= n.x + n.width && n.y <= qy <= n.y + n.height
}

/// Squared distance from the point to the node's center.
pub open spec fn node_center_dist_sq(n: DiagramNode, qx: int, qy: int) -> int {
    let cx = n.x + n.width / 2;
    let cy = n.y + n.height / 2;
    (qx - cx) * (qx - cx) + (qy - cy) * (qy - cy)
}

/// First node containing the point; -1 when none.
pub open spec fn first_inside_node(nodes: Seq<DiagramNode>, qx: int, qy: int, k: int) -> int
    decreases k,
{
    if k <= 0 {
        -1
    } else {
        let prev = first_inside_node(nodes, qx, qy, k - 1);
        if prev != -1 {
            prev
        } else if inside_node(nodes[k - 1], qx, qy) {
            k - 1
        } else {
            -1
        }
    }
}

/// Nearest node with center within 50 units of the point, first on
/// ties; -1 when none.
pub open spec fn nearest_node(nodes: Seq<DiagramNode>, qx: int, qy: int, k: int) -> int
    decreases k,
{
    if k <= 0 {
        -1
    } else {
        let prev = nearest_node(nodes, qx, qy, k - 1);
        let d = node_center_dist_sq(nodes[k - 1], qx, qy);
        if d < 2_500_000_000 && (prev == -1 || d < node_center_dist_sq(nodes[prev], qx, qy)) {
            k - 1
        } else {
            prev
        }
    }
}

/// The node the point belongs to: the first containing node, else the
/// nearest within 50 units.
pub open spec fn node_at_point(nodes: Seq<DiagramNode>, qx: int, qy: int) -> int {
    let inside = first_inside_node(nodes, qx, qy, nodes.len() as int);
    if inside != -1 {
        inside
    } else {
        nearest_node(nodes, qx, qy, nodes.len() as int)
    }
}

/// Node coordinates within range.
pub open spec fn nodes_ok(nodes: Seq<DiagramNode>) -> bool {
    forall|i: int|
        0 <= i < nodes.len() ==> {
            &&& -(2 * COORD_LIMIT as int) <= (#[trigger] nodes[i]).x <= 2 * COORD_LIMIT as int
            &&& -(2 * COORD_LIMIT as int) <= nodes[i].y <= 2 * COORD_LIMIT as int
            &&& 0 <= nodes[i].width <= 2 * COORD_LIMIT as int
            &&& 0 <= nodes[i].height <= 2 * COORD_LIMIT as int
        }
}

/// Once a containing node is found, it persists for longer prefixes.
proof fn lemma_first_inside_stable(nodes: Seq<DiagramNode>, qx: int, qy: int, k: int, m: int)
    requires
        0 <= k <= m,
        first_inside_node(nodes, qx, qy, k) != -1,
    ensures
        first_inside_node(nodes, qx, qy, m) == first_inside_node(nodes, qx, qy, k),
    decreases m - k,
{
    if k < m {
        lemma_first_inside_stable(nodes, qx, qy, k, m - 1);
    }
}

/// Find the id of the node at a point: inside a node's box first,
/// else the nearest node center within 50 units.
pub fn find_node_at_point(nodes: &[DiagramNode], point: (i64, i64)) -> (r: Option<String>)
    requires
        nodes_ok(nodes@),
        nodes@.len() <= MAX_ELEMS,
        -(2 * COORD_LIMIT as int) <= point.0 <= 2 * COORD_LIMIT as int,
        -(2 * COORD_LIMIT as int) <= point.1 <= 2 * COORD_LIMIT as int,
    ensures
        ({
            let idx = node_at_point(nodes@, point.0 as int, point.1 as int);
            &&& r is Some <==> idx != -1
            &&& (r matches Some(id) ==> idx != -1 && id@ == nodes@[idx].id@)
        }),
{
    let qx = point.0;
    let qy = point.1;
    let mut i: usize = 0;
    while i < nodes.len()
        invariant
            nodes_ok(nodes@),
            0 <= i <= nodes@.len() <= MAX_ELEMS,
            qx == point.0,
            qy == point.1,
            -(2 * COORD_LIMIT as int) <= qx <= 2 * COORD_LIMIT as int,
            -(2 * COORD_LIMIT as int) <= qy <= 2 * COORD_LIMIT as int,
            first_inside_node(nodes@, qx as int, qy as int, i as int) == -1,
        decreases nodes@.len() - i,
    {
        let n = &nodes[i];
        if qx >= n.x && qx <= n.x + n.width && qy >= n.y && qy <= n.y + n.height {
            proof {
                assert(first_inside_node(nodes@, qx as int, qy as int, i as int + 1) == i as int);
                lemma_first_inside_stable(
                    nodes@,
                    qx as int,
                    qy as int,
                    i as int + 1,
                    nodes@.len() as int,
                );
                assert(node_at_point(nodes@, qx as int, qy as int) == i as int);
            }
            let rid = n.id.clone();
            proof {
                assert(qx == point.0 && qy == point.1);
                let idx = node_at_point(nodes@, point.0 as int, point.1 as int);
                assert(idx == i as int);
                assert(rid@ == nodes@[idx].id@);
            }
            return Some(rid);
        }
        i = i + 1;
    }
    let mut best: i64 = -1;
    let mut best_d: i128 = 0;
    let mut j: usize = 0;
    while j < nodes.len()
        invariant
            nodes_ok(nodes@),
            0 <= j <= nodes@.len() <= MAX_ELEMS,
            qx == point.0,
            qy == point.1,
            -(2 * COORD_LIMIT as int) <= qx <= 2 * COORD_LIMIT as int,
            -(2 * COORD_LIMIT as int) <= qy <= 2 * COORD_LIMIT as int,
            best == nearest_node(nodes@, qx as int, qy as int, j as int),
            best != -1 ==> 0 <= best < j && best_d == node_center_dist_sq(
                nodes@[best as int],
                qx as int,
                qy as int,
            ),
        decreases nodes@.len() - j,
    {
        let n = &nodes[j];
        let cx: i64 = n.x + n.width / 2;
        let cy: i64 = n.y + n.height / 2;
        proof {
            crate::geom::lemma_sq_bound(qx as int - cx as int, 80_000_000);
            crate::geom::lemma_sq_bound(qy as int - cy as int, 80_000_000);
        }
        let dx: i128 = qx as i128 - cx as i128;
        let dy: i128 = qy as i128 - cy as i128;
        let d: i128 = dx * dx + dy * dy;
        if d < 2_500_000_000 && (best == -1 || d < best_d) {
            best = j as i64;
            best_d = d;
        }
        j = j + 1;
    }
    if best == -1 {
        None
    } else {
        Some(nodes[best as usize].id.clone())
    }
}

/// Round to the nearest multiple of the 20-unit grid, halves away
/// from zero.
pub open spec fn grid_round(v: int) -> int {
    if v >= 0 {
        ((v + 10000) / 20000) * 20000
    } else {
        -(((-v + 10000) / 20000) * 20000)
    }
}

/// Grid rounding, executable.
fn grid_round_exec(v: i64) -> (r: i64)
    requires
        -(4 * COORD_LIMIT as int) <= v <= 4 * COORD_LIMIT as int,
    ensures
        r == grid_round(v as int),
        -(4 * COORD_LIMIT as int) - 20000 <= r <= 4 * COORD_LIMIT as int + 20000,
{
    if v >= 0 {
        proof {
            assert(0 <= ((v as int + 10000) / 20000) * 20000 <= v + 20000) by (nonlinear_arith)
                requires
                    0 <= v,
            ;
        }
        ((v + 10000) / 20000) * 20000
    } else {
        proof {
            assert(0 <= ((-(v as int) + 10000) / 20000) * 20000 <= -(v as int) + 20000)
                by (nonlinear_arith)
                requires
                    v < 0,
            ;
        }
        -(((-v + 10000) / 20000) * 20000)
    }
}

/// The grid-snapped width: rounded, then at least 80 units.
pub open spec fn layout_w(w: int) -> int {
    if grid_round(w) < 80000 {
        80000
    } else {
        grid_round(w)
    }
}

/// The grid-snapped height: rounded, then at least 40 units.
pub open spec fn layout_h(h: int) -> int {
    if grid_round(h) < 40000 {
        40000
    } else {
        grid_round(h)
    }
}

/// Snap every node to the 20-unit grid and enforce the 80 by 40 unit
/// minimum size; edges, type and metadata stay untouched.
pub fn improve_layout(structure: &mut DiagramStructure)
    requires
        nodes_ok(old(structure).nodes@),
    ensures
        final(structure).nodes@.len() == old(structure).nodes@.len(),
        forall|i: int|
            0 <= i < old(structure).nodes@.len() ==> {
                let pre = old(structure).nodes@[i];
                let post = (#[trigger] final(structure).nodes@[i]);
                &&& post.id@ == pre.id@
                &&& post.label@ == pre.label@
                &&& post.shape_type@ == pre.shape_type@
                &&& post.style@ == pre.style@
                &&& post.x == grid_round(pre.x as int)
                &&& post.y == grid_round(pre.y as int)
                &&& post.width == layout_w(pre.width as int)
                &&& post.height == layout_h(pre.height as int)
            },
        final(structure).edges@ == old(structure).edges@,
        final(structure).diagram_type@ == old(structure).diagram_type@,
        final(structure).metadata == old(structure).metadata,
{
    if structure.nodes.len() == 0 {
        return ;
    }
    let n = structure.nodes.len();
    let mut i: usize = 0;
    while i < n
        invariant
            n == structure.nodes@.len(),
            structure.nodes@.len() == old(structure).nodes@.len(),
            0 <= i <= n,
            nodes_ok(old(structure).nodes@),
            structure.edges@ == old(structure).edges@,
            structure.diagram_type@ == old(structure).diagram_type@,
            structure.metadata == old(structure).metadata,
            forall|t: int|
                i <= t < n ==> (#[trigger] structure.nodes@[t]) == old(structure).nodes@[t],
            forall|t: int|
                0 <= t < i ==> {
                    let pre = old(structure).nodes@[t];
                    let post = (#[trigger] structure.nodes@[t]);
                    &&& post.id@ == pre.id@
                    &&& post.label@ == pre.label@
                    &&& post.shape_type@ == pre.shape_type@
                    &&& post.style@ == pre.style@
                    &&& post.x == grid_round(pre.x as int)
                    &&& post.y == grid_round(pre.y as int)
                    &&& post.width == layout_w(pre.width as int)
                    &&& post.height == layout_h(pre.height as int)
                },
        decreases n - i,
    {
        let node = &structure.nodes[i];
        let nx = grid_round_exec(node.x);
        let ny = grid_round_exec(node.y);
        let w0 = grid_round_exec(node.width);
        let h0 = grid_round_exec(node.height);
        let nw: i64 = if w0 < 80000 {
            80000
        } else {
            w0
        };
        let nh: i64 = if h0 < 40000 {
            40000
        } else {
            h0
        };
        let updated = DiagramNode {
            id: structure.nodes[i].id.clone(),
            label: copy_bytes(&structure.nodes[i].label),
            shape_type: structure.nodes[i].shape_type.clone(),
            x: nx,
            y: ny,
            width: nw,
            height: nh,
            style: structure.nodes[i].style.clone(),
        };
        structure.nodes.set(i, updated);
        i = i + 1;
    }
}

// ---------------------------------------------------------------------
// Structure assembly
// ---------------------------------------------------------------------

/// Some shape of the batch has the given type.
pub open spec fn has_type(shapes: Seq<DetectedShape>, t: ShapeType) -> bool {
    exists|i: int| 0 <= i < shapes.len() && (#[trigger] shapes[i]).shape_type == t
}

/// The diagram type the rule layer infers: flowchart for diamonds with
/// arrows, UML for class-like text, block diagram for rectangles with
/// arrows, generic otherwise.
pub open spec fn llm_diagram_type(shapes: Seq<DetectedShape>, regions: Seq<TextRegion>) -> Seq<
    char,
> {
    let hay = crate::diagram::lower_bytes(crate::diagram::joined_text(regions));
    if has_type(shapes, ShapeType::Diamond) && has_type(shapes, ShapeType::Arrow) {
        "flowchart"@
    } else if crate::diagram::contains_bytes(hay, crate::diagram::kw_class())
        || crate::diagram::contains_bytes(hay, crate::diagram::kw_interface()) {
        "uml_class"@
    } else if has_type(shapes, ShapeType::Rectangle) && has_type(shapes, ShapeType::Arrow) {
        "block_diagram"@
    } else {
        "generic"@
    }
}

/// Infer the overall diagram type for the rule-based enhancement.
pub fn detect_diagram_type(shapes: &[DetectedShape], text_regions: &[TextRegion]) -> (r: String)
    ensures
        r@ == llm_diagram_type(shapes@, text_regions@),
{
    let mut has_d = false;
    let mut has_a = false;
    let mut has_r = false;
    let mut i: usize = 0;
    while i < shapes.len()
        invariant
            0 <= i <= shapes@.len(),
            has_d == exists|j: int|
                0 <= j < i && (#[trigger] shapes@[j]).shape_type == ShapeType::Diamond,
            has_a == exists|j: int|
                0 <= j < i && (#[trigger] shapes@[j]).shape_type == ShapeType::Arrow,
            has_r == exists|j: int|
                0 <= j < i && (#[trigger] shapes@[j]).shape_type == ShapeType::Rectangle,
        decreases shapes@.len() - i,
    {
        match &shapes[i].shape_type {
            ShapeType::Diamond => {
                has_d = true;
            },
            ShapeType::Arrow => {
                has_a = true;
            },
            ShapeType::Rectangle => {
                has_r = true;
            },
            _ => {},
        }
        i = i + 1;
    }
    let hay = crate::diagram::build_haystack(text_regions);
    let kw: Vec<u8> = vec![99, 108, 97, 115, 115];
    proof {
        assert(kw@ =~= crate::diagram::kw_class());
    }
    let has_class = crate::diagram::contains_sub(hay.as_slice(), kw.as_slice());
    let kw: Vec<u8> = vec![105, 110, 116, 101, 114, 102, 97, 99, 101];
    proof {
        assert(kw@ =~= crate::diagram::kw_interface());
    }
    let has_interface = crate::diagram::contains_sub(hay.as_slice(), kw.as_slice());
    if has_d && has_a {
        String::from_str("flowchart")
    } else if has_class || has_interface {
        String::from_str("uml_class")
    } else if has_r && has_a {
        String::from_str("block_diagram")
    } else {
        String::from_str("generic")
    }
}

/// The lowercase name of a shape type.
pub open spec fn type_name_of(t: ShapeType) -> Seq<char> {
    match t {
        ShapeType::Rectangle => "rectangle"@,
        ShapeType::Circle => "circle"@,
        ShapeType::Ellipse => "ellipse"@,
        ShapeType::Triangle => "triangle"@,
        ShapeType::Diamond => "diamond"@,
        ShapeType::Arrow => "arrow"@,
        ShapeType::Line => "line"@,
        ShapeType::Connector => "connector"@,
        ShapeType::Freeform => "freeform"@,
    }
}

/// The lowercase name of a shape type, executable.
pub fn shape_type_name(t: &ShapeType) -> (r: String)
    ensures
        r@ == type_name_of(*t),
{
    match t {
        ShapeType::Rectangle => String::from_str("rectangle"),
        ShapeType::Circle => String::from_str("circle"),
        ShapeType::Ellipse => String::from_str("ellipse"),
        ShapeType::Triangle => String::from_str("triangle"),
        ShapeType::Diamond => String::from_str("diamond"),
        ShapeType::Arrow => String::from_str("arrow"),
        ShapeType::Line => String::from_str("line"),
        ShapeType::Connector => String::from_str("connector"),
        ShapeType::Freeform => String::from_str("freeform"),
    }
}

/// Containers among the first `k` shapes.
pub open spec fn cont_count(s: Seq<DetectedShape>, k: int) -> int
    decreases k,
{
    if k <= 0 {
        0
    } else {
        cont_count(s, k - 1) + if container_kind(s[k - 1].shape_type) {
            1int
        } else {
            0int
        }
    }
}

/// There are at most `k` containers among the first `k` shapes.
proof fn lemma_cont_le(s: Seq<DetectedShape>, k: int)
    requires
        0 <= k,
    ensures
        cont_count(s, k) <= k,
    decreases k,
{
    if k > 0 {
        lemma_cont_le(s, k - 1);
    }
}

/// Container counting never decreases along the batch.
proof fn lemma_cont_mono(s: Seq<DetectedShape>, a: int, b: int)
    requires
        0 <= a <= b,
    ensures
        cont_count(s, a) <= cont_count(s, b),
    decreases b - a,
{
    if a < b {
        lemma_cont_mono(s, a, b - 1);
    }
}

/// Connectors with both endpoints among the first `k` shapes.
pub open spec fn conn2_count(s: Seq<DetectedShape>, k: int) -> int
    decreases k,
{
    if k <= 0 {
        0
    } else {
        conn2_count(s, k - 1) + if crate::drawio::connector_kind(s[k - 1].shape_type) && s[k
            - 1].properties.start_point is Some && s[k - 1].properties.end_point is Some {
            1int
        } else {
            0int
        }
    }
}

/// Connector counting never decreases along the batch.
proof fn lemma_conn2_mono(s: Seq<DetectedShape>, a: int, b: int)
    requires
        0 <= a <= b,
    ensures
        conn2_count(s, a) <= conn2_count(s, b),
    decreases b - a,
{
    if a < b {
        lemma_conn2_mono(s, a, b - 1);
    }
}

/// The fields of the node built for container shape `t` before the
/// layout pass.
pub open spec fn rule_node_ok(
    nd: DiagramNode,
    shape: DetectedShape,
    regions: Seq<TextRegion>,
) -> bool {
    &&& nd.id@ == shape.id@
    &&& nd.shape_type@ == diagram_type_of(shape.shape_type)
    &&& nd.style@ == default_style_of(shape.shape_type)
    &&& nd.label@ == (if any_text_match(shape.bounds, regions, regions.len() as int) {
        text_join(shape.bounds, regions, regions.len() as int)
    } else {
        Seq::<u8>::empty()
    })
    &&& nd.x == shape.bounds.x
    &&& nd.y == shape.bounds.y
    &&& nd.width == (if shape.bounds.width < 80000 {
        80000int
    } else {
        shape.bounds.width as int
    })
    &&& nd.height == (if shape.bounds.height < 40000 {
        40000int
    } else {
        shape.bounds.height as int
    })
}

/// The same node after the grid layout pass.
pub open spec fn rule_node_laid_out(
    nd: DiagramNode,
    shape: DetectedShape,
    regions: Seq<TextRegion>,
) -> bool {
    &&& nd.id@ == shape.id@
    &&& nd.shape_type@ == diagram_type_of(shape.shape_type)
    &&& nd.style@ == default_style_of(shape.shape_type)
    &&& nd.label@ == (if any_text_match(shape.bounds, regions, regions.len() as int) {
        text_join(shape.bounds, regions, regions.len() as int)
    } else {
        Seq::<u8>::empty()
    })
    &&& nd.x == grid_round(shape.bounds.x as int)
    &&& nd.y == grid_round(shape.bounds.y as int)
    &&& nd.width == layout_w(
        if shape.bounds.width < 80000 {
            80000int
        } else {
            shape.bounds.width as int
        },
    )
    &&& nd.height == layout_h(
        if shape.bounds.height < 40000 {
            40000int
        } else {
            shape.bounds.height as int
        },
    )
}

/// Width of the node box a container shape produces (before the grid
/// layout): at least 80 units.
pub open spec fn cbox_w(s: DetectedShape) -> int {
    if s.bounds.width < 80000 {
        80000
    } else {
        s.bounds.width as int
    }
}

/// Height of the node box a container shape produces: at least 40
/// units.
pub open spec fn cbox_h(s: DetectedShape) -> int {
    if s.bounds.height < 40000 {
        40000
    } else {
        s.bounds.height as int
    }
}

/// The point lies inside the container's node box (inclusive edges).
pub open spec fn inside_cbox(s: DetectedShape, qx: int, qy: int) -> bool {
    s.bounds.x <= qx <= s.bounds.x + cbox_w(s) && s.bounds.y <= qy <= s.bounds.y + cbox_h(s)
}

/// Squared distance from the point to the container box's center.
pub open spec fn cbox_dist_sq(s: DetectedShape, qx: int, qy: int) -> int {
    let cx = s.bounds.x + cbox_w(s) / 2;
    let cy = s.bounds.y + cbox_h(s) / 2;
    (qx - cx) * (qx - cx) + (qy - cy) * (qy - cy)
}

/// First container among the first `k` shapes whose node box contains
/// the point; -1 when none.
pub open spec fn first_inside_cont(shapes: Seq<DetectedShape>, qx: int, qy: int, k: int) -> int
    decreases k,
{
    if k <= 0 {
        -1
    } else {
        let prev = first_inside_cont(shapes, qx, qy, k - 1);
        if prev != -1 {
            prev
        } else if container_kind(shapes[k - 1].shape_type) && inside_cbox(shapes[k - 1], qx, qy) {
            k - 1
        } else {
            -1
        }
    }
}

/// Container nearest to the point with its box center within 50
/// units, first on ties; -1 when none.
pub open spec fn nearest_cont(shapes: Seq<DetectedShape>, qx: int, qy: int, k: int) -> int
    decreases k,
{
    if k <= 0 {
        -1
    } else {
        let prev = nearest_cont(shapes, qx, qy, k - 1);
        let d = cbox_dist_sq(shapes[k - 1], qx, qy);
        if container_kind(shapes[k - 1].shape_type) && d < 2_500_000_000 && (prev == -1 || d
            < cbox_dist_sq(shapes[prev], qx, qy)) {
            k - 1
        } else {
            prev
        }
    }
}

/// The container a connector endpoint attaches to: by containment
/// first, then proximity; -1 when no container is close.
pub open spec fn endpoint_pick(shapes: Seq<DetectedShape>, qx: int, qy: int) -> int {
    let inside = first_inside_cont(shapes, qx, qy, shapes.len() as int);
    if inside != -1 {
        inside
    } else {
        nearest_cont(shapes, qx, qy, shapes.len() as int)
    }
}

/// The id a connector endpoint resolves to: empty when the endpoint is
/// absent or no container is close.
pub open spec fn endpoint_id_spec(shapes: Seq<DetectedShape>, p: Option<(i64, i64)>) -> Seq<
    char,
> {
    match p {
        None => Seq::empty(),
        Some(q) => {
            let pick = endpoint_pick(shapes, q.0 as int, q.1 as int);
            if pick == -1 {
                Seq::empty()
            } else {
                shapes[pick].id@
            }
        },
    }
}

/// The fields of the edge built for a connector shape: the id and
/// style come from the shape; each endpoint resolves to the container
/// its point touches (or comes within 50 units of), or stays empty.
pub open spec fn rule_edge_ok(
    e: DiagramEdge,
    shape: DetectedShape,
    shapes: Seq<DetectedShape>,
) -> bool {
    &&& e.id@ == shape.id@
    &&& e.style@ == edge_style_of(shape.shape_type)
    &&& e.label is None
    &&& e.source@ == endpoint_id_spec(shapes, shape.properties.start_point)
    &&& e.target@ == endpoint_id_spec(shapes, shape.properties.end_point)
}

/// Endpoint coordinates of the shapes are in range.
pub open spec fn shapes_points_ok(shapes: Seq<DetectedShape>) -> bool {
    forall|i: int|
        0 <= i < shapes.len() ==> {
            &&& ((#[trigger] shapes[i]).properties.start_point matches Some(p) ==> -(COORD_LIMIT
                as int) <= p.0 <= COORD_LIMIT as int && -(COORD_LIMIT as int) <= p.1
                <= COORD_LIMIT as int)
            &&& (shapes[i].properties.end_point matches Some(p) ==> -(COORD_LIMIT as int) <= p.0
                <= COORD_LIMIT as int && -(COORD_LIMIT as int) <= p.1 <= COORD_LIMIT as int)
        }
}

/// Once a containing container is found, it persists for longer
/// prefixes.
proof fn lemma_first_inside_cont_stable(
    shapes: Seq<DetectedShape>,
    qx: int,
    qy: int,
    k: int,
    m: int,
)
    requires
        0 <= k <= m,
        first_inside_cont(shapes, qx, qy, k) != -1,
    ensures
        first_inside_cont(shapes, qx, qy, m) == first_inside_cont(shapes, qx, qy, k),
    decreases m - k,
{
    if k < m {
        lemma_first_inside_cont_stable(shapes, qx, qy, k, m - 1);
    }
}

/// Both endpoint scans are -1 or a valid container index.
proof fn lemma_cont_scan_range(shapes: Seq<DetectedShape>, qx: int, qy: int, k: int)
    ensures
        first_inside_cont(shapes, qx, qy, k) == -1 || (0 <= first_inside_cont(shapes, qx, qy, k)
            < k && container_kind(shapes[first_inside_cont(shapes, qx, qy, k)].shape_type)),
        nearest_cont(shapes, qx, qy, k) == -1 || (0 <= nearest_cont(shapes, qx, qy, k) < k
            && container_kind(shapes[nearest_cont(shapes, qx, qy, k)].shape_type)),
    decreases k,
{
    if k > 0 {
        lemma_cont_scan_range(shapes, qx, qy, k - 1);
    }
}

/// The container a connector endpoint attaches to, executable: the
/// first container whose node box contains the point, else the
/// nearest container box center within 50 units; -1 when none.
fn find_container_at_point(shapes: &[DetectedShape], qx: i64, qy: i64) -> (r: i64)
    requires
        crate::drawio::shapes_bounds_ok(shapes@),
        shapes@.len() <= MAX_ELEMS,
        -(COORD_LIMIT as int) <= qx <= COORD_LIMIT as int,
        -(COORD_LIMIT as int) <= qy <= COORD_LIMIT as int,
    ensures
        r == endpoint_pick(shapes@, qx as int, qy as int),
        r == -1 || (0 <= r < shapes@.len() && container_kind(shapes@[r as int].shape_type)),
{
    proof {
        lemma_cont_scan_range(shapes@, qx as int, qy as int, shapes@.len() as int);
    }
    let mut i: usize = 0;
    while i < shapes.len()
        invariant
            crate::drawio::shapes_bounds_ok(shapes@),
            0 <= i <= shapes@.len() <= MAX_ELEMS,
            -(COORD_LIMIT as int) <= qx <= COORD_LIMIT as int,
            -(COORD_LIMIT as int) <= qy <= COORD_LIMIT as int,
            first_inside_cont(shapes@, qx as int, qy as int, i as int) == -1,
        decreases shapes@.len() - i,
    {
        let s = &shapes[i];
        if is_container_shape(&s.shape_type) {
            let w: i64 = if s.bounds.width < 80000 {
                80000
            } else {
                s.bounds.width
            };
            let h: i64 = if s.bounds.height < 40000 {
                40000
            } else {
                s.bounds.height
            };
            if qx >= s.bounds.x && qx <= s.bounds.x + w && qy >= s.bounds.y && qy <= s.bounds.y
                + h {
                proof {
                    assert(first_inside_cont(shapes@, qx as int, qy as int, i as int + 1)
                        == i as int);
                    lemma_first_inside_cont_stable(
                        shapes@,
                        qx as int,
                        qy as int,
                        i as int + 1,
                        shapes@.len() as int,
                    );
                }
                return i as i64;
            }
        }
        i = i + 1;
    }
    let mut best: i64 = -1;
    let mut best_d: i128 = 0;
    let mut j: usize = 0;
    while j < shapes.len()
        invariant
            crate::drawio::shapes_bounds_ok(shapes@),
            0 <= j <= shapes@.len() <= MAX_ELEMS,
            -(COORD_LIMIT as int) <= qx <= COORD_LIMIT as int,
            -(COORD_LIMIT as int) <= qy <= COORD_LIMIT as int,
            best == nearest_cont(shapes@, qx as int, qy as int, j as int),
            best != -1 ==> 0 <= best < j && best_d == cbox_dist_sq(
                shapes@[best as int],
                qx as int,
                qy as int,
            ),
        decreases shapes@.len() - j,
    {
        let s = &shapes[j];
        if is_container_shape(&s.shape_type) {
            let w: i64 = if s.bounds.width < 80000 {
                80000
            } else {
                s.bounds.width
            };
            let h: i64 = if s.bounds.height < 40000 {
                40000
            } else {
                s.bounds.height
            };
            let cx: i64 = s.bounds.x + w / 2;
            let cy: i64 = s.bounds.y + h / 2;
            proof {
                crate::geom::lemma_sq_bound(qx as int - cx as int, 40_000_000);
                crate::geom::lemma_sq_bound(qy as int - cy as int, 40_000_000);
            }
            let dx: i128 = qx as i128 - cx as i128;
            let dy: i128 = qy as i128 - cy as i128;
            let d: i128 = dx * dx + dy * dy;
            if d < 2_500_000_000 && (best == -1 || d < best_d) {
                best = j as i64;
                best_d = d;
            }
        }
        j = j + 1;
    }
    best
}

/// Rule-based enhancement: container shapes become diagram nodes with
/// their overlapping text as label, connector shapes with both
/// endpoints become edges anchored at the node each endpoint touches
/// (or comes within 50 units of), and the layout snaps to the grid.
/// The enhancement never fails.
#[verifier::rlimit(100)]
pub fn enhance_with_rules(
    shapes: &[DetectedShape],
    text_regions: &[TextRegion],
    _context: &str,
) -> (r: Result<DiagramStructure, String>)
    requires
        crate::drawio::shapes_bounds_ok(shapes@),
        shapes_points_ok(shapes@),
        text_bounds_ok(text_regions@),
        shapes@.len() <= MAX_ELEMS,
    ensures
        r is Ok,
        r matches Ok(st) ==> {
            &&& st.diagram_type@ == llm_diagram_type(shapes@, text_regions@)
            &&& st.metadata.title is None
            &&& st.metadata.author is None
            &&& st.metadata.created_at is None
            &&& st.metadata.version is None
            &&& st.nodes@.len() == cont_count(shapes@, shapes@.len() as int)
            &&& forall|t: int|
                0 <= t < shapes@.len() && container_kind(
                    (#[trigger] shapes@[t]).shape_type,
                ) ==> rule_node_laid_out(
                    st.nodes@[cont_count(shapes@, t)],
                    shapes@[t],
                    text_regions@,
                )
            &&& st.edges@.len() == conn2_count(shapes@, shapes@.len() as int)
            &&& forall|t: int|
                0 <= t < shapes@.len() && crate::drawio::connector_kind(
                    (#[trigger] shapes@[t]).shape_type,
                ) && shapes@[t].properties.start_point is Some
                    && shapes@[t].properties.end_point is Some ==> rule_edge_ok(
                    st.edges@[conn2_count(shapes@, t)],
                    shapes@[t],
                    shapes@,
                )
        },
{
    let diagram_type = detect_diagram_type(shapes, text_regions);
    let mut nodes: Vec<DiagramNode> = Vec::new();
    let mut i: usize = 0;
    while i < shapes.len()
        invariant
            crate::drawio::shapes_bounds_ok(shapes@),
            text_bounds_ok(text_regions@),
            0 <= i <= shapes@.len() <= MAX_ELEMS,
            nodes@.len() == cont_count(shapes@, i as int),
            forall|t: int|
                0 <= t < i && container_kind((#[trigger] shapes@[t]).shape_type) ==> rule_node_ok(
                    nodes@[cont_count(shapes@, t)],
                    shapes@[t],
                    text_regions@,
                ),
            nodes_ok(nodes@),
        decreases shapes@.len() - i,
    {
        let shape = &shapes[i];
        if is_container_shape(&shape.shape_type) {
            let label: Vec<u8> = match find_text_for_shape(shape, text_regions) {
                Some(v) => v,
                None => Vec::new(),
            };
            let w: i64 = if shape.bounds.width < 80000 {
                80000
            } else {
                shape.bounds.width
            };
            let h: i64 = if shape.bounds.height < 40000 {
                40000
            } else {
                shape.bounds.height
            };
            let node = DiagramNode {
                id: shape.id.clone(),
                label,
                shape_type: map_shape_to_diagram_type(&shape.shape_type),
                x: shape.bounds.x,
                y: shape.bounds.y,
                width: w,
                height: h,
                style: get_default_style(&shape.shape_type),
            };
            proof {
                assert forall|t: int|
                    0 <= t < i && container_kind((#[trigger] shapes@[t]).shape_type) implies {
                    &&& cont_count(shapes@, t) < cont_count(shapes@, i as int)
                    &&& cont_count(shapes@, t) >= 0
                } by {
                    lemma_cont_mono(shapes@, 0, t);
                    assert(cont_count(shapes@, t + 1) == cont_count(shapes@, t) + 1);
                    lemma_cont_mono(shapes@, t + 1, i as int);
                }
            }
            nodes.push(node);
        }
        i = i + 1;
    }
    let mut structure = DiagramStructure {
        diagram_type,
        nodes,
        edges: Vec::new(),
        metadata: DiagramMetadata::default(),
    };
    let ghost nodes0 = structure.nodes@;
    proof {
        lemma_cont_le(shapes@, shapes@.len() as int);
    }
    let mut j: usize = 0;
    while j < shapes.len()
        invariant
            crate::drawio::shapes_bounds_ok(shapes@),
            shapes_points_ok(shapes@),
            text_bounds_ok(text_regions@),
            0 <= j <= shapes@.len() <= MAX_ELEMS,
            structure.nodes@ == nodes0,
            nodes0.len() == cont_count(shapes@, shapes@.len() as int),
            nodes0.len() <= MAX_ELEMS,
            nodes_ok(nodes0),
            forall|t: int|
                0 <= t < shapes@.len() && container_kind(
                    (#[trigger] shapes@[t]).shape_type,
                ) ==> rule_node_ok(nodes0[cont_count(shapes@, t)], shapes@[t], text_regions@),
            structure.edges@.len() == conn2_count(shapes@, j as int),
            forall|t: int|
                0 <= t < j && crate::drawio::connector_kind((#[trigger] shapes@[t]).shape_type)
                    && shapes@[t].properties.start_point is Some
                    && shapes@[t].properties.end_point is Some ==> rule_edge_ok(
                    structure.edges@[conn2_count(shapes@, t)],
                    shapes@[t],
                    shapes@,
                ),
            structure.diagram_type@ == llm_diagram_type(shapes@, text_regions@),
            structure.metadata.title is None,
            structure.metadata.author is None,
            structure.metadata.created_at is None,
            structure.metadata.version is None,
        decreases shapes@.len() - j,
    {
        let shape = &shapes[j];
        if is_connector_shape(&shape.shape_type) {
            let sp = shape.properties.start_point;
            let ep = shape.properties.end_point;
            if let (Some(start), Some(end)) = (sp, ep) {
                let sp_pick = find_container_at_point(shapes, start.0, start.1);
                let source_id: String = if sp_pick < 0 {
                    String::new()
                } else {
                    shapes[sp_pick as usize].id.clone()
                };
                let tp_pick = find_container_at_point(shapes, end.0, end.1);
                let target_id: String = if tp_pick < 0 {
                    String::new()
                } else {
                    shapes[tp_pick as usize].id.clone()
                };
                proof {
                    assert(source_id@ == endpoint_id_spec(shapes@, sp));
                    assert(target_id@ == endpoint_id_spec(shapes@, ep));
                }
                let edge = DiagramEdge {
                    id: shape.id.clone(),
                    source: source_id,
                    target: target_id,
                    label: None,
                    style: get_edge_style(&shape.shape_type),
                };
                proof {
                    assert forall|t: int|
                        0 <= t < j && crate::drawio::connector_kind(
                            (#[trigger] shapes@[t]).shape_type,
                        ) && shapes@[t].properties.start_point is Some
                            && shapes@[t].properties.end_point is Some implies {
                        &&& conn2_count(shapes@, t) < conn2_count(shapes@, j as int)
                        &&& conn2_count(shapes@, t) >= 0
                    } by {
                        lemma_conn2_mono(shapes@, 0, t);
                        assert(conn2_count(shapes@, t + 1) == conn2_count(shapes@, t) + 1);
                        lemma_conn2_mono(shapes@, t + 1, j as int);
                    }
                }
                structure.edges.push(edge);
            }
        }
        j = j + 1;
    }
    improve_layout(&mut structure);
    proof {
        assert forall|t: int|
            0 <= t < shapes@.len() && container_kind(
                (#[trigger] shapes@[t]).shape_type,
            ) implies rule_node_laid_out(
            structure.nodes@[cont_count(shapes@, t)],
            shapes@[t],
            text_regions@,
        ) by {
            lemma_cont_mono(shapes@, 0, t);
            assert(cont_count(shapes@, t + 1) == cont_count(shapes@, t) + 1);
            lemma_cont_mono(shapes@, t + 1, shapes@.len() as int);
        }
    }
    Ok(structure)
}

/// Basic structure without enhancement: container shapes become nodes
/// with their raw bounds and lowercase type names, no edges, generic
/// diagram type.
#[verifier::rlimit(100)]
pub fn create_basic_structure(shapes: &[DetectedShape], text_regions: &[TextRegion]) -> (r:
    DiagramStructure)
    requires
        crate::drawio::shapes_bounds_ok(shapes@),
        text_bounds_ok(text_regions@),
        shapes@.len() <= MAX_ELEMS,
    ensures
        r.diagram_type@ == "generic"@,
        r.edges@.len() == 0,
        r.nodes@.len() == cont_count(shapes@, shapes@.len() as int),
        forall|t: int|
            0 <= t < shapes@.len() && container_kind((#[trigger] shapes@[t]).shape_type) ==> {
                let nd = r.nodes@[cont_count(shapes@, t)];
                &&& nd.id@ == shapes@[t].id@
                &&& nd.shape_type@ == type_name_of(shapes@[t].shape_type)
                &&& nd.style@ == Seq::<char>::empty()
                &&& nd.label@ == (if any_text_match(
                    shapes@[t].bounds,
                    text_regions@,
                    text_regions@.len() as int,
                ) {
                    text_join(shapes@[t].bounds, text_regions@, text_regions@.len() as int)
                } else {
                    Seq::<u8>::empty()
                })
                &&& nd.x == shapes@[t].bounds.x
                &&& nd.y == shapes@[t].bounds.y
                &&& nd.width == shapes@[t].bounds.width
                &&& nd.height == shapes@[t].bounds.height
            },
{
    let mut nodes: Vec<DiagramNode> = Vec::new();
    let mut i: usize = 0;
    while i < shapes.len()
        invariant
            crate::drawio::shapes_bounds_ok(shapes@),
            text_bounds_ok(text_regions@),
            0 <= i <= shapes@.len() <= MAX_ELEMS,
            nodes@.len() == cont_count(shapes@, i as int),
            forall|t: int|
                0 <= t < i && container_kind((#[trigger] shapes@[t]).shape_type) ==> {
                    let nd = nodes@[cont_count(shapes@, t)];
                    &&& nd.id@ == shapes@[t].id@
                    &&& nd.shape_type@ == type_name_of(shapes@[t].shape_type)
                    &&& nd.style@ == Seq::<char>::empty()
                    &&& nd.label@ == (if any_text_match(
                        shapes@[t].bounds,
                        text_regions@,
                        text_regions@.len() as int,
                    ) {
                        text_join(shapes@[t].bounds, text_regions@, text_regions@.len() as int)
                    } else {
                        Seq::<u8>::empty()
                    })
                    &&& nd.x == shapes@[t].bounds.x
                    &&& nd.y == shapes@[t].bounds.y
                    &&& nd.width == shapes@[t].bounds.width
                    &&& nd.height == shapes@[t].bounds.height
                },
        decreases shapes@.len() - i,
    {
        let shape = &shapes[i];
        if is_container_shape(&shape.shape_type) {
            let label: Vec<u8> = match find_text_for_shape(shape, text_regions) {
                Some(v) => v,
                None => Vec::new(),
            };
            let node = DiagramNode {
                id: shape.id.clone(),
                label,
                shape_type: shape_type_name(&shape.shape_type),
                x: shape.bounds.x,
                y: shape.bounds.y,
                width: shape.bounds.width,
                height: shape.bounds.height,
                style: String::new(),
            };
            proof {
                assert forall|t: int|
                    0 <= t < i && container_kind((#[trigger] shapes@[t]).shape_type) implies {
                    &&& cont_count(shapes@, t) < cont_count(shapes@, i as int)
                    &&& cont_count(shapes@, t) >= 0
                } by {
                    lemma_cont_mono(shapes@, 0, t);
                    assert(cont_count(shapes@, t + 1) == cont_count(shapes@, t) + 1);
                    lemma_cont_mono(shapes@, t + 1, i as int);
                }
            }
            nodes.push(node);
        }
        i = i + 1;
    }
    DiagramStructure {
        diagram_type: String::from_str("generic"),
        nodes,
        edges: Vec::new(),
        metadata: DiagramMetadata::default(),
    }
}

/// Byte-exact copy of a byte vector.
fn copy_bytes(v: &Vec<u8>) -> (r: Vec<u8>)
    ensures
        r@ == v@,
{
    let mut out: Vec<u8> = Vec::new();
    let mut i: usize = 0;
    while i < v.len()
        invariant
            0 <= i <= v@.len(),
            out@ == v@.subrange(0, i as int),
        decreases v@.len() - i,
    {
        out.push(v[i]);
        proof {
            assert(out@ =~= v@.subrange(0, i as int + 1));
        }
        i = i + 1;
    }
    proof {
        assert(v@.subrange(0, v@.len() as int) =~= v@);
    }
    out
}

} // verus!
