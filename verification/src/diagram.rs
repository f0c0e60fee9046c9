//! Aggregate diagram-type classification: count the detected shapes
//! per kind, scan the recognized text for two fixed keyword sets, and
//! label the whole diagram with a confidence in basis points.

use vstd::prelude::*;
use vstd::string::*;

use crate::geom::MAX_ELEMS;
use crate::ocr::TextRegion;
use crate::shapes::{DetectedShape, ShapeType};

verus! {

// ---------------------------------------------------------------------
// Text: lowercasing, joining, substring search
// ---------------------------------------------------------------------

/// ASCII lowercase of one byte; other bytes pass through.
pub open spec fn lower_byte(b: u8) -> u8 {
    if 65 <= b <= 90 {
        (b + 32) as u8
    } else {
        b
    }
}

/// ASCII lowercase of a byte sequence.
pub open spec fn lower_bytes(s: Seq<u8>) -> Seq<u8> {
    s.map_values(|b: u8| lower_byte(b))
}

/// The region texts joined with single spaces, in order.
pub open spec fn joined_text(rs: Seq<TextRegion>) -> Seq<u8>
    decreases rs.len(),
{
    if rs.len() == 0 {
        Seq::empty()
    } else if rs.len() == 1 {
        rs[0].text@
    } else {
        joined_text(rs.drop_last()) + seq![32u8] + rs.last().text@
    }
}

/// `n` occurs in `h` at position `i`.
pub open spec fn is_sub_at(h: Seq<u8>, n: Seq<u8>, i: int) -> bool {
    0 <= i && i + n.len() <= h.len() && h.subrange(i, i + n.len()) == n
}

/// `n` occurs somewhere in `h`.
pub open spec fn contains_bytes(h: Seq<u8>, n: Seq<u8>) -> bool {
    exists|i: int| #[trigger] is_sub_at(h, n, i)
}

/// ASCII lowercase of one byte, executable.
fn lower_byte_exec(b: u8) -> (r: u8)
    ensures
        r == lower_byte(b),
{
    if 65 <= b && b <= 90 {
        b + 32
    } else {
        b
    }
}

/// Join all region texts with single spaces and lowercase the result.
pub(crate) fn build_haystack(regions: &[TextRegion]) -> (r: Vec<u8>)
    ensures
        r@ == lower_bytes(joined_text(regions@)),
{
    let mut out: Vec<u8> = Vec::new();
    let mut i: usize = 0;
    proof {
        assert(out@ =~= lower_bytes(joined_text(regions@.subrange(0, 0))));
    }
    while i < regions.len()
        invariant
            0 <= i <= regions@.len(),
            out@ == lower_bytes(joined_text(regions@.subrange(0, i as int))),
        decreases regions@.len() - i,
    {
        let ghost pre_target = joined_text(regions@.subrange(0, i as int));
        if i > 0 {
            out.push(32);
            proof {
                assert(lower_byte(32) == 32);
                assert(out@ =~= lower_bytes(pre_target + seq![32u8]));
            }
        }
        let ghost mid = if i > 0 {
            pre_target + seq![32u8]
        } else {
            pre_target
        };
        let text = &regions[i].text;
        let mut j: usize = 0;
        while j < text.len()
            invariant
                0 <= i < regions@.len(),
                0 <= j <= text@.len(),
                text == regions@[i as int].text,
                out@ == lower_bytes(mid + text@.subrange(0, j as int)),
            decreases text@.len() - j,
        {
            let lb = lower_byte_exec(text[j]);
            out.push(lb);
            proof {
                assert(out@ =~= lower_bytes(mid + text@.subrange(0, j as int + 1)));
            }
            j = j + 1;
        }
        proof {
            assert(text@.subrange(0, text@.len() as int) =~= text@);
            let next = regions@.subrange(0, i as int + 1);
            assert(next.drop_last() =~= regions@.subrange(0, i as int));
            assert(next.last() == regions@[i as int]);
            if i == 0 {
                assert(joined_text(next) == next[0].text@);
                assert(mid + text@ =~= joined_text(next));
            } else {
                assert(joined_text(next) == joined_text(next.drop_last()) + seq![32u8]
                    + next.last().text@);
                assert(mid + text@ =~= joined_text(next));
            }
        }
        i = i + 1;
    }
    proof {
        assert(regions@.subrange(0, regions@.len() as int) =~= regions@);
    }
    out
}

/// Naive substring search over bytes, exact.
pub(crate) fn contains_sub(hay: &[u8], needle: &[u8]) -> (r: bool)
    ensures
        r == contains_bytes(hay@, needle@),
{
    let hn = hay.len();
    let nn = needle.len();
    if nn == 0 {
        proof {
            assert(hay@.subrange(0, 0) =~= needle@);
            assert(is_sub_at(hay@, needle@, 0));
        }
        return true;
    }
    if nn > hn {
        proof {
            assert forall|i: int| !is_sub_at(hay@, needle@, i) by {}
        }
        return false;
    }
    let mut i: usize = 0;
    while i <= hn - nn
        invariant
            nn <= hn,
            hn == hay@.len(),
            nn == needle@.len(),
            1 <= nn,
            0 <= i <= hn - nn + 1,
            forall|k: int| 0 <= k < i ==> !#[trigger] is_sub_at(hay@, needle@, k),
        decreases hn + 1 - nn - i,
    {
        let mut j: usize = 0;
        let mut matched: bool = true;
        while j < nn && matched
            invariant
                nn <= hn,
                hn == hay@.len(),
                nn == needle@.len(),
                1 <= nn,
                0 <= i <= hn - nn,
                0 <= j <= nn,
                matched ==> forall|t: int| 0 <= t < j ==> hay@[i + t] == needle@[t],
                !matched ==> !is_sub_at(hay@, needle@, i as int),
            decreases nn - j + if matched {
                1int
            } else {
                0int
            },
        {
            if hay[i + j] != needle[j] {
                proof {
                    assert(!is_sub_at(hay@, needle@, i as int)) by {
                        if is_sub_at(hay@, needle@, i as int) {
                            assert(hay@.subrange(i as int, i as int + nn as int)[j as int]
                                == needle@[j as int]);
                        }
                    }
                }
                matched = false;
            } else {
                j = j + 1;
            }
        }
        if matched {
            proof {
                assert(hay@.subrange(i as int, i as int + nn as int) =~= needle@);
                assert(is_sub_at(hay@, needle@, i as int));
            }
            return true;
        }
        i = i + 1;
    }
    proof {
        assert forall|k: int| !is_sub_at(hay@, needle@, k) by {
            if k >= i {
                assert(k + needle@.len() > hay@.len());
            }
        }
    }
    false
}

// ---------------------------------------------------------------------
// Keyword sets
// ---------------------------------------------------------------------

/// The bytes of "start".
pub open spec fn kw_start() -> Seq<u8> {
    seq![115u8, 116u8, 97u8, 114u8, 116u8]
}

/// The bytes of "end".
pub open spec fn kw_end() -> Seq<u8> {
    seq![101u8, 110u8, 100u8]
}

/// The bytes of "if".
pub open spec fn kw_if() -> Seq<u8> {
    seq![105u8, 102u8]
}

/// The bytes of "yes".
pub open spec fn kw_yes() -> Seq<u8> {
    seq![121u8, 101u8, 115u8]
}

/// The bytes of "no".
pub open spec fn kw_no() -> Seq<u8> {
    seq![110u8, 111u8]
}

/// The bytes of "begin".
pub open spec fn kw_begin() -> Seq<u8> {
    seq![98u8, 101u8, 103u8, 105u8, 110u8]
}

/// The bytes of "process".
pub open spec fn kw_process() -> Seq<u8> {
    seq![112u8, 114u8, 111u8, 99u8, 101u8, 115u8, 115u8]
}

/// The bytes of "class".
pub open spec fn kw_class() -> Seq<u8> {
    seq![99u8, 108u8, 97u8, 115u8, 115u8]
}

/// The bytes of "interface".
pub open spec fn kw_interface() -> Seq<u8> {
    seq![105u8, 110u8, 116u8, 101u8, 114u8, 102u8, 97u8, 99u8, 101u8]
}

/// The bytes of "extends".
pub open spec fn kw_extends() -> Seq<u8> {
    seq![101u8, 120u8, 116u8, 101u8, 110u8, 100u8, 115u8]
}

/// The bytes of "implements".
pub open spec fn kw_implements() -> Seq<u8> {
    seq![105u8, 109u8, 112u8, 108u8, 101u8, 109u8, 101u8, 110u8, 116u8, 115u8]
}

/// The bytes of "public".
pub open spec fn kw_public() -> Seq<u8> {
    seq![112u8, 117u8, 98u8, 108u8, 105u8, 99u8]
}

/// The bytes of "private".
pub open spec fn kw_private() -> Seq<u8> {
    seq![112u8, 114u8, 105u8, 118u8, 97u8, 116u8, 101u8]
}

/// One when the keyword occurs in the haystack.
pub open spec fn hit(h: Seq<u8>, kw: Seq<u8>) -> int {
    if contains_bytes(h, kw) {
        1
    } else {
        0
    }
}

/// How many of the flow-control keywords occur in the haystack.
pub open spec fn flow_hits(h: Seq<u8>) -> int {
    hit(h, kw_start()) + hit(h, kw_end()) + hit(h, kw_if()) + hit(h, kw_yes()) + hit(h, kw_no())
        + hit(h, kw_begin()) + hit(h, kw_process())
}

/// How many of the object-oriented keywords occur in the haystack.
pub open spec fn uml_hits(h: Seq<u8>) -> int {
    hit(h, kw_class()) + hit(h, kw_interface()) + hit(h, kw_extends()) + hit(h, kw_implements())
        + hit(h, kw_public()) + hit(h, kw_private())
}

/// Count the flow-control keyword hits, executable.
fn count_flow_hits(hay: &[u8]) -> (r: i64)
    ensures
        r == flow_hits(hay@),
        0 <= r <= 7,
{
    let mut c: i64 = 0;
    let kw: Vec<u8> = vec![115, 116, 97, 114, 116];
    proof {
        assert(kw@ =~= kw_start());
    }
    if contains_sub(hay, kw.as_slice()) {
        c = c + 1;
    }
    let kw: Vec<u8> = vec![101, 110, 100];
    proof {
        assert(kw@ =~= kw_end());
    }
    if contains_sub(hay, kw.as_slice()) {
        c = c + 1;
    }
    let kw: Vec<u8> = vec![105, 102];
    proof {
        assert(kw@ =~= kw_if());
    }
    if contains_sub(hay, kw.as_slice()) {
        c = c + 1;
    }
    let kw: Vec<u8> = vec![121, 101, 115];
    proof {
        assert(kw@ =~= kw_yes());
    }
    if contains_sub(hay, kw.as_slice()) {
        c = c + 1;
    }
    let kw: Vec<u8> = vec![110, 111];
    proof {
        assert(kw@ =~= kw_no());
    }
    if contains_sub(hay, kw.as_slice()) {
        c = c + 1;
    }
    let kw: Vec<u8> = vec![98, 101, 103, 105, 110];
    proof {
        assert(kw@ =~= kw_begin());
    }
    if contains_sub(hay, kw.as_slice()) {
        c = c + 1;
    }
    let kw: Vec<u8> = vec![112, 114, 111, 99, 101, 115, 115];
    proof {
        assert(kw@ =~= kw_process());
    }
    if contains_sub(hay, kw.as_slice()) {
        c = c + 1;
    }
    c
}

/// Count the object-oriented keyword hits, executable.
fn count_uml_hits(hay: &[u8]) -> (r: i64)
    ensures
        r == uml_hits(hay@),
        0 <= r <= 6,
{
    let mut c: i64 = 0;
    let kw: Vec<u8> = vec![99, 108, 97, 115, 115];
    proof {
        assert(kw@ =~= kw_class());
    }
    if contains_sub(hay, kw.as_slice()) {
        c = c + 1;
    }
    let kw: Vec<u8> = vec![105, 110, 116, 101, 114, 102, 97, 99, 101];
    proof {
        assert(kw@ =~= kw_interface());
    }
    if contains_sub(hay, kw.as_slice()) {
        c = c + 1;
    }
    let kw: Vec<u8> = vec![101, 120, 116, 101, 110, 100, 115];
    proof {
        assert(kw@ =~= kw_extends());
    }
    if contains_sub(hay, kw.as_slice()) {
        c = c + 1;
    }
    let kw: Vec<u8> = vec![105, 109, 112, 108, 101, 109, 101, 110, 116, 115];
    proof {
        assert(kw@ =~= kw_implements());
    }
    if contains_sub(hay, kw.as_slice()) {
        c = c + 1;
    }
    let kw: Vec<u8> = vec![112, 117, 98, 108, 105, 99];
    proof {
        assert(kw@ =~= kw_public());
    }
    if contains_sub(hay, kw.as_slice()) {
        c = c + 1;
    }
    let kw: Vec<u8> = vec![112, 114, 105, 118, 97, 116, 101];
    proof {
        assert(kw@ =~= kw_private());
    }
    if contains_sub(hay, kw.as_slice()) {
        c = c + 1;
    }
    c
}

// ---------------------------------------------------------------------
// Shape counts and the verdict
// ---------------------------------------------------------------------

/// Rectangles among the first `k` shapes.
pub open spec fn rect_count(s: Seq<DetectedShape>, k: int) -> int
    decreases k,
{
    if k <= 0 {
        0
    } else {
        rect_count(s, k - 1) + if s[k - 1].shape_type == ShapeType::Rectangle {
            1int
        } else {
            0int
        }
    }
}

/// Diamonds among the first `k` shapes.
pub open spec fn diamond_count(s: Seq<DetectedShape>, k: int) -> int
    decreases k,
{
    if k <= 0 {
        0
    } else {
        diamond_count(s, k - 1) + if s[k - 1].shape_type == ShapeType::Diamond {
            1int
        } else {
            0int
        }
    }
}

/// Arrows and lines among the first `k` shapes.
pub open spec fn arrow_count(s: Seq<DetectedShape>, k: int) -> int
    decreases k,
{
    if k <= 0 {
        0
    } else {
        arrow_count(s, k - 1) + if s[k - 1].shape_type == ShapeType::Arrow || s[k - 1].shape_type
            == ShapeType::Line {
            1int
        } else {
            0int
        }
    }
}

/// Circles and ellipses among the first `k` shapes.
pub open spec fn circle_count(s: Seq<DetectedShape>, k: int) -> int
    decreases k,
{
    if k <= 0 {
        0
    } else {
        circle_count(s, k - 1) + if s[k - 1].shape_type == ShapeType::Circle || s[k
            - 1].shape_type == ShapeType::Ellipse {
            1int
        } else {
            0int
        }
    }
}

/// Connectors among the first `k` shapes.
pub open spec fn connector_count(s: Seq<DetectedShape>, k: int) -> int
    decreases k,
{
    if k <= 0 {
        0
    } else {
        connector_count(s, k - 1) + if s[k - 1].shape_type == ShapeType::Connector {
            1int
        } else {
            0int
        }
    }
}

/// The diagram label and confidence (basis points), by the first
/// matching rule: flowchart when diamonds, arrows and rectangles all
/// occur; UML class diagram when several rectangles, an arrow and an
/// object-oriented keyword occur; state diagram when circles outnumber
/// rectangles beside a connector; block diagram for rectangles with
/// arrows; freeform otherwise at 0.3.
pub open spec fn diagram_verdict(shapes: Seq<DetectedShape>, regions: Seq<TextRegion>) -> (
    Seq<char>,
    int,
) {
    let n = shapes.len() as int;
    let d = diamond_count(shapes, n);
    let a = arrow_count(shapes, n);
    let rc = rect_count(shapes, n);
    let cc = circle_count(shapes, n);
    let kc = connector_count(shapes, n);
    let hay = lower_bytes(joined_text(regions));
    let f = flow_hits(hay);
    let u = uml_hits(hay);
    let total = if n == 0 {
        1int
    } else {
        n
    };
    if d > 0 && a > 0 && rc > 0 {
        let conf = 3000 + 1000 * f + 3000 * (d + a) / total;
        ("flowchart"@, if conf > 9500 {
            9500int
        } else {
            conf
        })
    } else if rc > 2 && a > 0 && u > 0 {
        let conf = 3000 + 1500 * u;
        ("uml_class"@, if conf > 9000 {
            9000int
        } else {
            conf
        })
    } else if cc > rc && kc > 0 {
        ("state_diagram"@, 6000)
    } else if rc > 0 && a > 0 {
        ("block_diagram"@, 5000)
    } else {
        ("freeform"@, 3000)
    }
}

/// Classify the whole diagram from the detected shapes and the
/// recognized text. Returns the label and its confidence in basis
/// points. An empty diagram without text is freeform at 0.3.
pub fn classify_diagram(shapes: &[DetectedShape], text_regions: &[TextRegion]) -> (r: (
    String,
    i64,
))
    requires
        shapes@.len() <= MAX_ELEMS,
    ensures
        r.0@ == diagram_verdict(shapes@, text_regions@).0,
        r.1 == diagram_verdict(shapes@, text_regions@).1,
        3000 <= r.1 <= 9500,
        shapes@.len() == 0 && text_regions@.len() == 0 ==> r.0@ == "freeform"@ && r.1 == 3000,
{
    let n = shapes.len();
    let mut rc: i64 = 0;
    let mut d: i64 = 0;
    let mut a: i64 = 0;
    let mut cc: i64 = 0;
    let mut kc: i64 = 0;
    let mut i: usize = 0;
    while i < n
        invariant
            n == shapes@.len() <= MAX_ELEMS,
            0 <= i <= n,
            rc == rect_count(shapes@, i as int),
            d == diamond_count(shapes@, i as int),
            a == arrow_count(shapes@, i as int),
            cc == circle_count(shapes@, i as int),
            kc == connector_count(shapes@, i as int),
            0 <= rc <= i && 0 <= d <= i && 0 <= a <= i && 0 <= cc <= i && 0 <= kc <= i,
        decreases n - i,
    {
        let st = &shapes[i].shape_type;
        match st {
            ShapeType::Rectangle => {
                rc = rc + 1;
            },
            ShapeType::Diamond => {
                d = d + 1;
            },
            ShapeType::Arrow => {
                a = a + 1;
            },
            ShapeType::Line => {
                a = a + 1;
            },
            ShapeType::Circle => {
                cc = cc + 1;
            },
            ShapeType::Ellipse => {
                cc = cc + 1;
            },
            ShapeType::Connector => {
                kc = kc + 1;
            },
            _ => {},
        }
        i = i + 1;
    }
    let hay = build_haystack(text_regions);
    let f = count_flow_hits(hay.as_slice());
    let u = count_uml_hits(hay.as_slice());
    let total: i64 = if n == 0 {
        1
    } else {
        n as i64
    };
    if d > 0 && a > 0 && rc > 0 {
        proof {
            assert(0 <= 3000 * ((d + a) as int) / (total as int) <= 3000 * ((d + a) as int))
                by (nonlinear_arith)
                requires
                    0 <= d + a,
                    1 <= total,
            ;
        }
        let conf: i64 = 3000 + 1000 * f + 3000 * (d + a) / total;
        let conf = if conf > 9500 {
            9500
        } else {
            conf
        };
        (String::from_str("flowchart"), conf)
    } else if rc > 2 && a > 0 && u > 0 {
        let conf: i64 = 3000 + 1500 * u;
        let conf = if conf > 9000 {
            9000
        } else {
            conf
        };
        (String::from_str("uml_class"), conf)
    } else if cc > rc && kc > 0 {
        (String::from_str("state_diagram"), 6000)
    } else if rc > 0 && a > 0 {
        (String::from_str("block_diagram"), 5000)
    } else {
        (String::from_str("freeform"), 3000)
    }
}

} // verus!
