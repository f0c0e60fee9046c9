//! Model of recognized text regions, as the diagram classifier and the
//! export layer consume them: positions in milliunits, confidences in
//! basis points, text as UTF-8 bytes.

use vstd::prelude::*;
use vstd::string::*;

use crate::geom::{COORD_LIMIT, MAX_ELEMS};

verus! {

/// Bounding box of a text region, in milliunits.
#[derive(Clone, Copy, Debug)]
pub struct TextBounds {
    pub x: i64,
    pub y: i64,
    pub width: i64,
    pub height: i64,
}

/// A recognized text fragment with its location. `text` holds UTF-8
/// bytes; `confidence` is in basis points, `font_size_estimate` in
/// milliunits.
#[derive(Clone, Debug)]
pub struct TextRegion {
    pub id: String,
    pub text: Vec<u8>,
    pub bounds: TextBounds,
    pub confidence: i64,
    pub font_size_estimate: i64,
}

/// A region whose height and confidence the analysis accepts.
pub open spec fn region_ok(r: TextRegion) -> bool {
    0 <= r.bounds.height <= COORD_LIMIT && 0 <= r.confidence <= 10000
}

/// Every region of the sequence is in range.
pub open spec fn regions_ok(rs: Seq<TextRegion>) -> bool {
    forall|i: int| 0 <= i < rs.len() ==> region_ok(#[trigger] rs[i])
}

/// OCR processing mode.
#[derive(Clone, Debug, PartialEq, Eq, Structural)]
pub enum OcrMode {
    Auto,
    SingleLine,
    SingleWord,
    SingleChar,
    SparseText,
}

/// OCR configuration; `min_confidence` in basis points.
#[derive(Clone, Debug)]
pub struct OcrConfig {
    pub language: String,
    pub mode: OcrMode,
    pub whitelist: Option<String>,
    pub min_confidence: i64,
}

impl Default for OcrConfig {
    /// English, automatic mode, no whitelist, minimum confidence 0.5.
    fn default() -> (r: OcrConfig)
        ensures
            r.language@ == "eng"@,
            r.mode == OcrMode::Auto,
            r.whitelist is None,
            r.min_confidence == 5000,
    {
        OcrConfig {
            language: String::from_str("eng"),
            mode: OcrMode::Auto,
            whitelist: None,
            min_confidence: 5000,
        }
    }
}

/// Font size estimated from a region's height (milliunits) and its
/// dark-pixel density (basis points): 0.7 of the height, scaled up by
/// the density, clamped to 8 to 72 canvas units.
pub open spec fn font_size_of(height: int, density: int) -> int {
    let base = height * 7 / 10;
    let adjusted = base * (10000 + density) / 10000;
    if adjusted < 8000 {
        8000
    } else if adjusted > 72000 {
        72000
    } else {
        adjusted
    }
}

/// Estimate a font size, executable.
pub fn estimate_font_size(height: i64, density: i64) -> (r: i64)
    requires
        0 <= height <= COORD_LIMIT,
        0 <= density <= 10000,
    ensures
        r == font_size_of(height as int, density as int),
        8000 <= r <= 72000,
{
    proof {
        assert(0 <= (height as int) * 7 / 10 <= 7_000_000) by (nonlinear_arith)
            requires
                0 <= height <= 10_000_000,
        ;
    }
    let base: i64 = height * 7 / 10;
    proof {
        assert(0 <= (base as int) * (10000 + density) <= 140_000_000_000) by (nonlinear_arith)
            requires
                0 <= base <= 7_000_000,
                0 <= density <= 10000,
        ;
        assert(0 <= (base as int) * (10000 + density) / 10000 <= 14_000_000)
            by (nonlinear_arith)
            requires
                0 <= (base as int) * (10000 + density) <= 140_000_000_000,
        ;
    }
    let adjusted: i64 = base * (10000 + density) / 10000;
    if adjusted < 8000 {
        8000
    } else if adjusted > 72000 {
        72000
    } else {
        adjusted
    }
}

/// Handwriting characteristics derived from the recognized regions:
/// font size in milliunits, legibility in basis points.
#[derive(Clone, Debug)]
pub struct HandwritingStyle {
    pub estimated_font_size: i64,
    pub legibility_score: i64,
    pub style: String,
}

impl Default for HandwritingStyle {
    /// 14-unit font, 0.5 legibility, unknown style.
    fn default() -> (r: HandwritingStyle)
        ensures
            r.estimated_font_size == 14000,
            r.legibility_score == 5000,
            r.style@ == "unknown"@,
    {
        HandwritingStyle {
            estimated_font_size: 14000,
            legibility_score: 5000,
            style: String::from_str("unknown"),
        }
    }
}

/// Sum of the region heights.
pub open spec fn height_sum(rs: Seq<TextRegion>) -> int
    decreases rs.len(),
{
    if rs.len() == 0 {
        0
    } else {
        height_sum(rs.drop_last()) + rs.last().bounds.height
    }
}

/// Sum of the region confidences.
pub open spec fn conf_sum(rs: Seq<TextRegion>) -> int
    decreases rs.len(),
{
    if rs.len() == 0 {
        0
    } else {
        conf_sum(rs.drop_last()) + rs.last().confidence
    }
}

/// Analyze handwriting: the estimated font size is 0.7 of the average
/// region height, legibility is the average confidence, and the style
/// label is neat above 0.7, casual above 0.4, rough otherwise. Empty
/// input gives the defaults.
pub fn analyze_handwriting_style(regions: &[TextRegion]) -> (r: HandwritingStyle)
    requires
        regions_ok(regions@),
        regions@.len() <= MAX_ELEMS,
    ensures
        regions@.len() == 0 ==> r.estimated_font_size == 14000 && r.legibility_score == 5000
            && r.style@ == "unknown"@,
        regions@.len() > 0 ==> {
            let avg_h = height_sum(regions@) / regions@.len() as int;
            let avg_c = conf_sum(regions@) / regions@.len() as int;
            &&& r.estimated_font_size == avg_h * 7 / 10
            &&& r.legibility_score == avg_c
            &&& r.style@ == (if avg_c > 7000 {
                "neat"@
            } else if avg_c > 4000 {
                "casual"@
            } else {
                "rough"@
            })
        },
{
    if regions.len() == 0 {
        return HandwritingStyle::default();
    }
    let mut hs: i64 = 0;
    let mut cs: i64 = 0;
    let mut i: usize = 0;
    while i < regions.len()
        invariant
            regions_ok(regions@),
            0 <= i <= regions@.len() <= MAX_ELEMS,
            hs == height_sum(regions@.subrange(0, i as int)),
            cs == conf_sum(regions@.subrange(0, i as int)),
            0 <= hs <= (i as int) * (COORD_LIMIT as int),
            0 <= cs <= (i as int) * 10000,
        decreases regions@.len() - i,
    {
        let rg = &regions[i];
        proof {
            assert(region_ok(regions@[i as int]));
            let pre = regions@.subrange(0, i as int + 1);
            assert(pre.drop_last() =~= regions@.subrange(0, i as int));
            assert(pre.last() == regions@[i as int]);
            assert((i as int + 1) * (COORD_LIMIT as int) == (i as int) * (COORD_LIMIT as int)
                + COORD_LIMIT) by (nonlinear_arith);
            assert((i as int + 1) * 10000 == (i as int) * 10000 + 10000) by (nonlinear_arith);
        }
        hs = hs + rg.bounds.height;
        cs = cs + rg.confidence;
        i = i + 1;
    }
    proof {
        assert(regions@.subrange(0, regions@.len() as int) =~= regions@);
    }
    let n = regions.len() as i64;
    let avg_h = hs / n;
    let avg_c = cs / n;
    proof {
        let nn = regions@.len() as int;
        assert(0 <= height_sum(regions@) / nn <= COORD_LIMIT as int) by (nonlinear_arith)
            requires
                1 <= nn,
                0 <= height_sum(regions@) <= nn * (COORD_LIMIT as int),
        ;
        assert(0 <= conf_sum(regions@) / nn <= 10000) by (nonlinear_arith)
            requires
                1 <= nn,
                0 <= conf_sum(regions@) <= nn * 10000,
        ;
        assert(0 <= (height_sum(regions@) / nn) * 7 / 10 <= 7_000_000) by (nonlinear_arith)
            requires
                0 <= height_sum(regions@) / nn <= 10_000_000,
        ;
    }
    let est = avg_h * 7 / 10;
    let style: String = if avg_c > 7000 {
        String::from_str("neat")
    } else if avg_c > 4000 {
        String::from_str("casual")
    } else {
        String::from_str("rough")
    };
    HandwritingStyle { estimated_font_size: est, legibility_score: avg_c, style }
}

} // verus!
