//! The choices a printed sheet is made with: which cut lines are drawn and
//! how the cards are laid out on the page.
use vstd::prelude::*;

use crate::card_store::printing_views;
use crate::image_codec::{guess_is_png, starts_png};
use crate::models::{PartView, Printing, PrintingView};

verus! {

/// Which cut lines a sheet gets.
#[derive(Clone, Copy, Debug, PartialEq, Eq, Structural)]
pub enum CutLines {
    NoLines,
    Margins,
    FullPage,
}

impl Default for CutLines {
    fn default() -> (r: Self)
        ensures
            r == CutLines::Margins,
    {
        CutLines::Margins
    }
}

/// How the cards sit on the page: edge to edge, with a gap between them,
/// or each inset by a small or a large margin.
#[derive(Clone, Copy, Debug, PartialEq, Eq, Structural)]
pub enum PrintLayout {
    EdgeToEdge,
    Gap,
    SmallMargin,
    LargeMargin,
}

impl Default for PrintLayout {
    fn default() -> (r: Self)
        ensures
            r == PrintLayout::EdgeToEdge,
    {
        PrintLayout::EdgeToEdge
    }
}

/// The keys of the images a sheet shows, printing by printing: each front,
/// then its other parts.
pub open spec fn sheet_keys(ps: Seq<PrintingView>) -> Seq<Seq<char>>
    decreases ps.len(),
{
    if ps.len() == 0 {
        Seq::empty()
    } else {
        sheet_keys(ps.drop_last()) + seq![ps.last().image_key] + ps.last().parts.map_values(
            |a: PartView| a.image_key,
        )
    }
}

/// The image keys of the printings, in the order the cards are placed.
pub fn image_keys(printings: &Vec<Printing>) -> (r: Vec<String>)
    ensures
        r@.map_values(|s: String| s@) == sheet_keys(printing_views(printings@)),
{
    let ghost pv = printing_views(printings@);
    let mut out: Vec<String> = Vec::new();
    let mut i: usize = 0;
    while i < printings.len()
        invariant
            i <= printings@.len(),
            pv == printing_views(printings@),
            out@.map_values(|s: String| s@) == sheet_keys(pv.take(i as int)),
        decreases printings.len() - i,
    {
        let p = &printings[i];
        assert(pv.take(i as int + 1).drop_last() =~= pv.take(i as int));
        assert(pv.take(i as int + 1).last() == p@);
        let ghost before = out@.map_values(|s: String| s@);
        out.push(p.image_key.clone());
        let mut k: usize = 0;
        while k < p.parts.len()
            invariant
                k <= p.parts@.len(),
                p == printings@[i as int],
                out@.map_values(|s: String| s@) == before + seq![p@.image_key] + p@.parts.map_values(
                    |a: PartView| a.image_key,
                ).take(k as int),
            decreases p.parts.len() - k,
        {
            let ghost mid = out@.map_values(|s: String| s@);
            out.push(p.parts[k].image_key.clone());
            assert(out@.map_values(|s: String| s@) =~= mid.push(p.parts@[k as int].image_key@));
            k = k + 1;
            assert(p@.parts.map_values(|a: PartView| a.image_key).take(k as int) =~= p@.parts.map_values(
                |a: PartView| a.image_key,
            ).take(k as int - 1).push(p.parts@[k as int - 1].image_key@));
        }
        assert(p@.parts.map_values(|a: PartView| a.image_key).take(k as int) =~= p@.parts.map_values(
            |a: PartView| a.image_key,
        ));
        i = i + 1;
    }
    assert(pv.take(i as int) =~= pv);
    out
}

/// Whether an image file goes onto the sheet as PNG (anything else is
/// placed as JPEG): whether it starts with the PNG signature.
pub fn is_png_image(bytes: &[u8]) -> (r: bool)
    ensures
        r == starts_png(bytes@),
{
    guess_is_png(bytes)
}

} // verus!
