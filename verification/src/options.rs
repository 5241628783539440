//! Reading the command line's choices: where the cards come from, which cut
//! lines to draw and which print layout to use.
use vstd::prelude::*;

use crate::error::concat3;
use crate::pdf::{CutLines, PrintLayout};
use crate::text::str_eq;

verus! {

/// Where the cards asked for come from.
#[derive(Clone, Debug, PartialEq, Eq)]
pub enum InputSource {
    NrdbUrl(String),
    Cardlist(String),
    SetName(String),
}

/// The source given, taking a card list before a set name before a URL.
pub fn determine_input_source(
    cardlist: Option<String>,
    set_name: Option<String>,
    nrdb_url: Option<String>,
) -> (r: InputSource)
    requires
        cardlist is Some || set_name is Some || nrdb_url is Some,
    ensures
        cardlist matches Some(l) ==> r == InputSource::Cardlist(l),
        cardlist is None ==> (set_name matches Some(n) ==> r == InputSource::SetName(n)),
        cardlist is None && set_name is None ==> r == InputSource::NrdbUrl(nrdb_url->0),
{
    match cardlist {
        Some(list) => InputSource::Cardlist(list),
        None => match set_name {
            Some(name) => InputSource::SetName(name),
            None => match nrdb_url {
                Some(url) => InputSource::NrdbUrl(url),
                None => InputSource::NrdbUrl(String::new()),
            },
        },
    }
}

pub open spec fn cut_lines_message(given: Seq<char>) -> Seq<char> {
    "Unsupported cut lines option: '"@ + given
        + "'. Options are 'none', 'margins', or 'fullpage'"@
}

/// The cut lines named: `none`, `margins` (also when none is named) or
/// `fullpage`.
pub fn parse_cut_lines(cut_lines: Option<&str>) -> (r: Result<CutLines, String>)
    ensures
        match cut_lines {
            None => r == Ok::<CutLines, String>(CutLines::Margins),
            Some(s) => if s@ == "none"@ {
                r == Ok::<CutLines, String>(CutLines::NoLines)
            } else if s@ == "margins"@ {
                r == Ok::<CutLines, String>(CutLines::Margins)
            } else if s@ == "fullpage"@ {
                r == Ok::<CutLines, String>(CutLines::FullPage)
            } else {
                r matches Err(m) && m@ == cut_lines_message(s@)
            },
        },
{
    match cut_lines {
        None => Ok(CutLines::Margins),
        Some(s) => {
            if str_eq(s, "none") {
                Ok(CutLines::NoLines)
            } else if str_eq(s, "margins") {
                Ok(CutLines::Margins)
            } else if str_eq(s, "fullpage") {
                Ok(CutLines::FullPage)
            } else {
                Err(concat3(
                    "Unsupported cut lines option: '",
                    s,
                    "'. Options are 'none', 'margins', or 'fullpage'",
                ))
            }
        },
    }
}

pub open spec fn print_layout_message(given: Seq<char>) -> Seq<char> {
    "Unsupported print layout: '"@ + given
        + "'. Options are 'edge-to-edge', 'small-margin', 'large-margin', 'narrow-gap', 'wide-gap'"@
}

/// The print layout named: `edge-to-edge`, `small-margin`, `large-margin`,
/// `narrow-gap` or `wide-gap`; the two gap names both give the one layout
/// with a gap between the cards.
pub fn parse_print_layout(layout: &str) -> (r: Result<PrintLayout, String>)
    ensures
        if layout@ == "edge-to-edge"@ {
            r == Ok::<PrintLayout, String>(PrintLayout::EdgeToEdge)
        } else if layout@ == "small-margin"@ {
            r == Ok::<PrintLayout, String>(PrintLayout::SmallMargin)
        } else if layout@ == "large-margin"@ {
            r == Ok::<PrintLayout, String>(PrintLayout::LargeMargin)
        } else if layout@ == "narrow-gap"@ || layout@ == "wide-gap"@ {
            r == Ok::<PrintLayout, String>(PrintLayout::Gap)
        } else {
            r matches Err(m) && m@ == print_layout_message(layout@)
        },
{
    if str_eq(layout, "edge-to-edge") {
        Ok(PrintLayout::EdgeToEdge)
    } else if str_eq(layout, "small-margin") {
        Ok(PrintLayout::SmallMargin)
    } else if str_eq(layout, "large-margin") {
        Ok(PrintLayout::LargeMargin)
    } else if str_eq(layout, "narrow-gap") || str_eq(layout, "wide-gap") {
        Ok(PrintLayout::Gap)
    } else {
        Err(concat3(
            "Unsupported print layout: '",
            layout,
            "'. Options are 'edge-to-edge', 'small-margin', 'large-margin', 'narrow-gap', 'wide-gap'",
        ))
    }
}

} // verus!
