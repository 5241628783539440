//! Adding collections: which images of a collection archive become printings.
use vstd::prelude::*;

use crate::error::concat3;
use crate::image_scanner::{image_view, scan_images, scanned_images, ScannedImage};
use crate::naming::{image_name, parse_image_name};
use crate::paths::{file_name, path_file_name};
use crate::text::string_of;

verus! {

/// The code and variant of a collection image's file name (see
/// [`image_name`]): its code must be all digits, its variant is lowered.
pub fn parse_filename(path: &str) -> (r: Option<(String, String)>)
    ensures
        match r {
            Some((c, v)) => image_name(path@) matches Some(n) && n.0 == c@ && n.1 == v@,
            None => image_name(path@) is None,
        },
{
    match parse_image_name(path) {
        Some((code, variant, _part)) => Some((code, variant)),
        None => None,
    }
}

/// A printing to record for an image of a collection.
#[derive(Clone, Debug, PartialEq, Eq)]
pub struct ImportedPrinting {
    pub card_code: String,
    pub variant: String,
    pub part: String,
    pub file_path: String,
}

pub open spec fn imported_view(p: ImportedPrinting) -> (Seq<char>, Seq<char>, Seq<char>, Seq<char>) {
    (p.card_code@, p.variant@, p.part@, p.file_path@)
}

/// The first `n` images, each recorded under `{collection}/{file name}`.
pub open spec fn imported_from(
    collection: Seq<char>,
    imgs: Seq<(Seq<char>, Seq<char>, Seq<char>, Seq<char>)>,
    n: int,
) -> Seq<(Seq<char>, Seq<char>, Seq<char>, Seq<char>)>
    decreases n,
{
    if n <= 0 {
        Seq::empty()
    } else {
        let rest = imported_from(collection, imgs, n - 1);
        let x = imgs[n - 1];
        match file_name(x.3) {
            Some(name) => rest.push((x.0, x.1, x.2, collection + seq!['/'] + name)),
            None => rest,
        }
    }
}

/// The printings that adding a collection records: its card images (see
/// [`scanned_images`]), in order, each under `{collection}/{file name}`.
pub open spec fn imported(collection: Seq<char>, files: Seq<String>) -> Seq<(Seq<char>, Seq<char>, Seq<char>, Seq<char>)> {
    let imgs = scanned_images(files);
    imported_from(collection, imgs, imgs.len() as int)
}

/// The printings that adding a collection records for its images.
pub fn plan_collection_import(collection: &str, files: &Vec<String>) -> (r: Vec<ImportedPrinting>)
    ensures
        r@.map_values(|p: ImportedPrinting| imported_view(p)) == imported(collection@, files@),
{
    let imgs = scan_images(files);
    let ghost iv = imgs@.map_values(|i: ScannedImage| image_view(i));
    let mut out: Vec<ImportedPrinting> = Vec::new();
    let mut k: usize = 0;
    while k < imgs.len()
        invariant
            k <= imgs@.len(),
            iv == imgs@.map_values(|i: ScannedImage| image_view(i)),
            iv == scanned_images(files@),
            out@.map_values(|p: ImportedPrinting| imported_view(p)) == imported_from(collection@, iv, k as int),
        decreases imgs.len() - k,
    {
        let x = &imgs[k];
        let ghost before = out@.map_values(|p: ImportedPrinting| imported_view(p));
        match path_file_name(x.path.as_str()) {
            Some(name) => {
                let ns = string_of(&name);
                let file_path = concat3(collection, "/", ns.as_str());
                proof {
                    reveal_strlit("/");
                    assert("/"@ =~= seq!['/']);
                }
                let p = ImportedPrinting {
                    card_code: x.code.clone(),
                    variant: x.variant.clone(),
                    part: x.part.clone(),
                    file_path,
                };
                out.push(p);
                assert(out@.map_values(|p: ImportedPrinting| imported_view(p)) =~= before.push(imported_view(p)));
            },
            None => {},
        }
        k = k + 1;
    }
    out
}

} // verus!
