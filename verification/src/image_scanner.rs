//! Finding the card images among the files of a folder.
use vstd::prelude::*;

use crate::naming::{image_name, parse_image_name};
use crate::text::str_eq;

verus! {

/// An image of a card found in a folder.
#[derive(Clone, Debug, PartialEq, Eq)]
pub struct ScannedImage {
    pub code: String,
    pub variant: String,
    pub part: String,
    pub path: String,
}

impl ScannedImage {
    /// A copy of the image, field by field.
    pub fn duplicate(&self) -> (r: Self)
        ensures
            r == *self,
    {
        ScannedImage {
            code: self.code.clone(),
            variant: self.variant.clone(),
            part: self.part.clone(),
            path: self.path.clone(),
        }
    }
}

pub open spec fn image_view(i: ScannedImage) -> (Seq<char>, Seq<char>, Seq<char>, Seq<char>) {
    (i.code@, i.variant@, i.part@, i.path@)
}

/// The code and variant of a card image's file name (see [`image_name`]).
pub fn parse_filename(path: &str) -> (r: Option<(String, String)>)
    ensures
        match r {
            Some((c, v)) => image_name(path@) matches Some(n) && n.0 == c@ && n.1 == v@,
            None => image_name(path@) is None,
        },
{
    match parse_image_name(path) {
        Some((code, variant, _part)) => Some((code, variant)),
        None => None,
    }
}

/// The files among the first `n` that name a card image, in order, with
/// code, variant, part and path.
pub open spec fn named_files(paths: Seq<String>, n: int) -> Seq<(Seq<char>, Seq<char>, Seq<char>, Seq<char>)>
    decreases n,
{
    if n <= 0 {
        Seq::empty()
    } else {
        let rest = named_files(paths, n - 1);
        match image_name(paths[n - 1]@) {
            Some(x) => rest.push((x.0, x.1, x.2, paths[n - 1]@)),
            None => rest,
        }
    }
}

/// Whether one of the first `n` images is the front of the given printing.
pub open spec fn front_among(
    all: Seq<(Seq<char>, Seq<char>, Seq<char>, Seq<char>)>,
    code: Seq<char>,
    variant: Seq<char>,
    n: int,
) -> bool
    decreases n,
{
    if n <= 0 {
        false
    } else {
        (all[n - 1].0 == code && all[n - 1].1 == variant && all[n - 1].2 == "front"@) || front_among(
            all,
            code,
            variant,
            n - 1,
        )
    }
}

/// The first `n` images, leaving out each part whose printing has no front.
pub open spec fn without_orphans(all: Seq<(Seq<char>, Seq<char>, Seq<char>, Seq<char>)>, n: int) -> Seq<
    (Seq<char>, Seq<char>, Seq<char>, Seq<char>),
>
    decreases n,
{
    if n <= 0 {
        Seq::empty()
    } else {
        let rest = without_orphans(all, n - 1);
        let x = all[n - 1];
        if x.2 == "front"@ || front_among(all, x.0, x.1, all.len() as int) {
            rest.push(x)
        } else {
            rest
        }
    }
}

/// The card images of a folder: the files named as card images, in order,
/// without the parts that have no front.
pub open spec fn scanned_images(paths: Seq<String>) -> Seq<(Seq<char>, Seq<char>, Seq<char>, Seq<char>)> {
    let all = named_files(paths, paths.len() as int);
    without_orphans(all, all.len() as int)
}

fn named_images(files: &Vec<String>) -> (r: Vec<ScannedImage>)
    ensures
        r@.map_values(|i: ScannedImage| image_view(i)) == named_files(files@, files@.len() as int),
{
    let mut out: Vec<ScannedImage> = Vec::new();
    let mut k: usize = 0;
    while k < files.len()
        invariant
            k <= files@.len(),
            out@.map_values(|i: ScannedImage| image_view(i)) == named_files(files@, k as int),
        decreases files.len() - k,
    {
        let path = &files[k];
        let ghost before = out@.map_values(|i: ScannedImage| image_view(i));
        if let Some((code, variant, part)) = parse_image_name(path.as_str()) {
            let img = ScannedImage { code, variant, part, path: path.clone() };
            out.push(img);
            assert(out@.map_values(|i: ScannedImage| image_view(i)) =~= before.push(image_view(img)));
        }
        k = k + 1;
    }
    out
}

fn has_front(all: &Vec<ScannedImage>, code: &str, variant: &str) -> (r: bool)
    ensures
        r == front_among(
            all@.map_values(|i: ScannedImage| image_view(i)),
            code@,
            variant@,
            all@.len() as int,
        ),
{
    let ghost av = all@.map_values(|i: ScannedImage| image_view(i));
    let mut k: usize = 0;
    let mut found = false;
    while k < all.len()
        invariant
            k <= all@.len(),
            av == all@.map_values(|i: ScannedImage| image_view(i)),
            found == front_among(av, code@, variant@, k as int),
        decreases all.len() - k,
    {
        let x = &all[k];
        if str_eq(x.code.as_str(), code) && str_eq(x.variant.as_str(), variant) && str_eq(x.part.as_str(), "front") {
            found = true;
        }
        k = k + 1;
    }
    found
}

/// The card images among the files of a folder, in the order given, without
/// the parts whose printing has no front.
pub fn scan_images(files: &Vec<String>) -> (r: Vec<ScannedImage>)
    ensures
        r@.map_values(|i: ScannedImage| image_view(i)) == scanned_images(files@),
{
    let all = named_images(files);
    let ghost av = all@.map_values(|i: ScannedImage| image_view(i));
    let mut out: Vec<ScannedImage> = Vec::new();
    let mut k: usize = 0;
    while k < all.len()
        invariant
            k <= all@.len(),
            av == all@.map_values(|i: ScannedImage| image_view(i)),
            out@.map_values(|i: ScannedImage| image_view(i)) == without_orphans(av, k as int),
        decreases all.len() - k,
    {
        let x = &all[k];
        let ghost before = out@.map_values(|i: ScannedImage| image_view(i));
        if str_eq(x.part.as_str(), "front") || has_front(&all, x.code.as_str(), x.variant.as_str()) {
            let y = x.duplicate();
            out.push(y);
            assert(out@.map_values(|i: ScannedImage| image_view(i)) =~= before.push(image_view(y)));
        }
        k = k + 1;
    }
    out
}

} // verus!
