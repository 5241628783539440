//! The naming of card image files: `{code}_{variant}-{part}.{extension}`,
//! where the variant and the part may be left out.
use vstd::prelude::*;

use crate::paths::{extension, file_stem, path_extension, path_file_stem};
use crate::text::{
    all_digits, ascii_digit, chars_of, find, find_char, str_eq, str_to_lowercase, string_of, sub_chars,
    unicode_lowercase,
};

verus! {

/// PNG and JPEG files, whatever the case of their extension.
pub open spec fn supported_extension(ext: Seq<char>) -> bool {
    let e = unicode_lowercase(ext);
    e == "png"@ || e == "jpg"@ || e == "jpeg"@
}

/// The pieces of a stem: the code, then the variant after a `_` and the part
/// after a `-`, when the name has them; a `-` before any `_` starts the part.
pub open spec fn stem_pieces(stem: Seq<char>) -> (Seq<char>, Option<Seq<char>>, Option<Seq<char>>) {
    let u = find(stem, seq!['_']);
    let d = find(stem, seq!['-']);
    if u is Some && (d is None || u->0 < d->0) {
        let i = u->0;
        let after = stem.skip(i + 1);
        match find(after, seq!['-']) {
            Some(j) => (stem.take(i), Some(after.take(j)), Some(after.skip(j + 1))),
            None => (stem.take(i), Some(after), None),
        }
    } else {
        match d {
            Some(j) => (stem.take(j), None, Some(stem.skip(j + 1))),
            None => (stem, None, None),
        }
    }
}

/// A piece of the name, lowered, or the default when the name has none.
pub open spec fn piece_or(piece: Option<Seq<char>>, default: Seq<char>) -> Seq<char> {
    match piece {
        Some(p) => unicode_lowercase(p),
        None => default,
    }
}

/// The card image a file stands for: its code, variant and part. The file
/// must be a PNG or a JPEG and its code a non-empty run of digits; the
/// variant defaults to `original` and the part to `front`.
pub open spec fn image_name(path: Seq<char>) -> Option<(Seq<char>, Seq<char>, Seq<char>)> {
    match (extension(path), file_stem(path)) {
        (Some(ext), Some(stem)) => {
            let pieces = stem_pieces(stem);
            if supported_extension(ext) && pieces.0.len() > 0 && all_digits(pieces.0) {
                Some((pieces.0, piece_or(pieces.1, "original"@), piece_or(pieces.2, "front"@)))
            } else {
                None
            }
        },
        _ => None,
    }
}

fn digits_only(v: &Vec<char>) -> (r: bool)
    ensures
        r == all_digits(v@),
{
    let mut i: usize = 0;
    while i < v.len()
        invariant
            i <= v@.len(),
            forall|k: int| 0 <= k < i ==> ascii_digit(#[trigger] v@[k]),
        decreases v.len() - i,
    {
        if !(v[i] >= '0' && v[i] <= '9') {
            return false;
        }
        i = i + 1;
    }
    true
}

fn lowered_or(piece: Option<Vec<char>>, default: &str) -> (r: String)
    ensures
        r@ == piece_or(
            match piece {
                Some(p) => Some(p@),
                None => None,
            },
            default@,
        ),
{
    match piece {
        Some(p) => {
            let s = string_of(&p);
            str_to_lowercase(s.as_str())
        },
        None => String::from_str(default),
    }
}

/// Reads a card image's code, variant and part from its file name.
pub fn parse_image_name(path: &str) -> (r: Option<(String, String, String)>)
    ensures
        match r {
            Some((c, v, p)) => image_name(path@) == Some((c@, v@, p@)),
            None => image_name(path@) is None,
        },
{
    let ext = match path_extension(path) {
        Some(e) => e,
        None => return None,
    };
    let stem = match path_file_stem(path) {
        Some(s) => s,
        None => return None,
    };
    let e = str_to_lowercase(ext.as_str());
    if !(str_eq(e.as_str(), "png") || str_eq(e.as_str(), "jpg") || str_eq(e.as_str(), "jpeg")) {
        return None;
    }
    let v = chars_of(stem.as_str());
    let n = v.len();
    let u = find_char(&v, '_');
    let d = find_char(&v, '-');
    let use_underscore = match (u, d) {
        (Some(i), Some(j)) => i < j,
        (Some(_), None) => true,
        _ => false,
    };
    let (code, vp, pp): (Vec<char>, Option<Vec<char>>, Option<Vec<char>>) = if use_underscore {
        let i = u.unwrap();
        let after = sub_chars(&v, i + 1, n);
        assert(after@ =~= v@.skip(i + 1));
        let code = sub_chars(&v, 0, i);
        assert(code@ =~= v@.take(i as int));
        let m = after.len();
        match find_char(&after, '-') {
            Some(j) => {
                let var = sub_chars(&after, 0, j);
                assert(var@ =~= after@.take(j as int));
                let part = sub_chars(&after, j + 1, m);
                assert(part@ =~= after@.skip(j + 1));
                (code, Some(var), Some(part))
            },
            None => (code, Some(after), None),
        }
    } else {
        match d {
            Some(j) => {
                let code = sub_chars(&v, 0, j);
                assert(code@ =~= v@.take(j as int));
                let part = sub_chars(&v, j + 1, n);
                assert(part@ =~= v@.skip(j + 1));
                (code, None, Some(part))
            },
            None => (v, None, None),
        }
    };
    assert((code@, match vp {
        Some(x) => Some(x@),
        None => None::<Seq<char>>,
    }, match pp {
        Some(x) => Some(x@),
        None => None::<Seq<char>>,
    }) == stem_pieces(stem@));
    if code.len() == 0 || !digits_only(&code) {
        return None;
    }
    let variant = lowered_or(vp, "original");
    let part = lowered_or(pp, "front");
    Some((string_of(&code), variant, part))
}

} // verus!
