//! The files of an upload for MakePlayingCards: which image goes into which
//! file of the archive, and the number that makes each copy of an image
//! unique.
use vstd::prelude::*;

use crate::border::{apply_uniqueness_marker, marked_pixels, RgbImageData};
use crate::card_store::{distinct, distinct_prefix, distinct_strings, printing_views};
use crate::error::{concat2, ProxyNexusError};
use crate::image_codec::{
    encode_jpeg, encode_png, guess_is_png, image_error_text, jpeg_encoded, jpeg_error_text, load_image,
    png_encoded, rgb_pixels, starts_png,
};
use crate::models::{PartView, Printing, PrintingView};
use crate::text::{ascii_digit, decimal, decimal_u64, digits_value, lemma_decimal_reads_back, str_eq};

verus! {

/// One file of the upload: its path in the archive without the extension,
/// the key of the image it shows, and the image's place among the images of
/// its folder, counted from 1.
#[derive(Clone, Debug, PartialEq, Eq)]
pub struct MpcEntry {
    pub file_stem: String,
    pub image_key: String,
    pub position: u32,
}

impl MpcEntry {
    pub fn duplicate(&self) -> (r: Self)
        ensures
            r == *self,
    {
        MpcEntry { file_stem: self.file_stem.clone(), image_key: self.image_key.clone(), position: self.position }
    }
}

pub open spec fn entry_view(e: MpcEntry) -> (Seq<char>, Seq<char>, nat) {
    (e.file_stem@, e.image_key@, e.position as nat)
}

/// The images of a printing, each with its part name: the front first, then
/// its other parts in order.
pub open spec fn printing_images(p: PrintingView) -> Seq<(Seq<char>, Seq<char>)> {
    seq![("front"@, p.image_key)] + p.parts.map_values(|a: PartView| (a.name, a.image_key))
}

/// How many images a list of printings has.
pub open spec fn image_count(ps: Seq<PrintingView>) -> nat
    decreases ps.len(),
{
    if ps.len() == 0 {
        0
    } else {
        image_count(ps.drop_last()) + printing_images(ps.last()).len()
    }
}

/// Two printings are copies of one another when they share collection, card
/// and variant.
pub open spec fn same_copy(p: PrintingView, q: PrintingView) -> bool {
    p.collection == q.collection && p.card_code == q.card_code && p.variant == q.variant
}

/// How many printings of `ps` are copies of `p`.
pub open spec fn copies_of(ps: Seq<PrintingView>, p: PrintingView) -> nat
    decreases ps.len(),
{
    if ps.len() == 0 {
        0
    } else {
        copies_of(ps.drop_last(), p) + if same_copy(ps.last(), p) {
            1nat
        } else {
            0nat
        }
    }
}

/// The path, without extension, of one image of the `copy`-th copy of a
/// printing: `folder/code-variant-collection-copy`, with `-part` added for
/// every part but the front.
pub open spec fn entry_stem(folder: Seq<char>, p: PrintingView, copy: nat, part: Seq<char>) -> Seq<char> {
    let base = folder + "/"@ + p.card_code + "-"@ + p.variant + "-"@ + p.collection + "-"@ + decimal(copy);
    if part == "front"@ {
        base
    } else {
        base + "-"@ + part
    }
}

/// The files of one folder: each printing in turn, each of its images in
/// turn, numbered on from 1.
pub open spec fn side_entries(ps: Seq<PrintingView>, folder: Seq<char>) -> Seq<(Seq<char>, Seq<char>, nat)>
    decreases ps.len(),
{
    if ps.len() == 0 {
        Seq::empty()
    } else {
        let prev = side_entries(ps.drop_last(), folder);
        let p = ps.last();
        let copy = copies_of(ps, p);
        let imgs = printing_images(p);
        prev + Seq::new(
            imgs.len(),
            |k: int| (entry_stem(folder, p, copy, imgs[k].0), imgs[k].1, (prev.len() + k + 1) as nat),
        )
    }
}

/// The printings of one side, in their order.
pub open spec fn on_side(ps: Seq<PrintingView>, side: Seq<char>) -> Seq<PrintingView>
    decreases ps.len(),
{
    if ps.len() == 0 {
        Seq::empty()
    } else {
        let prev = on_side(ps.drop_last(), side);
        if ps.last().side == side {
            prev.push(ps.last())
        } else {
            prev
        }
    }
}

/// The folder of a side: one folder for all cards when they are all of one
/// side, else one per side.
pub open spec fn folder_for(side: Seq<char>, single: bool) -> Seq<char> {
    if single {
        "card-images"@
    } else {
        side + "-images"@
    }
}

pub open spec fn sides_of(ps: Seq<PrintingView>) -> Seq<Seq<char>> {
    distinct(ps.map_values(|p: PrintingView| p.side))
}

pub open spec fn plan_sides(sides: Seq<Seq<char>>, ps: Seq<PrintingView>, single: bool) -> Seq<(Seq<char>, Seq<char>, nat)>
    decreases sides.len(),
{
    if sides.len() == 0 {
        Seq::empty()
    } else {
        plan_sides(sides.drop_last(), ps, single) + side_entries(
            on_side(ps, sides.last()),
            folder_for(sides.last(), single),
        )
    }
}

/// The whole upload: the sides in the order first met, each side's files in
/// its own folder.
pub open spec fn mpc_plan(ps: Seq<PrintingView>) -> Seq<(Seq<char>, Seq<char>, nat)> {
    plan_sides(sides_of(ps), ps, sides_of(ps).len() == 1)
}

pub proof fn lemma_side_entries_len(ps: Seq<PrintingView>, folder: Seq<char>)
    ensures
        side_entries(ps, folder).len() == image_count(ps),
    decreases ps.len(),
{
    if ps.len() > 0 {
        lemma_side_entries_len(ps.drop_last(), folder);
    }
}

/// Within a folder the files are numbered 1, 2, 3, ... in the order they
/// are written, so no two files of one folder share a number.
pub proof fn law_positions_count_up(ps: Seq<PrintingView>, folder: Seq<char>)
    ensures
        forall|i: int| 0 <= i < side_entries(ps, folder).len() ==> #[trigger] side_entries(ps, folder)[i].2 == i + 1,
    decreases ps.len(),
{
    if ps.len() > 0 {
        law_positions_count_up(ps.drop_last(), folder);
        let prev = side_entries(ps.drop_last(), folder);
        let all = side_entries(ps, folder);
        assert forall|i: int| 0 <= i < all.len() implies #[trigger] all[i].2 == i + 1 by {
            if i < prev.len() {
                assert(all[i] == prev[i]);
            }
        }
    }
}

/// The images of `ps`, counted side by side over `sides`.
pub open spec fn images_by_side(sides: Seq<Seq<char>>, ps: Seq<PrintingView>) -> nat
    decreases sides.len(),
{
    if sides.len() == 0 {
        0
    } else {
        images_by_side(sides.drop_last(), ps) + image_count(on_side(ps, sides.last()))
    }
}

/// How many times `x` occurs in `xs`.
pub open spec fn occurrences(xs: Seq<Seq<char>>, x: Seq<char>) -> nat
    decreases xs.len(),
{
    if xs.len() == 0 {
        0
    } else {
        occurrences(xs.drop_last(), x) + if xs.last() == x {
            1nat
        } else {
            0nat
        }
    }
}

proof fn lemma_plan_sides_len(sides: Seq<Seq<char>>, ps: Seq<PrintingView>, single: bool)
    ensures
        plan_sides(sides, ps, single).len() == images_by_side(sides, ps),
    decreases sides.len(),
{
    if sides.len() > 0 {
        lemma_plan_sides_len(sides.drop_last(), ps, single);
        lemma_side_entries_len(on_side(ps, sides.last()), folder_for(sides.last(), single));
    }
}

proof fn lemma_images_by_side_empty(sides: Seq<Seq<char>>, ps: Seq<PrintingView>)
    requires
        ps.len() == 0,
    ensures
        images_by_side(sides, ps) == 0,
    decreases sides.len(),
{
    if sides.len() > 0 {
        lemma_images_by_side_empty(sides.drop_last(), ps);
    }
}

proof fn lemma_images_by_side_step(sides: Seq<Seq<char>>, ps: Seq<PrintingView>)
    requires
        ps.len() > 0,
    ensures
        images_by_side(sides, ps) == images_by_side(sides, ps.drop_last()) + occurrences(sides, ps.last().side)
            * printing_images(ps.last()).len(),
    decreases sides.len(),
{
    if sides.len() > 0 {
        lemma_images_by_side_step(sides.drop_last(), ps);
        let s = sides.last();
        let before = on_side(ps.drop_last(), s);
        let n = printing_images(ps.last()).len();
        if ps.last().side == s {
            assert(before.push(ps.last()).drop_last() =~= before);
            assert(image_count(on_side(ps, s)) == image_count(before) + n);
        }
        let o = occurrences(sides.drop_last(), ps.last().side);
        let t = occurrences(sides, ps.last().side);
        if s == ps.last().side {
            assert(t == o + 1);
            assert(t * n == o * n + n) by (nonlinear_arith)
                requires
                    t == o + 1,
            ;
            assert(image_count(on_side(ps, s)) == image_count(before) + n);
        } else {
            assert(t == o);
            assert(on_side(ps, s) == before);
        }
        assert(images_by_side(sides, ps) == images_by_side(sides.drop_last(), ps) + image_count(on_side(ps, s)));
        assert(images_by_side(sides, ps.drop_last()) == images_by_side(sides.drop_last(), ps.drop_last())
            + image_count(before));
    } else {
        assert(occurrences(sides, ps.last().side) == 0);
        assert(images_by_side(sides, ps) == 0);
        assert(images_by_side(sides, ps.drop_last()) == 0);
    }
}

proof fn lemma_images_by_side_all(sides: Seq<Seq<char>>, ps: Seq<PrintingView>)
    requires
        forall|i: int| 0 <= i < ps.len() ==> occurrences(sides, (#[trigger] ps[i]).side) == 1,
    ensures
        images_by_side(sides, ps) == image_count(ps),
    decreases ps.len(),
{
    if ps.len() == 0 {
        lemma_images_by_side_empty(sides, ps);
    } else {
        let prev = ps.drop_last();
        assert forall|i: int| 0 <= i < prev.len() implies occurrences(sides, (#[trigger] prev[i]).side) == 1 by {
            assert(prev[i] == ps[i]);
        }
        lemma_images_by_side_all(sides, prev);
        lemma_images_by_side_step(sides, ps);
        assert(occurrences(sides, ps[ps.len() - 1].side) == 1);
        assert(ps.last() == ps[ps.len() - 1]);
        let n = printing_images(ps.last()).len();
        let o = occurrences(sides, ps.last().side);
        assert(o == 1);
        assert(o * n == n) by (nonlinear_arith)
            requires
                o == 1,
        ;
    }
}

proof fn lemma_occurrences_contains(xs: Seq<Seq<char>>, x: Seq<char>)
    ensures
        occurrences(xs, x) > 0 <==> xs.contains(x),
    decreases xs.len(),
{
    if xs.len() > 0 {
        lemma_occurrences_contains(xs.drop_last(), x);
        if xs.drop_last().contains(x) {
            let i = choose|i: int| 0 <= i < xs.drop_last().len() && xs.drop_last()[i] == x;
            assert(xs[i] == x);
        }
        if xs.contains(x) && xs.last() != x {
            let i = choose|i: int| 0 <= i < xs.len() && xs[i] == x;
            assert(xs.drop_last()[i] == x);
        }
        if xs.last() == x {
            assert(xs[xs.len() - 1] == x);
        }
    }
}

proof fn lemma_distinct_occurrences(s: Seq<Seq<char>>, n: int, x: Seq<char>)
    requires
        0 <= n <= s.len(),
    ensures
        occurrences(distinct_prefix(s, n), x) == if exists|i: int| 0 <= i < n && s[i] == x {
            1nat
        } else {
            0nat
        },
    decreases n,
{
    if n > 0 {
        lemma_distinct_occurrences(s, n - 1, x);
        let d = distinct_prefix(s, n - 1);
        lemma_occurrences_contains(d, s[n - 1]);
        lemma_distinct_occurrences(s, n - 1, s[n - 1]);
        if d.contains(s[n - 1]) {
            if s[n - 1] == x {
                let i = choose|i: int| 0 <= i < n - 1 && #[trigger] s[i] == s[n - 1];
                assert(0 <= i < n && s[i] == x);
            } else {
                if exists|i: int| 0 <= i < n && s[i] == x {
                    let i = choose|i: int| 0 <= i < n && s[i] == x;
                    assert(0 <= i < n - 1 && s[i] == x);
                }
            }
        } else {
            assert(d.push(s[n - 1]).drop_last() =~= d);
            if s[n - 1] != x {
                if exists|i: int| 0 <= i < n && s[i] == x {
                    let i = choose|i: int| 0 <= i < n && s[i] == x;
                    assert(0 <= i < n - 1 && s[i] == x);
                }
            } else {
                assert(0 <= n - 1 < n && s[n - 1] == x);
            }
        }
    }
}

/// Every image of every printing gets exactly one file of the upload: the
/// plan has as many files as the printings have images.
pub proof fn law_every_image_once(ps: Seq<PrintingView>)
    ensures
        mpc_plan(ps).len() == image_count(ps),
{
    let xs = ps.map_values(|p: PrintingView| p.side);
    let sides = sides_of(ps);
    lemma_plan_sides_len(sides, ps, sides.len() == 1);
    assert forall|i: int| 0 <= i < ps.len() implies occurrences(sides, (#[trigger] ps[i]).side) == 1 by {
        lemma_distinct_occurrences(xs, xs.len() as int, ps[i].side);
        assert(xs[i] == ps[i].side);
    }
    lemma_images_by_side_all(sides, ps);
}

/// The fields of a file's path can be told apart: no dash in the card's
/// code, variant and collection, no slash in its side, and its part names
/// neither `front` nor repeated.
pub open spec fn nameable(p: PrintingView) -> bool {
    &&& !p.card_code.contains('-')
    &&& !p.variant.contains('-')
    &&& !p.collection.contains('-')
    &&& !p.side.contains('/')
    &&& forall|k: int| 0 <= k < p.parts.len() ==> (#[trigger] p.parts[k]).name != "front"@
    &&& forall|k: int, l: int| 0 <= k < l < p.parts.len() ==> (#[trigger] p.parts[k]).name != (#[trigger] p.parts[l]).name
}

/// A text cut at its first `c`: what comes before and after it.
proof fn lemma_cut_at_first(x: Seq<char>, r1: Seq<char>, y: Seq<char>, r2: Seq<char>, c: char)
    requires
        !x.contains(c),
        !y.contains(c),
        x + seq![c] + r1 == y + seq![c] + r2,
    ensures
        x == y,
        r1 == r2,
{
    let s = x + seq![c] + r1;
    let t = y + seq![c] + r2;
    if x.len() < y.len() {
        assert(s[x.len() as int] == c);
        assert(t[x.len() as int] == y[x.len() as int]);
        assert(y.contains(c));
    }
    if y.len() < x.len() {
        assert(t[y.len() as int] == c);
        assert(s[y.len() as int] == x[y.len() as int]);
        assert(x.contains(c));
    }
    assert(x =~= s.subrange(0, x.len() as int));
    assert(y =~= t.subrange(0, y.len() as int));
    assert(r1 =~= s.subrange(x.len() as int + 1, s.len() as int));
    assert(r2 =~= t.subrange(y.len() as int + 1, t.len() as int));
}

/// What follows the copy number in a path: nothing for the front, else a
/// dash and the part.
pub open spec fn stem_tail(copy: nat, part: Seq<char>) -> Seq<char> {
    if part == "front"@ {
        decimal(copy)
    } else {
        decimal(copy) + seq!['-'] + part
    }
}

/// The path after its folder: code, variant, collection and the tail, with
/// dashes between.
pub open spec fn stem_rest(p: PrintingView, copy: nat, part: Seq<char>) -> Seq<char> {
    p.card_code + seq!['-'] + (p.variant + seq!['-'] + (p.collection + seq!['-'] + stem_tail(copy, part)))
}

proof fn lemma_stem_shape(folder: Seq<char>, p: PrintingView, copy: nat, part: Seq<char>)
    ensures
        entry_stem(folder, p, copy, part) == folder + seq!['/'] + stem_rest(p, copy, part),
{
    reveal_strlit("/");
    reveal_strlit("-");
    assert("/"@ =~= seq!['/']);
    assert("-"@ =~= seq!['-']);
    assert(entry_stem(folder, p, copy, part) =~= folder + seq!['/'] + stem_rest(p, copy, part));
}

proof fn lemma_decimal_no_dash(n: nat)
    ensures
        !decimal(n).contains('-'),
        digits_value(decimal(n)) == n,
{
    lemma_decimal_reads_back(n);
    if decimal(n).contains('-') {
        let i = choose|i: int| 0 <= i < decimal(n).len() && decimal(n)[i] == '-';
        assert(ascii_digit(decimal(n)[i]));
    }
}

/// Two equal paths after the folder name one card, variant and collection,
/// one copy, and one part.
proof fn lemma_rest_fields(p: PrintingView, c: nat, a: Seq<char>, q: PrintingView, d: nat, b: Seq<char>)
    requires
        nameable(p),
        nameable(q),
        stem_rest(p, c, a) == stem_rest(q, d, b),
    ensures
        same_copy(p, q),
        c == d,
        (a == "front"@) == (b == "front"@),
        a != "front"@ ==> a == b,
{
    let r3 = stem_tail(c, a);
    let s3 = stem_tail(d, b);
    let r2 = p.collection + seq!['-'] + r3;
    let s2 = q.collection + seq!['-'] + s3;
    let r1 = p.variant + seq!['-'] + r2;
    let s1 = q.variant + seq!['-'] + s2;
    lemma_cut_at_first(p.card_code, r1, q.card_code, s1, '-');
    lemma_cut_at_first(p.variant, r2, q.variant, s2, '-');
    lemma_cut_at_first(p.collection, r3, q.collection, s3, '-');
    lemma_decimal_no_dash(c);
    lemma_decimal_no_dash(d);
    if a == "front"@ && b == "front"@ {
        assert(decimal(c) == decimal(d));
    } else if a != "front"@ && b != "front"@ {
        lemma_cut_at_first(decimal(c), a, decimal(d), b, '-');
    } else if a == "front"@ {
        let t = decimal(d) + seq!['-'] + b;
        assert(decimal(c) == t);
        assert(t[decimal(d).len() as int] == '-');
        assert(decimal(c).contains('-'));
    } else {
        let t = decimal(c) + seq!['-'] + a;
        assert(decimal(d) == t);
        assert(t[decimal(c).len() as int] == '-');
        assert(decimal(d).contains('-'));
    }
}

/// Two equal paths in one folder name one card, variant and collection, one
/// copy, and one part.
proof fn lemma_stem_fields_same_folder(
    f: Seq<char>,
    p: PrintingView,
    c: nat,
    a: Seq<char>,
    q: PrintingView,
    d: nat,
    b: Seq<char>,
)
    requires
        nameable(p),
        nameable(q),
        entry_stem(f, p, c, a) == entry_stem(f, q, d, b),
    ensures
        same_copy(p, q),
        c == d,
        (a == "front"@) == (b == "front"@),
        a != "front"@ ==> a == b,
{
    lemma_stem_shape(f, p, c, a);
    lemma_stem_shape(f, q, d, b);
    let x = entry_stem(f, p, c, a);
    let n = f.len() as int + 1;
    assert(stem_rest(p, c, a) =~= x.subrange(n, x.len() as int));
    assert(stem_rest(q, d, b) =~= x.subrange(n, x.len() as int));
    lemma_rest_fields(p, c, a, q, d, b);
}

/// Two equal paths in folders without a slash name one folder.
proof fn lemma_stem_folder(f: Seq<char>, p: PrintingView, c: nat, a: Seq<char>, g: Seq<char>, q: PrintingView, d: nat, b: Seq<char>)
    requires
        !f.contains('/'),
        !g.contains('/'),
        entry_stem(f, p, c, a) == entry_stem(g, q, d, b),
    ensures
        f == g,
{
    lemma_stem_shape(f, p, c, a);
    lemma_stem_shape(g, q, d, b);
    lemma_cut_at_first(f, stem_rest(p, c, a), g, stem_rest(q, d, b), '/');
}

proof fn lemma_copies_same_class(xs: Seq<PrintingView>, p: PrintingView, q: PrintingView)
    requires
        same_copy(p, q),
    ensures
        copies_of(xs, p) == copies_of(xs, q),
    decreases xs.len(),
{
    if xs.len() > 0 {
        lemma_copies_same_class(xs.drop_last(), p, q);
    }
}

/// A path of the folder's files: that of some printing of the list, at a
/// copy number no greater than its count of copies there.
pub open spec fn stem_in(ps: Seq<PrintingView>, folder: Seq<char>, stem: Seq<char>) -> bool {
    exists|j: int, c: nat, a: Seq<char>|
        0 <= j < ps.len() && c <= copies_of(ps, ps[j]) && stem == #[trigger] entry_stem(folder, ps[j], c, a)
}

proof fn lemma_side_names(ps: Seq<PrintingView>, folder: Seq<char>)
    requires
        forall|i: int| 0 <= i < ps.len() ==> nameable(#[trigger] ps[i]),
    ensures
        forall|i: int| 0 <= i < side_entries(ps, folder).len() ==> stem_in(ps, folder, #[trigger] side_entries(ps, folder)[i].0),
        forall|i: int, j: int|
            0 <= i < j < side_entries(ps, folder).len() ==> #[trigger] side_entries(ps, folder)[i].0
                != #[trigger] side_entries(ps, folder)[j].0,
    decreases ps.len(),
{
    reveal_strlit("front");
    if ps.len() > 0 {
        let pre = ps.drop_last();
        assert forall|i: int| 0 <= i < pre.len() implies nameable(#[trigger] pre[i]) by {
            assert(pre[i] == ps[i]);
        }
        lemma_side_names(pre, folder);
        let prev = side_entries(pre, folder);
        let all = side_entries(ps, folder);
        let p = ps.last();
        assert(p == ps[ps.len() - 1]);
        assert(nameable(p));
        let copy = copies_of(ps, p);
        assert(copy == copies_of(pre, p) + 1);
        let imgs = printing_images(p);
        assert forall|k: int| 0 <= k < imgs.len() implies #[trigger] all[prev.len() + k].0 == entry_stem(
            folder,
            p,
            copy,
            imgs[k].0,
        ) by {}
        // every path is that of a printing of the list
        assert forall|i: int| 0 <= i < all.len() implies stem_in(ps, folder, #[trigger] all[i].0) by {
            if i < prev.len() {
                assert(all[i] == prev[i]);
                assert(stem_in(pre, folder, prev[i].0));
                let (j, c, a) = choose|j: int, c: nat, a: Seq<char>|
                    0 <= j < pre.len() && c <= copies_of(pre, pre[j]) && prev[i].0 == #[trigger] entry_stem(
                        folder,
                        pre[j],
                        c,
                        a,
                    );
                assert(pre[j] == ps[j]);
                assert(copies_of(pre, ps[j]) <= copies_of(ps, ps[j]));
                assert(entry_stem(folder, ps[j], c, a) == all[i].0);
            } else {
                let k = i - prev.len();
                assert(all[i].0 == entry_stem(folder, ps[ps.len() - 1], copy, imgs[k].0));
            }
        }
        // no two paths are equal
        assert forall|i: int, j: int| 0 <= i < j < all.len() implies #[trigger] all[i].0 != #[trigger] all[j].0 by {
            if j < prev.len() {
                assert(all[i] == prev[i]);
                assert(all[j] == prev[j]);
            } else if i < prev.len() {
                assert(all[i] == prev[i]);
                assert(stem_in(pre, folder, prev[i].0));
                let (jq, c, a) = choose|jq: int, c: nat, a: Seq<char>|
                    0 <= jq < pre.len() && c <= copies_of(pre, pre[jq]) && prev[i].0 == #[trigger] entry_stem(
                        folder,
                        pre[jq],
                        c,
                        a,
                    );
                let q = pre[jq];
                assert(q == ps[jq]);
                assert(nameable(q));
                let k = j - prev.len();
                if all[i].0 == all[j].0 {
                    lemma_stem_fields_same_folder(folder, q, c, a, p, copy, imgs[k].0);
                    lemma_copies_same_class(pre, q, p);
                }
            } else {
                let k1 = i - prev.len();
                let k2 = j - prev.len();
                if all[i].0 == all[j].0 {
                    lemma_stem_fields_same_folder(folder, p, copy, imgs[k1].0, p, copy, imgs[k2].0);
                    if k1 == 0 {
                        assert(imgs[k2].0 == p.parts[k2 - 1].name);
                    } else {
                        assert(imgs[k1].0 == p.parts[k1 - 1].name);
                        assert(imgs[k2].0 == p.parts[k2 - 1].name);
                    }
                }
            }
        }
    }
}

/// Within a folder every image gets a path of its own, when the fields of
/// the paths can be told apart (see [`nameable`]).
pub proof fn law_folder_paths_unique(ps: Seq<PrintingView>, folder: Seq<char>)
    requires
        forall|i: int| 0 <= i < ps.len() ==> nameable(#[trigger] ps[i]),
    ensures
        forall|i: int, j: int|
            0 <= i < j < side_entries(ps, folder).len() ==> #[trigger] side_entries(ps, folder)[i].0
                != #[trigger] side_entries(ps, folder)[j].0,
{
    lemma_side_names(ps, folder);
}

proof fn lemma_distinct_no_duplicates(s: Seq<Seq<char>>, n: int)
    requires
        0 <= n <= s.len(),
    ensures
        distinct_prefix(s, n).no_duplicates(),
    decreases n,
{
    if n > 0 {
        lemma_distinct_no_duplicates(s, n - 1);
        let d = distinct_prefix(s, n - 1);
        if !d.contains(s[n - 1]) {
            let e = d.push(s[n - 1]);
            assert forall|i: int, j: int| 0 <= i < e.len() && 0 <= j < e.len() && i != j implies e[i] != e[j] by {
                if i < d.len() && j < d.len() {
                    assert(e[i] == d[i] && e[j] == d[j]);
                } else if i < d.len() {
                    assert(e[i] == d[i]);
                } else {
                    assert(e[j] == d[j]);
                }
            }
        }
    }
}

proof fn lemma_on_side_members(ps: Seq<PrintingView>, side: Seq<char>)
    requires
        forall|i: int| 0 <= i < ps.len() ==> nameable(#[trigger] ps[i]),
    ensures
        forall|i: int| 0 <= i < on_side(ps, side).len() ==> nameable(#[trigger] on_side(ps, side)[i]),
    decreases ps.len(),
{
    if ps.len() > 0 {
        let pre = ps.drop_last();
        assert forall|i: int| 0 <= i < pre.len() implies nameable(#[trigger] pre[i]) by {
            assert(pre[i] == ps[i]);
        }
        lemma_on_side_members(pre, side);
        assert(nameable(ps[ps.len() - 1]));
        let prev = on_side(pre, side);
        let all = on_side(ps, side);
        assert forall|i: int| 0 <= i < all.len() implies nameable(#[trigger] all[i]) by {
            if i < prev.len() {
                assert(all[i] == prev[i]);
            }
        }
    }
}

proof fn lemma_folder_without_slash(side: Seq<char>, single: bool)
    requires
        !side.contains('/'),
    ensures
        !folder_for(side, single).contains('/'),
{
    reveal_strlit("card-images");
    reveal_strlit("-images");
    let f = folder_for(side, single);
    if f.contains('/') {
        let i = choose|i: int| 0 <= i < f.len() && f[i] == '/';
        if single {
            assert("card-images"@ =~= seq!['c', 'a', 'r', 'd', '-', 'i', 'm', 'a', 'g', 'e', 's']);
        } else {
            assert("-images"@ =~= seq!['-', 'i', 'm', 'a', 'g', 'e', 's']);
            if i < side.len() {
                assert(f[i] == side[i]);
            } else {
                assert(f[i] == "-images"@[i - side.len()]);
            }
        }
    }
}

proof fn lemma_plan_names(sides: Seq<Seq<char>>, ps: Seq<PrintingView>, single: bool)
    requires
        forall|i: int| 0 <= i < ps.len() ==> nameable(#[trigger] ps[i]),
        sides.no_duplicates(),
        forall|t: int| 0 <= t < sides.len() ==> !(#[trigger] sides[t]).contains('/'),
        single ==> sides.len() <= 1,
    ensures
        forall|i: int|
            0 <= i < plan_sides(sides, ps, single).len() ==> exists|t: int|
                0 <= t < sides.len() && stem_in(
                    on_side(ps, sides[t]),
                    folder_for(sides[t], single),
                    #[trigger] plan_sides(sides, ps, single)[i].0,
                ),
        forall|i: int, j: int|
            0 <= i < j < plan_sides(sides, ps, single).len() ==> #[trigger] plan_sides(sides, ps, single)[i].0
                != #[trigger] plan_sides(sides, ps, single)[j].0,
    decreases sides.len(),
{
    if sides.len() > 0 {
        let pre = sides.drop_last();
        assert forall|t: int| 0 <= t < pre.len() implies !(#[trigger] pre[t]).contains('/') by {
            assert(pre[t] == sides[t]);
        }
        assert(pre.no_duplicates()) by {
            assert forall|i: int, j: int| 0 <= i < pre.len() && 0 <= j < pre.len() && i != j implies pre[i]
                != pre[j] by {
                assert(pre[i] == sides[i] && pre[j] == sides[j]);
            }
        }
        lemma_plan_names(pre, ps, single);
        let last = sides.last();
        let lt = sides.len() - 1;
        assert(last == sides[lt]);
        let folder = folder_for(last, single);
        let mine = on_side(ps, last);
        lemma_on_side_members(ps, last);
        lemma_side_names(mine, folder);
        let prev = plan_sides(pre, ps, single);
        let news = side_entries(mine, folder);
        let all = plan_sides(sides, ps, single);
        assert(all == prev + news);
        assert forall|i: int| 0 <= i < all.len() implies exists|t: int|
            0 <= t < sides.len() && stem_in(on_side(ps, sides[t]), folder_for(sides[t], single), #[trigger] all[i].0) by {
            if i < prev.len() {
                assert(all[i] == prev[i]);
                let t = choose|t: int|
                    0 <= t < pre.len() && stem_in(on_side(ps, pre[t]), folder_for(pre[t], single), #[trigger] prev[i].0);
                assert(pre[t] == sides[t]);
            } else {
                assert(all[i] == news[i - prev.len()]);
                assert(stem_in(mine, folder, news[i - prev.len()].0));
            }
        }
        assert forall|i: int, j: int| 0 <= i < j < all.len() implies #[trigger] all[i].0 != #[trigger] all[j].0 by {
            if j < prev.len() {
                assert(all[i] == prev[i] && all[j] == prev[j]);
            } else if i >= prev.len() {
                assert(all[i] == news[i - prev.len()] && all[j] == news[j - prev.len()]);
            } else {
                assert(all[i] == prev[i] && all[j] == news[j - prev.len()]);
                if all[i].0 == all[j].0 {
                    let t = choose|t: int|
                        0 <= t < pre.len() && stem_in(on_side(ps, pre[t]), folder_for(pre[t], single), #[trigger] prev[i].0);
                    let side_t = pre[t];
                    assert(side_t == sides[t]);
                    let other = on_side(ps, side_t);
                    let g = folder_for(side_t, single);
                    let (jq, c, a) = choose|jq: int, c: nat, a: Seq<char>|
                        0 <= jq < other.len() && c <= copies_of(other, other[jq]) && prev[i].0 == #[trigger] entry_stem(
                            g,
                            other[jq],
                            c,
                            a,
                        );
                    let k = j - prev.len();
                    assert(stem_in(mine, folder, news[k].0));
                    let (jp, d, b) = choose|jp: int, d: nat, b: Seq<char>|
                        0 <= jp < mine.len() && d <= copies_of(mine, mine[jp]) && news[k].0 == #[trigger] entry_stem(
                            folder,
                            mine[jp],
                            d,
                            b,
                        );
                    lemma_folder_without_slash(side_t, single);
                    lemma_folder_without_slash(last, single);
                    lemma_stem_folder(g, other[jq], c, a, folder, mine[jp], d, b);
                    assert(!single);
                    reveal_strlit("-images");
                    assert(side_t =~= g.subrange(0, side_t.len() as int));
                    assert(last =~= folder.subrange(0, last.len() as int));
                    assert(side_t.len() == last.len());
                    assert(side_t == last);
                    assert(sides[t] == sides[lt]);
                }
            }
        }
    }
}

/// Every image of the upload gets a path of its own in the archive, when
/// the fields of the paths can be told apart (see [`nameable`]).
pub proof fn law_upload_paths_unique(ps: Seq<PrintingView>)
    requires
        forall|i: int| 0 <= i < ps.len() ==> nameable(#[trigger] ps[i]),
    ensures
        forall|i: int, j: int| 0 <= i < j < mpc_plan(ps).len() ==> #[trigger] mpc_plan(ps)[i].0 != #[trigger] mpc_plan(ps)[j].0,
{
    let xs = ps.map_values(|p: PrintingView| p.side);
    let sides = sides_of(ps);
    lemma_distinct_no_duplicates(xs, xs.len() as int);
    assert forall|t: int| 0 <= t < sides.len() implies !(#[trigger] sides[t]).contains('/') by {
        crate::card_store::lemma_distinct_member(xs, xs.len() as int, t);
        let q = choose|q: int| 0 <= q < xs.len() && #[trigger] xs[q] == distinct_prefix(xs, xs.len() as int)[t];
        assert(xs[q] == ps[q].side);
        assert(nameable(ps[q]));
    }
    lemma_plan_names(sides, ps, sides.len() == 1);
}

proof fn lemma_on_side_count(ps: Seq<PrintingView>, side: Seq<char>)
    ensures
        image_count(on_side(ps, side)) <= image_count(ps),
    decreases ps.len(),
{
    if ps.len() > 0 {
        lemma_on_side_count(ps.drop_last(), side);
        let prev = on_side(ps.drop_last(), side);
        if ps.last().side == side {
            assert(prev.push(ps.last()).drop_last() =~= prev);
        }
    }
}

proof fn lemma_copies_le_len(ps: Seq<PrintingView>, p: PrintingView)
    ensures
        copies_of(ps, p) <= ps.len(),
    decreases ps.len(),
{
    if ps.len() > 0 {
        lemma_copies_le_len(ps.drop_last(), p);
    }
}

/// How many printings among the first `j + 1` are copies of the `j`-th.
fn copy_number(ps: &Vec<Printing>, j: usize) -> (r: usize)
    requires
        j < ps@.len(),
    ensures
        r == copies_of(printing_views(ps@).take(j + 1), printing_views(ps@)[j as int]),
{
    let ghost pv = printing_views(ps@);
    let len = ps.len();
    let p = &ps[j];
    let mut n: usize = 0;
    let mut k: usize = 0;
    while k <= j
        invariant
            j < ps@.len(),
            len == ps@.len(),
            *p == ps@[j as int],
            pv == printing_views(ps@),
            k <= j + 1,
            n == copies_of(pv.take(k as int), pv[j as int]),
            n <= k,
        decreases j + 1 - k,
    {
        assert(pv.take(k as int + 1).drop_last() =~= pv.take(k as int));
        assert(pv.take(k as int + 1).last() == ps@[k as int]@);
        assert(pv[j as int] == ps@[j as int]@);
        let q = &ps[k];
        if str_eq(q.collection.as_str(), p.collection.as_str()) && str_eq(q.card_code.as_str(), p.card_code.as_str())
            && str_eq(q.variant.as_str(), p.variant.as_str()) {
            n = n + 1;
        }
        k = k + 1;
    }
    n
}

fn make_stem(folder: &str, p: &Printing, copy: usize, part: &str) -> (r: String)
    ensures
        r@ == entry_stem(folder@, p@, copy as nat, part@),
{
    let mut s = concat2(folder, "/");
    s.append(p.card_code.as_str());
    s.append("-");
    s.append(p.variant.as_str());
    s.append("-");
    s.append(p.collection.as_str());
    s.append("-");
    let d = decimal_u64(copy as u64);
    s.append(d.as_str());
    if !str_eq(part, "front") {
        s.append("-");
        s.append(part);
    }
    s
}

/// The files of one folder for the printings of one side.
pub fn process_side(printings: &Vec<Printing>, folder: &str) -> (r: Vec<MpcEntry>)
    requires
        image_count(printing_views(printings@)) <= u32::MAX,
    ensures
        r@.map_values(|e: MpcEntry| entry_view(e)) == side_entries(printing_views(printings@), folder@),
{
    let ghost pv = printing_views(printings@);
    let mut out: Vec<MpcEntry> = Vec::new();
    let mut j: usize = 0;
    assert(pv.take(pv.len() as int) =~= pv);
    assert(pv.take(0) =~= Seq::<PrintingView>::empty());
    while j < printings.len()
        invariant
            j <= printings@.len(),
            pv == printing_views(printings@),
            image_count(pv) <= u32::MAX,
            out@.map_values(|e: MpcEntry| entry_view(e)) == side_entries(pv.take(j as int), folder@),
            out@.len() == image_count(pv.take(j as int)),
        decreases printings.len() - j,
    {
        let p = &printings[j];
        let ghost prev = out@.map_values(|e: MpcEntry| entry_view(e));
        let ghost cur = pv.take(j as int + 1);
        assert(cur.drop_last() =~= pv.take(j as int));
        assert(cur.last() == p@);
        let copy = copy_number(printings, j);
        let ghost imgs = printing_images(p@);
        proof {
            lemma_image_count_prefix(pv, j as int + 1, pv.len() as int);
            assert(pv.take(pv.len() as int) =~= pv);
            assert(imgs[0] == ("front"@, p@.image_key));
        }
        let ghost base_len = out@.len();
        let mut k: usize = 0;
        let nparts = p.parts.len();
        while k <= nparts
            invariant
                pv == printing_views(printings@),
                j < printings@.len(),
                p == printings@[j as int],
                nparts == p.parts@.len(),
                imgs == printing_images(p@),
                imgs.len() == nparts + 1,
                copy == copies_of(cur, p@),
                k <= nparts + 1,
                base_len == prev.len(),
                base_len + imgs.len() <= u32::MAX,
                out@.len() == base_len + k,
                out@.map_values(|e: MpcEntry| entry_view(e)) == prev + Seq::new(
                    k as nat,
                    |i: int| (entry_stem(folder@, p@, copy as nat, imgs[i].0), imgs[i].1, (prev.len() + i + 1) as nat),
                ),
            decreases nparts + 1 - k,
        {
            let position = (out.len() + 1) as u32;
            let entry = if k == 0 {
                MpcEntry {
                    file_stem: make_stem(folder, p, copy, "front"),
                    image_key: p.image_key.clone(),
                    position,
                }
            } else {
                let part = &p.parts[k - 1];
                assert(imgs[k as int] == (part@.name, part@.image_key));
                MpcEntry {
                    file_stem: make_stem(folder, p, copy, part.name.as_str()),
                    image_key: part.image_key.clone(),
                    position,
                }
            };
            assert(entry_view(entry) == (
                entry_stem(folder@, p@, copy as nat, imgs[k as int].0),
                imgs[k as int].1,
                (prev.len() + k + 1) as nat,
            ));
            let ghost old_map = out@.map_values(|e: MpcEntry| entry_view(e));
            out.push(entry);
            assert(out@.map_values(|e: MpcEntry| entry_view(e)) =~= old_map.push(entry_view(entry)));
            k = k + 1;
            assert(prev + Seq::new(
                k as nat,
                |i: int| (entry_stem(folder@, p@, copy as nat, imgs[i].0), imgs[i].1, (prev.len() + i + 1) as nat),
            ) =~= old_map.push(entry_view(entry)));
        }
        j = j + 1;
        assert(out@.map_values(|e: MpcEntry| entry_view(e)) =~= side_entries(pv.take(j as int), folder@));
    }
    assert(pv.take(j as int) =~= pv);
    out
}

proof fn lemma_image_count_prefix(ps: Seq<PrintingView>, a: int, b: int)
    requires
        0 <= a <= b <= ps.len(),
    ensures
        image_count(ps.take(a)) <= image_count(ps.take(b)),
    decreases b - a,
{
    if a < b {
        lemma_image_count_prefix(ps, a, b - 1);
        assert(ps.take(b).drop_last() =~= ps.take(b - 1));
    }
}

fn printings_on_side(printings: &Vec<Printing>, side: &String) -> (r: Vec<Printing>)
    ensures
        printing_views(r@) == on_side(printing_views(printings@), side@),
{
    let ghost pv = printing_views(printings@);
    let mut out: Vec<Printing> = Vec::new();
    let mut i: usize = 0;
    assert(printing_views(out@) =~= Seq::<PrintingView>::empty());
    while i < printings.len()
        invariant
            i <= printings@.len(),
            pv == printing_views(printings@),
            printing_views(out@) == on_side(pv.take(i as int), side@),
        decreases printings.len() - i,
    {
        assert(pv.take(i as int + 1).drop_last() =~= pv.take(i as int));
        let ghost before = printing_views(out@);
        if str_eq(printings[i].side.as_str(), side.as_str()) {
            out.push(printings[i].duplicate());
            assert(printing_views(out@) =~= before.push(printings@[i as int]@));
        }
        i = i + 1;
    }
    assert(pv.take(i as int) =~= pv);
    out
}

/// Plans the whole upload: the sides in the order first met, each side's
/// files in its own folder.
pub fn plan_mpc(printings: &Vec<Printing>) -> (r: Vec<MpcEntry>)
    requires
        image_count(printing_views(printings@)) <= u32::MAX,
    ensures
        r@.map_values(|e: MpcEntry| entry_view(e)) == mpc_plan(printing_views(printings@)),
{
    let ghost pv = printing_views(printings@);
    let mut all_sides: Vec<String> = Vec::new();
    let mut i: usize = 0;
    while i < printings.len()
        invariant
            i <= printings@.len(),
            pv == printing_views(printings@),
            all_sides@.len() == i,
            forall|k: int| 0 <= k < i ==> (#[trigger] all_sides@[k])@ == pv[k].side,
        decreases printings.len() - i,
    {
        all_sides.push(printings[i].side.clone());
        i = i + 1;
    }
    assert(all_sides@.map_values(|x: String| x@) =~= pv.map_values(|p: PrintingView| p.side));
    let sides = distinct_strings(&all_sides);
    let ghost sv = sides@.map_values(|x: String| x@);
    assert(sv == sides_of(pv));
    let single = sides.len() == 1;
    let mut out: Vec<MpcEntry> = Vec::new();
    let mut s: usize = 0;
    assert(out@.map_values(|e: MpcEntry| entry_view(e)) =~= Seq::<(Seq<char>, Seq<char>, nat)>::empty());
    while s < sides.len()
        invariant
            s <= sides@.len(),
            pv == printing_views(printings@),
            sv == sides@.map_values(|x: String| x@),
            image_count(pv) <= u32::MAX,
            single == (sv.len() == 1),
            out@.map_values(|e: MpcEntry| entry_view(e)) == plan_sides(sv.take(s as int), pv, single),
        decreases sides.len() - s,
    {
        let side = &sides[s];
        let ps = printings_on_side(printings, side);
        proof {
            lemma_on_side_count(pv, side@);
        }
        let folder = if single {
            String::from_str("card-images")
        } else {
            concat2(side.as_str(), "-images")
        };
        let entries = process_side(&ps, folder.as_str());
        let ghost before = out@.map_values(|e: MpcEntry| entry_view(e));
        let mut k: usize = 0;
        while k < entries.len()
            invariant
                k <= entries@.len(),
                out@.map_values(|e: MpcEntry| entry_view(e)) == before + entries@.map_values(
                    |e: MpcEntry| entry_view(e),
                ).take(k as int),
            decreases entries.len() - k,
        {
            let ghost old_map = out@.map_values(|e: MpcEntry| entry_view(e));
            let e = entries[k].duplicate();
            out.push(e);
            assert(out@.map_values(|e: MpcEntry| entry_view(e)) =~= old_map.push(entry_view(e)));
            k = k + 1;
            assert(before + entries@.map_values(|e: MpcEntry| entry_view(e)).take(k as int) =~= old_map.push(
                entry_view(e),
            ));
        }
        assert(entries@.map_values(|e: MpcEntry| entry_view(e)).take(k as int) =~= entries@.map_values(
            |e: MpcEntry| entry_view(e),
        ));
        assert(sv.take(s as int + 1).drop_last() =~= sv.take(s as int));
        s = s + 1;
    }
    assert(sv.take(s as int) =~= sv);
    out
}

/// The name of a file in the archive: its path and the extension of the
/// image's format.
pub fn mpc_file_name(stem: &str, is_png: bool) -> (r: String)
    ensures
        r@ == stem@ + (if is_png { ".png"@ } else { ".jpg"@ }),
{
    if is_png {
        concat2(stem, ".png")
    } else {
        concat2(stem, ".jpg")
    }
}

/// A card image read from its file: its pixels, and whether the file is a
/// PNG (anything else is written back as JPEG).
pub fn decode_card_image(bytes: &[u8]) -> (r: Result<(RgbImageData, bool), ProxyNexusError>)
    ensures
        r matches Ok((img, png)) ==> img.well_formed() && png == starts_png(bytes@),
        r matches Err(e) ==> e is Message,
{
    let png = guess_is_png(bytes);
    match load_image(bytes) {
        Ok(picture) => Ok((rgb_pixels(&picture), png)),
        Err(e) => Err(ProxyNexusError::Message(image_error_text(&e))),
    }
}

/// The file of one copy: the bordered image with the mark of its position,
/// written as PNG or as JPEG at quality 95.
pub fn render_mpc_image(base: &RgbImageData, is_png: bool, position: u32) -> (r: Result<
    Vec<u8>,
    ProxyNexusError,
>)
    requires
        base.well_formed(),
        position * 193 <= u32::MAX,
    ensures
        is_png ==> (r matches Ok(bytes) ==> bytes@ == png_encoded(
            base.width,
            base.height,
            marked_pixels(*base, position),
        )),
        !is_png ==> (r matches Ok(bytes) ==> base.width <= u16::MAX && base.height <= u16::MAX
            && bytes@ == jpeg_encoded(base.width as u16, base.height as u16, marked_pixels(*base, position))),
        r is Ok <==> (base.width > 0 && base.height > 0 && (is_png || (base.width <= u16::MAX && base.height
            <= u16::MAX))),
{
    let mut img = base.duplicate();
    assert(marked_pixels(img, position) =~= marked_pixels(*base, position));
    apply_uniqueness_marker(&mut img, position);
    if is_png {
        match encode_png(&img) {
            Ok(bytes) => Ok(bytes),
            Err(e) => Err(ProxyNexusError::Message(image_error_text(&e))),
        }
    } else {
        if img.width > 65535 || img.height > 65535 {
            return Err(ProxyNexusError::Message(String::from_str("JPEG images are at most 65535 pixels wide and high")));
        }
        match encode_jpeg(img.pixels.as_slice(), img.width as u16, img.height as u16) {
            Ok(bytes) => Ok(bytes),
            Err(e) => Err(ProxyNexusError::Message(jpeg_error_text(&e))),
        }
    }
}

} // verus!
