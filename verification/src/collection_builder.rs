//! Building a collection package from a card list and a folder of images:
//! which images are refused, which cards go into the index, which printing
//! rows they get and what the report says.
use vstd::prelude::*;

use crate::card_store::contains_string;
use crate::collection::{CardMetadata, Manifest, Printing};
use crate::error::{concat2, concat3, ProxyNexusError};
use crate::image_scanner::ScannedImage;
use crate::paths::{file_name, path_file_name};
use crate::text::{append_chars, decimal, decimal_u64};

verus! {

/// What a build did: the cards and printings it added, and what it warned of
/// or refused.
#[derive(Debug)]
pub struct BuildReport {
    pub cards_added: usize,
    pub printings_added: usize,
    pub warnings: Vec<String>,
    pub errors: Vec<String>,
}

impl Default for BuildReport {
    fn default() -> (r: Self)
        ensures
            r.cards_added == 0,
            r.printings_added == 0,
            r.warnings@.len() == 0,
            r.errors@.len() == 0,
    {
        BuildReport { cards_added: 0, printings_added: 0, warnings: Vec::new(), errors: Vec::new() }
    }
}

/// The settings of one build: where the package goes, where the images and
/// the card list are, the version and language it declares, and whether it
/// reports every skipped card.
pub struct CollectionBuilder {
    output_path: String,
    images_dir: String,
    metadata_csv: String,
    version: String,
    language: String,
    verbose: bool,
}

impl CollectionBuilder {
    pub closed spec fn output_spec(&self) -> Seq<char> {
        self.output_path@
    }

    pub closed spec fn images_spec(&self) -> Seq<char> {
        self.images_dir@
    }

    pub closed spec fn metadata_spec(&self) -> Seq<char> {
        self.metadata_csv@
    }

    pub closed spec fn version_spec(&self) -> Seq<char> {
        self.version@
    }

    pub closed spec fn language_spec(&self) -> Seq<char> {
        self.language@
    }

    pub closed spec fn verbose_spec(&self) -> bool {
        self.verbose
    }

    /// A quiet builder with the given paths, language and version.
    pub fn new(
        output_path: String,
        images_dir: String,
        metadata_csv: String,
        language: String,
        version: String,
    ) -> (r: Self)
        ensures
            r.output_spec() == output_path@,
            r.images_spec() == images_dir@,
            r.metadata_spec() == metadata_csv@,
            r.language_spec() == language@,
            r.version_spec() == version@,
            !r.verbose_spec(),
    {
        CollectionBuilder { output_path, images_dir, metadata_csv, version, language, verbose: false }
    }

    /// The same builder, reporting skipped cards or not.
    pub fn verbose(self, verbose: bool) -> (r: Self)
        ensures
            r.verbose_spec() == verbose,
            r.output_spec() == self.output_spec(),
            r.images_spec() == self.images_spec(),
            r.metadata_spec() == self.metadata_spec(),
            r.language_spec() == self.language_spec(),
            r.version_spec() == self.version_spec(),
    {
        let mut s = self;
        s.verbose = verbose;
        s
    }

    pub fn output_path(&self) -> (r: &str)
        ensures
            r@ == self.output_spec(),
    {
        self.output_path.as_str()
    }

    pub fn images_dir(&self) -> (r: &str)
        ensures
            r@ == self.images_spec(),
    {
        self.images_dir.as_str()
    }

    pub fn metadata_csv(&self) -> (r: &str)
        ensures
            r@ == self.metadata_spec(),
    {
        self.metadata_csv.as_str()
    }

    pub fn is_verbose(&self) -> (r: bool)
        ensures
            r == self.verbose_spec(),
    {
        self.verbose
    }

    /// The manifest of the package, stamped with the given date.
    pub fn manifest(&self, generated_date: String) -> (r: Manifest)
        ensures
            r.version@ == self.version_spec(),
            r.language@ == self.language_spec(),
            r.generated_date@ == generated_date@,
    {
        Manifest { version: self.version.clone(), language: self.language.clone(), generated_date }
    }
}

// ---------------------------------------------------------------------------
// Images without a card
// ---------------------------------------------------------------------------

pub open spec fn image_codes(imgs: Seq<ScannedImage>) -> Seq<Seq<char>> {
    imgs.map_values(|i: ScannedImage| i.code@)
}

pub open spec fn card_codes(cards: Seq<CardMetadata>) -> Seq<Seq<char>> {
    cards.map_values(|c: CardMetadata| c.code@)
}

/// The codes that no card row has, each once, in the order first met.
pub open spec fn orphan_codes(codes: Seq<Seq<char>>, known: Seq<Seq<char>>) -> Seq<Seq<char>>
    decreases codes.len(),
{
    if codes.len() == 0 {
        Seq::empty()
    } else {
        let prev = orphan_codes(codes.drop_last(), known);
        let c = codes.last();
        if known.contains(c) || prev.contains(c) {
            prev
        } else {
            prev.push(c)
        }
    }
}

pub open spec fn orphan_message(code: Seq<char>) -> Seq<char> {
    "Image file(s) for code '"@ + code + "' found but no corresponding card in CSV"@
}

pub open spec fn orphan_messages(cards: Seq<CardMetadata>, imgs: Seq<ScannedImage>) -> Seq<Seq<char>> {
    orphan_codes(image_codes(imgs), card_codes(cards)).map_values(|c: Seq<char>| orphan_message(c))
}

fn codes_of_cards(cards: &Vec<CardMetadata>) -> (r: Vec<String>)
    ensures
        r@.map_values(|s: String| s@) == card_codes(cards@),
{
    let mut r: Vec<String> = Vec::new();
    let mut i: usize = 0;
    while i < cards.len()
        invariant
            i <= cards@.len(),
            r@.len() == i,
            forall|k: int| 0 <= k < i ==> (#[trigger] r@[k])@ == cards@[k].code@,
        decreases cards.len() - i,
    {
        r.push(cards[i].code.clone());
        i = i + 1;
    }
    assert(r@.map_values(|s: String| s@) =~= card_codes(cards@));
    r
}

/// One error for each image code that no card row has.
pub fn orphan_errors(cards: &Vec<CardMetadata>, images: &Vec<ScannedImage>) -> (r: Vec<String>)
    ensures
        r@.map_values(|s: String| s@) == orphan_messages(cards@, images@),
{
    let known = codes_of_cards(cards);
    let ghost codes = image_codes(images@);
    let ghost kn = card_codes(cards@);
    let mut found: Vec<String> = Vec::new();
    let mut errors: Vec<String> = Vec::new();
    let mut i: usize = 0;
    while i < images.len()
        invariant
            i <= images@.len(),
            codes == image_codes(images@),
            kn == card_codes(cards@),
            known@.map_values(|s: String| s@) == kn,
            found@.map_values(|s: String| s@) == orphan_codes(codes.take(i as int), kn),
            errors@.len() == found@.len(),
            forall|k: int| 0 <= k < errors@.len() ==> (#[trigger] errors@[k])@ == orphan_message(found@[k]@),
        decreases images.len() - i,
    {
        let code = &images[i].code;
        assert(codes.take(i as int + 1).drop_last() =~= codes.take(i as int));
        assert(codes.take(i as int + 1).last() == code@);
        let in_known = contains_string(&known, code);
        let seen = contains_string(&found, code);
        if !in_known && !seen {
            found.push(code.clone());
            errors.push(concat3("Image file(s) for code '", code.as_str(), "' found but no corresponding card in CSV"));
        }
        i = i + 1;
        assert(found@.map_values(|s: String| s@) =~= orphan_codes(codes.take(i as int), kn));
    }
    assert(codes.take(i as int) =~= codes);
    assert(errors@.map_values(|s: String| s@) =~= orphan_codes(codes, kn).map_values(
        |c: Seq<char>| orphan_message(c),
    ));
    errors
}

// ---------------------------------------------------------------------------
// The rows of the index
// ---------------------------------------------------------------------------

/// Where an image goes inside the package.
pub open spec fn package_entry(path: Seq<char>) -> Seq<char> {
    match file_name(path) {
        Some(n) => "images/"@ + n,
        None => Seq::empty(),
    }
}

pub open spec fn row_view(p: Printing) -> (Seq<char>, Seq<char>, Seq<char>, Seq<char>) {
    (p.card_code@, p.variant@, p.part@, p.file_name@)
}

/// The printing rows of one card: one for each image with its code, in the
/// order of the images, each with the image's variant and part.
pub open spec fn card_rows(code: Seq<char>, imgs: Seq<ScannedImage>) -> Seq<(Seq<char>, Seq<char>, Seq<char>, Seq<char>)>
    decreases imgs.len(),
{
    if imgs.len() == 0 {
        Seq::empty()
    } else {
        let prev = card_rows(code, imgs.drop_last());
        let img = imgs.last();
        if img.code@ == code {
            prev.push((code, img.variant@, img.part@, package_entry(img.path@)))
        } else {
            prev
        }
    }
}

/// The image files that the rows of one card come from, in the same order.
pub open spec fn card_sources(code: Seq<char>, imgs: Seq<ScannedImage>) -> Seq<Seq<char>>
    decreases imgs.len(),
{
    if imgs.len() == 0 {
        Seq::empty()
    } else {
        let prev = card_sources(code, imgs.drop_last());
        let img = imgs.last();
        if img.code@ == code {
            prev.push(img.path@)
        } else {
            prev
        }
    }
}

pub open spec fn printings_text(n: nat) -> Seq<char> {
    if n == 1 {
        "1 printing"@
    } else {
        decimal(n) + " printings"@
    }
}

pub open spec fn found_line(c: CardMetadata, n: nat) -> Seq<char> {
    "Found: "@ + c.code@ + " "@ + c.title@ + " ("@ + printings_text(n) + ")"@
}

pub open spec fn skipped_warning(c: CardMetadata) -> Seq<char> {
    "Card '"@ + c.code@ + "' ("@ + c.title@ + ") found in CSV but has no images - skipping"@
}

/// Card by card: the rows kept for the index, their printing rows, a line
/// for each card kept, a warning for each card without an image, and the
/// image file behind each printing row.
pub open spec fn build_rows(cards: Seq<CardMetadata>, imgs: Seq<ScannedImage>) -> (
    Seq<CardMetadata>,
    Seq<(Seq<char>, Seq<char>, Seq<char>, Seq<char>)>,
    Seq<Seq<char>>,
    Seq<Seq<char>>,
    Seq<Seq<char>>,
)
    decreases cards.len(),
{
    if cards.len() == 0 {
        (Seq::empty(), Seq::empty(), Seq::empty(), Seq::empty(), Seq::empty())
    } else {
        let prev = build_rows(cards.drop_last(), imgs);
        let c = cards.last();
        let rows = card_rows(c.code@, imgs);
        if rows.len() > 0 {
            (
                prev.0.push(c),
                prev.1 + rows,
                prev.2.push(found_line(c, rows.len())),
                prev.3,
                prev.4 + card_sources(c.code@, imgs),
            )
        } else {
            (prev.0, prev.1, prev.2, prev.3.push(skipped_warning(c)), prev.4)
        }
    }
}

/// The index row made from an image: its code, variant and part as the
/// file name gave them, and the image's place in the package.
pub open spec fn image_row(img: ScannedImage) -> (Seq<char>, Seq<char>, Seq<char>, Seq<char>) {
    (img.code@, img.variant@, img.part@, package_entry(img.path@))
}

/// The row is that of one of the images, and `src` is that image's path.
pub open spec fn from_image(
    row: (Seq<char>, Seq<char>, Seq<char>, Seq<char>),
    src: Seq<char>,
    imgs: Seq<ScannedImage>,
) -> bool {
    exists|j: int| 0 <= j < imgs.len() && imgs[j].path@ == src && row == #[trigger] image_row(imgs[j])
}

proof fn lemma_card_rows_from_images(code: Seq<char>, imgs: Seq<ScannedImage>)
    ensures
        card_rows(code, imgs).len() == card_sources(code, imgs).len(),
        forall|i: int|
            0 <= i < card_rows(code, imgs).len() ==> #[trigger] from_image(
                card_rows(code, imgs)[i],
                card_sources(code, imgs)[i],
                imgs,
            ),
    decreases imgs.len(),
{
    if imgs.len() > 0 {
        let pre = imgs.drop_last();
        lemma_card_rows_from_images(code, pre);
        let rows = card_rows(code, imgs);
        let srcs = card_sources(code, imgs);
        let prows = card_rows(code, pre);
        let psrcs = card_sources(code, pre);
        assert forall|i: int| 0 <= i < rows.len() implies #[trigger] from_image(rows[i], srcs[i], imgs) by {
            if i < prows.len() {
                assert(from_image(prows[i], psrcs[i], pre));
                let j = choose|j: int| 0 <= j < pre.len() && pre[j].path@ == psrcs[i] && prows[i] == #[trigger] image_row(pre[j]);
                assert(pre[j] == imgs[j]);
                assert(rows[i] == prows[i]);
                assert(srcs[i] == psrcs[i]);
                assert(image_row(imgs[j]) == rows[i]);
            } else {
                let j = imgs.len() - 1;
                assert(imgs[j] == imgs.last());
                assert(image_row(imgs[j]) == rows[i]);
            }
        }
    }
}

/// Every printing row of the index is the row of one of the images: it
/// carries that image's code, variant and part (a back face stays a back
/// face), it points at the image's file in the package, and the file copied
/// for it is that image.
pub proof fn law_index_rows_from_images(cards: Seq<CardMetadata>, imgs: Seq<ScannedImage>)
    ensures
        build_rows(cards, imgs).1.len() == build_rows(cards, imgs).4.len(),
        forall|i: int|
            0 <= i < build_rows(cards, imgs).1.len() ==> #[trigger] from_image(
                build_rows(cards, imgs).1[i],
                build_rows(cards, imgs).4[i],
                imgs,
            ),
    decreases cards.len(),
{
    if cards.len() > 0 {
        let pre = cards.drop_last();
        law_index_rows_from_images(pre, imgs);
        let c = cards.last();
        lemma_card_rows_from_images(c.code@, imgs);
        let prev = build_rows(pre, imgs);
        let all = build_rows(cards, imgs);
        let rows = card_rows(c.code@, imgs);
        let srcs = card_sources(c.code@, imgs);
        if rows.len() > 0 {
            assert(all.1 == prev.1 + rows);
            assert(all.4 == prev.4 + srcs);
            assert forall|i: int| 0 <= i < all.1.len() implies #[trigger] from_image(all.1[i], all.4[i], imgs) by {
                if i < prev.1.len() {
                    assert(from_image(prev.1[i], prev.4[i], imgs));
                    assert(all.1[i] == prev.1[i]);
                    assert(all.4[i] == prev.4[i]);
                } else {
                    let k = i - prev.1.len();
                    assert(from_image(rows[k], srcs[k], imgs));
                    assert(all.1[i] == rows[k]);
                    assert(all.4[i] == srcs[k]);
                }
            }
        } else {
            assert forall|i: int| 0 <= i < all.1.len() implies #[trigger] from_image(all.1[i], all.4[i], imgs) by {
                assert(from_image(prev.1[i], prev.4[i], imgs));
            }
        }
    }
}

/// Every card row is either added to the index or warned of, never both.
pub proof fn law_every_card_added_or_warned(cards: Seq<CardMetadata>, imgs: Seq<ScannedImage>)
    ensures
        build_rows(cards, imgs).0.len() + build_rows(cards, imgs).3.len() == cards.len(),
        build_rows(cards, imgs).2.len() == build_rows(cards, imgs).0.len(),
        build_rows(cards, imgs).4.len() == build_rows(cards, imgs).1.len(),
    decreases cards.len(),
{
    if cards.len() > 0 {
        law_every_card_added_or_warned(cards.drop_last(), imgs);
        lemma_rows_sources_len(cards.last().code@, imgs);
    }
}

proof fn lemma_rows_sources_len(code: Seq<char>, imgs: Seq<ScannedImage>)
    ensures
        card_rows(code, imgs).len() == card_sources(code, imgs).len(),
    decreases imgs.len(),
{
    if imgs.len() > 0 {
        lemma_rows_sources_len(code, imgs.drop_last());
    }
}

pub open spec fn all_named(imgs: Seq<ScannedImage>) -> bool {
    forall|j: int| 0 <= j < imgs.len() ==> (#[trigger] file_name(imgs[j].path@)) is Some
}

/// What a build writes and reports, before any file is touched.
pub struct BuildPlan {
    /// The card rows of the index.
    pub cards: Vec<CardMetadata>,
    /// The printing rows of the index.
    pub printings: Vec<Printing>,
    /// For each printing row, the image file it is copied from.
    pub sources: Vec<String>,
    /// A line for each card added.
    pub found: Vec<String>,
    pub report: BuildReport,
}

fn text_of_printings(n: usize) -> (r: String)
    ensures
        r@ == printings_text(n as nat),
{
    if n == 1 {
        String::from_str("1 printing")
    } else {
        let mut s = decimal_u64(n as u64);
        s.append(" printings");
        s
    }
}

/// The rows of one card, with the image each comes from.
fn rows_for(code: &String, images: &Vec<ScannedImage>) -> (r: (Vec<Printing>, Vec<String>))
    requires
        all_named(images@),
    ensures
        r.0@.map_values(|p: Printing| row_view(p)) == card_rows(code@, images@),
        r.1@.map_values(|s: String| s@) == card_sources(code@, images@),
        r.1@.len() == r.0@.len(),
{
    let mut rows: Vec<Printing> = Vec::new();
    let mut sources: Vec<String> = Vec::new();
    let mut i: usize = 0;
    while i < images.len()
        invariant
            i <= images@.len(),
            all_named(images@),
            rows@.map_values(|p: Printing| row_view(p)) == card_rows(code@, images@.take(i as int)),
            sources@.map_values(|s: String| s@) == card_sources(code@, images@.take(i as int)),
            sources@.len() == rows@.len(),
        decreases images.len() - i,
    {
        let img = &images[i];
        assert(images@.take(i as int + 1).drop_last() =~= images@.take(i as int));
        if crate::text::str_eq(img.code.as_str(), code.as_str()) {
            assert(file_name(images@[i as int].path@) is Some);
            match path_file_name(img.path.as_str()) {
                Some(name) => {
                    let mut entry = String::from_str("images/");
                    append_chars(&mut entry, name.as_slice());
                    rows.push(
                        Printing {
                            card_code: code.clone(),
                            variant: img.variant.clone(),
                            part: img.part.clone(),
                            file_name: entry,
                        },
                    );
                    sources.push(img.path.clone());
                },
                None => {},
            }
        }
        i = i + 1;
        assert(rows@.map_values(|p: Printing| row_view(p)) =~= card_rows(code@, images@.take(i as int)));
        assert(sources@.map_values(|s: String| s@) =~= card_sources(code@, images@.take(i as int)));
    }
    assert(images@.take(i as int) =~= images@);
    (rows, sources)
}

/// Plans a build: refuses images whose code no card has, and images whose
/// path names no file; else keeps each card that has images, gives it a
/// printing row per image, and warns of each card that has none.
pub fn plan_build(cards: &Vec<CardMetadata>, images: &Vec<ScannedImage>) -> (r: Result<BuildPlan, ProxyNexusError>)
    ensures
        orphan_messages(cards@, images@).len() > 0 ==> (r matches Err(ProxyNexusError::Message(m))
            && m@ == "Build failed: orphaned image files detected"@),
        orphan_messages(cards@, images@).len() == 0 && !all_named(images@) ==> (r matches Err(
            ProxyNexusError::Message(m),
        ) && m@ == "Invalid image filename"@),
        r is Ok <==> orphan_messages(cards@, images@).len() == 0 && all_named(images@),
        r matches Ok(plan) ==> {
            let rows = build_rows(cards@, images@);
            &&& plan.cards@ == rows.0
            &&& plan.printings@.map_values(|p: Printing| row_view(p)) == rows.1
            &&& plan.sources@.map_values(|s: String| s@) == rows.4
            &&& plan.found@.map_values(|s: String| s@) == rows.2
            &&& plan.report.warnings@.map_values(|s: String| s@) == rows.3
            &&& plan.report.errors@.len() == 0
            &&& plan.report.cards_added == rows.0.len()
            &&& plan.report.printings_added == rows.1.len()
        },
{
    let errors = orphan_errors(cards, images);
    if errors.len() > 0 {
        return Err(ProxyNexusError::Message(String::from_str("Build failed: orphaned image files detected")));
    }
    assert(orphan_messages(cards@, images@).len() == errors@.map_values(|s: String| s@).len());
    let mut j: usize = 0;
    while j < images.len()
        invariant
            j <= images@.len(),
            orphan_messages(cards@, images@).len() == 0,
            forall|k: int| 0 <= k < j ==> (#[trigger] file_name(images@[k].path@)) is Some,
        decreases images.len() - j,
    {
        if path_file_name(images[j].path.as_str()).is_none() {
            return Err(ProxyNexusError::Message(String::from_str("Invalid image filename")));
        }
        j = j + 1;
    }
    let mut kept: Vec<CardMetadata> = Vec::new();
    let mut printings: Vec<Printing> = Vec::new();
    let mut sources: Vec<String> = Vec::new();
    let mut found: Vec<String> = Vec::new();
    let mut warnings: Vec<String> = Vec::new();
    let mut i: usize = 0;
    while i < cards.len()
        invariant
            i <= cards@.len(),
            all_named(images@),
            orphan_messages(cards@, images@).len() == 0,
            kept@ == build_rows(cards@.take(i as int), images@).0,
            printings@.map_values(|p: Printing| row_view(p)) == build_rows(cards@.take(i as int), images@).1,
            sources@.map_values(|s: String| s@) == build_rows(cards@.take(i as int), images@).4,
            found@.map_values(|s: String| s@) == build_rows(cards@.take(i as int), images@).2,
            warnings@.map_values(|s: String| s@) == build_rows(cards@.take(i as int), images@).3,
        decreases cards.len() - i,
    {
        let card = &cards[i];
        assert(cards@.take(i as int + 1).drop_last() =~= cards@.take(i as int));
        let (rows, srcs) = rows_for(&card.code, images);
        let ghost before = printings@;
        let ghost before_sources = sources@;
        if rows.len() > 0 {
            kept.push(card.duplicate());
            let mut k: usize = 0;
            while k < rows.len()
                invariant
                    k <= rows@.len(),
                    srcs@.len() == rows@.len(),
                    printings@ == before + rows@.take(k as int),
                    sources@ == before_sources + srcs@.take(k as int),
                decreases rows.len() - k,
            {
                printings.push(Printing {
                    card_code: rows[k].card_code.clone(),
                    variant: rows[k].variant.clone(),
                    part: rows[k].part.clone(),
                    file_name: rows[k].file_name.clone(),
                });
                sources.push(srcs[k].clone());
                k = k + 1;
                assert(printings@ =~= before + rows@.take(k as int));
                assert(sources@ =~= before_sources + srcs@.take(k as int));
            }
            assert(rows@.take(k as int) =~= rows@);
            assert(srcs@.take(k as int) =~= srcs@);
            assert(sources@.map_values(|s: String| s@) =~= before_sources.map_values(|s: String| s@)
                + srcs@.map_values(|s: String| s@));
            assert(printings@.map_values(|p: Printing| row_view(p)) =~= before.map_values(|p: Printing| row_view(p))
                + rows@.map_values(|p: Printing| row_view(p)));
            let mut line = concat3("Found: ", card.code.as_str(), " ");
            line.append(card.title.as_str());
            line.append(" (");
            let t = text_of_printings(rows.len());
            line.append(t.as_str());
            line.append(")");
            found.push(line);
        } else {
            let mut w = concat3("Card '", card.code.as_str(), "' (");
            w.append(card.title.as_str());
            w.append(") found in CSV but has no images - skipping");
            warnings.push(w);
        }
        i = i + 1;
        assert(found@.map_values(|s: String| s@) =~= build_rows(cards@.take(i as int), images@).2);
        assert(warnings@.map_values(|s: String| s@) =~= build_rows(cards@.take(i as int), images@).3);
    }
    assert(cards@.take(i as int) =~= cards@);
    let ghost rows = build_rows(cards@, images@);
    let cards_added = kept.len();
    let printings_added = printings.len();
    assert(printings@.map_values(|p: Printing| row_view(p)).len() == printings@.len());
    Ok(BuildPlan {
        cards: kept,
        printings,
        sources,
        found,
        report: BuildReport { cards_added, printings_added, warnings, errors: Vec::new() },
    })
}

} // verus!
