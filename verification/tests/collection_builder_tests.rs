use proxynexus::collection::CardMetadata;
use proxynexus::collection_builder::{orphan_errors, plan_build, BuildReport, CollectionBuilder};
use proxynexus::image_scanner::ScannedImage;

fn card(code: &str, title: &str) -> CardMetadata {
    CardMetadata {
        code: code.into(),
        title: title.into(),
        set_code: "core".into(),
        set_name: "Core Set".into(),
        release_date: None,
        side: "runner".into(),
        quantity: 3,
    }
}

fn img(code: &str, variant: &str, path: &str) -> ScannedImage {
    ScannedImage { code: code.into(), variant: variant.into(), part: "front".into(), path: path.into() }
}

#[test]
fn builder_settings() {
    let b = CollectionBuilder::new("out.pnx".into(), "imgs".into(), "cards.csv".into(), "en".into(), "1.0.0".into());
    assert!(!b.is_verbose());
    let b = b.verbose(true);
    assert!(b.is_verbose());
    assert_eq!(b.output_path(), "out.pnx");
    assert_eq!(b.images_dir(), "imgs");
    assert_eq!(b.metadata_csv(), "cards.csv");
    let m = b.manifest("2024-01-01".into());
    assert_eq!((m.version.as_str(), m.language.as_str(), m.generated_date.as_str()), ("1.0.0", "en", "2024-01-01"));
    let r = BuildReport::default();
    assert_eq!((r.cards_added, r.printings_added, r.warnings.len(), r.errors.len()), (0, 0, 0, 0));
}

#[test]
fn plan_keeps_cards_with_images() {
    let cards = vec![card("01001", "Noise"), card("01002", "Deja Vu")];
    let images = vec![img("01001", "original", "scans/01001.jpg"), img("01001", "alt", "scans/01001_alt.jpg")];
    let plan = plan_build(&cards, &images).unwrap();
    assert_eq!(plan.cards.len(), 1);
    assert_eq!(plan.cards[0].code, "01001");
    assert_eq!(plan.printings.len(), 2);
    assert_eq!(plan.printings[1].file_name, "images/01001_alt.jpg");
    assert_eq!(plan.printings[1].variant, "alt");
    assert_eq!(plan.printings[1].part, "front");
    assert_eq!(plan.sources, vec!["scans/01001.jpg".to_string(), "scans/01001_alt.jpg".to_string()]);
    assert_eq!(plan.found, vec!["Found: 01001 Noise (2 printings)".to_string()]);
    assert_eq!(
        plan.report.warnings,
        vec!["Card '01002' (Deja Vu) found in CSV but has no images - skipping".to_string()]
    );
    assert_eq!((plan.report.cards_added, plan.report.printings_added), (1, 2));
}

#[test]
fn one_printing_is_singular() {
    let plan = plan_build(&vec![card("1", "A")], &vec![img("1", "original", "1.jpg")]).unwrap();
    assert_eq!(plan.found, vec!["Found: 1 A (1 printing)".to_string()]);
}

#[test]
fn orphan_images_fail_the_build() {
    let cards = vec![card("01001", "Noise")];
    let images = vec![img("09999", "original", "a/09999.jpg"), img("09999", "alt", "a/09999_alt.jpg"), img("08888", "original", "a/08888.jpg")];
    assert_eq!(
        orphan_errors(&cards, &images),
        vec![
            "Image file(s) for code '09999' found but no corresponding card in CSV".to_string(),
            "Image file(s) for code '08888' found but no corresponding card in CSV".to_string(),
        ]
    );
    let e = plan_build(&cards, &images).err().unwrap();
    assert_eq!(e.message(), "Build failed: orphaned image files detected");
}

#[test]
fn nameless_image_fails_the_build() {
    let e = plan_build(&vec![card("1", "A")], &vec![img("1", "original", "..")]).err().unwrap();
    assert_eq!(e.message(), "Invalid image filename");
}
