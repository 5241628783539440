use proxynexus::border::RgbImageData;
use proxynexus::models::{Printing, PrintingPart};
use proxynexus::mpc::{decode_card_image, mpc_file_name, plan_mpc, process_side, render_mpc_image};

fn printing(code: &str, variant: &str, side: &str, parts: Vec<PrintingPart>) -> Printing {
    Printing {
        card_title: "Card".into(),
        card_code: code.into(),
        variant: variant.into(),
        image_key: format!("{}.jpg", code),
        parts,
        collection: "core".into(),
        side: side.into(),
        pack_code: "core".into(),
        date_release: None,
    }
}

#[test]
fn one_side_goes_to_card_images() {
    let ps = vec![printing("01001", "original", "corp", vec![]), printing("01001", "original", "corp", vec![])];
    let plan = plan_mpc(&ps);
    assert_eq!(plan.len(), 2);
    assert_eq!(plan[0].file_stem, "card-images/01001-original-core-1");
    assert_eq!(plan[1].file_stem, "card-images/01001-original-core-2");
    assert_eq!(plan[0].position, 1);
    assert_eq!(plan[1].position, 2);
    assert_eq!(plan[1].image_key, "01001.jpg");
}

#[test]
fn sides_get_their_own_folders_and_counters() {
    let back = PrintingPart { name: "back".into(), image_key: "01002-back.jpg".into() };
    let ps = vec![
        printing("01001", "original", "corp", vec![]),
        printing("01002", "alt", "runner", vec![back]),
        printing("01003", "original", "corp", vec![]),
    ];
    let plan = plan_mpc(&ps);
    let stems: Vec<&str> = plan.iter().map(|e| e.file_stem.as_str()).collect();
    assert_eq!(
        stems,
        vec![
            "corp-images/01001-original-core-1",
            "corp-images/01003-original-core-1",
            "runner-images/01002-alt-core-1",
            "runner-images/01002-alt-core-1-back",
        ]
    );
    let positions: Vec<u32> = plan.iter().map(|e| e.position).collect();
    assert_eq!(positions, vec![1, 2, 1, 2]);
    assert_eq!(plan[3].image_key, "01002-back.jpg");
}

#[test]
fn process_side_numbers_copies() {
    let ps = vec![printing("01", "original", "corp", vec![]), printing("02", "original", "corp", vec![]), printing("01", "original", "corp", vec![])];
    let entries = process_side(&ps, "f");
    assert_eq!(entries[2].file_stem, "f/01-original-core-2");
}

#[test]
fn file_names_take_the_format_extension() {
    assert_eq!(mpc_file_name("card-images/01-original-core-1", true), "card-images/01-original-core-1.png");
    assert_eq!(mpc_file_name("a", false), "a.jpg");
}

fn sample() -> RgbImageData {
    let mut pixels = Vec::new();
    for i in 0..(4 * 3 * 3) {
        pixels.push((i * 7) as u8);
    }
    RgbImageData { width: 4, height: 3, pixels }
}

#[test]
fn rendered_png_decodes_to_the_marked_image() {
    let base = sample();
    let bytes = render_mpc_image(&base, true, 2).unwrap();
    assert_eq!(&bytes[..8], &[0x89, b'P', b'N', b'G', 0x0d, 0x0a, 0x1a, 0x0a]);
    let (img, png) = decode_card_image(&bytes).unwrap();
    assert!(png);
    assert_eq!((img.width, img.height), (4, 3));
    let mut expected = base.clone();
    proxynexus::border::apply_uniqueness_marker(&mut expected, 2);
    assert_eq!(img.pixels, expected.pixels);
    assert_ne!(img.pixels, base.pixels);
}

#[test]
fn rendered_jpeg_is_a_jpeg() {
    let base = sample();
    let bytes = render_mpc_image(&base, false, 1).unwrap();
    assert_eq!(&bytes[..2], &[0xff, 0xd8]);
    let (img, png) = decode_card_image(&bytes).unwrap();
    assert!(!png);
    assert_eq!((img.width, img.height), (4, 3));
    assert_eq!(img.pixels.len(), 36);
}

#[test]
fn jpeg_refuses_huge_images() {
    let base = RgbImageData { width: 70000, height: 1, pixels: vec![0; 210000] };
    assert!(render_mpc_image(&base, false, 1).is_err());
}

#[test]
fn garbage_is_not_an_image() {
    assert!(decode_card_image(&[1, 2, 3, 4]).is_err());
}

#[test]
fn sheet_keys_and_png_detection() {
    let back = PrintingPart { name: "back".into(), image_key: "b.png".into() };
    let ps = vec![printing("01", "original", "corp", vec![back]), printing("02", "original", "corp", vec![])];
    assert_eq!(
        proxynexus::pdf::image_keys(&ps),
        vec!["01.jpg".to_string(), "b.png".to_string(), "02.jpg".to_string()]
    );
    assert!(proxynexus::pdf::is_png_image(&[0x89, b'P', b'N', b'G', 0x0d, 0x0a, 0x1a, 0x0a, 0]));
    assert!(!proxynexus::pdf::is_png_image(&[0xff, 0xd8, 0xff, 0xe0]));
    assert!(!proxynexus::pdf::is_png_image(&[0x89, b'P', b'N', b'G']));
}

#[test]
fn every_image_of_the_upload_gets_its_own_path() {
    let back = || PrintingPart { name: "back".into(), image_key: "b.jpg".into() };
    let ps = vec![
        printing("01002", "alt", "runner", vec![back()]),
        printing("01001", "original", "corp", vec![]),
        printing("01002", "alt", "runner", vec![back()]),
        printing("01001", "original", "corp", vec![]),
        printing("01002", "original", "runner", vec![back()]),
    ];
    let plan = plan_mpc(&ps);
    // one file per image: three fronts and backs, two fronts
    assert_eq!(plan.len(), 8);
    for i in 0..plan.len() {
        for j in (i + 1)..plan.len() {
            assert_ne!(plan[i].file_stem, plan[j].file_stem);
        }
    }
    assert_eq!(plan[2].file_stem, "runner-images/01002-alt-core-2");
    assert_eq!(plan[3].file_stem, "runner-images/01002-alt-core-2-back");
}

#[test]
fn empty_images_are_refused_by_both_encoders() {
    let wide = RgbImageData { width: 0, height: 3, pixels: Vec::new() };
    assert!(render_mpc_image(&wide, true, 1).is_err());
    assert!(render_mpc_image(&wide, false, 1).is_err());
    let flat = RgbImageData { width: 4, height: 0, pixels: Vec::new() };
    assert!(render_mpc_image(&flat, true, 1).is_err());
    assert!(render_mpc_image(&flat, false, 1).is_err());
}

#[test]
fn png_takes_images_too_wide_for_jpeg() {
    let base = RgbImageData { width: 70000, height: 1, pixels: vec![0u8; 70000 * 3] };
    assert!(render_mpc_image(&base, true, 1).is_ok());
    assert!(render_mpc_image(&base, false, 1).is_err());
}
