use proxynexus::image_scanner::{parse_filename, scan_images};

#[test]
fn test_parse_filename_default() {
    let result = parse_filename("21001.jpg");
    assert_eq!(result, Some(("21001".to_string(), "original".to_string())));
}

#[test]
fn test_parse_filename_alt() {
    let result = parse_filename("21001_alt1.jpg");
    assert_eq!(result, Some(("21001".to_string(), "alt1".to_string())));
}

#[test]
fn test_parse_filename_rear() {
    let result = parse_filename("30212_rear.jpg");
    assert_eq!(result, Some(("30212".to_string(), "rear".to_string())));
}

#[test]
fn scan_images_keeps_png_and_jpeg_card_images() {
    let files = vec![
        "scans/01001.jpg".to_string(),
        "scans/readme.txt".to_string(),
        "scans/01002_Alt.JPEG".to_string(),
        "scans/01003.png".to_string(),
        "scans/agenda_1.jpg".to_string(),
    ];
    let found = scan_images(&files);
    assert_eq!(found.len(), 3);
    assert_eq!(found[0].code, "01001");
    assert_eq!(found[0].variant, "original");
    assert_eq!(found[0].part, "front");
    assert_eq!(found[1].code, "01002");
    assert_eq!(found[1].variant, "alt");
    assert_eq!(found[1].path, "scans/01002_Alt.JPEG");
    assert_eq!(found[2].path, "scans/01003.png");
}

#[test]
fn parts_follow_the_naming_convention() {
    let files = vec![
        "26066-back.jpg".to_string(),
        "26066.jpg".to_string(),
        "09037_alt1-back.jpg".to_string(),
        "09037_alt1.jpg".to_string(),
        "11111-back.png".to_string(),
    ];
    let found = scan_images(&files);
    let seen: Vec<(&str, &str, &str)> =
        found.iter().map(|i| (i.code.as_str(), i.variant.as_str(), i.part.as_str())).collect();
    // the back of 11111 has no front and is left out
    assert_eq!(
        seen,
        vec![
            ("26066", "original", "back"),
            ("26066", "original", "front"),
            ("09037", "alt1", "back"),
            ("09037", "alt1", "front"),
        ]
    );
}
