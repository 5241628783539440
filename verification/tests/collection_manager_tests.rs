use proxynexus::collection_manager::{parse_filename, plan_collection_import};

#[test]
fn test_parse_filename_variants() {
    assert_eq!(parse_filename("01001.jpg"), Some(("01001".to_string(), "original".to_string())));
    assert_eq!(parse_filename("01001_alt1.jpg"), Some(("01001".to_string(), "alt1".to_string())));
    assert_eq!(parse_filename("01001_Rear.png"), Some(("01001".to_string(), "rear".to_string())));
    assert_eq!(parse_filename("notacode.jpg"), None);
    assert_eq!(parse_filename("abc_alt.jpg"), None);
}

#[test]
fn import_plan_skips_files_without_a_code() {
    let files = vec!["images/01001.jpg".to_string(), "images/notes.jpg".to_string(), "images/01002_Alt.png".to_string()];
    let plan = plan_collection_import("core", &files);
    assert_eq!(plan.len(), 2);
    assert_eq!(plan[0].card_code, "01001");
    assert_eq!(plan[0].variant, "original");
    assert_eq!(plan[0].file_path, "core/01001.jpg");
    assert_eq!(plan[1].variant, "alt");
    assert_eq!(plan[1].part, "front");
}

#[test]
fn import_plan_records_parts() {
    let files = vec!["images/01001-back.jpg".to_string(), "images/01001.jpg".to_string()];
    let plan = plan_collection_import("core", &files);
    assert_eq!(plan.len(), 2);
    assert_eq!((plan[0].part.as_str(), plan[0].file_path.as_str()), ("back", "core/01001-back.jpg"));
    assert_eq!(plan[1].part, "front");
}
