use proxynexus::paths::{join_path, path_extension, path_file_stem};
use proxynexus::text::{decimal_i64, decimal_u64, trim_str};

#[test]
fn decimals() {
    assert_eq!(decimal_u64(0), "0");
    assert_eq!(decimal_u64(1230), "1230");
    assert_eq!(decimal_i64(-45), "-45");
    assert_eq!(decimal_i64(i64::MIN), i64::MIN.to_string());
}

#[test]
fn trimming() {
    assert_eq!(trim_str("  a b \n"), "a b");
    assert_eq!(trim_str(""), "");
}

#[test]
fn path_parts() {
    assert_eq!(path_file_stem("dir/01001_alt.jpg"), Some("01001_alt".to_string()));
    assert_eq!(path_extension("dir/01001_alt.jpg"), Some("jpg".to_string()));
    assert_eq!(join_path("a", "b"), "a/b");
    assert_eq!(join_path("a/", "b"), "a/b");
    assert_eq!(join_path("a", "/b"), "/b");
}
