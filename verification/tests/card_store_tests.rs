use proxynexus::card_store::{
    clean_card_name, normalize_title, parse_cardlist_entries, parse_overrides, parse_quantity,
    select_printing,
};
use proxynexus::models::{CardRequest, Printing};

fn mock_printing(code: &str, variant: &str, coll: &str, pack: &str, date: Option<&str>) -> Printing {
    Printing {
        card_title: "Sure Gamble".into(),
        card_code: code.into(),
        variant: variant.into(),
        image_key: format!("{}.jpg", code),
        parts: Vec::new(),
        collection: coll.into(),
        side: "runner".into(),
        pack_code: pack.into(),
        date_release: date.map(|s| s.to_string()),
    }
}

fn request(code: &str, variant: Option<&str>, collection: Option<&str>, pack: Option<&str>) -> CardRequest {
    CardRequest {
        title: "Sure Gamble".into(),
        code: code.into(),
        variant: variant.map(|s| s.to_string()),
        collection: collection.map(|s| s.to_string()),
        pack_code: pack.map(|s| s.to_string()),
    }
}

#[test]
fn test_select_printing_prioritization() {
    let p1 = mock_printing("01050", "original", "ffg-en", "core", Some("2012-12-01"));
    let p2 = mock_printing("01050", "alt1", "standard", "core", Some("2012-12-01"));
    let p3 = mock_printing("20050", "original", "alt-arts", "revised", Some("2017-01-01"));
    let p_collection = mock_printing("01050", "original", "alt-arts", "revised", Some("2017-01-01"));

    let available = vec![p1.clone(), p2.clone(), p3.clone(), p_collection.clone()];

    // Exact variant match
    let req = request("01050", Some("alt1"), None, None);
    assert_eq!(select_printing(&req, &available).unwrap().variant, "alt1");

    // Exact collection match
    let req = request("01050", None, Some("alt-arts"), None);
    assert_eq!(select_printing(&req, &available).unwrap().collection, "alt-arts");

    // Exact pack match
    let req = request("01050", None, None, Some("core"));
    assert_eq!(select_printing(&req, &available).unwrap().pack_code, "core");

    // Variant fallback: without the core original, the revised original beats the core alt
    let available_missing_core_orig = vec![p2.clone(), p3.clone()];
    let req = request("01050", Some("original"), None, Some("core"));
    let result = select_printing(&req, &available_missing_core_orig).unwrap();
    assert_eq!(result.variant, "original");
    assert_eq!(result.pack_code, "revised");

    // Default to the earliest original
    let req = request("01050", None, None, None);
    let result = select_printing(&req, &available).unwrap();
    assert_eq!(result.variant, "original");
    assert_eq!(result.date_release, Some("2012-12-01".to_string()));

    // A variant match beats an exact code match
    let p4_revised_alt = mock_printing("20050", "alt2", "standard", "revised", Some("2017-01-01"));
    let available_mixed = vec![p1.clone(), p4_revised_alt.clone()];
    let req = request("20050", Some("original"), None, None);
    let result = select_printing(&req, &available_mixed).unwrap();
    assert_eq!(result.card_code, "01050");
    assert_eq!(result.variant, "original");
}

#[test]
fn test_clean_card_name() {
    assert_eq!(clean_card_name("Snare!"), "Snare!");
    assert_eq!(clean_card_name("Eli 1.0"), "Eli 1.0");
    assert_eq!(clean_card_name("The World is Yours*"), "The World is Yours*");
    assert_eq!(clean_card_name("Masterwork (v37)"), "Masterwork (v37)");
    assert_eq!(clean_card_name("\"Freedom Through Equality\""), "\"Freedom Through Equality\"");
    assert_eq!(clean_card_name("Title (with parens)"), "Title (with parens)");

    assert_eq!(clean_card_name("Hedge Fund ●"), "Hedge Fund");
    assert_eq!(clean_card_name("Sure Gamble -"), "Sure Gamble");
    assert_eq!(clean_card_name("Paperclip ●●●"), "Paperclip");
    assert_eq!(clean_card_name("Card Name ! ●"), "Card Name !");
    assert_eq!(clean_card_name("Card Name ●●●"), "Card Name");
}

#[test]
fn test_parse_quantity() {
    assert_eq!(parse_quantity("3x Sure Gamble"), (3, "Sure Gamble".to_string()));
    assert_eq!(parse_quantity("3 Sure Gamble"), (3, "Sure Gamble".to_string()));
    assert_eq!(parse_quantity("Sure Gamble"), (1, "Sure Gamble".to_string()));
    assert_eq!(parse_quantity("10x Hedge Fund"), (10, "Hedge Fund".to_string()));
}

#[test]
fn test_parse_overrides() {
    let (name, v, c, p) = parse_overrides("Sure Gamble [alt:ffg-en:core]").unwrap();
    assert_eq!(name, "Sure Gamble");
    assert_eq!(v, Some("alt".to_string()));
    assert_eq!(c, Some("ffg-en".to_string()));
    assert_eq!(p, Some("core".to_string()));

    let (_, v, c, p) = parse_overrides("Sure Gamble [alt]").unwrap();
    assert_eq!(v, Some("alt".to_string()));
    assert_eq!(c, None);
    assert_eq!(p, None);

    let (_, v, c, p) = parse_overrides("Sure Gamble [:std:]").unwrap();
    assert_eq!(v, None);
    assert_eq!(c, Some("std".to_string()));
    assert_eq!(p, None);

    let (_, v, _, _) = parse_overrides("Card [ALT]").unwrap();
    assert_eq!(v, Some("alt".to_string()));
}

#[test]
fn select_printing_fails_without_printings() {
    let req = request("01050", None, None, None);
    assert!(select_printing(&req, &[]).is_err());
}

#[test]
fn select_printing_breaks_ties_by_first() {
    let a = mock_printing("01050", "original", "one", "core", Some("2012-12-01"));
    let b = mock_printing("01050", "original", "two", "core", Some("2012-12-01"));
    let req = request("01050", None, None, None);
    assert_eq!(select_printing(&req, &[a, b]).unwrap().collection, "one");
}

#[test]
fn normalize_title_folds_case_accents_and_punctuation() {
    assert_eq!(normalize_title("Sure Gamble"), "sure_gamble");
    assert_eq!(normalize_title("Étienne: Déjà vu!"), "etienne__deja_vu_");
    // already normal titles are left as they are
    assert_eq!(normalize_title("sure_gamble"), "sure_gamble");
    assert_eq!(normalize_title(&normalize_title("Hedge Fund")), normalize_title("Hedge Fund"));
}

#[test]
fn parse_overrides_without_brackets_trims() {
    let (name, v, c, p) = parse_overrides("  Hedge Fund  ").unwrap();
    assert_eq!(name, "Hedge Fund");
    assert_eq!((v, c, p), (None, None, None));
}

#[test]
fn parse_cardlist_entries_reads_each_line() {
    let entries = parse_cardlist_entries("3x Sure Gamble\n\nHedge Fund [alt]\n").unwrap();
    assert_eq!(entries.len(), 2);
    assert_eq!(entries[0].quantity, 3);
    assert_eq!(entries[1].quantity, 1);
}

#[test]
fn select_printing_prefers_the_requested_code_over_an_older_printing() {
    let older = mock_printing("01050", "original", "ffg-en", "core", Some("2012-12-01"));
    let newer = mock_printing("20050", "original", "ffg-en", "core", Some("2017-01-01"));
    let req = request("20050", None, None, None);
    let chosen = select_printing(&req, &[older.clone(), newer.clone()]).unwrap();
    assert_eq!(chosen.card_code, "20050");
    // with no code preference the oldest printing wins
    let req_other = request("99999", None, None, None);
    assert_eq!(select_printing(&req_other, &[newer, older]).unwrap().card_code, "01050");
}

#[test]
fn normalize_title_drops_delete_as_transliteration_does() {
    assert_eq!(normalize_title("a\u{7f}b"), "ab");
    assert_eq!(normalize_title("Sure\u{7f}\tGamble"), "suregamble");
}
