use proxynexus::card_query::{
    group_printings_by_code, normalize_title, resolve_printings, select_printing, CardQuery,
};
use proxynexus::models::{CardRequest, Printing};

fn printing(code: &str, variant: &str, collection: &str) -> Printing {
    Printing {
        card_title: "Card".into(),
        card_code: code.into(),
        variant: variant.into(),
        image_key: format!("{}/{}_{}.jpg", collection, code, variant),
        parts: Vec::new(),
        collection: collection.into(),
        side: "corp".into(),
        pack_code: "core".into(),
        date_release: None,
    }
}

fn request(code: &str, variant: Option<&str>, collection: Option<&str>) -> CardRequest {
    CardRequest {
        title: String::new(),
        code: code.into(),
        variant: variant.map(|s| s.to_string()),
        collection: collection.map(|s| s.to_string()),
        pack_code: None,
    }
}

#[test]
fn legacy_normalize_title_underscores_punctuation() {
    assert_eq!(normalize_title("Sure Gamble!"), "sure_gamble_");
}

#[test]
fn card_query_paths_under_home() {
    let q = CardQuery::new(Some("/home/ann".to_string()), true).unwrap();
    assert_eq!(q.app_db_path(), "/home/ann/.proxynexus/proxynexus.db");
    let p = printing("01001", "original", "core");
    assert_eq!(q.resolve_printing_to_full_path(&p, true).unwrap(), "/home/ann/.proxynexus/collections/core/01001_original.jpg");
    let e = q.resolve_printing_to_full_path(&p, false).unwrap_err();
    assert_eq!(
        e.message(),
        "Image file not found: /home/ann/.proxynexus/collections/core/01001_original.jpg (printing: 01001 original)"
    );
}

#[test]
fn card_query_needs_home_and_database() {
    assert_eq!(CardQuery::new(None, true).unwrap_err().message(), "Could not find home directory");
    assert_eq!(
        CardQuery::new(Some("/h".to_string()), false).unwrap_err().message(),
        "No ProxyNexus database found. Add a collection first."
    );
}

#[test]
fn legacy_select_prefers_default_collection_original() {
    let ps = vec![printing("01001", "alt", "a"), printing("01001", "original", "a"), printing("01001", "original", "b")];
    let chosen = select_printing(&request("01001", None, None), &ps, &Some("b".to_string())).unwrap();
    assert_eq!(chosen.collection, "b");
    let chosen = select_printing(&request("01001", None, None), &ps, &None).unwrap();
    assert_eq!(chosen.collection, "a");
    assert_eq!(chosen.variant, "original");
    let err = select_printing(&request("01001", Some("rear"), None), &ps, &None).unwrap_err();
    assert_eq!(err.message(), "Variant 'rear' not found for card 01001");
    let err = select_printing(&request("01001", Some("alt"), Some("b")), &ps, &None).unwrap_err();
    assert_eq!(err.message(), "Printing not found: variant 'alt' in collection 'b' for card 01001");
}

#[test]
fn grouping_keeps_first_seen_order() {
    let rows = vec![printing("02", "original", "a"), printing("01", "original", "a"), printing("02", "alt", "a")];
    let groups = group_printings_by_code(&rows);
    assert_eq!(groups.len(), 2);
    assert_eq!(groups[0].code, "02");
    assert_eq!(groups[0].printings.len(), 2);
    assert_eq!(groups[0].printings[1].variant, "alt");
    assert_eq!(groups[1].code, "01");
}

#[test]
fn resolve_skips_unknown_codes_and_stops_at_first_error() {
    let rows = vec![printing("01", "original", "a"), printing("02", "original", "a")];
    let groups = group_printings_by_code(&rows);
    let reqs = vec![request("01", None, None), request("99", None, None), request("02", None, None)];
    let got = resolve_printings(&reqs, &groups, &None).unwrap();
    assert_eq!(got.len(), 2);
    assert_eq!(got[1].card_code, "02");
    let reqs = vec![request("01", Some("x"), None), request("02", None, Some("zz"))];
    let err = resolve_printings(&reqs, &groups, &None).unwrap_err();
    assert_eq!(err.message(), "Variant 'x' not found for card 01");
}

use proxynexus::card_query::{codes_of_found, requests_from_set_counts};

#[test]
fn lookups_split_into_codes_and_missing_names() {
    let names = vec!["A".to_string(), "B".to_string(), "C".to_string()];
    let lookups = vec![Some("01".to_string()), None, Some("03".to_string())];
    let (codes, missing) = codes_of_found(&names, &lookups);
    assert_eq!(codes, vec!["01".to_string(), "03".to_string()]);
    assert_eq!(missing, vec!["B".to_string()]);
}

#[test]
fn set_counts_repeat_codes() {
    let rows = vec![("01".to_string(), 2u32), ("02".to_string(), 0u32), ("03".to_string(), 1u32)];
    let reqs = requests_from_set_counts("Core", &rows).unwrap();
    let codes: Vec<&str> = reqs.iter().map(|r| r.code.as_str()).collect();
    assert_eq!(codes, vec!["01", "01", "03"]);
    assert_eq!(requests_from_set_counts("Core", &vec![]).unwrap_err().message(), "No cards found for set 'Core'");
}

use proxynexus::card_query::{parse_cardlist_entries as parse_plain_entries, requests_from_codes};

#[test]
fn each_line_keeps_its_own_quantity() {
    let entries = parse_plain_entries("2x Unknown Card\n3x Sure Gamble [alt1]").unwrap();
    let lookups = vec![None, Some("01050".to_string())];
    let reqs = requests_from_codes(&lookups, &entries);
    assert_eq!(reqs.len(), 3);
    for r in &reqs {
        assert_eq!(r.code, "01050");
        assert_eq!(r.variant.as_deref(), Some("alt1"));
        assert_eq!(r.collection, None);
    }
}
