use proxynexus::models::Printing;
use proxynexus::query::{apply_variant_overrides, list_available_sets};

fn printing(variant: &str, collection: &str) -> Printing {
    Printing {
        card_title: "Sure Gamble".into(),
        card_code: "01050".into(),
        variant: variant.into(),
        image_key: format!("{}/{}.jpg", collection, variant),
        parts: Vec::new(),
        collection: collection.into(),
        side: "runner".into(),
        pack_code: "core".into(),
        date_release: None,
    }
}

#[test]
fn overrides_by_occurrence_beat_overrides_by_title() {
    let orig = printing("original", "ffg");
    let alt = printing("alt", "alt-arts");
    let base = vec![orig.clone(), orig.clone(), orig.clone()];
    let available = vec![("sure_gamble".to_string(), vec![orig.clone(), alt.clone()])];
    let global = vec![("sure_gamble".to_string(), "alt:alt-arts:core".to_string())];
    let index = vec![("sure_gamble".to_string(), 1usize, "original:ffg:core".to_string())];
    let out = apply_variant_overrides(&base, &available, &global, &index);
    assert_eq!(out.len(), 3);
    assert_eq!(out[0].variant, "alt");
    assert_eq!(out[1].variant, "original");
    assert_eq!(out[2].variant, "alt");
}

#[test]
fn unknown_override_keeps_the_printing() {
    let orig = printing("original", "ffg");
    let base = vec![orig.clone()];
    let available = vec![("sure_gamble".to_string(), vec![orig.clone()])];
    let global = vec![("sure_gamble".to_string(), "nope:x:y".to_string())];
    let out = apply_variant_overrides(&base, &available, &global, &vec![]);
    assert_eq!(out[0], orig);
}

#[test]
fn set_listing_aligns_names() {
    let sets = vec![
        ("Core Set".to_string(), "# 3 in ffg".to_string()),
        ("Kala Ghoda".to_string(), "# no printings available".to_string()),
    ];
    assert_eq!(
        list_available_sets(&sets),
        "  - Core Set      # 3 in ffg\n  - Kala Ghoda    # no printings available"
    );
}

use proxynexus::card_store::{available_packs, PackRow};

fn pack_row(name: &str, code: &str, coll: Option<&str>, count: i64, date: Option<&str>) -> PackRow {
    PackRow {
        pack_name: name.into(),
        pack_code: code.into(),
        coll_name: coll.map(|s| s.to_string()),
        coll_count: count,
        date_release: date.map(|s| s.to_string()),
    }
}

#[test]
fn set_listing_names_each_pack_bracket() {
    let rows = vec![
        pack_row("Core Set", "core", Some("ffg-en"), 104, Some("2012-09-06")),
        pack_row("Core Set", "core", Some("extras"), 41, Some("2012-09-06")),
        pack_row("Draft", "draft", Some("ffg-en"), 9, Some("2012-09-01")),
        pack_row("What Lies Ahead", "wla", None, 0, Some("2012-12-14")),
    ];
    let packs = available_packs(&rows);
    assert_eq!(
        packs,
        vec![
            ("Draft".to_string(), "[::draft]    # 9 in ffg-en".to_string()),
            ("Core Set".to_string(), "[::core]     # 104 in ffg-en, 41 in extras".to_string()),
            ("What Lies Ahead".to_string(), "[::wla]      # no printings available".to_string()),
        ]
    );
    assert_eq!(
        list_available_sets(&packs),
        vec![
            "  - Draft              [::draft]    # 9 in ffg-en",
            "  - Core Set           [::core]     # 104 in ffg-en, 41 in extras",
            "  - What Lies Ahead    [::wla]      # no printings available",
        ]
        .join("\n")
    );
}

use proxynexus::card_store::parse_cardlist_entries;
use proxynexus::models::CardRequest;
use proxynexus::query::format_query_output;

fn request(title: &str, code: &str) -> CardRequest {
    CardRequest {
        title: title.into(),
        code: code.into(),
        variant: None,
        collection: None,
        pack_code: None,
    }
}

#[test]
fn query_answer_reads_back_as_a_card_list() {
    let orig = printing("original", "ffg");
    let alt = printing("alt", "alt-arts");
    let mut fund = printing("original", "ffg");
    fund.card_title = "Hedge Fund".into();
    fund.card_code = "01110".into();
    let requests = vec![
        request("Sure Gamble", "01050"),
        request("Hedge Fund", "01110"),
        request("Sure Gamble", "01050"),
    ];
    let available = vec![
        ("sure_gamble".to_string(), vec![orig.clone(), alt.clone()]),
        ("hedge_fund".to_string(), vec![fund.clone()]),
    ];
    let out = format_query_output(&requests, &available);
    assert_eq!(
        out,
        "2x Sure Gamble [original:ffg:core]    # also: [alt:alt-arts:core]\n1x Hedge Fund [original:ffg:core]"
    );
    let entries = parse_cardlist_entries(&out).unwrap();
    assert_eq!(entries.len(), 2);
    assert_eq!(entries[0].name, "Sure Gamble");
    assert_eq!(entries[0].quantity, 2);
    assert_eq!(entries[0].variant.as_deref(), Some("original"));
    assert_eq!(entries[0].collection.as_deref(), Some("ffg"));
    assert_eq!(entries[0].pack_code.as_deref(), Some("core"));
    assert_eq!(entries[1].name, "Hedge Fund");
    assert_eq!(entries[1].quantity, 1);
}

#[test]
fn query_answer_with_accented_tags_reads_back() {
    let mut p = printing("variante", "édition-spéciale");
    p.pack_code = "cœur".into();
    let requests = vec![request("Sure Gamble", "01050")];
    let available = vec![("sure_gamble".to_string(), vec![p])];
    let out = format_query_output(&requests, &available);
    assert_eq!(out, "1x Sure Gamble [variante:édition-spéciale:cœur]");
    let entries = parse_cardlist_entries(&out).unwrap();
    assert_eq!(entries[0].variant.as_deref(), Some("variante"));
    assert_eq!(entries[0].collection.as_deref(), Some("édition-spéciale"));
    assert_eq!(entries[0].pack_code.as_deref(), Some("cœur"));
}
