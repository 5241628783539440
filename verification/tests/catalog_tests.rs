use proxynexus::catalog::{catalog_info, seed_statements, CatalogCard, CatalogPack};

#[test]
fn seed_replaces_everything_in_one_transaction() {
    let packs = vec![CatalogPack { code: "core".into(), name: "Core Set".into(), date_release: None }];
    let cards = vec![CatalogCard {
        code: "01050".into(),
        title: "Sure Gamble".into(),
        pack_code: "core".into(),
        side_code: "runner".into(),
        quantity: 3,
    }];
    let st = seed_statements(&cards, &packs, "2024-01-01T00:00:00+00:00");
    assert_eq!(
        st,
        vec![
            "BEGIN".to_string(),
            "DELETE FROM cards".to_string(),
            "DELETE FROM packs".to_string(),
            "INSERT INTO packs (code, name, date_release) VALUES ('core', 'Core Set', NULL)".to_string(),
            "INSERT INTO cards (code, title, title_normalized, pack_code, side, quantity) VALUES ('01050', 'Sure Gamble', 'sure_gamble', 'core', 'runner', 3)".to_string(),
            "DELETE FROM meta WHERE key = 'catalog_version'".to_string(),
            "INSERT INTO meta (key, value) VALUES ('catalog_version', '2024-01-01T00:00:00+00:00')".to_string(),
            "COMMIT".to_string(),
        ]
    );
}

#[test]
fn seed_quotes_titles() {
    let cards = vec![CatalogCard {
        code: "1".into(),
        title: "Jinteki: Personal Evolution".into(),
        pack_code: "core".into(),
        side_code: "corp".into(),
        quantity: -1,
    }];
    let st = seed_statements(&cards, &vec![], "v");
    assert_eq!(
        st[3],
        "INSERT INTO cards (code, title, title_normalized, pack_code, side, quantity) VALUES ('1', 'Jinteki: Personal Evolution', 'jinteki__personal_evolution', 'core', 'corp', -1)"
    );
}

#[test]
fn info_names_the_snapshot_when_unstamped() {
    assert_eq!(
        catalog_info(12, &None),
        "Card Catalog Info:\n- Cards: 12\n- Last Updated: Unknown (bundled snapshot)"
    );
    assert_eq!(
        catalog_info(0, &Some("2024".to_string())),
        "Card Catalog Info:\n- Cards: 0\n- Last Updated: 2024"
    );
}

use proxynexus::catalog::{l5r_write_statements, L5rCard, L5rCardVersion, L5rPack};

#[test]
fn l5r_statements_put_each_card_before_its_printings() {
    let packs = vec![L5rPack { id: "core".into(), name: "Core Set".into(), released_at: None, cycle_id: "c1".into() }];
    let cards = vec![L5rCard {
        id: "a".into(),
        name: "Akodo's".into(),
        name_extra: Some("x".into()),
        side: "conflict".into(),
        type_: "event".into(),
        versions: vec![L5rCardVersion { card_id: "a".into(), pack_id: "core".into(), image_url: None, quantity: 3 }],
    }];
    assert_eq!(
        l5r_write_statements(&cards, &packs),
        vec![
            "DELETE FROM l5r_card_versions".to_string(),
            "DELETE FROM l5r_cards".to_string(),
            "DELETE FROM l5r_packs".to_string(),
            "INSERT INTO l5r_packs (id, name, released_at, cycle_id) VALUES ('core', 'Core Set', NULL, 'c1')".to_string(),
            "INSERT INTO l5r_cards (id, name, name_extra, side, card_type) VALUES ('a', 'Akodo''s', 'x', 'conflict', 'event')".to_string(),
            "INSERT INTO l5r_card_versions (card_id, pack_id, image_url, quantity) VALUES ('a', 'core', NULL, 3)".to_string(),
        ]
    );
}
