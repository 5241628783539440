use proxynexus::netrunnerdb::{first_deck_cards, nrdb_api_url, parse_nrdb_url};

#[test]
fn decklist_url() {
    let (id, path) = parse_nrdb_url("https://netrunnerdb.com/en/decklist/12345/my-deck").unwrap();
    assert_eq!(id, "12345");
    assert_eq!(path, "decklist");
    assert_eq!(
        nrdb_api_url("https://netrunnerdb.com/en/decklist/12345/my-deck").unwrap(),
        "https://netrunnerdb.com/api/2.0/public/decklist/12345"
    );
}

#[test]
fn private_deck_url() {
    let (id, path) = parse_nrdb_url("https://netrunnerdb.com/en/deck/view/abc-def//").unwrap();
    assert_eq!(id, "abc-def");
    assert_eq!(path, "deck");
}

#[test]
fn other_url_is_refused() {
    let e = parse_nrdb_url("https://example.com/x").unwrap_err();
    assert_eq!(e.message(), "Internal error: URL must be a NetrunnerDB decklist or deck URL");
}

#[test]
fn first_deck_or_empty_response() {
    let decks = vec![vec![("01050".to_string(), 3u32)], vec![]];
    assert_eq!(first_deck_cards(decks).unwrap(), vec![("01050".to_string(), 3u32)]);
    let e = first_deck_cards(vec![]).unwrap_err();
    assert_eq!(e.message(), "Internal error: Empty response from NetrunnerDB");
}
