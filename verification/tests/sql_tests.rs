use proxynexus::db_storage::{export_sql_text, next_id, DatabaseRows, MetaDbRow, PackDbRow};
use proxynexus::sql::{build_in_clause, quote_sql_string};

#[test]
fn quoting_doubles_single_quotes() {
    assert_eq!(quote_sql_string("O'Brien"), "'O''Brien'");
    assert_eq!(quote_sql_string(""), "''");
    assert_eq!(quote_sql_string("''"), "''''''");
}

#[test]
fn quoting_distinct_strings_gives_distinct_literals() {
    assert_ne!(quote_sql_string("a'"), quote_sql_string("a''"));
}

#[test]
fn in_clause_quotes_each_item() {
    let items = vec!["01001".to_string(), "it's".to_string()];
    assert_eq!(build_in_clause(&items), "'01001', 'it''s'");
}

#[test]
fn next_id_counts_on() {
    assert_eq!(next_id(None), 1);
    assert_eq!(next_id(Some(41)), 42);
}

#[test]
fn export_writes_each_table_in_order() {
    let rows = DatabaseRows {
        meta: vec![MetaDbRow { key: "catalog_version".into(), value: "2024".into() }],
        packs: vec![
            PackDbRow { code: "core".into(), name: "Core Set".into(), date_release: Some("2012-09-06".into()) },
            PackDbRow { code: "x".into(), name: "It's".into(), date_release: None },
        ],
        cards: vec![],
        collections: vec![],
        printings: vec![],
    };
    assert_eq!(
        export_sql_text(&rows),
        "INSERT INTO meta (key, value) VALUES ('catalog_version', '2024');\n\
INSERT INTO packs (code, name, date_release) VALUES ('core', 'Core Set', '2012-09-06'), ('x', 'It''s', NULL);\n"
    );
}

#[test]
fn export_splits_long_tables() {
    let mut meta = Vec::new();
    for i in 0..501 {
        meta.push(MetaDbRow { key: format!("k{}", i), value: "v".into() });
    }
    let rows = DatabaseRows { meta, packs: vec![], cards: vec![], collections: vec![], printings: vec![] };
    let text = export_sql_text(&rows);
    assert_eq!(text.matches("INSERT INTO meta").count(), 2);
    assert!(text.ends_with("VALUES ('k500', 'v');\n"));
}

use proxynexus::db_storage::{CardDbRow, CollectionDbRow, PrintingDbRow};

const TEST_SCHEMA: &str = "
CREATE TABLE meta (key TEXT PRIMARY KEY, value TEXT NOT NULL);
CREATE TABLE collections (id INTEGER PRIMARY KEY, name TEXT UNIQUE NOT NULL, version TEXT, language TEXT, added_date TEXT NOT NULL, last_updated TEXT);
CREATE TABLE packs (code TEXT PRIMARY KEY, name TEXT NOT NULL, date_release TEXT);
CREATE TABLE cards (code TEXT PRIMARY KEY, title TEXT NOT NULL, title_normalized TEXT NOT NULL, pack_code TEXT NOT NULL, side TEXT NOT NULL, quantity INTEGER NOT NULL);
CREATE TABLE printings (id INTEGER PRIMARY KEY, collection_id INTEGER NOT NULL, card_code TEXT NOT NULL, variant TEXT NOT NULL, file_path TEXT NOT NULL, part TEXT NOT NULL);
";

#[test]
fn exported_statements_recreate_the_rows() {
    let mut cards = Vec::new();
    for i in 0..1203i64 {
        cards.push(CardDbRow {
            code: format!("{:05}", i),
            title: format!("Card's \"{}\", (x)", i),
            title_normalized: format!("card_s_{}", i),
            pack_code: "core".into(),
            side: "runner".into(),
            quantity: i % 4 - 1,
        });
    }
    let rows = DatabaseRows {
        meta: vec![MetaDbRow { key: "version".into(), value: "it's 1".into() }],
        packs: vec![
            PackDbRow { code: "core".into(), name: "Core Set".into(), date_release: Some("2012-09-06".into()) },
            PackDbRow { code: "draft".into(), name: "Draft; NULL".into(), date_release: None },
        ],
        cards,
        collections: vec![CollectionDbRow {
            id: 7,
            name: "ffg-en".into(),
            version: None,
            language: Some("en".into()),
            added_date: "2024-01-01".into(),
            last_updated: None,
        }],
        printings: vec![PrintingDbRow {
            id: -3,
            collection_id: 7,
            card_code: "00001".into(),
            variant: "original".into(),
            file_path: "images/00001.jpg".into(),
            part: "front".into(),
        }],
    };
    let text = export_sql_text(&rows);
    // three statements hold the 1203 cards
    assert_eq!(text.matches("INSERT INTO cards").count(), 3);
    let db = rusqlite::Connection::open_in_memory().unwrap();
    db.execute_batch(TEST_SCHEMA).unwrap();
    db.execute_batch(&text).unwrap();
    let meta: (String, String) = db.query_row("SELECT key, value FROM meta", [], |r| Ok((r.get(0)?, r.get(1)?))).unwrap();
    assert_eq!(meta, ("version".to_string(), "it's 1".to_string()));
    let mut stmt = db.prepare("SELECT code, name, date_release FROM packs ORDER BY rowid").unwrap();
    let packs: Vec<(String, String, Option<String>)> =
        stmt.query_map([], |r| Ok((r.get(0)?, r.get(1)?, r.get(2)?))).unwrap().map(|x| x.unwrap()).collect();
    assert_eq!(packs[1], ("draft".to_string(), "Draft; NULL".to_string(), None));
    let mut stmt = db.prepare("SELECT code, title, quantity FROM cards ORDER BY rowid").unwrap();
    let back: Vec<(String, String, i64)> =
        stmt.query_map([], |r| Ok((r.get(0)?, r.get(1)?, r.get(2)?))).unwrap().map(|x| x.unwrap()).collect();
    assert_eq!(back.len(), 1203);
    for (i, (code, title, qty)) in back.iter().enumerate() {
        assert_eq!(code, &rows.cards[i].code);
        assert_eq!(title, &rows.cards[i].title);
        assert_eq!(*qty, rows.cards[i].quantity);
    }
    let coll: (i64, Option<String>, Option<String>) =
        db.query_row("SELECT id, version, language FROM collections", [], |r| Ok((r.get(0)?, r.get(1)?, r.get(2)?))).unwrap();
    assert_eq!(coll, (7, None, Some("en".to_string())));
    let id: i64 = db.query_row("SELECT id FROM printings", [], |r| r.get(0)).unwrap();
    assert_eq!(id, -3);
}
