//! The rows of the application database, and the SQL text that exports them.
use vstd::prelude::*;

use crate::models::opt_view;
use crate::sql::{
    append_chunked_inserts, append_quoted, append_quoted_or_null, chunked_inserts, quoted,
    quoted_or_null,
};
use crate::text::{decimal_i64, decimal_int};
use crate::sql_reader::{
    all_of_width, chunk_count, fields_text, lemma_chunked_len, lemma_read_inserts, read_inserts, starts_with, tuple_text,
    tuple_texts, value_text, SqlValue,
};

verus! {

#[derive(Clone, Debug, PartialEq, Eq)]
pub struct MetaDbRow {
    pub key: String,
    pub value: String,
}

#[derive(Clone, Debug, PartialEq, Eq)]
pub struct PackDbRow {
    pub code: String,
    pub name: String,
    pub date_release: Option<String>,
}

#[derive(Clone, Debug, PartialEq, Eq)]
pub struct CardDbRow {
    pub code: String,
    pub title: String,
    pub title_normalized: String,
    pub pack_code: String,
    pub side: String,
    pub quantity: i64,
}

#[derive(Clone, Debug, PartialEq, Eq)]
pub struct CollectionDbRow {
    pub id: i64,
    pub name: String,
    pub version: Option<String>,
    pub language: Option<String>,
    pub added_date: String,
    pub last_updated: Option<String>,
}

#[derive(Clone, Debug, PartialEq, Eq)]
pub struct PrintingDbRow {
    pub id: i64,
    pub collection_id: i64,
    pub card_code: String,
    pub variant: String,
    pub file_path: String,
    pub part: String,
}

/// Everything the export reads from the database, table by table.
#[derive(Clone, Debug, PartialEq, Eq)]
pub struct DatabaseRows {
    pub meta: Vec<MetaDbRow>,
    pub packs: Vec<PackDbRow>,
    pub cards: Vec<CardDbRow>,
    pub collections: Vec<CollectionDbRow>,
    pub printings: Vec<PrintingDbRow>,
}

pub open spec fn meta_tuple(r: MetaDbRow) -> Seq<char> {
    "("@ + quoted(r.key@) + ", "@ + quoted(r.value@) + ")"@
}

pub open spec fn pack_tuple(r: PackDbRow) -> Seq<char> {
    "("@ + quoted(r.code@) + ", "@ + quoted(r.name@) + ", "@ + quoted_or_null(opt_view(r.date_release))
        + ")"@
}

pub open spec fn card_tuple(r: CardDbRow) -> Seq<char> {
    "("@ + quoted(r.code@) + ", "@ + quoted(r.title@) + ", "@ + quoted(r.title_normalized@) + ", "@
        + quoted(r.pack_code@) + ", "@ + quoted(r.side@) + ", "@ + decimal_int(r.quantity as int)
        + ")"@
}

pub open spec fn collection_tuple(r: CollectionDbRow) -> Seq<char> {
    "("@ + decimal_int(r.id as int) + ", "@ + quoted(r.name@) + ", "@ + quoted_or_null(
        opt_view(r.version),
    ) + ", "@ + quoted_or_null(opt_view(r.language)) + ", "@ + quoted(r.added_date@) + ", "@
        + quoted_or_null(opt_view(r.last_updated)) + ")"@
}

pub open spec fn printing_tuple(r: PrintingDbRow) -> Seq<char> {
    "("@ + decimal_int(r.id as int) + ", "@ + decimal_int(r.collection_id as int) + ", "@ + quoted(
        r.card_code@,
    ) + ", "@ + quoted(r.variant@) + ", "@ + quoted(r.file_path@) + ", "@ + quoted(r.part@)
        + ")"@
}

pub open spec fn meta_head() -> Seq<char> {
    "INSERT INTO meta (key, value) VALUES "@
}

pub open spec fn pack_head() -> Seq<char> {
    "INSERT INTO packs (code, name, date_release) VALUES "@
}

pub open spec fn card_head() -> Seq<char> {
    "INSERT INTO cards (code, title, title_normalized, pack_code, side, quantity) VALUES "@
}

pub open spec fn collection_head() -> Seq<char> {
    "INSERT INTO collections (id, name, version, language, added_date, last_updated) VALUES "@
}

pub open spec fn printing_head() -> Seq<char> {
    "INSERT INTO printings (id, collection_id, card_code, variant, file_path, part) VALUES "@
}

/// The SQL that recreates the rows: the tables in the order meta, packs,
/// cards, collections, printings, each as `INSERT` statements of at most 500
/// rows.
pub open spec fn export_text(rows: DatabaseRows) -> Seq<char> {
    chunked_inserts(meta_head(), rows.meta@.map_values(|r: MetaDbRow| meta_tuple(r)))
        + chunked_inserts(pack_head(), rows.packs@.map_values(|r: PackDbRow| pack_tuple(r)))
        + chunked_inserts(card_head(), rows.cards@.map_values(|r: CardDbRow| card_tuple(r)))
        + chunked_inserts(
        collection_head(),
        rows.collections@.map_values(|r: CollectionDbRow| collection_tuple(r)),
    ) + chunked_inserts(
        printing_head(),
        rows.printings@.map_values(|r: PrintingDbRow| printing_tuple(r)),
    )
}

fn meta_value(r: &MetaDbRow) -> (s: String)
    ensures
        s@ == meta_tuple(*r),
{
    let mut s = String::from_str("(");
    append_quoted(&mut s, r.key.as_str());
    s.append(", ");
    append_quoted(&mut s, r.value.as_str());
    s.append(")");
    s
}

fn pack_value(r: &PackDbRow) -> (s: String)
    ensures
        s@ == pack_tuple(*r),
{
    let mut s = String::from_str("(");
    append_quoted(&mut s, r.code.as_str());
    s.append(", ");
    append_quoted(&mut s, r.name.as_str());
    s.append(", ");
    append_quoted_or_null(&mut s, &r.date_release);
    s.append(")");
    s
}

fn card_value(r: &CardDbRow) -> (s: String)
    ensures
        s@ == card_tuple(*r),
{
    let mut s = String::from_str("(");
    append_quoted(&mut s, r.code.as_str());
    s.append(", ");
    append_quoted(&mut s, r.title.as_str());
    s.append(", ");
    append_quoted(&mut s, r.title_normalized.as_str());
    s.append(", ");
    append_quoted(&mut s, r.pack_code.as_str());
    s.append(", ");
    append_quoted(&mut s, r.side.as_str());
    s.append(", ");
    let q = decimal_i64(r.quantity);
    s.append(q.as_str());
    s.append(")");
    s
}

fn collection_value(r: &CollectionDbRow) -> (s: String)
    ensures
        s@ == collection_tuple(*r),
{
    let mut s = String::from_str("(");
    let id = decimal_i64(r.id);
    s.append(id.as_str());
    s.append(", ");
    append_quoted(&mut s, r.name.as_str());
    s.append(", ");
    append_quoted_or_null(&mut s, &r.version);
    s.append(", ");
    append_quoted_or_null(&mut s, &r.language);
    s.append(", ");
    append_quoted(&mut s, r.added_date.as_str());
    s.append(", ");
    append_quoted_or_null(&mut s, &r.last_updated);
    s.append(")");
    s
}

fn printing_value(r: &PrintingDbRow) -> (s: String)
    ensures
        s@ == printing_tuple(*r),
{
    let mut s = String::from_str("(");
    let id = decimal_i64(r.id);
    s.append(id.as_str());
    s.append(", ");
    let cid = decimal_i64(r.collection_id);
    s.append(cid.as_str());
    s.append(", ");
    append_quoted(&mut s, r.card_code.as_str());
    s.append(", ");
    append_quoted(&mut s, r.variant.as_str());
    s.append(", ");
    append_quoted(&mut s, r.file_path.as_str());
    s.append(", ");
    append_quoted(&mut s, r.part.as_str());
    s.append(")");
    s
}

/// The SQL text that `export_sql` writes: see [`export_text`].
pub fn export_sql_text(rows: &DatabaseRows) -> (r: String)
    ensures
        r@ == export_text(*rows),
{
    let mut out = String::new();

    let mut metas: Vec<String> = Vec::new();
    for i in 0..rows.meta.len()
        invariant
            metas@.len() == i,
            forall|k: int| 0 <= k < i ==> (#[trigger] metas@[k])@ == meta_tuple(rows.meta@[k]),
    {
        metas.push(meta_value(&rows.meta[i]));
    }
    assert(metas@.map_values(|s: String| s@) =~= rows.meta@.map_values(|r: MetaDbRow| meta_tuple(r)));
    append_chunked_inserts(&mut out, "INSERT INTO meta (key, value) VALUES ", &metas);

    let mut packs: Vec<String> = Vec::new();
    for i in 0..rows.packs.len()
        invariant
            packs@.len() == i,
            forall|k: int| 0 <= k < i ==> (#[trigger] packs@[k])@ == pack_tuple(rows.packs@[k]),
    {
        packs.push(pack_value(&rows.packs[i]));
    }
    assert(packs@.map_values(|s: String| s@) =~= rows.packs@.map_values(|r: PackDbRow| pack_tuple(r)));
    append_chunked_inserts(
        &mut out,
        "INSERT INTO packs (code, name, date_release) VALUES ",
        &packs,
    );

    let mut cards: Vec<String> = Vec::new();
    for i in 0..rows.cards.len()
        invariant
            cards@.len() == i,
            forall|k: int| 0 <= k < i ==> (#[trigger] cards@[k])@ == card_tuple(rows.cards@[k]),
    {
        cards.push(card_value(&rows.cards[i]));
    }
    assert(cards@.map_values(|s: String| s@) =~= rows.cards@.map_values(|r: CardDbRow| card_tuple(r)));
    append_chunked_inserts(
        &mut out,
        "INSERT INTO cards (code, title, title_normalized, pack_code, side, quantity) VALUES ",
        &cards,
    );

    let mut colls: Vec<String> = Vec::new();
    for i in 0..rows.collections.len()
        invariant
            colls@.len() == i,
            forall|k: int|
                0 <= k < i ==> (#[trigger] colls@[k])@ == collection_tuple(rows.collections@[k]),
    {
        colls.push(collection_value(&rows.collections[i]));
    }
    assert(colls@.map_values(|s: String| s@) =~= rows.collections@.map_values(
        |r: CollectionDbRow| collection_tuple(r),
    ));
    append_chunked_inserts(
        &mut out,
        "INSERT INTO collections (id, name, version, language, added_date, last_updated) VALUES ",
        &colls,
    );

    let mut prints: Vec<String> = Vec::new();
    for i in 0..rows.printings.len()
        invariant
            prints@.len() == i,
            forall|k: int|
                0 <= k < i ==> (#[trigger] prints@[k])@ == printing_tuple(rows.printings@[k]),
    {
        prints.push(printing_value(&rows.printings[i]));
    }
    assert(prints@.map_values(|s: String| s@) =~= rows.printings@.map_values(
        |r: PrintingDbRow| printing_tuple(r),
    ));
    append_chunked_inserts(
        &mut out,
        "INSERT INTO printings (id, collection_id, card_code, variant, file_path, part) VALUES ",
        &prints,
    );
    out
}

/// The id after the highest one present (`1` in an empty table).
pub fn next_id(highest: Option<i64>) -> (r: i64)
    requires
        highest matches Some(h) ==> h < i64::MAX,
    ensures
        r == match highest {
            Some(h) => h + 1,
            None => 1,
        },
{
    match highest {
        Some(h) => h + 1,
        None => 1,
    }
}


// ---------------------------------------------------------------------------
// Reading the export back
// ---------------------------------------------------------------------------

/// A value that may be absent: `NULL` when it is.
pub open spec fn opt_value(o: Option<Seq<char>>) -> SqlValue {
    match o {
        Some(s) => SqlValue::Text(s),
        None => SqlValue::Null,
    }
}

pub open spec fn meta_values(r: MetaDbRow) -> Seq<SqlValue> {
    seq![SqlValue::Text(r.key@), SqlValue::Text(r.value@)]
}

pub open spec fn pack_values(r: PackDbRow) -> Seq<SqlValue> {
    seq![SqlValue::Text(r.code@), SqlValue::Text(r.name@), opt_value(opt_view(r.date_release))]
}

pub open spec fn card_values(r: CardDbRow) -> Seq<SqlValue> {
    seq![
        SqlValue::Text(r.code@),
        SqlValue::Text(r.title@),
        SqlValue::Text(r.title_normalized@),
        SqlValue::Text(r.pack_code@),
        SqlValue::Text(r.side@),
        SqlValue::Int(r.quantity as int),
    ]
}

pub open spec fn collection_values(r: CollectionDbRow) -> Seq<SqlValue> {
    seq![
        SqlValue::Int(r.id as int),
        SqlValue::Text(r.name@),
        opt_value(opt_view(r.version)),
        opt_value(opt_view(r.language)),
        SqlValue::Text(r.added_date@),
        opt_value(opt_view(r.last_updated)),
    ]
}

pub open spec fn printing_values(r: PrintingDbRow) -> Seq<SqlValue> {
    seq![
        SqlValue::Int(r.id as int),
        SqlValue::Int(r.collection_id as int),
        SqlValue::Text(r.card_code@),
        SqlValue::Text(r.variant@),
        SqlValue::Text(r.file_path@),
        SqlValue::Text(r.part@),
    ]
}

/// The rows of each table, in the order of the export, as the values of
/// their columns.
pub open spec fn table_values(rows: DatabaseRows) -> Seq<Seq<Seq<SqlValue>>> {
    seq![
        rows.meta@.map_values(|r: MetaDbRow| meta_values(r)),
        rows.packs@.map_values(|r: PackDbRow| pack_values(r)),
        rows.cards@.map_values(|r: CardDbRow| card_values(r)),
        rows.collections@.map_values(|r: CollectionDbRow| collection_values(r)),
        rows.printings@.map_values(|r: PrintingDbRow| printing_values(r)),
    ]
}

/// Reads an export: the `INSERT` statements of meta, packs, cards,
/// collections and printings in turn, each with at most 500 tuples of the
/// table's columns, and nothing after them.
pub open spec fn read_export(t: Seq<char>) -> Option<Seq<Seq<Seq<SqlValue>>>> {
    let f = t.len();
    match read_inserts(t, meta_head(), 2, f) {
        None => None,
        Some((m, r1)) => match read_inserts(r1, pack_head(), 3, f) {
            None => None,
            Some((p, r2)) => match read_inserts(r2, card_head(), 6, f) {
                None => None,
                Some((c, r3)) => match read_inserts(r3, collection_head(), 6, f) {
                    None => None,
                    Some((co, r4)) => match read_inserts(r4, printing_head(), 6, f) {
                        None => None,
                        Some((pr, r5)) => if r5.len() == 0 {
                            Some(seq![m, p, c, co, pr])
                        } else {
                            None
                        },
                    },
                },
            },
        },
    }
}

proof fn lemma_opt_text(o: Option<Seq<char>>)
    ensures
        value_text(opt_value(o)) == quoted_or_null(o),
{
    reveal_strlit("NULL");
    assert("NULL"@ =~= seq!['N', 'U', 'L', 'L']);
}

/// The text of `vs`, built a value at a time from the last.
proof fn lemma_fields_of(vs: Seq<SqlValue>)
    requires
        vs.len() > 0,
    ensures
        vs.len() == 1 ==> fields_text(vs) == value_text(vs[0]),
        vs.len() > 1 ==> fields_text(vs) == value_text(vs[0]) + seq![',', ' '] + fields_text(vs.drop_first()),
{
}

#[verifier::rlimit(60)]
proof fn lemma_meta_tuple(r: MetaDbRow)
    ensures
        meta_tuple(r) == tuple_text(meta_values(r)),
{
    reveal_strlit("(");
    reveal_strlit(")");
    reveal_strlit(", ");
    assert("("@ =~= seq!['(']);
    assert(")"@ =~= seq![')']);
    assert(", "@ =~= seq![',', ' ']);
    let vs = meta_values(r);
    lemma_fields_of(vs);
    let v1 = vs.drop_first();
    lemma_fields_of(v1);
    assert(meta_tuple(r) =~= tuple_text(vs));
}

#[verifier::rlimit(60)]
proof fn lemma_pack_tuple(r: PackDbRow)
    ensures
        pack_tuple(r) == tuple_text(pack_values(r)),
{
    reveal_strlit("(");
    reveal_strlit(")");
    reveal_strlit(", ");
    assert("("@ =~= seq!['(']);
    assert(")"@ =~= seq![')']);
    assert(", "@ =~= seq![',', ' ']);
    let vs = pack_values(r);
    lemma_fields_of(vs);
    let v1 = vs.drop_first();
    lemma_fields_of(v1);
    let v2 = v1.drop_first();
    lemma_fields_of(v2);
    lemma_opt_text(opt_view(r.date_release));
    assert(pack_tuple(r) =~= tuple_text(vs));
}

#[verifier::rlimit(60)]
proof fn lemma_card_tuple(r: CardDbRow)
    ensures
        card_tuple(r) == tuple_text(card_values(r)),
{
    reveal_strlit("(");
    reveal_strlit(")");
    reveal_strlit(", ");
    assert("("@ =~= seq!['(']);
    assert(")"@ =~= seq![')']);
    assert(", "@ =~= seq![',', ' ']);
    let vs = card_values(r);
    lemma_fields_of(vs);
    let v1 = vs.drop_first();
    lemma_fields_of(v1);
    let v2 = v1.drop_first();
    lemma_fields_of(v2);
    let v3 = v2.drop_first();
    lemma_fields_of(v3);
    let v4 = v3.drop_first();
    lemma_fields_of(v4);
    let v5 = v4.drop_first();
    lemma_fields_of(v5);
    assert(card_tuple(r) =~= tuple_text(vs));
}

#[verifier::rlimit(60)]
proof fn lemma_collection_tuple(r: CollectionDbRow)
    ensures
        collection_tuple(r) == tuple_text(collection_values(r)),
{
    reveal_strlit("(");
    reveal_strlit(")");
    reveal_strlit(", ");
    assert("("@ =~= seq!['(']);
    assert(")"@ =~= seq![')']);
    assert(", "@ =~= seq![',', ' ']);
    let vs = collection_values(r);
    lemma_fields_of(vs);
    let v1 = vs.drop_first();
    lemma_fields_of(v1);
    let v2 = v1.drop_first();
    lemma_fields_of(v2);
    let v3 = v2.drop_first();
    lemma_fields_of(v3);
    let v4 = v3.drop_first();
    lemma_fields_of(v4);
    let v5 = v4.drop_first();
    lemma_fields_of(v5);
    lemma_opt_text(opt_view(r.version));
    lemma_opt_text(opt_view(r.language));
    lemma_opt_text(opt_view(r.last_updated));
    assert(collection_tuple(r) =~= tuple_text(vs));
}

#[verifier::rlimit(60)]
proof fn lemma_printing_tuple(r: PrintingDbRow)
    ensures
        printing_tuple(r) == tuple_text(printing_values(r)),
{
    reveal_strlit("(");
    reveal_strlit(")");
    reveal_strlit(", ");
    assert("("@ =~= seq!['(']);
    assert(")"@ =~= seq![')']);
    assert(", "@ =~= seq![',', ' ']);
    let vs = printing_values(r);
    lemma_fields_of(vs);
    let v1 = vs.drop_first();
    lemma_fields_of(v1);
    let v2 = v1.drop_first();
    lemma_fields_of(v2);
    let v3 = v2.drop_first();
    lemma_fields_of(v3);
    let v4 = v3.drop_first();
    lemma_fields_of(v4);
    let v5 = v4.drop_first();
    lemma_fields_of(v5);
    assert(printing_tuple(r) =~= tuple_text(vs));
}

proof fn lemma_tuples(rows: DatabaseRows)
    ensures
        rows.meta@.map_values(|r: MetaDbRow| meta_tuple(r)) == tuple_texts(rows.meta@.map_values(|r: MetaDbRow| meta_values(r))),
        rows.packs@.map_values(|r: PackDbRow| pack_tuple(r)) == tuple_texts(rows.packs@.map_values(|r: PackDbRow| pack_values(r))),
        rows.cards@.map_values(|r: CardDbRow| card_tuple(r)) == tuple_texts(rows.cards@.map_values(|r: CardDbRow| card_values(r))),
        rows.collections@.map_values(|r: CollectionDbRow| collection_tuple(r)) == tuple_texts(
            rows.collections@.map_values(|r: CollectionDbRow| collection_values(r)),
        ),
        rows.printings@.map_values(|r: PrintingDbRow| printing_tuple(r)) == tuple_texts(
            rows.printings@.map_values(|r: PrintingDbRow| printing_values(r)),
        ),
{
    assert forall|i: int| 0 <= i < rows.meta@.len() implies #[trigger] meta_tuple(rows.meta@[i]) == tuple_text(
        meta_values(rows.meta@[i]),
    ) by {
        lemma_meta_tuple(rows.meta@[i]);
    }
    assert(rows.meta@.map_values(|r: MetaDbRow| meta_tuple(r)) =~= tuple_texts(rows.meta@.map_values(|r: MetaDbRow| meta_values(r))));
    assert forall|i: int| 0 <= i < rows.packs@.len() implies #[trigger] pack_tuple(rows.packs@[i]) == tuple_text(
        pack_values(rows.packs@[i]),
    ) by {
        lemma_pack_tuple(rows.packs@[i]);
    }
    assert(rows.packs@.map_values(|r: PackDbRow| pack_tuple(r)) =~= tuple_texts(rows.packs@.map_values(|r: PackDbRow| pack_values(r))));
    assert forall|i: int| 0 <= i < rows.cards@.len() implies #[trigger] card_tuple(rows.cards@[i]) == tuple_text(
        card_values(rows.cards@[i]),
    ) by {
        lemma_card_tuple(rows.cards@[i]);
    }
    assert(rows.cards@.map_values(|r: CardDbRow| card_tuple(r)) =~= tuple_texts(rows.cards@.map_values(|r: CardDbRow| card_values(r))));
    assert forall|i: int| 0 <= i < rows.collections@.len() implies #[trigger] collection_tuple(rows.collections@[i])
        == tuple_text(collection_values(rows.collections@[i])) by {
        lemma_collection_tuple(rows.collections@[i]);
    }
    assert(rows.collections@.map_values(|r: CollectionDbRow| collection_tuple(r)) =~= tuple_texts(
        rows.collections@.map_values(|r: CollectionDbRow| collection_values(r)),
    ));
    assert forall|i: int| 0 <= i < rows.printings@.len() implies #[trigger] printing_tuple(rows.printings@[i])
        == tuple_text(printing_values(rows.printings@[i])) by {
        lemma_printing_tuple(rows.printings@[i]);
    }
    assert(rows.printings@.map_values(|r: PrintingDbRow| printing_tuple(r)) =~= tuple_texts(
        rows.printings@.map_values(|r: PrintingDbRow| printing_values(r)),
    ));
}


proof fn lemma_not_head(x: Seq<char>, hx: Seq<char>, y: Seq<char>, h: Seq<char>)
    requires
        x.len() == 0 || starts_with(x, hx),
        hx.len() >= 14,
        h.len() >= 14,
        hx[12] != h[12] || hx[13] != h[13],
        !starts_with(y, h),
    ensures
        !starts_with(x + y, h),
{
    if x.len() == 0 {
        assert(x + y =~= y);
    } else {
        let t = x + y;
        assert(x.take(hx.len() as int) == hx);
        assert(t[12] == x[12] && t[13] == x[13]);
        assert(x[12] == hx[12] && x[13] == hx[13]) by {
            assert(x.take(hx.len() as int)[12] == x[12]);
            assert(x.take(hx.len() as int)[13] == x[13]);
        }
        if starts_with(t, h) {
            assert(t.take(h.len() as int)[12] == t[12]);
            assert(t.take(h.len() as int)[13] == t[13]);
        }
    }
}

proof fn lemma_heads()
    ensures
        meta_head().len() >= 14 && meta_head()[12] == 'm' && meta_head()[13] == 'e',
        pack_head().len() >= 14 && pack_head()[12] == 'p' && pack_head()[13] == 'a',
        card_head().len() >= 14 && card_head()[12] == 'c' && card_head()[13] == 'a',
        collection_head().len() >= 14 && collection_head()[12] == 'c' && collection_head()[13] == 'o',
        printing_head().len() >= 14 && printing_head()[12] == 'p' && printing_head()[13] == 'r',
{
    reveal_strlit("INSERT INTO meta (key, value) VALUES ");
    reveal_strlit("INSERT INTO packs (code, name, date_release) VALUES ");
    reveal_strlit("INSERT INTO cards (code, title, title_normalized, pack_code, side, quantity) VALUES ");
    reveal_strlit("INSERT INTO collections (id, name, version, language, added_date, last_updated) VALUES ");
    reveal_strlit("INSERT INTO printings (id, collection_id, card_code, variant, file_path, part) VALUES ");
}

proof fn lemma_widths(rows: DatabaseRows)
    ensures
        all_of_width(rows.meta@.map_values(|r: MetaDbRow| meta_values(r)), 2),
        all_of_width(rows.packs@.map_values(|r: PackDbRow| pack_values(r)), 3),
        all_of_width(rows.cards@.map_values(|r: CardDbRow| card_values(r)), 6),
        all_of_width(rows.collections@.map_values(|r: CollectionDbRow| collection_values(r)), 6),
        all_of_width(rows.printings@.map_values(|r: PrintingDbRow| printing_values(r)), 6),
{
}

/// The statements of each table in the export.
pub open spec fn export_parts(rows: DatabaseRows) -> Seq<Seq<char>> {
    let tv = table_values(rows);
    seq![
        chunked_inserts(meta_head(), tuple_texts(tv[0])),
        chunked_inserts(pack_head(), tuple_texts(tv[1])),
        chunked_inserts(card_head(), tuple_texts(tv[2])),
        chunked_inserts(collection_head(), tuple_texts(tv[3])),
        chunked_inserts(printing_head(), tuple_texts(tv[4])),
    ]
}

pub open spec fn table_heads() -> Seq<Seq<char>> {
    seq![meta_head(), pack_head(), card_head(), collection_head(), printing_head()]
}

pub open spec fn table_widths() -> Seq<nat> {
    seq![2, 3, 6, 6, 6]
}

/// The statements of the tables from `i` on.
pub open spec fn parts_from(parts: Seq<Seq<char>>, i: int) -> Seq<char>
    decreases 5 - i,
{
    if i >= 5 || i < 0 {
        Seq::empty()
    } else {
        parts[i] + parts_from(parts, i + 1)
    }
}

#[verifier::rlimit(100)]
proof fn lemma_export_is_parts(rows: DatabaseRows)
    ensures
        export_text(rows) == parts_from(export_parts(rows), 0),
{
    let p = export_parts(rows);
    let tv = table_values(rows);
    assert(p[0] == chunked_inserts(meta_head(), rows.meta@.map_values(|r: MetaDbRow| meta_tuple(r)))) by {
        lemma_tuples(rows);
        assert(tv[0] == rows.meta@.map_values(|r: MetaDbRow| meta_values(r)));
    }
    assert(p[1] == chunked_inserts(pack_head(), rows.packs@.map_values(|r: PackDbRow| pack_tuple(r)))) by {
        lemma_tuples(rows);
        assert(tv[1] == rows.packs@.map_values(|r: PackDbRow| pack_values(r)));
    }
    assert(p[2] == chunked_inserts(card_head(), rows.cards@.map_values(|r: CardDbRow| card_tuple(r)))) by {
        lemma_tuples(rows);
        assert(tv[2] == rows.cards@.map_values(|r: CardDbRow| card_values(r)));
    }
    assert(p[3] == chunked_inserts(
        collection_head(),
        rows.collections@.map_values(|r: CollectionDbRow| collection_tuple(r)),
    )) by {
        lemma_tuples(rows);
        assert(tv[3] == rows.collections@.map_values(|r: CollectionDbRow| collection_values(r)));
    }
    assert(p[4] == chunked_inserts(
        printing_head(),
        rows.printings@.map_values(|r: PrintingDbRow| printing_tuple(r)),
    )) by {
        lemma_tuples(rows);
        assert(tv[4] == rows.printings@.map_values(|r: PrintingDbRow| printing_values(r)));
    }
    assert(parts_from(p, 5) =~= Seq::<char>::empty());
    assert(parts_from(p, 4) =~= p[4]);
    assert(parts_from(p, 3) == p[3] + parts_from(p, 4));
    assert(parts_from(p, 2) == p[2] + parts_from(p, 3));
    assert(parts_from(p, 1) == p[1] + parts_from(p, 2));
    assert(parts_from(p, 0) == p[0] + parts_from(p, 1));
    assert(export_text(rows) =~= p[0] + (p[1] + (p[2] + (p[3] + p[4]))));
}

proof fn lemma_parts_facts(rows: DatabaseRows, i: int)
    requires
        0 <= i < 5,
    ensures
        all_of_width(table_values(rows)[i], table_widths()[i]),
        chunk_count(table_values(rows)[i].len()) <= export_parts(rows)[i].len(),
        export_parts(rows)[i].len() == 0 || starts_with(export_parts(rows)[i], table_heads()[i]),
        table_heads()[i].len() >= 14,
        export_parts(rows)[i] == chunked_inserts(table_heads()[i], tuple_texts(table_values(rows)[i])),
{
    lemma_widths(rows);
    lemma_heads();
    lemma_chunked_len(table_heads()[i], tuple_texts(table_values(rows)[i]));
}

/// What follows table `i` does not start with the head of any table up to
/// `i`.
proof fn lemma_rest_not_head(rows: DatabaseRows, i: int, j: int)
    requires
        0 <= j <= i < 5,
    ensures
        !starts_with(parts_from(export_parts(rows), i + 1), table_heads()[j]),
    decreases 5 - i,
{
    lemma_heads();
    let p = export_parts(rows);
    if i == 4 {
        assert(parts_from(p, 5) =~= Seq::<char>::empty());
    } else {
        lemma_rest_not_head(rows, i + 1, j);
        lemma_parts_facts(rows, i + 1);
        lemma_not_head(p[i + 1], table_heads()[i + 1], parts_from(p, i + 2), table_heads()[j]);
    }
}

proof fn lemma_parts_len(p: Seq<Seq<char>>, i: int)
    requires
        0 <= i < 5,
    ensures
        p[i].len() <= parts_from(p, i).len(),
        parts_from(p, i).len() <= parts_from(p, 0).len(),
    decreases i,
{
    if i > 0 {
        lemma_parts_len(p, i - 1);
    }
}

/// Table `i` reads back from the text from its statements on.
#[verifier::rlimit(100)]
proof fn lemma_read_table(rows: DatabaseRows, i: int)
    requires
        0 <= i < 5,
    ensures
        read_inserts(
            parts_from(export_parts(rows), i),
            table_heads()[i],
            table_widths()[i],
            export_text(rows).len(),
        ) == Some((table_values(rows)[i], parts_from(export_parts(rows), i + 1))),
{
    let p = export_parts(rows);
    lemma_parts_facts(rows, i);
    lemma_rest_not_head(rows, i, i);
    lemma_export_is_parts(rows);
    lemma_parts_len(p, i);
    lemma_read_inserts(
        table_heads()[i],
        table_values(rows)[i],
        table_widths()[i],
        export_text(rows).len(),
        parts_from(p, i + 1),
    );
}

/// The export reads back as the rows it was made from: read statement by
/// statement, the text gives each table's rows in order, every column's
/// value as it was (strings quoted, absent values as `NULL`, integers in
/// decimal), with at most 500 rows to a statement and nothing else in it.
#[verifier::rlimit(100)]
pub proof fn law_export_reads_back(rows: DatabaseRows)
    ensures
        read_export(export_text(rows)) == Some(table_values(rows)),
{
    let p = export_parts(rows);
    let tv = table_values(rows);
    lemma_export_is_parts(rows);
    lemma_read_table(rows, 0);
    lemma_read_table(rows, 1);
    lemma_read_table(rows, 2);
    lemma_read_table(rows, 3);
    lemma_read_table(rows, 4);
    assert(parts_from(p, 5).len() == 0);
    assert(tv =~= seq![tv[0], tv[1], tv[2], tv[3], tv[4]]);
}

} // verus!
