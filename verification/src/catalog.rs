//! The card catalog: the statements that replace its packs, cards and
//! version stamp in one transaction, and the text that describes it.
use vstd::prelude::*;

use crate::card_store::{normalize_title, normalized_title};
use crate::error::concat3;
use crate::models::opt_view;
use crate::sql::{append_quoted, append_quoted_or_null, quoted, quoted_or_null};
use crate::text::{decimal_i64, decimal_int};

verus! {

/// A pack as NetrunnerDB lists it.
#[derive(Clone, Debug, PartialEq, Eq)]
pub struct CatalogPack {
    pub code: String,
    pub name: String,
    pub date_release: Option<String>,
}

/// A card as NetrunnerDB lists it.
#[derive(Clone, Debug, PartialEq, Eq)]
pub struct CatalogCard {
    pub code: String,
    pub title: String,
    pub pack_code: String,
    pub side_code: String,
    pub quantity: i64,
}

pub open spec fn pack_insert(p: CatalogPack) -> Seq<char> {
    "INSERT INTO packs (code, name, date_release) VALUES ("@ + quoted(p.code@) + ", "@ + quoted(p.name@) + ", "@
        + quoted_or_null(opt_view(p.date_release)) + ")"@
}

pub open spec fn card_insert(c: CatalogCard) -> Seq<char> {
    "INSERT INTO cards (code, title, title_normalized, pack_code, side, quantity) VALUES ("@ + quoted(c.code@)
        + ", "@ + quoted(c.title@) + ", "@ + quoted(normalized_title(c.title@)) + ", "@ + quoted(c.pack_code@)
        + ", "@ + quoted(c.side_code@) + ", "@ + decimal_int(c.quantity as int) + ")"@
}

pub open spec fn version_insert(last_updated: Seq<char>) -> Seq<char> {
    "INSERT INTO meta (key, value) VALUES ('catalog_version', "@ + quoted(last_updated) + ")"@
}

/// The statements that replace the catalog: in one transaction, every pack
/// and card removed, the given ones inserted (packs first), and the version
/// stamp replaced by the given one.
pub open spec fn seed_script(
    cards: Seq<CatalogCard>,
    packs: Seq<CatalogPack>,
    last_updated: Seq<char>,
) -> Seq<Seq<char>> {
    seq!["BEGIN"@, "DELETE FROM cards"@, "DELETE FROM packs"@] + packs.map_values(|p: CatalogPack| pack_insert(p))
        + cards.map_values(|c: CatalogCard| card_insert(c)) + seq![
        "DELETE FROM meta WHERE key = 'catalog_version'"@,
        version_insert(last_updated),
        "COMMIT"@,
    ]
}

fn pack_statement(p: &CatalogPack) -> (r: String)
    ensures
        r@ == pack_insert(*p),
{
    let mut s = String::from_str("INSERT INTO packs (code, name, date_release) VALUES (");
    append_quoted(&mut s, p.code.as_str());
    s.append(", ");
    append_quoted(&mut s, p.name.as_str());
    s.append(", ");
    append_quoted_or_null(&mut s, &p.date_release);
    s.append(")");
    s
}

fn card_statement(c: &CatalogCard) -> (r: String)
    ensures
        r@ == card_insert(*c),
{
    let mut s = String::from_str("INSERT INTO cards (code, title, title_normalized, pack_code, side, quantity) VALUES (");
    append_quoted(&mut s, c.code.as_str());
    s.append(", ");
    append_quoted(&mut s, c.title.as_str());
    s.append(", ");
    let norm = normalize_title(c.title.as_str());
    append_quoted(&mut s, norm.as_str());
    s.append(", ");
    append_quoted(&mut s, c.pack_code.as_str());
    s.append(", ");
    append_quoted(&mut s, c.side_code.as_str());
    s.append(", ");
    let q = decimal_i64(c.quantity);
    s.append(q.as_str());
    s.append(")");
    s
}

/// The statements that replace the catalog with the given cards and packs.
pub fn seed_statements(cards: &Vec<CatalogCard>, packs: &Vec<CatalogPack>, last_updated: &str) -> (r: Vec<String>)
    ensures
        r@.map_values(|s: String| s@) == seed_script(cards@, packs@, last_updated@),
{
    let mut out: Vec<String> = Vec::new();
    out.push(String::from_str("BEGIN"));
    out.push(String::from_str("DELETE FROM cards"));
    out.push(String::from_str("DELETE FROM packs"));
    let ghost head = seq!["BEGIN"@, "DELETE FROM cards"@, "DELETE FROM packs"@];
    assert(out@.map_values(|s: String| s@) =~= head);
    let mut i: usize = 0;
    while i < packs.len()
        invariant
            i <= packs@.len(),
            out@.map_values(|s: String| s@) == head + packs@.take(i as int).map_values(
                |p: CatalogPack| pack_insert(p),
            ),
        decreases packs.len() - i,
    {
        let ghost before = out@.map_values(|s: String| s@);
        let st = pack_statement(&packs[i]);
        out.push(st);
        assert(out@.map_values(|s: String| s@) =~= before.push(st@));
        i = i + 1;
        assert(packs@.take(i as int).map_values(|p: CatalogPack| pack_insert(p)) =~= packs@.take(
            i as int - 1,
        ).map_values(|p: CatalogPack| pack_insert(p)).push(pack_insert(packs@[i as int - 1])));
    }
    assert(packs@.take(i as int) =~= packs@);
    let ghost mid = out@.map_values(|s: String| s@);
    let mut j: usize = 0;
    while j < cards.len()
        invariant
            j <= cards@.len(),
            out@.map_values(|s: String| s@) == mid + cards@.take(j as int).map_values(
                |c: CatalogCard| card_insert(c),
            ),
        decreases cards.len() - j,
    {
        let ghost before = out@.map_values(|s: String| s@);
        let st = card_statement(&cards[j]);
        out.push(st);
        assert(out@.map_values(|s: String| s@) =~= before.push(st@));
        j = j + 1;
        assert(cards@.take(j as int).map_values(|c: CatalogCard| card_insert(c)) =~= cards@.take(
            j as int - 1,
        ).map_values(|c: CatalogCard| card_insert(c)).push(card_insert(cards@[j as int - 1])));
    }
    assert(cards@.take(j as int) =~= cards@);
    let ghost body = out@.map_values(|s: String| s@);
    out.push(String::from_str("DELETE FROM meta WHERE key = 'catalog_version'"));
    let mut v = String::from_str("INSERT INTO meta (key, value) VALUES ('catalog_version', ");
    append_quoted(&mut v, last_updated);
    v.append(")");
    out.push(v);
    out.push(String::from_str("COMMIT"));
    assert(out@.map_values(|s: String| s@) =~= body + seq![
        "DELETE FROM meta WHERE key = 'catalog_version'"@,
        version_insert(last_updated@),
        "COMMIT"@,
    ]);
    out
}

pub open spec fn unknown_version() -> Seq<char> {
    "Unknown (bundled snapshot)"@
}

pub open spec fn info_text(count: i64, last_updated: Option<Seq<char>>) -> Seq<char> {
    "Card Catalog Info:\n- Cards: "@ + decimal_int(count as int) + "\n- Last Updated: "@ + match last_updated {
        Some(v) => v,
        None => unknown_version(),
    }
}

/// What the catalog holds: how many cards, and the version stamp of the
/// data, or that it is the bundled snapshot when no stamp was written.
pub fn catalog_info(count: i64, last_updated: &Option<String>) -> (r: String)
    ensures
        r@ == info_text(count, opt_view(*last_updated)),
{
    let c = decimal_i64(count);
    let mut s = concat3("Card Catalog Info:\n- Cards: ", c.as_str(), "\n- Last Updated: ");
    match last_updated {
        Some(v) => s.append(v.as_str()),
        None => s.append("Unknown (bundled snapshot)"),
    }
    s
}

// ---------------------------------------------------------------------------
// The Legend of the Five Rings catalog
// ---------------------------------------------------------------------------

/// A pack as EmeraldDB lists it.
#[derive(Clone, Debug, PartialEq, Eq)]
pub struct L5rPack {
    pub id: String,
    pub name: String,
    pub released_at: Option<String>,
    pub cycle_id: String,
}

/// One printing of a card in a pack, as EmeraldDB lists it.
#[derive(Clone, Debug, PartialEq, Eq)]
pub struct L5rCardVersion {
    pub card_id: String,
    pub pack_id: String,
    pub image_url: Option<String>,
    pub quantity: i64,
}

/// A card as EmeraldDB lists it, with its printings.
#[derive(Clone, Debug, PartialEq, Eq)]
pub struct L5rCard {
    pub id: String,
    pub name: String,
    pub name_extra: Option<String>,
    pub side: String,
    pub type_: String,
    pub versions: Vec<L5rCardVersion>,
}

pub open spec fn l5r_pack_insert(p: L5rPack) -> Seq<char> {
    "INSERT INTO l5r_packs (id, name, released_at, cycle_id) VALUES ("@ + quoted(p.id@) + ", "@ + quoted(
        p.name@,
    ) + ", "@ + quoted_or_null(opt_view(p.released_at)) + ", "@ + quoted(p.cycle_id@) + ")"@
}

pub open spec fn l5r_card_insert(c: L5rCard) -> Seq<char> {
    "INSERT INTO l5r_cards (id, name, name_extra, side, card_type) VALUES ("@ + quoted(c.id@) + ", "@ + quoted(
        c.name@,
    ) + ", "@ + quoted_or_null(opt_view(c.name_extra)) + ", "@ + quoted(c.side@) + ", "@ + quoted(c.type_@)
        + ")"@
}

pub open spec fn l5r_version_insert(v: L5rCardVersion) -> Seq<char> {
    "INSERT INTO l5r_card_versions (card_id, pack_id, image_url, quantity) VALUES ("@ + quoted(v.card_id@)
        + ", "@ + quoted(v.pack_id@) + ", "@ + quoted_or_null(opt_view(v.image_url)) + ", "@ + decimal_int(
        v.quantity as int,
    ) + ")"@
}

/// The statements of one card: the card, then each of its printings.
pub open spec fn l5r_card_statements(c: L5rCard) -> Seq<Seq<char>> {
    seq![l5r_card_insert(c)] + c.versions@.map_values(|v: L5rCardVersion| l5r_version_insert(v))
}

pub open spec fn l5r_cards_statements(cards: Seq<L5rCard>) -> Seq<Seq<char>>
    decreases cards.len(),
{
    if cards.len() == 0 {
        Seq::empty()
    } else {
        l5r_cards_statements(cards.drop_last()) + l5r_card_statements(cards.last())
    }
}

/// The statements that replace the catalog inside its transaction: every
/// printing, card and pack removed, then the packs inserted, then each card
/// followed by its printings.
pub open spec fn l5r_script(cards: Seq<L5rCard>, packs: Seq<L5rPack>) -> Seq<Seq<char>> {
    seq!["DELETE FROM l5r_card_versions"@, "DELETE FROM l5r_cards"@, "DELETE FROM l5r_packs"@]
        + packs.map_values(|p: L5rPack| l5r_pack_insert(p)) + l5r_cards_statements(cards)
}

fn push_statement(out: &mut Vec<String>, st: String)
    ensures
        final(out)@.map_values(|s: String| s@) == old(out)@.map_values(|s: String| s@).push(st@),
{
    let ghost before = out@.map_values(|s: String| s@);
    out.push(st);
    assert(out@.map_values(|s: String| s@) =~= before.push(st@));
}

/// The statements that the transaction which replaces the catalog runs,
/// between its `BEGIN` and its `COMMIT` (or `ROLLBACK` when one fails).
pub fn l5r_write_statements(cards: &Vec<L5rCard>, packs: &Vec<L5rPack>) -> (r: Vec<String>)
    ensures
        r@.map_values(|s: String| s@) == l5r_script(cards@, packs@),
{
    let mut out: Vec<String> = Vec::new();
    push_statement(&mut out, String::from_str("DELETE FROM l5r_card_versions"));
    push_statement(&mut out, String::from_str("DELETE FROM l5r_cards"));
    push_statement(&mut out, String::from_str("DELETE FROM l5r_packs"));
    let ghost head = out@.map_values(|s: String| s@);
    assert(head =~= seq!["DELETE FROM l5r_card_versions"@, "DELETE FROM l5r_cards"@, "DELETE FROM l5r_packs"@]);
    let mut i: usize = 0;
    while i < packs.len()
        invariant
            i <= packs@.len(),
            out@.map_values(|s: String| s@) == head + packs@.take(i as int).map_values(|p: L5rPack| l5r_pack_insert(p)),
        decreases packs.len() - i,
    {
        let p = &packs[i];
        let mut st = String::from_str("INSERT INTO l5r_packs (id, name, released_at, cycle_id) VALUES (");
        append_quoted(&mut st, p.id.as_str());
        st.append(", ");
        append_quoted(&mut st, p.name.as_str());
        st.append(", ");
        append_quoted_or_null(&mut st, &p.released_at);
        st.append(", ");
        append_quoted(&mut st, p.cycle_id.as_str());
        st.append(")");
        push_statement(&mut out, st);
        i = i + 1;
        assert(packs@.take(i as int).map_values(|p: L5rPack| l5r_pack_insert(p)) =~= packs@.take(
            i as int - 1,
        ).map_values(|p: L5rPack| l5r_pack_insert(p)).push(l5r_pack_insert(packs@[i as int - 1])));
    }
    assert(packs@.take(i as int) =~= packs@);
    let ghost mid = out@.map_values(|s: String| s@);
    let mut j: usize = 0;
    while j < cards.len()
        invariant
            j <= cards@.len(),
            out@.map_values(|s: String| s@) == mid + l5r_cards_statements(cards@.take(j as int)),
        decreases cards.len() - j,
    {
        let c = &cards[j];
        let ghost before = out@.map_values(|s: String| s@);
        let mut st = String::from_str("INSERT INTO l5r_cards (id, name, name_extra, side, card_type) VALUES (");
        append_quoted(&mut st, c.id.as_str());
        st.append(", ");
        append_quoted(&mut st, c.name.as_str());
        st.append(", ");
        append_quoted_or_null(&mut st, &c.name_extra);
        st.append(", ");
        append_quoted(&mut st, c.side.as_str());
        st.append(", ");
        append_quoted(&mut st, c.type_.as_str());
        st.append(")");
        push_statement(&mut out, st);
        let mut k: usize = 0;
        while k < c.versions.len()
            invariant
                k <= c.versions@.len(),
                *c == cards@[j as int],
                out@.map_values(|s: String| s@) == before + seq![l5r_card_insert(*c)] + c.versions@.take(
                    k as int,
                ).map_values(|v: L5rCardVersion| l5r_version_insert(v)),
            decreases c.versions.len() - k,
        {
            let v = &c.versions[k];
            let mut vs = String::from_str("INSERT INTO l5r_card_versions (card_id, pack_id, image_url, quantity) VALUES (");
            append_quoted(&mut vs, v.card_id.as_str());
            vs.append(", ");
            append_quoted(&mut vs, v.pack_id.as_str());
            vs.append(", ");
            append_quoted_or_null(&mut vs, &v.image_url);
            vs.append(", ");
            let q = decimal_i64(v.quantity);
            vs.append(q.as_str());
            vs.append(")");
            push_statement(&mut out, vs);
            k = k + 1;
            assert(c.versions@.take(k as int).map_values(|v: L5rCardVersion| l5r_version_insert(v)) =~= c.versions@.take(
                k as int - 1,
            ).map_values(|v: L5rCardVersion| l5r_version_insert(v)).push(l5r_version_insert(c.versions@[k as int - 1])));
        }
        assert(c.versions@.take(k as int) =~= c.versions@);
        assert(cards@.take(j as int + 1).drop_last() =~= cards@.take(j as int));
        j = j + 1;
    }
    assert(cards@.take(j as int) =~= cards@);
    out
}

} // verus!
