//! What the requests made from a set, a deck or a card list hold, counted
//! card by card, and what the printings chosen for them are.
use vstd::prelude::*;

use crate::card_store::{
    card_named, choice_index, code_request, code_requests, entry_of_title, entry_request, is_choice,
    last_row_of, lemma_choice_exists, normalized_title, requests_for, resolved, set_requests,
    set_row_request, CardRequestRow, CardRow, EntryView, ResolvedCard,
};
use crate::models::{PrintingView, RequestView};

verus! {

// ---------------------------------------------------------------------------
// Counting requests
// ---------------------------------------------------------------------------

/// How many of the requests ask for the card with code `c`.
pub open spec fn requests_with_code(reqs: Seq<RequestView>, c: Seq<char>) -> nat
    decreases reqs.len(),
{
    if reqs.len() == 0 {
        0
    } else {
        requests_with_code(reqs.drop_last(), c) + if reqs.last().code == c {
            1nat
        } else {
            0nat
        }
    }
}

pub proof fn lemma_count_concat(a: Seq<RequestView>, b: Seq<RequestView>, c: Seq<char>)
    ensures
        requests_with_code(a + b, c) == requests_with_code(a, c) + requests_with_code(b, c),
    decreases b.len(),
{
    if b.len() == 0 {
        assert(a + b =~= a);
    } else {
        lemma_count_concat(a, b.drop_last(), c);
        assert((a + b).drop_last() =~= a + b.drop_last());
        assert((a + b).last() == b.last());
    }
}

pub proof fn lemma_count_copies(n: nat, q: RequestView, c: Seq<char>)
    ensures
        requests_with_code(Seq::new(n, |k: int| q), c) == if q.code == c {
            n
        } else {
            0
        },
    decreases n,
{
    if n > 0 {
        lemma_count_copies((n - 1) as nat, q, c);
        assert(Seq::new(n, |k: int| q).drop_last() =~= Seq::new((n - 1) as nat, |k: int| q));
    }
}

// ---------------------------------------------------------------------------
// Sets
// ---------------------------------------------------------------------------

/// How many copies of the card with code `c` the set's rows hold.
pub open spec fn set_copies(rows: Seq<CardRequestRow>, c: Seq<char>) -> nat
    decreases rows.len(),
{
    if rows.len() == 0 {
        0
    } else {
        set_copies(rows.drop_last(), c) + if rows.last().code@ == c {
            rows.last().quantity as nat
        } else {
            0nat
        }
    }
}

/// The copies the set holds in all.
pub open spec fn set_total(rows: Seq<CardRequestRow>) -> nat
    decreases rows.len(),
{
    if rows.len() == 0 {
        0
    } else {
        set_total(rows.drop_last()) + rows.last().quantity as nat
    }
}

/// The request for a copy of a set's card: its title and code, the set's
/// pack, and no variant or collection asked for.
pub open spec fn asks_for_set_card(q: RequestView, row: CardRequestRow) -> bool {
    &&& q.title == row.title@
    &&& q.code == row.code@
    &&& q.variant is None
    &&& q.collection is None
    &&& q.pack_code == Some(row.pack_code@)
}

/// A set gives, for every card, as many requests as the set holds copies of
/// it: as many requests in all as copies, and each request asks for a card
/// of one of the set's rows, in the set's pack.
pub proof fn law_set_requests_per_copy(rows: Seq<CardRequestRow>, c: Seq<char>)
    ensures
        requests_with_code(set_requests(rows), c) == set_copies(rows, c),
        set_requests(rows).len() == set_total(rows),
        forall|i: int|
            0 <= i < set_requests(rows).len() ==> exists|j: int|
                0 <= j < rows.len() && asks_for_set_card(#[trigger] set_requests(rows)[i], rows[j]),
    decreases rows.len(),
{
    if rows.len() > 0 {
        let pre = rows.drop_last();
        law_set_requests_per_copy(pre, c);
        let last = rows.last();
        let more = Seq::new(last.quantity as nat, |k: int| set_row_request(last));
        lemma_count_concat(set_requests(pre), more, c);
        lemma_count_copies(last.quantity as nat, set_row_request(last), c);
        let all = set_requests(rows);
        assert forall|i: int| 0 <= i < all.len() implies exists|j: int|
            0 <= j < rows.len() && asks_for_set_card(#[trigger] all[i], rows[j]) by {
            if i < set_requests(pre).len() {
                let j = choose|j: int| 0 <= j < pre.len() && asks_for_set_card(set_requests(pre)[i], pre[j]);
                assert(pre[j] == rows[j]);
                assert(all[i] == set_requests(pre)[i]);
            } else {
                assert(all[i] == set_row_request(rows[rows.len() - 1]));
                assert(asks_for_set_card(all[i], rows[rows.len() - 1]));
            }
        }
    }
}

// ---------------------------------------------------------------------------
// Decks
// ---------------------------------------------------------------------------

/// The catalog has a card with code `c`.
pub open spec fn in_catalog(rows: Seq<CardRow>, c: Seq<char>) -> bool {
    exists|i: int| 0 <= i < rows.len() && #[trigger] rows[i].code@ == c
}

/// How many copies of the card with code `c` the deck lists, counting only
/// codes that the catalog has.
pub open spec fn deck_copies(codes: Seq<(String, u32)>, rows: Seq<CardRow>, c: Seq<char>) -> nat
    decreases codes.len(),
{
    if codes.len() == 0 {
        0
    } else {
        deck_copies(codes.drop_last(), rows, c) + if codes.last().0@ == c && in_catalog(rows, c) {
            codes.last().1 as nat
        } else {
            0nat
        }
    }
}

proof fn lemma_last_row(rows: Seq<CardRow>, c: Seq<char>, n: int)
    requires
        0 <= n <= rows.len(),
    ensures
        (last_row_of(rows, c, n) is Some) <==> exists|i: int| 0 <= i < n && #[trigger] rows[i].code@ == c,
        last_row_of(rows, c, n) matches Some(i) ==> 0 <= i < n && rows[i].code@ == c,
    decreases n,
{
    if n > 0 {
        lemma_last_row(rows, c, n - 1);
        if exists|i: int| 0 <= i < n && #[trigger] rows[i].code@ == c {
            let i = choose|i: int| 0 <= i < n && #[trigger] rows[i].code@ == c;
            if i < n - 1 && rows[n - 1].code@ != c {
                assert(exists|i: int| 0 <= i < n - 1 && #[trigger] rows[i].code@ == c);
            }
        }
    }
}

/// A deck gives, for every card the catalog has, as many requests as the
/// deck lists copies of it, and none for the cards it does not have; each
/// request carries the title of a catalog card with its code, and asks for
/// no variant, collection or pack.
pub proof fn law_deck_requests_per_copy(codes: Seq<(String, u32)>, rows: Seq<CardRow>, c: Seq<char>)
    ensures
        requests_with_code(code_requests(codes, rows), c) == deck_copies(codes, rows, c),
        forall|i: int|
            0 <= i < code_requests(codes, rows).len() ==> exists|j: int|
                0 <= j < rows.len() && rows[j].code@ == (#[trigger] code_requests(codes, rows)[i]).code
                    && rows[j].title@ == code_requests(codes, rows)[i].title && code_requests(codes, rows)[i].variant is None
                    && code_requests(codes, rows)[i].collection is None && code_requests(codes, rows)[i].pack_code is None,
    decreases codes.len(),
{
    if codes.len() > 0 {
        let pre = codes.drop_last();
        law_deck_requests_per_copy(pre, rows, c);
        let (code, qty) = codes.last();
        lemma_last_row(rows, code@, rows.len() as int);
        let more = match last_row_of(rows, code@, rows.len() as int) {
            Some(i) => Seq::new(qty as nat, |k: int| code_request(rows[i].title@, code@)),
            None => Seq::empty(),
        };
        assert(code_requests(codes, rows) == code_requests(pre, rows) + more);
        lemma_count_concat(code_requests(pre, rows), more, c);
        match last_row_of(rows, code@, rows.len() as int) {
            Some(i) => {
                lemma_count_copies(qty as nat, code_request(rows[i].title@, code@), c);
                if code@ == c {
                    assert(in_catalog(rows, c)) by {
                        assert(rows[i].code@ == c);
                    }
                }
            },
            None => {
                assert(requests_with_code(more, c) == 0);
                if code@ == c && in_catalog(rows, c) {
                    let j = choose|j: int| 0 <= j < rows.len() && #[trigger] rows[j].code@ == c;
                    assert(rows[j].code@ == code@);
                }
            },
        }
        let all = code_requests(codes, rows);
        let prev = code_requests(pre, rows);
        assert forall|k: int| 0 <= k < all.len() implies exists|j: int|
            0 <= j < rows.len() && rows[j].code@ == (#[trigger] all[k]).code && rows[j].title@ == all[k].title
                && all[k].variant is None && all[k].collection is None && all[k].pack_code is None by {
            if k < prev.len() {
                assert(all[k] == prev[k]);
            } else {
                let i = last_row_of(rows, code@, rows.len() as int)->0;
                assert(all[k] == more[k - prev.len()]);
                assert(rows[i].code@ == code@);
            }
        }
    }
}

// ---------------------------------------------------------------------------
// Card lists
// ---------------------------------------------------------------------------

/// Some card was found under the entry's name.
pub open spec fn entry_found(found: Seq<ResolvedCard>, e: EntryView) -> bool {
    exists|i: int| 0 <= i < found.len() && #[trigger] found[i].name@ == e.name
}

/// The copies the entries ask for, counting only entries whose name was
/// found.
pub open spec fn list_total(entries: Seq<EntryView>, found: Seq<ResolvedCard>) -> nat
    decreases entries.len(),
{
    if entries.len() == 0 {
        0
    } else {
        list_total(entries.drop_last(), found) + if entry_found(found, entries.last()) {
            entries.last().quantity as nat
        } else {
            0nat
        }
    }
}

proof fn lemma_card_named(found: Seq<ResolvedCard>, name: Seq<char>, i: int)
    requires
        0 <= i <= found.len(),
    ensures
        (card_named(found, name, i) is Some) <==> exists|j: int| i <= j < found.len() && #[trigger] found[j].name@ == name,
        card_named(found, name, i) matches Some(j) ==> i <= j < found.len() && found[j].name@ == name,
    decreases found.len() - i,
{
    if i < found.len() {
        lemma_card_named(found, name, i + 1);
        if exists|j: int| i <= j < found.len() && #[trigger] found[j].name@ == name {
            let j = choose|j: int| i <= j < found.len() && #[trigger] found[j].name@ == name;
            if j > i && found[i].name@ != name {
                assert(exists|j: int| i + 1 <= j < found.len() && #[trigger] found[j].name@ == name);
            }
        }
    }
}

/// The request for a copy of a list entry resolved to a card: the card's
/// title and code, the entry's variant and collection, and the entry's pack,
/// else the pack of the card's newest printing.
pub open spec fn asks_for_entry(q: RequestView, e: EntryView, c: ResolvedCard) -> bool {
    &&& q.title == c.title@
    &&& q.code == c.code@
    &&& q.variant == e.variant
    &&& q.collection == e.collection
    &&& q.pack_code == (if e.pack_code is Some { e.pack_code } else { Some(c.pack_code@) })
}

/// The request asks for one copy of one of the entries, for a card found
/// under that entry's name.
pub open spec fn from_list(q: RequestView, entries: Seq<EntryView>, found: Seq<ResolvedCard>) -> bool {
    exists|k: int, j: int|
        0 <= k < entries.len() && 0 <= j < found.len() && found[j].name@ == entries[k].name
            && #[trigger] asks_for_entry(q, entries[k], found[j])
}

/// A card list gives as many requests as its found entries ask copies for,
/// and each request asks for one copy of a found entry, for a card found
/// under the entry's name.
pub proof fn law_list_requests_per_copy(entries: Seq<EntryView>, found: Seq<ResolvedCard>)
    ensures
        requests_for(entries, found).len() == list_total(entries, found),
        forall|i: int|
            0 <= i < requests_for(entries, found).len() ==> #[trigger] from_list(
                requests_for(entries, found)[i],
                entries,
                found,
            ),
    decreases entries.len(),
{
    if entries.len() > 0 {
        let pre = entries.drop_last();
        law_list_requests_per_copy(pre, found);
        let e = entries.last();
        lemma_card_named(found, e.name, 0);
        let prev = requests_for(pre, found);
        let all = requests_for(entries, found);
        assert forall|i: int| 0 <= i < all.len() implies #[trigger] from_list(all[i], entries, found) by {
            if i < prev.len() {
                assert(from_list(prev[i], pre, found));
                let (k, j) = choose|k: int, j: int|
                    0 <= k < pre.len() && 0 <= j < found.len() && found[j].name@ == pre[k].name
                        && #[trigger] asks_for_entry(prev[i], pre[k], found[j]);
                assert(pre[k] == entries[k]);
                assert(all[i] == prev[i]);
            } else {
                let j = card_named(found, e.name, 0)->0;
                assert(entries[entries.len() - 1] == e);
                assert(all[i] == entry_request(e, found[j]));
                assert(asks_for_entry(all[i], entries[entries.len() - 1], found[j]));
            }
        }
    }
}

// ---------------------------------------------------------------------------
// Choosing printings
// ---------------------------------------------------------------------------

/// The printings available for the request's title, if its title is listed.
pub open spec fn printings_for(avail: Seq<(Seq<char>, Seq<PrintingView>)>, r: RequestView) -> Option<Seq<PrintingView>> {
    match entry_of_title(avail, normalized_title(r.title), 0) {
        Some(i) => Some(avail[i].1),
        None => None,
    }
}

/// Some printing is available for the request.
pub open spec fn has_printings(avail: Seq<(Seq<char>, Seq<PrintingView>)>, r: RequestView) -> bool {
    printings_for(avail, r) matches Some(ps) && ps.len() > 0
}

/// The requests for which some printing is available, in order.
pub open spec fn served(reqs: Seq<RequestView>, avail: Seq<(Seq<char>, Seq<PrintingView>)>) -> Seq<RequestView>
    decreases reqs.len(),
{
    if reqs.len() == 0 {
        Seq::empty()
    } else if has_printings(avail, reqs.last()) {
        served(reqs.drop_last(), avail).push(reqs.last())
    } else {
        served(reqs.drop_last(), avail)
    }
}

proof fn lemma_entry_in_range(avail: Seq<(Seq<char>, Seq<PrintingView>)>, t: Seq<char>, i: int)
    requires
        0 <= i,
    ensures
        entry_of_title(avail, t, i) matches Some(e) ==> i <= e < avail.len(),
    decreases avail.len() - i,
{
    if i < avail.len() && avail[i].0 != t {
        lemma_entry_in_range(avail, t, i + 1);
    }
}

/// The `k`-th printing chosen is a best match for the `k`-th request that
/// has printings, among the printings of its title.
pub open spec fn best_at(reqs: Seq<RequestView>, avail: Seq<(Seq<char>, Seq<PrintingView>)>, k: int) -> bool {
    let r = served(reqs, avail)[k];
    let ps = printings_for(avail, r)->0;
    exists|idx: int| is_choice(r, ps, idx) && #[trigger] ps[idx] == resolved(reqs, avail)[k]
}

/// Every request for which a printing is available gets one printing, in
/// the order of the requests, and that printing is a best match for it
/// among the printings of its title: none matches the request better, and
/// every one listed before it matches worse.
pub proof fn law_resolved_best_matches(reqs: Seq<RequestView>, avail: Seq<(Seq<char>, Seq<PrintingView>)>)
    ensures
        resolved(reqs, avail).len() == served(reqs, avail).len(),
        forall|k: int| 0 <= k < resolved(reqs, avail).len() ==> #[trigger] best_at(reqs, avail, k),
    decreases reqs.len(),
{
    if reqs.len() > 0 {
        let pre = reqs.drop_last();
        law_resolved_best_matches(pre, avail);
        let r = reqs.last();
        lemma_entry_in_range(avail, normalized_title(r.title), 0);
        let prev = resolved(pre, avail);
        let all = resolved(reqs, avail);
        let sprev = served(pre, avail);
        let sall = served(reqs, avail);
        if has_printings(avail, r) {
            let ps = printings_for(avail, r)->0;
            lemma_choice_exists(r, ps);
            let idx = choice_index(r, ps);
            assert(is_choice(r, ps, idx));
            assert(all == prev.push(ps[idx]));
            assert(sall == sprev.push(r));
            assert forall|k: int| 0 <= k < all.len() implies #[trigger] best_at(reqs, avail, k) by {
                if k < prev.len() {
                    assert(best_at(pre, avail, k));
                    assert(all[k] == prev[k]);
                    assert(sall[k] == sprev[k]);
                } else {
                    assert(sall[k] == r);
                    assert(all[k] == ps[idx]);
                }
            }
        } else {
            assert(all =~= prev);
            assert(sall == sprev);
            assert forall|k: int| 0 <= k < all.len() implies #[trigger] best_at(reqs, avail, k) by {
                assert(best_at(pre, avail, k));
            }
        }
    }
}

} // verus!
