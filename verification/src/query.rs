//! The text answers of the query command, and the variant overrides chosen
//! in the preview.
use vstd::prelude::*;

use crate::card_store::{
    choice_index, entry_of_title, is_choice, join_strings, lemma_choice_unique, normalize_title,
    normalized_title, printing_views, select_printing, available_view, distinct, distinct_prefix,
    contains_string,
};
use crate::models::{CardRequest, Printing, PrintingView, RequestView};
use crate::sql::{joined, lemma_joined_first};
use crate::text::{
    lemma_lines_first, lemma_lines_single, lines, strip_cr,
    all_digits, append_padded, before_char, chars_eq, chars_of, decimal,
    decimal_u64, digits_value, find, lemma_before_char, lemma_decimal_reads_back, lemma_find_char_first,
    lemma_find_first, lemma_split_at, lemma_split_plain, lemma_trim_untouched, matches_at, pad_right,
    parse_u32_or_one, spaces, split, trim, trim_end, trim_start, unicode_lowercase, unicode_whitespace,
};
use vstd::utf8::encode_utf8;

verus! {

/// The length of a string in bytes (`str::len`).
pub open spec fn byte_len(s: Seq<char>) -> nat {
    encode_utf8(s).len()
}

/// The greatest byte length of the names (0 for none).
pub open spec fn max_name_bytes(names: Seq<Seq<char>>) -> nat
    decreases names.len(),
{
    if names.len() == 0 {
        0
    } else {
        let m = max_name_bytes(names.drop_last());
        let b = byte_len(names.last());
        if b > m {
            b
        } else {
            m
        }
    }
}

/// One line of the set listing: the name padded to `width`, then its note.
pub open spec fn set_line(name: Seq<char>, meta: Seq<char>, width: nat) -> Seq<char> {
    "  - "@ + pad_right(name, width) + "    "@ + meta
}

pub open spec fn set_listing(sets: Seq<(Seq<char>, Seq<char>)>) -> Seq<char> {
    let width = max_name_bytes(sets.map_values(|e: (Seq<char>, Seq<char>)| e.0));
    joined(sets.map_values(|e: (Seq<char>, Seq<char>)| set_line(e.0, e.1, width)), "\n"@)
}

/// Every string's UTF-8 encoding fits in memory.
pub open spec fn bytes_fit(names: Seq<Seq<char>>) -> bool {
    forall|i: int| 0 <= i < names.len() ==> byte_len(#[trigger] names[i]) <= usize::MAX
}

fn max_bytes(names: &Vec<String>) -> (r: usize)
    requires
        bytes_fit(names@.map_values(|s: String| s@)),
    ensures
        r == max_name_bytes(names@.map_values(|s: String| s@)),
{
    let ghost nv = names@.map_values(|s: String| s@);
    let mut m: usize = 0;
    let mut i: usize = 0;
    while i < names.len()
        invariant
            nv == names@.map_values(|s: String| s@),
            bytes_fit(nv),
            i <= names@.len(),
            m == max_name_bytes(nv.take(i as int)),
        decreases names.len() - i,
    {
        let b = names[i].as_str().len();
        assert(byte_len(nv[i as int]) <= usize::MAX);
        assert(nv.take(i + 1).drop_last() =~= nv.take(i as int));
        assert(nv.take(i + 1).last() == names@[i as int]@);
        if b > m {
            m = b;
        }
        i = i + 1;
    }
    assert(nv.take(names@.len() as int) =~= nv);
    m
}

/// The listing of the available sets, one per line, names aligned.
pub fn list_available_sets(sets: &Vec<(String, String)>) -> (r: String)
    requires
        bytes_fit(sets@.map_values(|e: (String, String)| e.0@)),
    ensures
        r@ == set_listing(sets@.map_values(|e: (String, String)| (e.0@, e.1@))),
{
    let ghost sv = sets@.map_values(|e: (String, String)| (e.0@, e.1@));
    let mut names: Vec<String> = Vec::new();
    let mut i: usize = 0;
    while i < sets.len()
        invariant
            i <= sets@.len(),
            names@.len() == i,
            forall|k: int| 0 <= k < i ==> (#[trigger] names@[k])@ == sets@[k].0@,
        decreases sets.len() - i,
    {
        names.push(sets[i].0.clone());
        i = i + 1;
    }
    assert(names@.map_values(|s: String| s@) =~= sv.map_values(|e: (Seq<char>, Seq<char>)| e.0));
    assert(names@.map_values(|s: String| s@) =~= sets@.map_values(|e: (String, String)| e.0@));
    let width = max_bytes(&names);
    let ghost lines = sv.map_values(|e: (Seq<char>, Seq<char>)| set_line(e.0, e.1, width as nat));
    let mut out = String::new();
    let mut k: usize = 0;
    while k < sets.len()
        invariant
            sv == sets@.map_values(|e: (String, String)| (e.0@, e.1@)),
            lines == sv.map_values(|e: (Seq<char>, Seq<char>)| set_line(e.0, e.1, width as nat)),
            k <= sets@.len(),
            out@ == joined(lines.take(k as int), "\n"@),
        decreases sets.len() - k,
    {
        let ghost before = out@;
        if k > 0 {
            out.append("\n");
        }
        let ghost mid = out@;
        out.append("  - ");
        append_padded(&mut out, sets[k].0.as_str(), width);
        out.append("    ");
        out.append(sets[k].1.as_str());
        proof {
            let next = lines.take(k + 1);
            assert(next.drop_last() =~= lines.take(k as int));
            assert(next.last() == set_line(sets@[k as int].0@, sets@[k as int].1@, width as nat));
            assert(out@ =~= mid + set_line(sets@[k as int].0@, sets@[k as int].1@, width as nat));
            if k == 0 {
                assert(out@ =~= next[0]);
            }
        }
        k = k + 1;
    }
    assert(lines.take(sets@.len() as int) =~= lines);
    out
}

// ---------------------------------------------------------------------------
// Variant overrides
// ---------------------------------------------------------------------------

/// How a printing is named in an override: `variant:collection:pack`.
pub open spec fn variant_tag(p: PrintingView) -> Seq<char> {
    p.variant + ":"@ + p.collection + ":"@ + p.pack_code
}

/// Counts the printings before `i` with the same normalized title.
pub open spec fn same_title_before(base: Seq<Printing>, t: Seq<char>, i: int) -> nat
    decreases i,
{
    if i <= 0 {
        0
    } else {
        same_title_before(base, t, i - 1) + if normalized_title(base[i - 1].card_title@) == t {
            1nat
        } else {
            0nat
        }
    }
}

/// The first override for a title.
pub open spec fn global_override(g: Seq<(String, String)>, t: Seq<char>, i: int) -> Option<Seq<char>>
    decreases g.len() - i,
{
    if i < 0 || i >= g.len() {
        None
    } else if g[i].0@ == t {
        Some(g[i].1@)
    } else {
        global_override(g, t, i + 1)
    }
}

/// The first override for a title at a given occurrence.
pub open spec fn index_override(x: Seq<(String, usize, String)>, t: Seq<char>, n: nat, i: int) -> Option<Seq<char>>
    decreases x.len() - i,
{
    if i < 0 || i >= x.len() {
        None
    } else if x[i].0@ == t && x[i].1 == n {
        Some(x[i].2@)
    } else {
        index_override(x, t, n, i + 1)
    }
}

/// The first printing of the list with the given tag.
pub open spec fn tagged(ps: Seq<PrintingView>, tag: Seq<char>, i: int) -> Option<int>
    decreases ps.len() - i,
{
    if i < 0 || i >= ps.len() {
        None
    } else if variant_tag(ps[i]) == tag {
        Some(i)
    } else {
        tagged(ps, tag, i + 1)
    }
}

/// The printing at position `i` after the overrides: the override of its
/// occurrence, else the override of its title, names a printing available for
/// its title by tag; without one it stays.
pub open spec fn overridden(
    base: Seq<Printing>,
    avail: Seq<(Seq<char>, Seq<PrintingView>)>,
    g: Seq<(String, String)>,
    x: Seq<(String, usize, String)>,
    i: int,
) -> PrintingView {
    let t = normalized_title(base[i].card_title@);
    let n = same_title_before(base, t, i);
    let over = match index_override(x, t, n, 0) {
        Some(o) => Some(o),
        None => global_override(g, t, 0),
    };
    match over {
        Some(o) => match entry_of_title(avail, t, 0) {
            Some(e) => match tagged(avail[e].1, o, 0) {
                Some(k) => avail[e].1[k],
                None => base[i]@,
            },
            None => base[i]@,
        },
        None => base[i]@,
    }
}

fn tag_of(p: &Printing) -> (r: Vec<char>)
    ensures
        r@ == variant_tag(p@),
{
    let mut s = p.variant.clone();
    s.append(":");
    s.append(p.collection.as_str());
    s.append(":");
    s.append(p.pack_code.as_str());
    chars_of(s.as_str())
}

fn find_global(g: &Vec<(String, String)>, t: &Vec<char>) -> (r: Option<Vec<char>>)
    ensures
        match r {
            Some(v) => global_override(g@, t@, 0) == Some(v@),
            None => global_override(g@, t@, 0) is None,
        },
{
    let mut i: usize = 0;
    while i < g.len()
        invariant
            i <= g@.len(),
            global_override(g@, t@, 0) == global_override(g@, t@, i as int),
        decreases g.len() - i,
    {
        let k = chars_of(g[i].0.as_str());
        if chars_eq(&k, t) {
            return Some(chars_of(g[i].1.as_str()));
        }
        i = i + 1;
    }
    None
}

fn find_indexed(x: &Vec<(String, usize, String)>, t: &Vec<char>, n: usize) -> (r: Option<Vec<char>>)
    ensures
        match r {
            Some(v) => index_override(x@, t@, n as nat, 0) == Some(v@),
            None => index_override(x@, t@, n as nat, 0) is None,
        },
{
    let mut i: usize = 0;
    while i < x.len()
        invariant
            i <= x@.len(),
            index_override(x@, t@, n as nat, 0) == index_override(x@, t@, n as nat, i as int),
        decreases x.len() - i,
    {
        let k = chars_of(x[i].0.as_str());
        if chars_eq(&k, t) && x[i].1 == n {
            return Some(chars_of(x[i].2.as_str()));
        }
        i = i + 1;
    }
    None
}

fn find_tagged(ps: &Vec<Printing>, tag: &Vec<char>) -> (r: Option<usize>)
    ensures
        match r {
            Some(k) => tagged(printing_views(ps@), tag@, 0) == Some(k as int) && k < ps@.len(),
            None => tagged(printing_views(ps@), tag@, 0) is None,
        },
{
    let ghost pv = printing_views(ps@);
    let mut i: usize = 0;
    while i < ps.len()
        invariant
            pv == printing_views(ps@),
            i <= ps@.len(),
            tagged(pv, tag@, 0) == tagged(pv, tag@, i as int),
        decreases ps.len() - i,
    {
        let k = tag_of(&ps[i]);
        if chars_eq(&k, tag) {
            return Some(i);
        }
        i = i + 1;
    }
    None
}

fn find_entry(avail: &Vec<(String, Vec<Printing>)>, t: &Vec<char>) -> (r: Option<usize>)
    ensures
        match r {
            Some(i) => entry_of_title(available_view(avail@), t@, 0) == Some(i as int) && i < avail@.len(),
            None => entry_of_title(available_view(avail@), t@, 0) is None,
        },
{
    let ghost av = available_view(avail@);
    let mut i: usize = 0;
    while i < avail.len()
        invariant
            av == available_view(avail@),
            i <= avail@.len(),
            entry_of_title(av, t@, 0) == entry_of_title(av, t@, i as int),
        decreases avail.len() - i,
    {
        let k = chars_of(avail[i].0.as_str());
        if chars_eq(&k, t) {
            return Some(i);
        }
        i = i + 1;
    }
    None
}

/// Applies the variant overrides chosen for the printings (see
/// [`overridden`]).
pub fn apply_variant_overrides(
    base: &Vec<Printing>,
    available: &Vec<(String, Vec<Printing>)>,
    global_overrides: &Vec<(String, String)>,
    index_overrides: &Vec<(String, usize, String)>,
) -> (r: Vec<Printing>)
    ensures
        r@.len() == base@.len(),
        forall|i: int|
            0 <= i < r@.len() ==> (#[trigger] r@[i])@ == overridden(
                base@,
                available_view(available@),
                global_overrides@,
                index_overrides@,
                i,
            ),
{
    let ghost av = available_view(available@);
    let mut titles: Vec<Vec<char>> = Vec::new();
    let mut out: Vec<Printing> = Vec::new();
    let mut i: usize = 0;
    while i < base.len()
        invariant
            av == available_view(available@),
            i <= base@.len(),
            titles@.len() == i,
            forall|k: int| 0 <= k < i ==> (#[trigger] titles@[k])@ == normalized_title(base@[k].card_title@),
            out@.len() == i,
            forall|k: int|
                0 <= k < i ==> (#[trigger] out@[k])@ == overridden(
                    base@,
                    av,
                    global_overrides@,
                    index_overrides@,
                    k,
                ),
        decreases base.len() - i,
    {
        let p = &base[i];
        let tn = normalize_title(p.card_title.as_str());
        let t = chars_of(tn.as_str());
        let mut n: usize = 0;
        let mut j: usize = 0;
        while j < i
            invariant
                j <= i,
                i < base@.len(),
                titles@.len() == i,
                forall|k: int| 0 <= k < i ==> (#[trigger] titles@[k])@ == normalized_title(base@[k].card_title@),
                n == same_title_before(base@, t@, j as int),
                n <= j,
            decreases i - j,
        {
            if chars_eq(&titles[j], &t) {
                n = n + 1;
            }
            j = j + 1;
        }
        let over = match find_indexed(index_overrides, &t, n) {
            Some(o) => Some(o),
            None => find_global(global_overrides, &t),
        };
        let mut chosen = p.duplicate();
        match over {
            Some(o) => match find_entry(available, &t) {
                Some(e) => {
                    assert(av[e as int].1 == printing_views(available@[e as int].1@));
                    match find_tagged(&available[e].1, &o) {
                        Some(k) => {
                            chosen = available[e].1[k].duplicate();
                        },
                        None => {},
                    }
                },
                None => {},
            },
            None => {},
        }
        out.push(chosen);
        titles.push(t);
        i = i + 1;
    }
    out
}

// ---------------------------------------------------------------------------
// The query answer
// ---------------------------------------------------------------------------

pub open spec fn request_norms(reqs: Seq<CardRequest>) -> Seq<Seq<char>> {
    reqs.map_values(|q: CardRequest| normalized_title(q.title@))
}

/// How many of the first `n` titles are `t`.
pub open spec fn title_count(norms: Seq<Seq<char>>, t: Seq<char>, n: int) -> nat
    decreases n,
{
    if n <= 0 {
        0
    } else {
        title_count(norms, t, n - 1) + if norms[n - 1] == t {
            1nat
        } else {
            0nat
        }
    }
}

/// The request with which the default printing of a title is chosen: the card
/// of its first printing, with no preference.
pub open spec fn default_request(ps: Seq<PrintingView>) -> RequestView {
    RequestView {
        title: ps[0].card_title,
        code: ps[0].card_code,
        variant: None,
        collection: None,
        pack_code: None,
    }
}

pub open spec fn default_printing(ps: Seq<PrintingView>) -> PrintingView {
    ps[choice_index(default_request(ps), ps)]
}

/// `Nx Title [variant:collection:pack]` of the default printing.
pub open spec fn base_line(count: nat, d: PrintingView) -> Seq<char> {
    decimal(count) + "x "@ + d.card_title + " ["@ + variant_tag(d) + "]"@
}

/// The tags of the printings other than the default one (by variant or
/// collection), in order.
pub open spec fn alternatives(ps: Seq<PrintingView>, d: PrintingView, n: int) -> Seq<Seq<char>>
    decreases n,
{
    if n <= 0 {
        Seq::empty()
    } else {
        let rest = alternatives(ps, d, n - 1);
        let p = ps[n - 1];
        if p.variant != d.variant || p.collection != d.collection {
            rest.push("["@ + variant_tag(p) + "]"@)
        } else {
            rest
        }
    }
}

/// For the first `n` distinct titles that have printings: the base line and
/// the alternatives.
pub open spec fn query_items(
    norms: Seq<Seq<char>>,
    avail: Seq<(Seq<char>, Seq<PrintingView>)>,
    order: Seq<Seq<char>>,
    n: int,
) -> Seq<(Seq<char>, Seq<Seq<char>>)>
    decreases n,
{
    if n <= 0 {
        Seq::empty()
    } else {
        let rest = query_items(norms, avail, order, n - 1);
        let t = order[n - 1];
        match entry_of_title(avail, t, 0) {
            Some(e) => {
                let ps = avail[e].1;
                let d = default_printing(ps);
                rest.push(
                    (base_line(title_count(norms, t, norms.len() as int), d), alternatives(ps, d, ps.len() as int)),
                )
            },
            None => rest,
        }
    }
}

pub open spec fn query_line(item: (Seq<char>, Seq<Seq<char>>), width: nat) -> Seq<char> {
    if item.1.len() == 0 {
        item.0
    } else {
        pad_right(item.0, width) + "    # also: "@ + joined(item.1, ", "@)
    }
}

/// The query answer: a line per requested title that has printings, in the
/// order the titles are first requested; alternatives are aligned after the
/// longest base line.
pub open spec fn query_output(reqs: Seq<CardRequest>, avail: Seq<(Seq<char>, Seq<PrintingView>)>) -> Seq<char> {
    let norms = request_norms(reqs);
    let order = distinct(norms);
    let items = query_items(norms, avail, order, order.len() as int);
    let width = max_name_bytes(items.map_values(|it: (Seq<char>, Seq<Seq<char>>)| it.0));
    joined(items.map_values(|it: (Seq<char>, Seq<Seq<char>>)| query_line(it, width)), "\n"@)
}

pub open spec fn entries_nonempty(avail: Seq<(Seq<char>, Seq<PrintingView>)>) -> bool {
    forall|i: int| 0 <= i < avail.len() ==> (#[trigger] avail[i]).1.len() > 0
}

fn count_title(norms: &Vec<String>, t: &Vec<char>) -> (r: u64)
    requires
        norms@.len() <= u32::MAX,
    ensures
        r == title_count(norms@.map_values(|s: String| s@), t@, norms@.len() as int),
        r <= norms@.len(),
{
    let ghost nv = norms@.map_values(|s: String| s@);
    let mut c: u64 = 0;
    let mut i: usize = 0;
    while i < norms.len()
        invariant
            nv == norms@.map_values(|s: String| s@),
            norms@.len() <= u32::MAX,
            i <= norms@.len(),
            c == title_count(nv, t@, i as int),
            c <= i,
        decreases norms.len() - i,
    {
        let k = chars_of(norms[i].as_str());
        if chars_eq(&k, t) {
            c = c + 1;
        }
        i = i + 1;
    }
    c
}

fn alternatives_of(ps: &Vec<Printing>, d: &Printing) -> (r: Vec<String>)
    ensures
        r@.map_values(|s: String| s@) == alternatives(printing_views(ps@), d@, ps@.len() as int),
{
    let ghost pv = printing_views(ps@);
    let dv = chars_of(d.variant.as_str());
    let dc = chars_of(d.collection.as_str());
    let mut out: Vec<String> = Vec::new();
    let mut i: usize = 0;
    while i < ps.len()
        invariant
            pv == printing_views(ps@),
            dv@ == d@.variant,
            dc@ == d@.collection,
            i <= ps@.len(),
            out@.map_values(|s: String| s@) == alternatives(pv, d@, i as int),
        decreases ps.len() - i,
    {
        let pvv = chars_of(ps[i].variant.as_str());
        let pcv = chars_of(ps[i].collection.as_str());
        if !chars_eq(&pvv, &dv) || !chars_eq(&pcv, &dc) {
            let tag = tag_of(&ps[i]);
            let mut s = String::from_str("[");
            crate::text::append_chars(&mut s, &tag);
            s.append("]");
            let ghost before = out@.map_values(|s: String| s@);
            out.push(s);
            assert(out@.map_values(|s: String| s@) =~= before.push("["@ + variant_tag(pv[i as int]) + "]"@));
        }
        i = i + 1;
    }
    out
}

/// The answer of the query command (see [`query_output`]).
pub fn format_query_output(requests: &Vec<CardRequest>, available: &Vec<(String, Vec<Printing>)>) -> (r: String)
    requires
        requests@.len() <= u32::MAX,
        entries_nonempty(available_view(available@)),
        forall|i: int|
            0 <= i < query_items(
                request_norms(requests@),
                available_view(available@),
                distinct(request_norms(requests@)),
                distinct(request_norms(requests@)).len() as int,
            ).len() ==> byte_len(
                #[trigger] query_items(
                    request_norms(requests@),
                    available_view(available@),
                    distinct(request_norms(requests@)),
                    distinct(request_norms(requests@)).len() as int,
                )[i].0,
            ) <= usize::MAX,
    ensures
        r@ == query_output(requests@, available_view(available@)),
{
    let ghost av = available_view(available@);
    let mut norms: Vec<String> = Vec::new();
    let mut i: usize = 0;
    while i < requests.len()
        invariant
            i <= requests@.len(),
            norms@.len() == i,
            forall|k: int| 0 <= k < i ==> (#[trigger] norms@[k])@ == normalized_title(requests@[k].title@),
        decreases requests.len() - i,
    {
        norms.push(normalize_title(requests[i].title.as_str()));
        i = i + 1;
    }
    let ghost nv = norms@.map_values(|s: String| s@);
    assert(nv =~= request_norms(requests@));
    let order = crate::card_store::distinct_strings(&norms);
    let ghost ov = order@.map_values(|s: String| s@);
    let ghost items_all = query_items(nv, av, ov, ov.len() as int);
    let mut bases: Vec<String> = Vec::new();
    let mut alts: Vec<Vec<String>> = Vec::new();
    let mut j: usize = 0;
    while j < order.len()
        invariant
            av == available_view(available@),
            entries_nonempty(av),
            nv == norms@.map_values(|s: String| s@),
            norms@.len() == requests@.len(),
            requests@.len() <= u32::MAX,
            ov == order@.map_values(|s: String| s@),
            j <= order@.len(),
            bases@.len() == alts@.len(),
            bases@.len() == query_items(nv, av, ov, j as int).len(),
            forall|k: int| 0 <= k < bases@.len() ==> (#[trigger] bases@[k])@ == query_items(nv, av, ov, j as int)[k].0,
            forall|k: int| 0 <= k < alts@.len() ==> (#[trigger] alts@[k])@.map_values(|s: String| s@) == query_items(nv, av, ov, j as int)[k].1,
        decreases order.len() - j,
    {
        let t = chars_of(order[j].as_str());
        match find_entry(available, &t) {
            Some(e) => {
                let ps = &available[e].1;
                assert(av[e as int].1 == printing_views(ps@));
                assert(ps@.len() > 0);
                let first = &ps[0];
                let req = CardRequest {
                    title: first.card_title.clone(),
                    code: first.card_code.clone(),
                    variant: None,
                    collection: None,
                    pack_code: None,
                };
                assert(req@ == default_request(printing_views(ps@)));
                let d = match select_printing(&req, ps.as_slice()) {
                    Ok(d) => d,
                    Err(_) => {
                        assert(false);
                        first.duplicate()
                    },
                };
                proof {
                    let q = choose|q: int| is_choice(req@, printing_views(ps@), q) && d@ == ps@[q]@;
                    lemma_choice_unique(req@, printing_views(ps@), q, choice_index(req@, printing_views(ps@)));
                }
                let count = count_title(&norms, &t);
                let mut base = decimal_u64(count);
                base.append("x ");
                base.append(d.card_title.as_str());
                base.append(" [");
                let tag = tag_of(&d);
                crate::text::append_chars(&mut base, &tag);
                base.append("]");
                let a = alternatives_of(ps, &d);
                let ghost pb = bases@;
                let ghost pa = alts@;
                bases.push(base);
                alts.push(a);
                proof {
                    let nx = query_items(nv, av, ov, j + 1);
                    assert(nx.len() == bases@.len());
                    assert forall|k: int| 0 <= k < bases@.len() implies (#[trigger] bases@[k])@ == nx[k].0 by {
                        if k < pb.len() {
                            assert(bases@[k] == pb[k]);
                        }
                    }
                    assert forall|k: int| 0 <= k < alts@.len() implies (#[trigger] alts@[k])@.map_values(|s: String| s@) == nx[k].1 by {
                        if k < pa.len() {
                            assert(alts@[k] == pa[k]);
                        }
                    }
                }
            },
            None => {},
        }
        j = j + 1;
    }
    assert(ov == distinct(request_norms(requests@)));
    let width = max_bytes(&bases);
    let ghost items = query_items(nv, av, ov, ov.len() as int);
    assert(bases@.map_values(|s: String| s@) =~= items.map_values(|it: (Seq<char>, Seq<Seq<char>>)| it.0));
    let ghost lines = items.map_values(|it: (Seq<char>, Seq<Seq<char>>)| query_line(it, width as nat));
    let mut out = String::new();
    let mut k: usize = 0;
    while k < bases.len()
        invariant
            bases@.len() == alts@.len(),
            bases@.len() == items.len(),
            forall|q: int| 0 <= q < bases@.len() ==> (#[trigger] bases@[q])@ == items[q].0,
            forall|q: int| 0 <= q < alts@.len() ==> (#[trigger] alts@[q])@.map_values(|s: String| s@) == items[q].1,
            lines == items.map_values(|it: (Seq<char>, Seq<Seq<char>>)| query_line(it, width as nat)),
            k <= bases@.len(),
            out@ == joined(lines.take(k as int), "\n"@),
        decreases bases.len() - k,
    {
        if k > 0 {
            out.append("\n");
        }
        let ghost mid = out@;
        if alts[k].len() == 0 {
            out.append(bases[k].as_str());
        } else {
            append_padded(&mut out, bases[k].as_str(), width);
            out.append("    # also: ");
            let joined_alts = join_strings(&alts[k]);
            out.append(joined_alts.as_str());
        }
        proof {
            let next = lines.take(k + 1);
            assert(next.drop_last() =~= lines.take(k as int));
            assert(next.last() == query_line(items[k as int], width as nat));
            assert(out@ =~= mid + query_line(items[k as int], width as nat));
            if k == 0 {
                assert(out@ =~= next[0]);
            }
        }
        k = k + 1;
    }
    assert(lines.take(bases@.len() as int) =~= lines);
    out
}

// ---------------------------------------------------------------------------
// The query answer read back as a card list
// ---------------------------------------------------------------------------

/// A title that a card list line gives back as it is: no `#`, no brackets
/// and no line feed, no white space at its ends, and nothing that a card list
/// strips from the end of a name.
pub open spec fn listable_title(t: Seq<char>) -> bool {
    &&& t.len() > 0
    &&& forall|i: int| 0 <= i < t.len() ==> t[i] != '#' && t[i] != '[' && t[i] != ']' && t[i] != '\n'
    &&& !unicode_whitespace(t[0])
    &&& !unicode_whitespace(t.last())
    &&& crate::card_store::cleaned_name(t) == t
}

/// A variant, collection or pack that a card list override gives back as it
/// is: not empty, unchanged by lower-casing, without `:`, `]`, `#` or a line
/// feed, and with no white space at its ends.
pub open spec fn listable_tag_part(s: Seq<char>) -> bool {
    &&& s.len() > 0
    &&& unicode_lowercase(s) == s
    &&& forall|i: int| 0 <= i < s.len() ==> s[i] != ':' && s[i] != ']' && s[i] != '#' && s[i] != '\n'
    &&& !unicode_whitespace(s[0])
    &&& !unicode_whitespace(s.last())
}

proof fn lemma_trim_end_spaces(s: Seq<char>, k: nat)
    ensures
        trim_end(s + spaces(k)) == trim_end(s),
    decreases k,
{
    if k > 0 {
        assert((s + spaces(k)).last() == ' ');
        assert((s + spaces(k)).drop_last() =~= s + spaces((k - 1) as nat));
        lemma_trim_end_spaces(s, (k - 1) as nat);
    } else {
        assert(s + spaces(0) =~= s);
    }
}

proof fn lemma_tag_part(s: Seq<char>)
    requires
        listable_tag_part(s),
    ensures
        !unicode_whitespace(s[0]),
        !unicode_whitespace(s.last()),
        trim(s) == s,
        unicode_lowercase(trim(s)) == s,
{
    lemma_trim_untouched(s);
}

/// The override slots of `v:c:p`.
proof fn lemma_tag_slots(v: Seq<char>, c: Seq<char>, p: Seq<char>)
    requires
        listable_tag_part(v),
        listable_tag_part(c),
        listable_tag_part(p),
    ensures
        split(v + ":"@ + c + ":"@ + p, ':') == seq![v, c, p],
{
    reveal_strlit(":");
    assert(":"@ =~= seq![':']);
    assert(v + ":"@ + c + ":"@ + p =~= v + seq![':'] + (c + seq![':'] + p));
    lemma_split_at(v, c + seq![':'] + p, ':');
    lemma_split_at(c, p, ':');
    lemma_split_plain(p, ':');
    assert(seq![v] + (seq![c] + seq![p]) =~= seq![v, c, p]);
}

/// The base line of a title reads back as the request for it.
proof fn lemma_base_line_entry(count: nat, d: PrintingView)
    requires
        1 <= count <= u32::MAX,
        listable_title(d.card_title),
        listable_tag_part(d.variant),
        listable_tag_part(d.collection),
        listable_tag_part(d.pack_code),
    ensures
        crate::card_store::entry_of(base_line(count, d)) == Ok::<crate::card_store::EntryView, Seq<char>>(
            crate::card_store::EntryView {
                name: d.card_title,
                quantity: count as u32,
                variant: Some(d.variant),
                collection: Some(d.collection),
                pack_code: Some(d.pack_code),
            },
        ),
        crate::card_store::quantity_split(base_line(count, d)).0 == count as u32,
        crate::card_store::overrides_of(crate::card_store::quantity_split(base_line(count, d)).1) == Ok::<
            (Seq<char>, Option<Seq<char>>, Option<Seq<char>>, Option<Seq<char>>),
            Seq<char>,
        >((d.card_title, Some(d.variant), Some(d.collection), Some(d.pack_code))),
{
    reveal_strlit("x ");
    reveal_strlit(" [");
    reveal_strlit("]");
    reveal_strlit(":");
    let t = d.card_title;
    let tag = variant_tag(d);
    let dec = decimal(count);
    lemma_decimal_reads_back(count);
    let k = dec.len() as int;
    let r = t + " ["@ + tag + "]"@;
    let line = base_line(count, d);
    assert(line =~= dec + seq!['x', ' '] + r);
    // the quantity
    assert(matches_at(line, seq!['x', ' '], k)) by {
        assert(line.subrange(k, k + 2) =~= seq!['x', ' ']);
    }
    assert forall|j: int| 0 <= j < k implies !matches_at(line, seq!['x', ' '], j) by {
        assert(line[j] == dec[j]);
        if line[j] == 'x' {
            assert(dec.contains('x'));
        }
        if matches_at(line, seq!['x', ' '], j) {
            assert(line.subrange(j, j + 2)[0] == line[j]);
        }
    }
    lemma_find_first(line, seq!['x', ' '], k);
    assert(line.take(k) =~= dec);
    assert(line.skip(k + 2) =~= r);
    assert(parse_u32_or_one(dec) == count);
    lemma_tag_part(d.variant);
    lemma_tag_part(d.collection);
    lemma_tag_part(d.pack_code);
    assert(r.last() == ']');
    assert(r[0] == t[0]);
    assert(crate::text::is_ascii_char(']'));
    lemma_trim_untouched(r);
    assert(crate::card_store::quantity_split(line) == (count as u32, r));
    // the brackets
    let b = t.len() as int + 1;
    assert(r[b] == '[');
    assert forall|j: int| 0 <= j < b implies r[j] != '[' by {
        if j < t.len() {
            assert(r[j] == t[j]);
        }
    }
    lemma_find_char_first(r, '[', b);
    let e = r.len() - 1;
    assert forall|j: int| 0 <= j < e implies r[j] != ']' by {
        if j < t.len() {
            assert(r[j] == t[j]);
        } else if j > b {
            assert(r[j] == tag[j - b - 1]);
            if j - b - 1 < d.variant.len() {
                assert(tag[j - b - 1] == d.variant[j - b - 1]);
            } else if j - b - 1 == d.variant.len() {
            } else if j - b - 1 < d.variant.len() + 1 + d.collection.len() {
                assert(tag[j - b - 1] == d.collection[j - b - 1 - d.variant.len() - 1]);
            } else if j - b - 1 == d.variant.len() + 1 + d.collection.len() {
            } else {
                assert(tag[j - b - 1] == d.pack_code[j - b - 1 - d.variant.len() - 2 - d.collection.len()]);
            }
        }
    }
    lemma_find_char_first(r, ']', e);
    assert(r.subrange(b + 1, e) =~= tag);
    assert(tag[0] == d.variant[0]);
    assert(tag.last() == d.pack_code.last());
    lemma_trim_untouched(tag);
    lemma_tag_slots(d.variant, d.collection, d.pack_code);
    // the name
    assert(r.take(b) =~= t + seq![' ']);
    assert(crate::text::is_ascii_char(' '));
    let tn = t + seq![' '];
    assert(trim_start(tn) == tn) by {
        assert(tn[0] == t[0]);
    }
    assert(trim_end(tn) == trim_end(t)) by {
        assert(tn.last() == ' ');
        assert(tn.drop_last() =~= t);
    }
    lemma_trim_untouched(t);
    assert(trim(tn) == t);
}

/// A line of the query answer reads back, as a line of a card list, as the
/// request for the same card: its count as the quantity, its title as the
/// name, and the variant, collection and pack of the printing it shows as
/// the overrides, whatever alternatives follow it.  Cut at its `#` and
/// trimmed, the line gives `parse_quantity` the count and `parse_overrides`
/// the title with the three tags.
pub proof fn law_query_line_reads_back(count: nat, d: PrintingView, alts: Seq<Seq<char>>, width: nat)
    requires
        1 <= count <= u32::MAX,
        listable_title(d.card_title),
        listable_tag_part(d.variant),
        listable_tag_part(d.collection),
        listable_tag_part(d.pack_code),
    ensures
        crate::card_store::line_content(query_line((base_line(count, d), alts), width)) == base_line(count, d),
        crate::card_store::entry_of(crate::card_store::line_content(query_line((base_line(count, d), alts), width)))
            == Ok::<crate::card_store::EntryView, Seq<char>>(
            crate::card_store::EntryView {
                name: d.card_title,
                quantity: count as u32,
                variant: Some(d.variant),
                collection: Some(d.collection),
                pack_code: Some(d.pack_code),
            },
        ),
        crate::card_store::quantity_split(
            crate::card_store::line_content(query_line((base_line(count, d), alts), width)),
        ).0 == count as u32,
        crate::card_store::overrides_of(
            crate::card_store::quantity_split(
                crate::card_store::line_content(query_line((base_line(count, d), alts), width)),
            ).1,
        ) == Ok::<(Seq<char>, Option<Seq<char>>, Option<Seq<char>>, Option<Seq<char>>), Seq<char>>(
            (d.card_title, Some(d.variant), Some(d.collection), Some(d.pack_code)),
        ),
{
    reveal_strlit("x ");
    reveal_strlit(" [");
    reveal_strlit("]");
    reveal_strlit(":");
    reveal_strlit("    # also: ");
    let base = base_line(count, d);
    let t = d.card_title;
    let tag = variant_tag(d);
    lemma_decimal_reads_back(count);
    lemma_tag_part(d.variant);
    lemma_tag_part(d.collection);
    lemma_tag_part(d.pack_code);
    let dec = decimal(count);
    assert(base =~= dec + seq!['x', ' '] + t + seq![' ', '['] + tag + seq![']']);
    assert forall|j: int| 0 <= j < base.len() implies base[j] != '#' by {
        let k = dec.len() as int;
        if j < k {
            assert(base[j] == dec[j]);
            assert(crate::text::ascii_digit(dec[j]));
        } else if k + 2 <= j < k + 2 + t.len() {
            assert(base[j] == t[j - k - 2]);
        } else if k + 4 + t.len() <= j < base.len() - 1 {
            let i = j - k - 4 - t.len();
            assert(base[j] == tag[i]);
            if i < d.variant.len() {
                assert(tag[i] == d.variant[i]);
            } else if i == d.variant.len() {
            } else if i < d.variant.len() + 1 + d.collection.len() {
                assert(tag[i] == d.collection[i - d.variant.len() - 1]);
            } else if i == d.variant.len() + 1 + d.collection.len() {
            } else {
                assert(tag[i] == d.pack_code[i - d.variant.len() - 2 - d.collection.len()]);
            }
        }
    }
    assert(base[0] == dec[0]);
    assert(crate::text::ascii_digit(dec[0]));
    assert(crate::text::is_ascii_char(base[0]));
    assert(base.last() == ']');
    assert(crate::text::is_ascii_char(']'));
    lemma_trim_untouched(base);
    let line = query_line((base, alts), width);
    if alts.len() == 0 {
        lemma_split_plain(base, '#');
    } else {
        let padded = pad_right(base, width);
        let m: nat = if base.len() >= width {
            4
        } else {
            (width - base.len() + 4) as nat
        };
        let a = base + spaces(m);
        reveal_strlit("    ");
        assert("    "@ =~= spaces(4));
        assert(padded + "    "@ =~= a);
        let rest = " also: "@ + joined(alts, ", "@);
        reveal_strlit(" also: ");
        assert("    # also: "@ =~= "    "@ + seq!['#'] + " also: "@) by {
            reveal_strlit("    ");
        }
        assert(line =~= a + seq!['#'] + rest);
        assert forall|j: int| 0 <= j < a.len() implies a[j] != '#' by {
            if j < base.len() {
                assert(a[j] == base[j]);
            }
        }
        lemma_before_char(a, rest, '#');
        assert(trim_start(a) == a) by {
            assert(a[0] == base[0]);
        }
        lemma_trim_end_spaces(base, m);
    }
    lemma_base_line_entry(count, d);
}

pub open spec fn no_char(s: Seq<char>, c: char) -> bool {
    forall|j: int| 0 <= j < s.len() ==> s[j] != c
}

proof fn lemma_joined_no_char(pieces: Seq<Seq<char>>, sep: Seq<char>, c: char)
    requires
        no_char(sep, c),
        forall|i: int| 0 <= i < pieces.len() ==> no_char(#[trigger] pieces[i], c),
    ensures
        no_char(joined(pieces, sep), c),
    decreases pieces.len(),
{
    if pieces.len() > 1 {
        let init = pieces.drop_last();
        assert forall|i: int| 0 <= i < init.len() implies no_char(#[trigger] init[i], c) by {
            assert(init[i] == pieces[i]);
        }
        lemma_joined_no_char(init, sep, c);
        let a = joined(init, sep);
        let l = pieces.last();
        assert(no_char(l, c)) by {
            assert(l == pieces[pieces.len() - 1]);
        }
        let all = a + sep + l;
        assert forall|j: int| 0 <= j < all.len() implies all[j] != c by {
            if j < a.len() {
                assert(all[j] == a[j]);
            } else if j < a.len() + sep.len() {
                assert(all[j] == sep[j - a.len()]);
            } else {
                assert(all[j] == l[j - a.len() - sep.len()]);
            }
        }
    } else if pieces.len() == 1 {
        assert(no_char(pieces[0], c));
    }
}

/// The lines of lines joined by line feeds are those lines.
proof fn lemma_lines_joined(ls: Seq<Seq<char>>)
    requires
        forall|i: int|
            0 <= i < ls.len() ==> (#[trigger] ls[i]).len() > 0 && no_char(ls[i], '\n') && ls[i].last() != '\r',
    ensures
        lines(joined(ls, "\n"@)) == ls,
    decreases ls.len(),
{
    reveal_strlit("\n");
    if ls.len() == 0 {
        assert(lines(Seq::<char>::empty()) == Seq::<Seq<char>>::empty());
    } else if ls.len() == 1 {
        assert(ls[0].len() > 0 && no_char(ls[0], '\n'));
        lemma_lines_single(ls[0]);
        assert(seq![ls[0]] =~= ls);
    } else {
        lemma_joined_first(ls, "\n"@);
        assert("\n"@ =~= seq!['\n']);
        let rest = ls.drop_first();
        assert(no_char(ls[0], '\n'));
        lemma_lines_first(ls[0], joined(rest, "\n"@));
        assert(ls[0].last() != '\r');
        assert(strip_cr(ls[0]) == ls[0]);
        assert forall|i: int| 0 <= i < rest.len() implies (#[trigger] rest[i]).len() > 0 && no_char(rest[i], '\n')
            && rest[i].last() != '\r' by {
            assert(rest[i] == ls[i + 1]);
        }
        lemma_lines_joined(rest);
        assert(seq![ls[0]] + rest =~= ls);
    }
}

/// Lines that each read back as an entry give those entries, in order.
proof fn lemma_entries_all(ls: Seq<Seq<char>>, es: Seq<crate::card_store::EntryView>)
    requires
        ls.len() == es.len(),
        forall|i: int|
            0 <= i < ls.len() ==> crate::card_store::line_content(#[trigger] ls[i]).len() > 0
                && crate::card_store::entry_of(crate::card_store::line_content(ls[i])) == Ok::<
                crate::card_store::EntryView,
                Seq<char>,
            >(es[i]),
    ensures
        crate::card_store::entries_of(ls) == Ok::<Seq<crate::card_store::EntryView>, Seq<char>>(es),
    decreases ls.len(),
{
    if ls.len() > 0 {
        let lr = ls.drop_first();
        let er = es.drop_first();
        assert forall|i: int| 0 <= i < lr.len() implies crate::card_store::line_content(#[trigger] lr[i]).len() > 0
            && crate::card_store::entry_of(crate::card_store::line_content(lr[i])) == Ok::<
            crate::card_store::EntryView,
            Seq<char>,
        >(er[i]) by {
            assert(lr[i] == ls[i + 1]);
            assert(er[i] == es[i + 1]);
        }
        lemma_entries_all(lr, er);
        let c = crate::card_store::line_content(ls[0]);
        assert(c.len() > 0);
        assert(crate::card_store::entry_of(c) == Ok::<crate::card_store::EntryView, Seq<char>>(es[0]));
        assert(seq![es[0]] + er =~= es);
        assert(crate::card_store::entries_of(ls) == Ok::<Seq<crate::card_store::EntryView>, Seq<char>>(
            seq![es[0]] + er,
        ));
    } else {
        assert(es =~= Seq::<crate::card_store::EntryView>::empty());
    }
}

/// Every printing that the answer may show reads back from a card list.
pub open spec fn listable_printing(p: PrintingView) -> bool {
    &&& listable_title(p.card_title)
    &&& listable_tag_part(p.variant)
    &&& listable_tag_part(p.collection)
    &&& listable_tag_part(p.pack_code)
}

pub open spec fn all_listable(avail: Seq<(Seq<char>, Seq<PrintingView>)>) -> bool {
    forall|e: int, k: int| 0 <= e < avail.len() && 0 <= k < avail[e].1.len() ==> listable_printing(#[trigger] avail[e].1[k])
}

/// The card list entry of `count` copies of a printing.
pub open spec fn entry_for(count: nat, d: PrintingView) -> crate::card_store::EntryView {
    crate::card_store::EntryView {
        name: d.card_title,
        quantity: count as u32,
        variant: Some(d.variant),
        collection: Some(d.collection),
        pack_code: Some(d.pack_code),
    }
}

/// For the first `n` distinct titles that have printings: the entry that
/// asks for their count of the printing the answer shows.
pub open spec fn query_entries(
    norms: Seq<Seq<char>>,
    avail: Seq<(Seq<char>, Seq<PrintingView>)>,
    order: Seq<Seq<char>>,
    n: int,
) -> Seq<crate::card_store::EntryView>
    decreases n,
{
    if n <= 0 {
        Seq::empty()
    } else {
        let rest = query_entries(norms, avail, order, n - 1);
        let t = order[n - 1];
        match entry_of_title(avail, t, 0) {
            Some(e) => rest.push(entry_for(title_count(norms, t, norms.len() as int), default_printing(avail[e].1))),
            None => rest,
        }
    }
}

proof fn lemma_title_count_bounds(norms: Seq<Seq<char>>, t: Seq<char>, n: int)
    requires
        0 <= n <= norms.len(),
    ensures
        title_count(norms, t, n) <= n,
        (exists|i: int| 0 <= i < n && norms[i] == t) ==> title_count(norms, t, n) >= 1,
    decreases n,
{
    if n > 0 {
        lemma_title_count_bounds(norms, t, n - 1);
        if exists|i: int| 0 <= i < n && norms[i] == t {
            let i = choose|i: int| 0 <= i < n && norms[i] == t;
            if i < n - 1 {
                assert(exists|i: int| 0 <= i < n - 1 && norms[i] == t);
            }
        }
    }
}

proof fn lemma_entry_of_title_found(avail: Seq<(Seq<char>, Seq<PrintingView>)>, t: Seq<char>, i: int)
    requires
        0 <= i,
    ensures
        entry_of_title(avail, t, i) matches Some(e) ==> i <= e < avail.len(),
    decreases avail.len() - i,
{
    if i < avail.len() && avail[i].0 != t {
        lemma_entry_of_title_found(avail, t, i + 1);
    }
}

proof fn lemma_alternatives_no_char(ps: Seq<PrintingView>, d: PrintingView, n: int)
    requires
        0 <= n <= ps.len(),
        forall|k: int| 0 <= k < ps.len() ==> listable_printing(#[trigger] ps[k]),
    ensures
        forall|i: int| 0 <= i < alternatives(ps, d, n).len() ==> no_char(#[trigger] alternatives(ps, d, n)[i], '\n'),
    decreases n,
{
    reveal_strlit("[");
    reveal_strlit("]");
    reveal_strlit(":");
    if n > 0 {
        lemma_alternatives_no_char(ps, d, n - 1);
        let rest = alternatives(ps, d, n - 1);
        let p = ps[n - 1];
        assert(listable_printing(p));
        let alt = "["@ + variant_tag(p) + "]"@;
        assert(alt =~= seq!['['] + p.variant + seq![':'] + p.collection + seq![':'] + p.pack_code + seq![']']);
        assert forall|j: int| 0 <= j < alt.len() implies alt[j] != '\n' by {
            let a = p.variant.len() as int;
            let b = p.collection.len() as int;
            if 1 <= j < 1 + a {
                assert(alt[j] == p.variant[j - 1]);
            } else if 2 + a <= j < 2 + a + b {
                assert(alt[j] == p.collection[j - 2 - a]);
            } else if 3 + a + b <= j < alt.len() - 1 {
                assert(alt[j] == p.pack_code[j - 3 - a - b]);
            }
        }
        let all = alternatives(ps, d, n);
        assert forall|i: int| 0 <= i < all.len() implies no_char(#[trigger] all[i], '\n') by {
            if i < rest.len() {
                assert(all[i] == rest[i]);
            }
        }
    }
}

/// Each line of the answer, whatever the width its alternatives are aligned
/// to, is one line of a card list that reads back as its entry.
proof fn lemma_query_items_read_back(
    norms: Seq<Seq<char>>,
    avail: Seq<(Seq<char>, Seq<PrintingView>)>,
    order: Seq<Seq<char>>,
    n: int,
    width: nat,
)
    requires
        0 <= n <= order.len(),
        norms.len() <= u32::MAX,
        all_listable(avail),
        entries_nonempty(avail),
        forall|i: int| 0 <= i < order.len() ==> norms.contains(#[trigger] order[i]),
    ensures
        query_items(norms, avail, order, n).len() == query_entries(norms, avail, order, n).len(),
        forall|i: int|
            0 <= i < query_items(norms, avail, order, n).len() ==> {
                let l = query_line(#[trigger] query_items(norms, avail, order, n)[i], width);
                &&& l.len() > 0
                &&& no_char(l, '\n')
                &&& l.last() != '\r'
                &&& crate::card_store::line_content(l).len() > 0
                &&& crate::card_store::entry_of(crate::card_store::line_content(l)) == Ok::<
                    crate::card_store::EntryView,
                    Seq<char>,
                >(query_entries(norms, avail, order, n)[i])
            },
    decreases n,
{
    reveal_strlit("x ");
    reveal_strlit(" [");
    reveal_strlit("]");
    reveal_strlit(":");
    reveal_strlit("    # also: ");
    reveal_strlit(", ");
    if n > 0 {
        lemma_query_items_read_back(norms, avail, order, n - 1, width);
        let items = query_items(norms, avail, order, n);
        let ents = query_entries(norms, avail, order, n);
        let prev_items = query_items(norms, avail, order, n - 1);
        let prev_ents = query_entries(norms, avail, order, n - 1);
        let t = order[n - 1];
        lemma_entry_of_title_found(avail, t, 0);
        match entry_of_title(avail, t, 0) {
            Some(e) => {
                let ps = avail[e].1;
                assert(ps.len() > 0);
                crate::card_store::lemma_choice_exists(default_request(ps), ps);
                let ci = choice_index(default_request(ps), ps);
                assert(is_choice(default_request(ps), ps, ci));
                let d = default_printing(ps);
                assert(d == ps[ci]);
                assert(listable_printing(d));
                let c = title_count(norms, t, norms.len() as int);
                assert(norms.contains(t));
                lemma_title_count_bounds(norms, t, norms.len() as int);
                let alts = alternatives(ps, d, ps.len() as int);
                law_query_line_reads_back(c, d, alts, width);
                let base = base_line(c, d);
                let l = query_line((base, alts), width);
                // the line is one line
                lemma_decimal_reads_back(c);
                let dec = decimal(c);
                assert(base =~= dec + seq!['x', ' '] + d.card_title + seq![' ', '['] + variant_tag(d) + seq![']']);
                assert(no_char(base, '\n')) by {
                    let k = dec.len() as int;
                    let tl = d.card_title.len() as int;
                    let tag = variant_tag(d);
                    assert forall|j: int| 0 <= j < base.len() implies base[j] != '\n' by {
                        if j < k {
                            assert(base[j] == dec[j]);
                            assert(crate::text::ascii_digit(dec[j]));
                        } else if k + 2 <= j < k + 2 + tl {
                            assert(base[j] == d.card_title[j - k - 2]);
                        } else if k + 4 + tl <= j < base.len() - 1 {
                            let i = j - k - 4 - tl;
                            assert(base[j] == tag[i]);
                            if i < d.variant.len() {
                                assert(tag[i] == d.variant[i]);
                            } else if i == d.variant.len() {
                            } else if i < d.variant.len() + 1 + d.collection.len() {
                                assert(tag[i] == d.collection[i - d.variant.len() - 1]);
                            } else if i == d.variant.len() + 1 + d.collection.len() {
                            } else {
                                assert(tag[i] == d.pack_code[i - d.variant.len() - 2 - d.collection.len()]);
                            }
                        }
                    }
                }
                assert(base.last() == ']');
                if alts.len() > 0 {
                    lemma_alternatives_no_char(ps, d, ps.len() as int);
                    assert(no_char(", "@, '\n')) by {
                        assert(", "@ =~= seq![',', ' ']);
                    }
                    lemma_joined_no_char(alts, ", "@, '\n');
                    let padded = pad_right(base, width);
                    let tail = "    # also: "@ + joined(alts, ", "@);
                    assert(no_char(padded, '\n')) by {
                        assert forall|j: int| 0 <= j < padded.len() implies padded[j] != '\n' by {
                            if j < base.len() {
                                assert(padded[j] == base[j]);
                            }
                        }
                    }
                    assert(no_char("    # also: "@, '\n')) by {
                        assert("    # also: "@ =~= seq![' ', ' ', ' ', ' ', '#', ' ', 'a', 'l', 's', 'o', ':', ' ']);
                    }
                    assert(l == padded + tail);
                    assert forall|j: int| 0 <= j < l.len() implies l[j] != '\n' by {
                        if j < padded.len() {
                            assert(l[j] == padded[j]);
                        } else if j < padded.len() + 12 {
                            assert(l[j] == "    # also: "@[j - padded.len()]);
                        } else {
                            assert(l[j] == joined(alts, ", "@)[j - padded.len() - 12]);
                        }
                    }
                    // the last character ends the last alternative
                    let ja = joined(alts, ", "@);
                    assert(ja.len() > 0 && ja.last() == ']') by {
                        lemma_alternatives_end(ps, d, ps.len() as int);
                        lemma_joined_last(alts, ", "@);
                    }
                    assert(l.last() == ja.last());
                }
                assert forall|i: int| 0 <= i < items.len() implies {
                    let li = query_line(#[trigger] items[i], width);
                    &&& li.len() > 0
                    &&& no_char(li, '\n')
                    &&& li.last() != '\r'
                    &&& crate::card_store::line_content(li).len() > 0
                    &&& crate::card_store::entry_of(crate::card_store::line_content(li)) == Ok::<
                        crate::card_store::EntryView,
                        Seq<char>,
                    >(ents[i])
                } by {
                    if i < prev_items.len() {
                        assert(items[i] == prev_items[i]);
                        assert(ents[i] == prev_ents[i]);
                    } else {
                        assert(items[i] == (base, alts));
                        assert(ents[i] == entry_for(c, d));
                    }
                }
            },
            None => {},
        }
    }
}

proof fn lemma_alternatives_end(ps: Seq<PrintingView>, d: PrintingView, n: int)
    requires
        0 <= n <= ps.len(),
    ensures
        forall|i: int|
            0 <= i < alternatives(ps, d, n).len() ==> (#[trigger] alternatives(ps, d, n)[i]).len() > 0
                && alternatives(ps, d, n)[i].last() == ']',
    decreases n,
{
    reveal_strlit("[");
    reveal_strlit("]");
    if n > 0 {
        lemma_alternatives_end(ps, d, n - 1);
        let rest = alternatives(ps, d, n - 1);
        let all = alternatives(ps, d, n);
        assert forall|i: int| 0 <= i < all.len() implies (#[trigger] all[i]).len() > 0 && all[i].last() == ']' by {
            if i < rest.len() {
                assert(all[i] == rest[i]);
            } else {
                let alt = "["@ + variant_tag(ps[n - 1]) + "]"@;
                assert(all[i] == alt);
                assert(alt.last() == ']');
            }
        }
    }
}

proof fn lemma_joined_last(pieces: Seq<Seq<char>>, sep: Seq<char>)
    requires
        pieces.len() > 0,
        pieces.last().len() > 0,
    ensures
        joined(pieces, sep).len() > 0,
        joined(pieces, sep).last() == pieces.last().last(),
{
    if pieces.len() > 1 {
        let a = joined(pieces.drop_last(), sep) + sep;
        assert((a + pieces.last()).last() == pieces.last().last());
    } else {
        assert(pieces.last() == pieces[0]);
    }
}

/// The answer of the query is a card list: read as one, it asks for each
/// title its count of the printing that the answer shows, when every
/// printing's title and tag read back as written.
pub proof fn law_query_output_is_a_card_list(reqs: Seq<CardRequest>, avail: Seq<(Seq<char>, Seq<PrintingView>)>)
    requires
        reqs.len() <= u32::MAX,
        all_listable(avail),
        entries_nonempty(avail),
    ensures
        crate::card_store::cardlist_entries(query_output(reqs, avail)) == Ok::<
            Seq<crate::card_store::EntryView>,
            Seq<char>,
        >(
            query_entries(
                request_norms(reqs),
                avail,
                distinct(request_norms(reqs)),
                distinct(request_norms(reqs)).len() as int,
            ),
        ),
{
    let norms = request_norms(reqs);
    let order = distinct(norms);
    let n = order.len() as int;
    let items = query_items(norms, avail, order, n);
    let width = max_name_bytes(items.map_values(|it: (Seq<char>, Seq<Seq<char>>)| it.0));
    assert forall|i: int| 0 <= i < order.len() implies norms.contains(#[trigger] order[i]) by {
        crate::card_store::lemma_distinct_member(norms, norms.len() as int, i);
    }
    lemma_query_items_read_back(norms, avail, order, n, width);
    let ls = items.map_values(|it: (Seq<char>, Seq<Seq<char>>)| query_line(it, width));
    assert forall|i: int| 0 <= i < ls.len() implies (#[trigger] ls[i]).len() > 0 && no_char(ls[i], '\n')
        && ls[i].last() != '\r' by {
        assert(ls[i] == query_line(items[i], width));
    }
    lemma_lines_joined(ls);
    let es = query_entries(norms, avail, order, n);
    assert forall|i: int| 0 <= i < ls.len() implies crate::card_store::line_content(#[trigger] ls[i]).len() > 0
        && crate::card_store::entry_of(crate::card_store::line_content(ls[i])) == Ok::<
        crate::card_store::EntryView,
        Seq<char>,
    >(es[i]) by {
        assert(ls[i] == query_line(items[i], width));
    }
    lemma_entries_all(ls, es);
}

} // verus!
