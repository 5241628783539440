//! The older way of answering card requests, from one SQLite database: a
//! printing is chosen by rules that look at the variant, the collection and
//! the default collection (the newest one added).
use vstd::prelude::*;

use crate::card_store::{
    brackets_ordered, is_normal_title, normal_title_char, printing_views, quantity_split,
    underscore_non_alphanumeric, underscore_others,
};
use crate::error::{concat3, ProxyNexusError};
use crate::models::{clone_opt, opt_view, CardRequest, Printing, PrintingView, RequestView};
use crate::paths::{join_path, joined_path};
use crate::text::{
    all_ascii, ascii_alnum, ascii_lower, char_is_whitespace, chars_eq, chars_of, find, find_char,
    is_ascii_char, lines, lines_of, split, str_to_lowercase, string_of, string_of_range, sub_chars,
    trim, trim_chars, unicode_lowercase, unicode_whitespace,
};

verus! {

/// Lowers the title and replaces every other character than a letter or
/// digit by `_` (without transliterating it first).
pub open spec fn plain_normalized_title(s: Seq<char>) -> Seq<char> {
    underscore_others(unicode_lowercase(s))
}

pub fn normalize_title(title: &str) -> (r: String)
    ensures
        r@ == plain_normalized_title(title@),
        all_ascii(title@) ==> is_normal_title(r@),
        is_normal_title(title@) ==> r@ == title@,
{
    let l = str_to_lowercase(title);
    let r = underscore_non_alphanumeric(l.as_str());
    proof {
        if all_ascii(title@) {
            assert(l@ == ascii_lower(title@));
            assert forall|i: int| 0 <= i < r@.len() implies normal_title_char(#[trigger] r@[i]) by {
                assert(is_ascii_char(title@[i]));
                assert(l@[i] == crate::text::ascii_lower_char(title@[i]));
                assert(is_ascii_char(l@[i]));
            }
        }
        if is_normal_title(title@) {
            assert(all_ascii(title@)) by {
                assert forall|i: int| 0 <= i < title@.len() implies is_ascii_char(#[trigger] title@[i]) by {
                    assert(normal_title_char(title@[i]));
                }
            }
            assert(l@ =~= title@) by {
                assert forall|i: int| 0 <= i < title@.len() implies l@[i] == title@[i] by {
                    assert(normal_title_char(title@[i]));
                }
            }
            assert(r@ =~= title@) by {
                assert forall|i: int| 0 <= i < title@.len() implies r@[i] == title@[i] by {
                    assert(normal_title_char(title@[i]));
                    assert(is_ascii_char(l@[i]));
                }
            }
        }
    }
    r
}

/// Where the application keeps its database and its collections.
#[derive(Clone, Debug, PartialEq, Eq)]
pub struct CardQuery {
    app_db_path: String,
    collections_dir: String,
}

pub open spec fn app_dir(home: Seq<char>) -> Seq<char> {
    joined_path(home, ".proxynexus"@)
}

pub open spec fn database_path(home: Seq<char>) -> Seq<char> {
    joined_path(app_dir(home), "proxynexus.db"@)
}

pub open spec fn collections_path(home: Seq<char>) -> Seq<char> {
    joined_path(app_dir(home), "collections"@)
}

pub open spec fn no_home_message() -> Seq<char> {
    "Could not find home directory"@
}

pub open spec fn no_database_message() -> Seq<char> {
    "No ProxyNexus database found. Add a collection first."@
}

impl CardQuery {
    pub closed spec fn db_path(self) -> Seq<char> {
        self.app_db_path@
    }

    pub closed spec fn collections(self) -> Seq<char> {
        self.collections_dir@
    }

    /// The query of a home directory (none when it is unknown), given whether
    /// its database file exists.
    pub fn new(home: Option<String>, database_exists: bool) -> (r: Result<CardQuery, ProxyNexusError>)
        ensures
            match r {
                Ok(q) => home is Some && database_exists && q.db_path() == database_path(home->0@)
                    && q.collections() == collections_path(home->0@),
                Err(e) => e == ProxyNexusError::Message(e->Message_0) && (match home {
                    None => e->Message_0@ == no_home_message(),
                    Some(_) => !database_exists && e->Message_0@ == no_database_message(),
                }),
            },
    {
        let home = match home {
            Some(h) => h,
            None => return Err(ProxyNexusError::Message(String::from_str("Could not find home directory"))),
        };
        let dir = join_path(home.as_str(), ".proxynexus");
        let collections_dir = join_path(dir.as_str(), "collections");
        let app_db_path = join_path(dir.as_str(), "proxynexus.db");
        if !database_exists {
            return Err(
                ProxyNexusError::Message(
                    String::from_str("No ProxyNexus database found. Add a collection first."),
                ),
            );
        }
        Ok(CardQuery { app_db_path, collections_dir })
    }

    pub fn app_db_path(&self) -> (r: String)
        ensures
            r@ == self.db_path(),
    {
        self.app_db_path.clone()
    }

    /// Where the image of a printing lies.
    pub fn printing_path(&self, printing: &Printing) -> (r: String)
        ensures
            r@ == joined_path(self.collections(), printing.image_key@),
    {
        join_path(self.collections_dir.as_str(), printing.image_key.as_str())
    }

    /// The image path of a printing, given whether a file lies there.
    pub fn resolve_printing_to_full_path(&self, printing: &Printing, file_exists: bool) -> (r: Result<
        String,
        ProxyNexusError,
    >)
        ensures
            match r {
                Ok(p) => file_exists && p@ == joined_path(self.collections(), printing.image_key@),
                Err(e) => !file_exists && e == ProxyNexusError::Message(e->Message_0)
                    && e->Message_0@ == "Image file not found: "@ + joined_path(
                    self.collections(),
                    printing.image_key@,
                ) + " (printing: "@ + printing.card_code@ + " "@ + printing.variant@ + ")"@,
            },
    {
        let path = self.printing_path(printing);
        if !file_exists {
            let mut m = concat3("Image file not found: ", path.as_str(), " (printing: ");
            m.append(printing.card_code.as_str());
            m.append(" ");
            m.append(printing.variant.as_str());
            m.append(")");
            return Err(ProxyNexusError::Message(m));
        }
        Ok(path)
    }
}

// ---------------------------------------------------------------------------
// Card lists
// ---------------------------------------------------------------------------

/// The characters that are not whitespace.
pub open spec fn without_whitespace(s: Seq<char>) -> Seq<char>
    decreases s.len(),
{
    if s.len() == 0 {
        Seq::empty()
    } else if unicode_whitespace(s.last()) {
        without_whitespace(s.drop_last())
    } else {
        without_whitespace(s.drop_last()).push(s.last())
    }
}

/// The name and the overrides of `Name [variant:collection]`: the text in
/// brackets without its whitespace, split at its first `:`; without a `:` it
/// is all variant.
pub open spec fn plain_overrides_of(text: Seq<char>) -> Result<
    (Seq<char>, Option<Seq<char>>, Option<Seq<char>>),
    Seq<char>,
> {
    match find(text, seq!['[']) {
        None => Ok((trim(text), None, None)),
        Some(b) => match find(text, seq![']']) {
            None => Err("Unclosed bracket in card override"@),
            Some(e) => {
                let t = without_whitespace(text.subrange(b + 1, e));
                if t.len() == 0 {
                    Err("Empty override brackets"@)
                } else {
                    match find(t, seq![':']) {
                        Some(c) => Ok(
                            (
                                trim(text.take(b)),
                                if c == 0 {
                                    None
                                } else {
                                    Some(t.take(c))
                                },
                                if c + 1 == t.len() {
                                    None
                                } else {
                                    Some(t.skip(c + 1))
                                },
                            ),
                        ),
                        None => Ok((trim(text.take(b)), Some(t), None)),
                    }
                }
            },
        },
    }
}

fn strip_whitespace(v: &Vec<char>) -> (r: Vec<char>)
    ensures
        r@ == without_whitespace(v@),
{
    let mut out: Vec<char> = Vec::new();
    let mut i: usize = 0;
    while i < v.len()
        invariant
            i <= v@.len(),
            out@ == without_whitespace(v@.take(i as int)),
        decreases v.len() - i,
    {
        assert(v@.take(i + 1).drop_last() =~= v@.take(i as int));
        if !char_is_whitespace(v[i]) {
            out.push(v[i]);
        }
        i = i + 1;
    }
    assert(v@.take(v@.len() as int) =~= v@);
    out
}

pub fn parse_overrides(text: &str) -> (r: Result<(String, Option<String>, Option<String>), ProxyNexusError>)
    requires
        brackets_ordered(text@),
    ensures
        match (r, plain_overrides_of(text@)) {
            (Ok(o), Ok(s)) => o.0@ == s.0 && opt_view(o.1) == s.1 && opt_view(o.2) == s.2,
            (Err(e), Err(m)) => e == ProxyNexusError::Message(e->Message_0) && e->Message_0@ == m,
            _ => false,
        },
{
    let v = chars_of(text);
    match find_char(&v, '[') {
        None => Ok((string_of(&trim_chars(&v)), None, None)),
        Some(b) => {
            let head = sub_chars(&v, 0, b);
            assert(head@ =~= v@.take(b as int));
            let name = string_of(&trim_chars(&head));
            match find_char(&v, ']') {
                None => Err(ProxyNexusError::Message(String::from_str("Unclosed bracket in card override"))),
                Some(e) => {
                    let inner = sub_chars(&v, b + 1, e);
                    let t = strip_whitespace(&inner);
                    if t.len() == 0 {
                        return Err(ProxyNexusError::Message(String::from_str("Empty override brackets")));
                    }
                    match find_char(&t, ':') {
                        Some(c) => {
                            let n = t.len();
                            let variant = if c == 0 {
                                None
                            } else {
                                assert(t@.take(c as int) =~= t@.subrange(0, c as int));
                                Some(string_of_range(&t, 0, c))
                            };
                            let collection = if c + 1 == n {
                                None
                            } else {
                                assert(t@.skip(c + 1) =~= t@.subrange(c + 1, n as int));
                                Some(string_of_range(&t, c + 1, n))
                            };
                            Ok((name, variant, collection))
                        },
                        None => Ok((name, Some(string_of(&t)), None)),
                    }
                },
            }
        },
    }
}

/// One line of a card list: name, quantity, variant and collection.
#[derive(Clone, Debug, PartialEq, Eq)]
pub struct PlainEntry {
    pub name: String,
    pub quantity: u32,
    pub variant: Option<String>,
    pub collection: Option<String>,
}

pub open spec fn plain_entry_view(e: PlainEntry) -> (Seq<char>, u32, Option<Seq<char>>, Option<Seq<char>>) {
    (e.name@, e.quantity, opt_view(e.variant), opt_view(e.collection))
}

/// The entries of the non-empty lines (each trimmed), or the failure of the
/// first line that fails.
pub open spec fn plain_entries(ls: Seq<Seq<char>>) -> Result<Seq<(Seq<char>, u32, Option<Seq<char>>, Option<Seq<char>>)>, Seq<char>>
    decreases ls.len(),
{
    if ls.len() == 0 {
        Ok(Seq::empty())
    } else {
        let line = trim(ls[0]);
        if line.len() == 0 {
            plain_entries(ls.drop_first())
        } else {
            let (qty, rest) = quantity_split(line);
            match plain_overrides_of(rest) {
                Err(m) => Err(m),
                Ok((name, v, c)) => match plain_entries(ls.drop_first()) {
                    Ok(es) => Ok(seq![(name, qty, v, c)] + es),
                    Err(m) => Err(m),
                },
            }
        }
    }
}

pub open spec fn plain_brackets_ordered(text: Seq<char>) -> bool {
    forall|k: int| 0 <= k < lines(text).len() ==> brackets_ordered(quantity_split(trim(#[trigger] lines(text)[k])).1)
}

pub open spec fn prepend_plain(
    done: Seq<(Seq<char>, u32, Option<Seq<char>>, Option<Seq<char>>)>,
    r: Result<Seq<(Seq<char>, u32, Option<Seq<char>>, Option<Seq<char>>)>, Seq<char>>,
) -> Result<Seq<(Seq<char>, u32, Option<Seq<char>>, Option<Seq<char>>)>, Seq<char>> {
    match r {
        Ok(es) => Ok(done + es),
        Err(m) => Err(m),
    }
}

/// Reads the lines of a card list into entries.
pub fn parse_cardlist_entries(text: &str) -> (r: Result<Vec<PlainEntry>, ProxyNexusError>)
    requires
        plain_brackets_ordered(text@),
    ensures
        match (r, plain_entries(lines(text@))) {
            (Ok(es), Ok(s)) => es@.map_values(|e: PlainEntry| plain_entry_view(e)) == s,
            (Err(e), Err(m)) => e == ProxyNexusError::Message(e->Message_0) && e->Message_0@ == m,
            _ => false,
        },
{
    let v = chars_of(text);
    let ls = lines_of(&v);
    let ghost all = lines(text@);
    let mut out: Vec<PlainEntry> = Vec::new();
    let mut k: usize = 0;
    assert(all.skip(0) =~= all);
    assert(Seq::<(Seq<char>, u32, Option<Seq<char>>, Option<Seq<char>>)>::empty() + Seq::empty() =~= Seq::<(Seq<char>, u32, Option<Seq<char>>, Option<Seq<char>>)>::empty());
    while k < ls.len()
        invariant
            v@ == text@,
            all == lines(text@),
            plain_brackets_ordered(text@),
            ls@.len() == all.len(),
            forall|i: int| 0 <= i < ls@.len() ==> (#[trigger] ls@[i])@ == all[i],
            k <= ls@.len(),
            plain_entries(all) == prepend_plain(
                out@.map_values(|e: PlainEntry| plain_entry_view(e)),
                plain_entries(all.skip(k as int)),
            ),
        decreases ls.len() - k,
    {
        let ghost rest_lines = all.skip(k as int);
        assert(rest_lines[0] == all[k as int]);
        assert(rest_lines.drop_first() =~= all.skip(k + 1));
        assert(ls@[k as int]@ == all[k as int]);
        let line = trim_chars(&ls[k]);
        if line.len() > 0 {
            let ls_str = string_of(&line);
            let (qty, rest) = crate::card_store::parse_quantity(ls_str.as_str());
            assert(brackets_ordered(quantity_split(trim(all[k as int])).1));
            match parse_overrides(rest.as_str()) {
                Err(e) => {
                    return Err(e);
                },
                Ok((name, variant, collection)) => {
                    let entry = PlainEntry { name, quantity: qty, variant, collection };
                    let ghost before = out@.map_values(|e: PlainEntry| plain_entry_view(e));
                    out.push(entry);
                    proof {
                        assert(out@.map_values(|e: PlainEntry| plain_entry_view(e)) =~= before.push(plain_entry_view(entry)));
                        match plain_entries(all.skip(k + 1)) {
                            Ok(es) => {
                                assert(before + (seq![plain_entry_view(entry)] + es) =~= before.push(plain_entry_view(entry)) + es);
                            },
                            Err(_) => {},
                        }
                    }
                },
            }
        }
        k = k + 1;
    }
    proof {
        assert(all.skip(k as int) =~= Seq::<Seq<char>>::empty());
        assert(out@.map_values(|e: PlainEntry| plain_entry_view(e)) + Seq::empty() =~= out@.map_values(|e: PlainEntry| plain_entry_view(e)));
    }
    Ok(out)
}

pub open spec fn plain_request(code: Seq<char>, e: (Seq<char>, u32, Option<Seq<char>>, Option<Seq<char>>)) -> RequestView {
    RequestView { title: Seq::empty(), code, variant: e.2, collection: e.3, pack_code: None }
}

/// The code of an entry's name, when the lookup found one.
pub open spec fn lookup_view(l: Option<String>) -> Option<Seq<char>> {
    match l {
        Some(c) => Some(c@),
        None => None,
    }
}

/// Each of the first `n` entries with the code that was found for its own
/// name, repeated as often as its quantity; an entry whose name was not found
/// asks for nothing.
pub open spec fn paired_requests(
    lookups: Seq<Option<Seq<char>>>,
    entries: Seq<(Seq<char>, u32, Option<Seq<char>>, Option<Seq<char>>)>,
    n: int,
) -> Seq<RequestView>
    decreases n,
{
    if n <= 0 {
        Seq::empty()
    } else {
        let prev = paired_requests(lookups, entries, n - 1);
        match lookups[n - 1] {
            Some(code) => prev + Seq::new(entries[n - 1].1 as nat, |k: int| plain_request(code, entries[n - 1])),
            None => prev,
        }
    }
}

pub open spec fn min_len(a: nat, b: nat) -> nat {
    if a < b {
        a
    } else {
        b
    }
}

/// The requests of a card list: each entry with the lookup of its own name
/// (the lookup at the same index), as far as both lists go.
pub fn requests_from_codes(lookups: &Vec<Option<String>>, entries: &Vec<PlainEntry>) -> (r: Vec<CardRequest>)
    requires
        paired_requests(
            lookups@.map_values(|l: Option<String>| lookup_view(l)),
            entries@.map_values(|e: PlainEntry| plain_entry_view(e)),
            min_len(lookups@.len(), entries@.len()) as int,
        ).len() <= usize::MAX,
    ensures
        r@.map_values(|q: CardRequest| q@) == paired_requests(
            lookups@.map_values(|l: Option<String>| lookup_view(l)),
            entries@.map_values(|e: PlainEntry| plain_entry_view(e)),
            min_len(lookups@.len(), entries@.len()) as int,
        ),
{
    let ghost lv = lookups@.map_values(|l: Option<String>| lookup_view(l));
    let ghost ev = entries@.map_values(|e: PlainEntry| plain_entry_view(e));
    let n = if lookups.len() < entries.len() {
        lookups.len()
    } else {
        entries.len()
    };
    let mut out: Vec<CardRequest> = Vec::new();
    let mut i: usize = 0;
    while i < n
        invariant
            lv == lookups@.map_values(|l: Option<String>| lookup_view(l)),
            ev == entries@.map_values(|e: PlainEntry| plain_entry_view(e)),
            n == min_len(lookups@.len(), entries@.len()),
            i <= n,
            paired_requests(lv, ev, n as int).len() <= usize::MAX,
            out@.map_values(|q: CardRequest| q@) == paired_requests(lv, ev, i as int),
        decreases n - i,
    {
        proof {
            lemma_paired_grows(lv, ev, i + 1, n as int);
        }
        match &lookups[i] {
            None => {
                assert(lv[i as int] == lookup_view(lookups@[i as int]));
            },
            Some(code) => {
                assert(lv[i as int] == Some(code@));
                let e = &entries[i];
                let request = CardRequest {
                    title: String::new(),
                    code: code.clone(),
                    variant: clone_opt(&e.variant),
                    collection: clone_opt(&e.collection),
                    pack_code: None,
                };
                let ghost want = plain_request(code@, ev[i as int]);
                assert(request@ == want);
                let ghost base = out@.map_values(|q: CardRequest| q@);
                let mut m: u32 = 0;
                while m < e.quantity
                    invariant
                        m <= e.quantity,
                        out@.map_values(|q: CardRequest| q@) == base + Seq::new(m as nat, |j: int| want),
                        base.len() + e.quantity <= usize::MAX,
                        request@ == want,
                    decreases e.quantity - m,
                {
                    let ghost before = out@.map_values(|q: CardRequest| q@);
                    let d = request.duplicate();
                    out.push(d);
                    assert(out@.map_values(|q: CardRequest| q@) =~= before.push(want));
                    assert(Seq::new((m + 1) as nat, |j: int| want) =~= Seq::new(m as nat, |j: int| want).push(want));
                    m = m + 1;
                }
            },
        }
        i = i + 1;
    }
    out
}

proof fn lemma_paired_grows(
    lookups: Seq<Option<Seq<char>>>,
    entries: Seq<(Seq<char>, u32, Option<Seq<char>>, Option<Seq<char>>)>,
    a: int,
    b: int,
)
    requires
        0 <= a <= b,
    ensures
        paired_requests(lookups, entries, a).len() <= paired_requests(lookups, entries, b).len(),
    decreases b - a,
{
    if a < b {
        lemma_paired_grows(lookups, entries, a, b - 1);
    }
}

// ---------------------------------------------------------------------------
// Choosing a printing
// ---------------------------------------------------------------------------

/// The first printing from `i` on with the given variant and collection
/// (either left open when absent).
pub open spec fn first_with(ps: Seq<PrintingView>, v: Option<Seq<char>>, c: Option<Seq<char>>, i: int) -> Option<int>
    decreases ps.len() - i,
{
    if i < 0 || i >= ps.len() {
        None
    } else if (v is None || ps[i].variant == v->0) && (c is None || ps[i].collection == c->0) {
        Some(i)
    } else {
        first_with(ps, v, c, i + 1)
    }
}

/// The printing chosen for a request, or the message of the failure:
/// 1. variant and collection named: the printing with both;
/// 2. variant named: with it in the default collection, else anywhere;
/// 3. collection named: its original, else any of its printings;
/// 4. nothing named: the original of the default collection, else any
///    original, else the first printing.
pub open spec fn plain_choice(r: RequestView, ps: Seq<PrintingView>, default: Option<Seq<char>>) -> Result<int, Seq<char>> {
    match (r.variant, r.collection) {
        (Some(v), Some(c)) => match first_with(ps, Some(v), Some(c), 0) {
            Some(i) => Ok(i),
            None => Err("Printing not found: variant '"@ + v + "' in collection '"@ + c + "' for card "@ + r.code),
        },
        (Some(v), None) => {
            let in_default = match default {
                Some(d) => first_with(ps, Some(v), Some(d), 0),
                None => None,
            };
            match in_default {
                Some(i) => Ok(i),
                None => match first_with(ps, Some(v), None, 0) {
                    Some(i) => Ok(i),
                    None => Err("Variant '"@ + v + "' not found for card "@ + r.code),
                },
            }
        },
        (None, Some(c)) => match first_with(ps, Some("original"@), Some(c), 0) {
            Some(i) => Ok(i),
            None => match first_with(ps, None, Some(c), 0) {
                Some(i) => Ok(i),
                None => Err("Collection '"@ + c + "' not found for card "@ + r.code),
            },
        },
        (None, None) => {
            let in_default = match default {
                Some(d) => first_with(ps, Some("original"@), Some(d), 0),
                None => None,
            };
            match in_default {
                Some(i) => Ok(i),
                None => match first_with(ps, Some("original"@), None, 0) {
                    Some(i) => Ok(i),
                    None => Ok(0),
                },
            }
        },
    }
}

fn find_with(ps: &[Printing], v: &Option<Vec<char>>, c: &Option<Vec<char>>) -> (r: Option<usize>)
    ensures
        match r {
            Some(i) => first_with(printing_views(ps@), opt_seq(*v), opt_seq(*c), 0) == Some(i as int) && i < ps@.len(),
            None => first_with(printing_views(ps@), opt_seq(*v), opt_seq(*c), 0) is None,
        },
{
    let ghost pv = printing_views(ps@);
    let mut i: usize = 0;
    while i < ps.len()
        invariant
            pv == printing_views(ps@),
            i <= ps@.len(),
            first_with(pv, opt_seq(*v), opt_seq(*c), 0) == first_with(pv, opt_seq(*v), opt_seq(*c), i as int),
        decreases ps.len() - i,
    {
        let vm = match v {
            Some(x) => {
                let pvar = chars_of(ps[i].variant.as_str());
                chars_eq(&pvar, x)
            },
            None => true,
        };
        let cm = match c {
            Some(x) => {
                let pcol = chars_of(ps[i].collection.as_str());
                chars_eq(&pcol, x)
            },
            None => true,
        };
        if vm && cm {
            return Some(i);
        }
        i = i + 1;
    }
    None
}

pub open spec fn opt_seq(o: Option<Vec<char>>) -> Option<Seq<char>> {
    match o {
        Some(v) => Some(v@),
        None => None,
    }
}

fn opt_chars(o: &Option<String>) -> (r: Option<Vec<char>>)
    ensures
        opt_seq(r) == opt_view(*o),
{
    match o {
        Some(s) => Some(chars_of(s.as_str())),
        None => None,
    }
}

/// Chooses the printing for a request by the rules of [`plain_choice`].
pub fn select_printing(request: &CardRequest, printings: &[Printing], default_collection: &Option<String>) -> (r: Result<
    Printing,
    ProxyNexusError,
>)
    requires
        printings@.len() > 0,
    ensures
        match (r, plain_choice(request@, printing_views(printings@), opt_view(*default_collection))) {
            (Ok(p), Ok(i)) => 0 <= i < printings@.len() && p@ == printings@[i]@,
            (Err(e), Err(m)) => e == ProxyNexusError::Message(e->Message_0) && e->Message_0@ == m,
            _ => false,
        },
{
    let v = opt_chars(&request.variant);
    let c = opt_chars(&request.collection);
    let d = opt_chars(default_collection);
    let original = Some(chars_of("original"));
    let none: Option<Vec<char>> = None;
    match (&v, &c) {
        (Some(_), Some(_)) => match find_with(printings, &v, &c) {
            Some(i) => Ok(printings[i].duplicate()),
            None => {
                let mut m = concat3("Printing not found: variant '", request.variant.as_ref().unwrap().as_str(), "' in collection '");
                m.append(request.collection.as_ref().unwrap().as_str());
                m.append("' for card ");
                m.append(request.code.as_str());
                Err(ProxyNexusError::Message(m))
            },
        },
        (Some(_), None) => {
            let in_default = match &d {
                Some(_) => find_with(printings, &v, &d),
                None => None,
            };
            match in_default {
                Some(i) => Ok(printings[i].duplicate()),
                None => match find_with(printings, &v, &none) {
                    Some(i) => Ok(printings[i].duplicate()),
                    None => {
                        let mut m = concat3("Variant '", request.variant.as_ref().unwrap().as_str(), "' not found for card ");
                        m.append(request.code.as_str());
                        Err(ProxyNexusError::Message(m))
                    },
                },
            }
        },
        (None, Some(_)) => match find_with(printings, &original, &c) {
            Some(i) => Ok(printings[i].duplicate()),
            None => match find_with(printings, &none, &c) {
                Some(i) => Ok(printings[i].duplicate()),
                None => {
                    let mut m = concat3("Collection '", request.collection.as_ref().unwrap().as_str(), "' not found for card ");
                    m.append(request.code.as_str());
                    Err(ProxyNexusError::Message(m))
                },
            },
        },
        (None, None) => {
            let in_default = match &d {
                Some(_) => find_with(printings, &original, &d),
                None => None,
            };
            match in_default {
                Some(i) => Ok(printings[i].duplicate()),
                None => match find_with(printings, &original, &none) {
                    Some(i) => Ok(printings[i].duplicate()),
                    None => Ok(printings[0].duplicate()),
                },
            }
        },
    }
}

// ---------------------------------------------------------------------------
// Grouping the printings found and answering every request
// ---------------------------------------------------------------------------

/// A card code with the printings found for it, in the order they were read.
pub struct CodePrintings {
    pub code: String,
    pub printings: Vec<Printing>,
}

pub open spec fn group_view(g: CodePrintings) -> (Seq<char>, Seq<PrintingView>) {
    (g.code@, printing_views(g.printings@))
}

pub open spec fn groups_view(gs: Seq<CodePrintings>) -> Seq<(Seq<char>, Seq<PrintingView>)> {
    gs.map_values(|g: CodePrintings| group_view(g))
}

/// The first group from `i` on with the given code.
pub open spec fn group_of(gs: Seq<(Seq<char>, Seq<PrintingView>)>, code: Seq<char>, i: int) -> Option<int>
    decreases gs.len() - i,
{
    if i < 0 || i >= gs.len() {
        None
    } else if gs[i].0 == code {
        Some(i)
    } else {
        group_of(gs, code, i + 1)
    }
}

/// The printings read, grouped by card code: a group for each code in the
/// order first met, each holding that code's printings in the order read.
pub open spec fn grouped(ps: Seq<PrintingView>) -> Seq<(Seq<char>, Seq<PrintingView>)>
    decreases ps.len(),
{
    if ps.len() == 0 {
        Seq::empty()
    } else {
        let prev = grouped(ps.drop_last());
        let p = ps.last();
        match group_of(prev, p.card_code, 0) {
            Some(k) => prev.update(k, (prev[k].0, prev[k].1.push(p))),
            None => prev.push((p.card_code, seq![p])),
        }
    }
}

proof fn lemma_group_of(gs: Seq<(Seq<char>, Seq<PrintingView>)>, code: Seq<char>, i: int)
    requires
        0 <= i,
    ensures
        match group_of(gs, code, i) {
            Some(k) => i <= k < gs.len() && gs[k].0 == code,
            None => forall|j: int| i <= j < gs.len() ==> gs[j].0 != code,
        },
    decreases gs.len() - i,
{
    if i < gs.len() && gs[i].0 != code {
        lemma_group_of(gs, code, i + 1);
    }
}

/// Grouping splits the printings by code: no group is empty, every
/// printing of a group has the group's code, and no two groups share one.
pub proof fn law_grouped_partition(ps: Seq<PrintingView>)
    ensures
        forall|j: int| 0 <= j < grouped(ps).len() ==> (#[trigger] grouped(ps)[j]).1.len() > 0,
        forall|j: int, q: int|
            0 <= j < grouped(ps).len() && 0 <= q < grouped(ps)[j].1.len() ==> (#[trigger] grouped(ps)[j].1[q]).card_code
                == grouped(ps)[j].0,
        forall|j: int, k: int|
            0 <= j < k < grouped(ps).len() ==> (#[trigger] grouped(ps)[j]).0 != (#[trigger] grouped(ps)[k]).0,
    decreases ps.len(),
{
    if ps.len() > 0 {
        law_grouped_partition(ps.drop_last());
        let prev = grouped(ps.drop_last());
        let p = ps.last();
        lemma_group_of(prev, p.card_code, 0);
        let g = grouped(ps);
        match group_of(prev, p.card_code, 0) {
            Some(k) => {
                assert forall|j: int, q: int|
                    0 <= j < g.len() && 0 <= q < g[j].1.len() implies (#[trigger] g[j].1[q]).card_code == g[j].0 by {
                    if j == k {
                        if q < prev[k].1.len() {
                            assert(g[j].1[q] == prev[k].1[q]);
                        }
                    } else {
                        assert(g[j] == prev[j]);
                    }
                }
                assert forall|j: int| 0 <= j < g.len() implies (#[trigger] g[j]).1.len() > 0 by {
                    if j != k {
                        assert(g[j] == prev[j]);
                    }
                }
                assert forall|j: int, m: int| 0 <= j < m < g.len() implies (#[trigger] g[j]).0 != (#[trigger] g[m]).0 by {
                    assert(g[j].0 == prev[j].0);
                    assert(g[m].0 == prev[m].0);
                }
            },
            None => {
                assert forall|j: int, q: int|
                    0 <= j < g.len() && 0 <= q < g[j].1.len() implies (#[trigger] g[j].1[q]).card_code == g[j].0 by {
                    if j < prev.len() {
                        assert(g[j] == prev[j]);
                    }
                }
                assert forall|j: int| 0 <= j < g.len() implies (#[trigger] g[j]).1.len() > 0 by {
                    if j < prev.len() {
                        assert(g[j] == prev[j]);
                    }
                }
                assert forall|j: int, m: int| 0 <= j < m < g.len() implies (#[trigger] g[j]).0 != (#[trigger] g[m]).0 by {
                    assert(g[j] == prev[j]);
                    if m < prev.len() {
                        assert(g[m] == prev[m]);
                    }
                }
            },
        }
    }
}

fn find_group(groups: &Vec<CodePrintings>, code: &str) -> (r: Option<usize>)
    ensures
        match r {
            Some(k) => group_of(groups_view(groups@), code@, 0) == Some(k as int) && k < groups@.len(),
            None => group_of(groups_view(groups@), code@, 0) is None,
        },
{
    let ghost gv = groups_view(groups@);
    let mut i: usize = 0;
    while i < groups.len()
        invariant
            gv == groups_view(groups@),
            i <= groups@.len(),
            group_of(gv, code@, 0) == group_of(gv, code@, i as int),
        decreases groups.len() - i,
    {
        if crate::text::str_eq(groups[i].code.as_str(), code) {
            return Some(i);
        }
        i = i + 1;
    }
    None
}

/// Groups the printings read by card code.
pub fn group_printings_by_code(rows: &Vec<Printing>) -> (r: Vec<CodePrintings>)
    ensures
        groups_view(r@) == grouped(printing_views(rows@)),
        groups_nonempty(r@),
{
    let ghost pv = printing_views(rows@);
    let mut groups: Vec<CodePrintings> = Vec::new();
    let mut i: usize = 0;
    while i < rows.len()
        invariant
            i <= rows@.len(),
            pv == printing_views(rows@),
            groups_view(groups@) == grouped(pv.take(i as int)),
        decreases rows.len() - i,
    {
        let p = &rows[i];
        assert(pv.take(i as int + 1).drop_last() =~= pv.take(i as int));
        assert(pv.take(i as int + 1).last() == p@);
        let ghost prev = groups_view(groups@);
        match find_group(&groups, p.card_code.as_str()) {
            Some(k) => {
                let mut ps = crate::models::duplicate_printings(&groups[k].printings);
                ps.push(p.duplicate());
                let code = groups[k].code.clone();
                assert(printing_views(ps@) =~= prev[k as int].1.push(p@));
                groups.set(k, CodePrintings { code, printings: ps });
                assert(groups_view(groups@) =~= prev.update(k as int, (prev[k as int].0, prev[k as int].1.push(p@))));
            },
            None => {
                let mut ps: Vec<Printing> = Vec::new();
                ps.push(p.duplicate());
                assert(printing_views(ps@) =~= seq![p@]);
                groups.push(CodePrintings { code: p.card_code.clone(), printings: ps });
                assert(groups_view(groups@) =~= prev.push((p@.card_code, seq![p@])));
            },
        }
        i = i + 1;
    }
    assert(pv.take(i as int) =~= pv);
    proof {
        law_grouped_partition(pv);
        assert forall|j: int| 0 <= j < groups@.len() implies (#[trigger] groups@[j]).printings@.len() > 0 by {
            assert(groups_view(groups@)[j] == group_view(groups@[j]));
            assert(grouped(pv)[j].1.len() > 0);
        }
    }
    groups
}

/// Every request answered in turn from the printings of its code; a
/// request whose code has no printings is left out, and the first request
/// that cannot be answered gives the error.
pub open spec fn answered(
    reqs: Seq<RequestView>,
    gs: Seq<(Seq<char>, Seq<PrintingView>)>,
    default: Option<Seq<char>>,
) -> Result<Seq<PrintingView>, Seq<char>>
    decreases reqs.len(),
{
    if reqs.len() == 0 {
        Ok(Seq::empty())
    } else {
        match answered(reqs.drop_last(), gs, default) {
            Err(m) => Err(m),
            Ok(done) => {
                let r = reqs.last();
                match group_of(gs, r.code, 0) {
                    None => Ok(done),
                    Some(k) => match plain_choice(r, gs[k].1, default) {
                        Ok(i) => Ok(done.push(gs[k].1[i])),
                        Err(m) => Err(m),
                    },
                }
            },
        }
    }
}

proof fn lemma_answered_err_stays(
    reqs: Seq<RequestView>,
    gs: Seq<(Seq<char>, Seq<PrintingView>)>,
    default: Option<Seq<char>>,
    a: int,
    b: int,
)
    requires
        0 <= a <= b <= reqs.len(),
        answered(reqs.take(a), gs, default) is Err,
    ensures
        answered(reqs.take(b), gs, default) == answered(reqs.take(a), gs, default),
    decreases b - a,
{
    if a < b {
        lemma_answered_err_stays(reqs, gs, default, a, b - 1);
        assert(reqs.take(b).drop_last() =~= reqs.take(b - 1));
    }
}

pub open spec fn groups_nonempty(gs: Seq<CodePrintings>) -> bool {
    forall|j: int| 0 <= j < gs.len() ==> (#[trigger] gs[j]).printings@.len() > 0
}

/// Answers every request from the printings grouped by code, with the
/// default collection given.
pub fn resolve_printings(
    requests: &Vec<CardRequest>,
    available: &Vec<CodePrintings>,
    default_collection: &Option<String>,
) -> (r: Result<Vec<Printing>, ProxyNexusError>)
    requires
        groups_nonempty(available@),
    ensures
        match (r, answered(requests@.map_values(|q: CardRequest| q@), groups_view(available@), opt_view(*default_collection))) {
            (Ok(v), Ok(s)) => printing_views(v@) == s,
            (Err(e), Err(m)) => e == ProxyNexusError::Message(e->Message_0) && e->Message_0@ == m,
            _ => false,
        },
{
    let ghost reqs = requests@.map_values(|q: CardRequest| q@);
    let ghost gv = groups_view(available@);
    let ghost d = opt_view(*default_collection);
    let mut out: Vec<Printing> = Vec::new();
    let mut i: usize = 0;
    assert(printing_views(out@) =~= Seq::<PrintingView>::empty());
    while i < requests.len()
        invariant
            i <= requests@.len(),
            reqs == requests@.map_values(|q: CardRequest| q@),
            gv == groups_view(available@),
            d == opt_view(*default_collection),
            groups_nonempty(available@),
            answered(reqs.take(i as int), gv, d) == Ok::<Seq<PrintingView>, Seq<char>>(printing_views(out@)),
        decreases requests.len() - i,
    {
        let req = &requests[i];
        let ghost old_out = printing_views(out@);
        assert(reqs.take(i as int + 1).drop_last() =~= reqs.take(i as int));
        assert(reqs.take(i as int + 1).last() == req@);
        match find_group(available, req.code.as_str()) {
            None => {},
            Some(k) => {
                let group = &available[k].printings;
                assert(gv[k as int].1 == printing_views(group@));
                match select_printing(req, group.as_slice(), default_collection) {
                    Ok(p) => {
                        out.push(p);
                        assert(printing_views(out@) =~= old_out.push(p@));
                    },
                    Err(e) => {
                        proof {
                            lemma_answered_err_stays(reqs, gv, d, i as int + 1, reqs.len() as int);
                            assert(reqs.take(reqs.len() as int) =~= reqs);
                        }
                        return Err(e);
                    },
                }
            },
        }
        i = i + 1;
    }
    assert(reqs.take(i as int) =~= reqs);
    Ok(out)
}

// ---------------------------------------------------------------------------
// Names looked up one by one, and the cards of a set
// ---------------------------------------------------------------------------

/// The codes found, in the order of the names; a name without a code is
/// left out.
pub open spec fn found_codes(lookups: Seq<Option<String>>) -> Seq<Seq<char>>
    decreases lookups.len(),
{
    if lookups.len() == 0 {
        Seq::empty()
    } else {
        let prev = found_codes(lookups.drop_last());
        match lookups.last() {
            Some(c) => prev.push(c@),
            None => prev,
        }
    }
}

/// The names that no code was found for, in their order.
pub open spec fn names_not_found(names: Seq<String>, lookups: Seq<Option<String>>) -> Seq<Seq<char>>
    decreases lookups.len(),
{
    if lookups.len() == 0 || names.len() == 0 {
        Seq::empty()
    } else {
        let prev = names_not_found(names.drop_last(), lookups.drop_last());
        match lookups.last() {
            Some(_) => prev,
            None => prev.push(names.last()@),
        }
    }
}

/// Splits the answers of the title lookups, one per name, into the codes
/// found and the names not found.
pub fn codes_of_found(names: &Vec<String>, lookups: &Vec<Option<String>>) -> (r: (Vec<String>, Vec<String>))
    requires
        names@.len() == lookups@.len(),
    ensures
        r.0@.map_values(|s: String| s@) == found_codes(lookups@),
        r.1@.map_values(|s: String| s@) == names_not_found(names@, lookups@),
{
    let mut codes: Vec<String> = Vec::new();
    let mut missing: Vec<String> = Vec::new();
    let mut i: usize = 0;
    while i < lookups.len()
        invariant
            i <= lookups@.len(),
            names@.len() == lookups@.len(),
            codes@.map_values(|s: String| s@) == found_codes(lookups@.take(i as int)),
            missing@.map_values(|s: String| s@) == names_not_found(names@.take(i as int), lookups@.take(i as int)),
        decreases lookups.len() - i,
    {
        assert(lookups@.take(i as int + 1).drop_last() =~= lookups@.take(i as int));
        assert(names@.take(i as int + 1).drop_last() =~= names@.take(i as int));
        let ghost cb = codes@.map_values(|s: String| s@);
        let ghost mb = missing@.map_values(|s: String| s@);
        match &lookups[i] {
            Some(c) => {
                codes.push(c.clone());
                assert(codes@.map_values(|s: String| s@) =~= cb.push(c@));
            },
            None => {
                missing.push(names[i].clone());
                assert(missing@.map_values(|s: String| s@) =~= mb.push(names@[i as int]@));
            },
        }
        i = i + 1;
    }
    assert(lookups@.take(i as int) =~= lookups@);
    assert(names@.take(i as int) =~= names@);
    (codes, missing)
}

pub open spec fn set_count_request(code: Seq<char>) -> RequestView {
    RequestView { title: Seq::empty(), code, variant: None, collection: None, pack_code: None }
}

/// Each code of the set repeated as often as its count.
pub open spec fn set_count_requests(rows: Seq<(String, u32)>) -> Seq<RequestView>
    decreases rows.len(),
{
    if rows.len() == 0 {
        Seq::empty()
    } else {
        set_count_requests(rows.drop_last()) + Seq::new(
            rows.last().1 as nat,
            |k: int| set_count_request(rows.last().0@),
        )
    }
}

pub open spec fn no_set_message(set_name: Seq<char>) -> Seq<char> {
    "No cards found for set '"@ + set_name + "'"@
}

/// The requests for the cards of a set, read as codes with their counts;
/// fails when the set has no card at all.
pub fn requests_from_set_counts(set_name: &str, rows: &Vec<(String, u32)>) -> (r: Result<
    Vec<CardRequest>,
    ProxyNexusError,
>)
    requires
        set_count_requests(rows@).len() <= usize::MAX,
    ensures
        match r {
            Ok(v) => rows@.len() > 0 && v@.map_values(|q: CardRequest| q@) == set_count_requests(rows@),
            Err(e) => rows@.len() == 0 && e == ProxyNexusError::Message(e->Message_0) && e->Message_0@
                == no_set_message(set_name@),
        },
{
    if rows.len() == 0 {
        return Err(ProxyNexusError::Message(concat3("No cards found for set '", set_name, "'")));
    }
    let mut out: Vec<CardRequest> = Vec::new();
    let mut i: usize = 0;
    while i < rows.len()
        invariant
            i <= rows@.len(),
            set_count_requests(rows@).len() <= usize::MAX,
            out@.map_values(|q: CardRequest| q@) == set_count_requests(rows@.take(i as int)),
        decreases rows.len() - i,
    {
        assert(rows@.take(i as int + 1).drop_last() =~= rows@.take(i as int));
        proof {
            lemma_set_counts_grow(rows@, i as int + 1, rows@.len() as int);
            assert(rows@.take(rows@.len() as int) =~= rows@);
        }
        let ghost before = out@.map_values(|q: CardRequest| q@);
        let (code, n) = (&rows[i].0, rows[i].1);
        let mut k: u32 = 0;
        while k < n
            invariant
                k <= n,
                n == rows@[i as int].1,
                *code == rows@[i as int].0,
                out@.map_values(|q: CardRequest| q@) == before + Seq::new(
                    k as nat,
                    |j: int| set_count_request(code@),
                ),
                before.len() + n <= usize::MAX,
            decreases n - k,
        {
            let ghost mid = out@.map_values(|q: CardRequest| q@);
            out.push(CardRequest { title: String::new(), code: code.clone(), variant: None, collection: None, pack_code: None });
            assert(out@.map_values(|q: CardRequest| q@) =~= mid.push(set_count_request(code@)));
            k = k + 1;
            assert(before + Seq::new(k as nat, |j: int| set_count_request(code@)) =~= mid.push(
                set_count_request(code@),
            ));
        }
        i = i + 1;
    }
    assert(rows@.take(i as int) =~= rows@);
    Ok(out)
}

proof fn lemma_set_counts_grow(rows: Seq<(String, u32)>, a: int, b: int)
    requires
        0 <= a <= b <= rows.len(),
    ensures
        set_count_requests(rows.take(a)).len() <= set_count_requests(rows.take(b)).len(),
    decreases b - a,
{
    if a < b {
        lemma_set_counts_grow(rows, a, b - 1);
        assert(rows.take(b).drop_last() =~= rows.take(b - 1));
    }
}

} // verus!
