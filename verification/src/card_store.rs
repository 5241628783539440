//! Turning card lists, set names and deck codes into card requests, and card
//! requests into printings.
use vstd::prelude::*;

use crate::error::{concat3, ProxyNexusError};
use crate::sql::{build_in_clause, joined, quoted, quoted_all, append_quoted};
use crate::models::{
    PartView, PrintingPart, duplicate_parts,
    clone_opt, opt_view, CardRequest, Printing, PrintingView, RequestView,
};
use crate::order::{
    seq_le, seq_le_exec, lemma_seq_le_total, lemma_seq_le_transitive,
    date_le, date_le_exec, lemma_date_le_total, lemma_date_le_transitive,
    lemma_opt_lt_irreflexive, lemma_opt_lt_total, lemma_opt_lt_transitive, opt_lt, str_less,
};
use crate::text::{
    append_padded, decimal_i64, decimal_int, pad_right,
    all_digits, ascii_alnum, ascii_digit, ascii_lower, char_is_alphanumeric, chars_eq, chars_of,
    find, find_char, find_chars, is_ascii_char, lines, lines_of, parse_digits_or_one,
    parse_u32_or_one, split, split_chars, str_to_lowercase, string_of, string_of_range, sub_chars,
    trim, trim_bounds, trim_chars, unicode_alphanumeric, unicode_lowercase, all_ascii, before_char,
};

verus! {

// ---------------------------------------------------------------------------
// Titles
// ---------------------------------------------------------------------------

/// What `deunicode::deunicode` returns for a string.
pub uninterp spec fn transliterated(s: Seq<char>) -> Seq<char>;

/// Every character is below U+007F (DEL): the characters that
/// `deunicode` passes through untouched.
pub open spec fn below_del(s: Seq<char>) -> bool {
    forall|i: int| 0 <= i < s.len() ==> (#[trigger] s[i] as u32) < 0x7F
}

/// Calls `deunicode::deunicode`.  Claimed: the result is ASCII, as its
/// documentation guarantees, and a string whose characters are all below
/// U+007F comes back as it is (its fast path returns such a string
/// unchanged; DEL and the control characters after it are dropped).
#[verifier::external_body]
fn deunicode_str(s: &str) -> (r: String)
    ensures
        r@ == transliterated(s@),
        all_ascii(r@),
        below_del(s@) ==> r@ == s@,
{
    deunicode::deunicode(s)
}

/// Every character that is not alphanumeric becomes `_`.
pub open spec fn underscore_others(s: Seq<char>) -> Seq<char> {
    s.map_values(|c: char| if unicode_alphanumeric(c) { c } else { '_' })
}

/// A title in the form that titles are looked up by.
pub open spec fn normalized_title(s: Seq<char>) -> Seq<char> {
    underscore_others(unicode_lowercase(transliterated(s)))
}

/// The characters of a normalized title: `a`..`z`, digits and `_`.
pub open spec fn normal_title_char(c: char) -> bool {
    ('a' <= c && c <= 'z') || ascii_digit(c) || c == '_'
}

pub open spec fn is_normal_title(s: Seq<char>) -> bool {
    forall|i: int| 0 <= i < s.len() ==> normal_title_char(#[trigger] s[i])
}

pub fn underscore_non_alphanumeric(s: &str) -> (r: String)
    ensures
        r@ == underscore_others(s@),
        forall|i: int|
            0 <= i < s@.len() && is_ascii_char(#[trigger] s@[i]) ==> r@[i] == (if ascii_alnum(
                s@[i],
            ) {
                s@[i]
            } else {
                '_'
            }),
{
    let v = chars_of(s);
    let mut out: Vec<char> = Vec::new();
    let mut i: usize = 0;
    while i < v.len()
        invariant
            v@ == s@,
            i <= v@.len(),
            out@ == underscore_others(v@.subrange(0, i as int)),
            forall|k: int|
                0 <= k < i && is_ascii_char(#[trigger] v@[k]) ==> unicode_alphanumeric(v@[k])
                    == ascii_alnum(v@[k]),
        decreases v.len() - i,
    {
        let c = v[i];
        if char_is_alphanumeric(c) {
            out.push(c);
        } else {
            out.push('_');
        }
        proof {
            assert(underscore_others(v@.subrange(0, i + 1)) =~= underscore_others(
                v@.subrange(0, i as int),
            ).push(if unicode_alphanumeric(c) { c } else { '_' }));
        }
        i = i + 1;
    }
    assert(v@.subrange(0, v@.len() as int) =~= v@);
    string_of(&out)
}

proof fn lemma_lower_ascii(c: char)
    requires
        is_ascii_char(c),
    ensures
        is_ascii_char(crate::text::ascii_lower_char(c)),
        !('A' <= crate::text::ascii_lower_char(c) && crate::text::ascii_lower_char(c) <= 'Z'),
        ascii_alnum(c) == ascii_alnum(crate::text::ascii_lower_char(c)),
{
}

/// Transliterates the title to ASCII, lowers it, and replaces every other
/// character than a letter or digit by `_`.  The result holds only `a`..`z`,
/// digits and `_`, and a title already in that form is returned unchanged.
pub fn normalize_title(title: &str) -> (r: String)
    ensures
        r@ == normalized_title(title@),
        is_normal_title(r@),
        is_normal_title(title@) ==> r@ == title@,
{
    let t = deunicode_str(title);
    let l = str_to_lowercase(t.as_str());
    let r = underscore_non_alphanumeric(l.as_str());
    proof {
        assert(l@ == ascii_lower(t@));
        assert forall|i: int| 0 <= i < r@.len() implies normal_title_char(#[trigger] r@[i]) by {
            assert(is_ascii_char(t@[i]));
            lemma_lower_ascii(t@[i]);
            assert(l@[i] == crate::text::ascii_lower_char(t@[i]));
        }
        if is_normal_title(title@) {
            assert(below_del(title@)) by {
                assert forall|i: int| 0 <= i < title@.len() implies (#[trigger] title@[i] as u32) < 0x7F by {
                    assert(normal_title_char(title@[i]));
                }
            }
            assert(t@ == title@);
            assert(l@ =~= title@) by {
                assert forall|i: int| 0 <= i < title@.len() implies l@[i] == title@[i] by {
                    assert(normal_title_char(title@[i]));
                }
            }
            assert(r@ =~= title@) by {
                assert forall|i: int| 0 <= i < title@.len() implies r@[i] == title@[i] by {
                    assert(normal_title_char(title@[i]));
                    assert(is_ascii_char(l@[i]));
                }
            }
        }
    }
    r
}

/// The characters that may end a card name besides letters and digits.
pub open spec fn name_end_mark(c: char) -> bool {
    c == '!' || c == '.' || c == '*' || c == ')' || c == '"' || c == '\'' || c == '\u{201D}'
        || c == '\u{2019}' || c == '\u{201C}' || c == '\u{2018}'
}

/// The name with its trailing decoration removed: the characters at the end
/// that are neither alphanumeric nor one of [`name_end_mark`].
pub open spec fn cleaned_name(s: Seq<char>) -> Seq<char>
    decreases s.len(),
{
    if s.len() > 0 && !unicode_alphanumeric(s.last()) && !name_end_mark(s.last()) {
        cleaned_name(s.drop_last())
    } else {
        s
    }
}

fn strippable_end(c: char) -> (r: bool)
    ensures
        r == (!unicode_alphanumeric(c) && !name_end_mark(c)),
{
    !char_is_alphanumeric(c) && !(c == '!' || c == '.' || c == '*' || c == ')' || c == '"' || c
        == '\'' || c == '\u{201D}' || c == '\u{2019}' || c == '\u{201C}' || c == '\u{2018}')
}

pub fn clean_card_name(name: &str) -> (r: String)
    ensures
        r@ == cleaned_name(name@),
{
    let v = chars_of(name);
    let mut j: usize = v.len();
    assert(v@.subrange(0, j as int) =~= v@);
    while j > 0 && strippable_end(v[j - 1])
        invariant
            j <= v@.len(),
            cleaned_name(v@) == cleaned_name(v@.subrange(0, j as int)),
        decreases j,
    {
        assert(v@.subrange(0, j as int).drop_last() =~= v@.subrange(0, j - 1));
        j = j - 1;
    }
    proof {
        let t = v@.subrange(0, j as int);
        if t.len() > 0 {
            assert(t.last() == v@[j - 1]);
        }
    }
    string_of_range(&v, 0, j)
}

// ---------------------------------------------------------------------------
// Card list lines
// ---------------------------------------------------------------------------

/// The quantity at the start of a line (`3x Name` or `3 Name`) and the rest;
/// a line without one counts once, as it is.
pub open spec fn quantity_split(line: Seq<char>) -> (u32, Seq<char>) {
    let by_x = match find(line, seq!['x', ' ']) {
        Some(i) => if all_digits(line.take(i)) {
            Some((parse_u32_or_one(line.take(i)), trim(line.skip(i + 2))))
        } else {
            None
        },
        None => None,
    };
    match by_x {
        Some(r) => r,
        None => match find(line, seq![' ']) {
            Some(j) => if all_digits(line.take(j)) {
                (parse_u32_or_one(line.take(j)), trim(line.skip(j + 1)))
            } else {
                (1, line)
            },
            None => (1, line),
        },
    }
}

fn prefix_all_digits(v: &[char], n: usize) -> (r: bool)
    requires
        n <= v@.len(),
    ensures
        r == all_digits(v@.take(n as int)),
{
    let mut i: usize = 0;
    while i < n
        invariant
            n <= v@.len(),
            i <= n,
            forall|k: int| 0 <= k < i ==> ascii_digit(#[trigger] v@[k]),
        decreases n - i,
    {
        if !(v[i] >= '0' && v[i] <= '9') {
            assert(!ascii_digit(v@.take(n as int)[i as int]));
            return false;
        }
        i = i + 1;
    }
    assert forall|k: int| 0 <= k < n implies ascii_digit(#[trigger] v@.take(n as int)[k]) by {
        assert(v@.take(n as int)[k] == v@[k]);
    }
    true
}

pub fn parse_quantity(line: &str) -> (r: (u32, String))
    ensures
        (r.0, r.1@) == quantity_split(line@),
{
    let v = chars_of(line);
    let xs = vec!['x', ' '];
    assert(xs@ =~= seq!['x', ' ']);
    if let Some(i) = find_chars(&v, &xs, 0) {
        proof {
            crate::text::lemma_find_from_bounds(v@, xs@, 0);
            assert(xs@.len() == 2);
            assert(crate::text::matches_at(v@, xs@, i as int));
        }
        if prefix_all_digits(&v, i) {
            assert(v@.take(i as int) =~= v@.subrange(0, i as int));
            let qty = parse_digits_or_one(&v, 0, i);
            let n = v.len();
            let rest = sub_chars(&v, i + 2, n);
            assert(rest@ =~= v@.skip(i + 2));
            let name = trim_chars(&rest);
            return (qty, string_of(&name));
        }
    }
    if let Some(j) = find_char(&v, ' ') {
        if prefix_all_digits(&v, j) {
            assert(v@.take(j as int) =~= v@.subrange(0, j as int));
            let qty = parse_digits_or_one(&v, 0, j);
            let n = v.len();
            let rest = sub_chars(&v, j + 1, n);
            assert(rest@ =~= v@.skip(j + 1));
            let name = trim_chars(&rest);
            return (qty, string_of(&name));
        }
    }
    (1, line.to_owned())
}

// ---------------------------------------------------------------------------
// Choosing a printing for a request
// ---------------------------------------------------------------------------

/// The variant a request asks for: the one it names, else `"original"`.
pub open spec fn target_variant(r: RequestView) -> Seq<char> {
    match r.variant {
        Some(v) => v,
        None => "original"@,
    }
}

pub open spec fn variant_miss(r: RequestView, p: PrintingView) -> bool {
    p.variant != target_variant(r)
}

pub open spec fn collection_miss(r: RequestView, p: PrintingView) -> bool {
    r.collection != Some(p.collection)
}

pub open spec fn pack_miss(r: RequestView, p: PrintingView) -> bool {
    r.pack_code != Some(p.pack_code)
}

pub open spec fn code_miss(r: RequestView, p: PrintingView) -> bool {
    p.card_code != r.code
}

pub open spec fn bit(b: bool) -> nat {
    if b {
        1
    } else {
        0
    }
}

/// How far a printing is from a request, by the priority hierarchy: the
/// variant first, then the collection, then the pack, then the card code;
/// an undated printing comes after a dated one.
pub open spec fn mismatch_rank(r: RequestView, p: PrintingView) -> nat {
    16 * bit(variant_miss(r, p)) + 8 * bit(collection_miss(r, p)) + 4 * bit(pack_miss(r, p)) + 2
        * bit(code_miss(r, p)) + bit(p.date_release is None)
}

/// `p` is a better match for `r` than `q`: a smaller rank, or the same rank
/// and an older release date.
pub open spec fn better_match(r: RequestView, p: PrintingView, q: PrintingView) -> bool {
    ||| mismatch_rank(r, p) < mismatch_rank(r, q)
    ||| (mismatch_rank(r, p) == mismatch_rank(r, q) && opt_lt(p.date_release, q.date_release))
}

/// `ps[i]` is the printing chosen for `r`: no printing is a better match, and
/// every printing before it is a worse match (the first of the best).
pub open spec fn is_choice(r: RequestView, ps: Seq<PrintingView>, i: int) -> bool {
    &&& 0 <= i < ps.len()
    &&& forall|j: int| 0 <= j < ps.len() ==> !better_match(r, #[trigger] ps[j], ps[i])
    &&& forall|j: int| 0 <= j < i ==> better_match(r, ps[i], #[trigger] ps[j])
}

pub proof fn lemma_better_match_irreflexive(r: RequestView, p: PrintingView)
    ensures
        !better_match(r, p, p),
{
    lemma_opt_lt_irreflexive(p.date_release);
}

pub proof fn lemma_better_match_transitive(
    r: RequestView,
    p: PrintingView,
    q: PrintingView,
    s: PrintingView,
)
    requires
        better_match(r, p, q),
        better_match(r, q, s),
    ensures
        better_match(r, p, s),
{
    if mismatch_rank(r, p) == mismatch_rank(r, q) && mismatch_rank(r, q) == mismatch_rank(r, s) {
        lemma_opt_lt_transitive(p.date_release, q.date_release, s.date_release);
    }
}

/// If `p` beats `q` and `s` does not beat `q`, then `p` beats `s`.
pub proof fn lemma_better_match_mixed(
    r: RequestView,
    p: PrintingView,
    q: PrintingView,
    s: PrintingView,
)
    requires
        better_match(r, p, q),
        !better_match(r, s, q),
    ensures
        better_match(r, p, s),
{
    lemma_opt_lt_total(s.date_release, q.date_release);
    if mismatch_rank(r, s) == mismatch_rank(r, q) && s.date_release == q.date_release {
    } else if mismatch_rank(r, s) == mismatch_rank(r, q) {
        assert(opt_lt(q.date_release, s.date_release));
        if mismatch_rank(r, p) == mismatch_rank(r, q) {
            lemma_opt_lt_transitive(p.date_release, q.date_release, s.date_release);
        }
    }
}

pub open spec fn printing_views(ps: Seq<Printing>) -> Seq<PrintingView> {
    ps.map_values(|p: Printing| p@)
}

fn opt_chars(o: &Option<String>) -> (r: Option<Vec<char>>)
    ensures
        match r {
            Some(v) => opt_view(*o) == Some(v@),
            None => o.is_none(),
        },
{
    match o {
        Some(s) => Some(chars_of(s.as_str())),
        None => None,
    }
}

fn opt_is(o: &Option<Vec<char>>, s: &String) -> (r: bool)
    ensures
        r == (match o {
            Some(v) => v@ == s@,
            None => false,
        }),
{
    match o {
        Some(v) => {
            let c = chars_of(s.as_str());
            chars_eq(v, &c)
        },
        None => false,
    }
}

/// The request in the form the comparisons use.
struct RequestKey {
    variant: Vec<char>,
    collection: Option<Vec<char>>,
    pack_code: Option<Vec<char>>,
    code: Vec<char>,
}

impl RequestKey {
    spec fn matches(self, r: RequestView) -> bool {
        &&& self.variant@ == target_variant(r)
        &&& match self.collection {
            Some(v) => r.collection == Some(v@),
            None => r.collection is None,
        }
        &&& match self.pack_code {
            Some(v) => r.pack_code == Some(v@),
            None => r.pack_code is None,
        }
        &&& self.code@ == r.code
    }
}

fn request_key(request: &CardRequest) -> (k: RequestKey)
    ensures
        k.matches(request@),
{
    let variant = match &request.variant {
        Some(v) => chars_of(v.as_str()),
        None => chars_of("original"),
    };
    RequestKey {
        variant,
        collection: opt_chars(&request.collection),
        pack_code: opt_chars(&request.pack_code),
        code: chars_of(request.code.as_str()),
    }
}

fn rank_of(key: &RequestKey, p: &Printing) -> (n: u8)
    requires
        exists|r: RequestView| key.matches(r),
    ensures
        forall|r: RequestView| key.matches(r) ==> n as nat == mismatch_rank(r, p@),
{
    let pv = chars_of(p.variant.as_str());
    let vm = !chars_eq(&pv, &key.variant);
    let cm = !opt_is(&key.collection, &p.collection);
    let pm = !opt_is(&key.pack_code, &p.pack_code);
    let pc = chars_of(p.card_code.as_str());
    let km = !chars_eq(&pc, &key.code);
    let un = p.date_release.is_none();
    let mut n: u8 = 0;
    if vm {
        n = n + 16;
    }
    if cm {
        n = n + 8;
    }
    if pm {
        n = n + 4;
    }
    if km {
        n = n + 2;
    }
    if un {
        n = n + 1;
    }
    n
}

fn date_less(a: &Option<String>, b: &Option<String>) -> (r: bool)
    ensures
        r == opt_lt(opt_view(*a), opt_view(*b)),
{
    match (a, b) {
        (None, Some(_)) => true,
        (Some(x), Some(y)) => {
            let xv = chars_of(x.as_str());
            let yv = chars_of(y.as_str());
            str_less(&xv, &yv)
        },
        _ => false,
    }
}

/// Chooses the printing that best matches the request (see
/// [`mismatch_rank`]); among equally good printings, the first.  Fails only
/// when there is no printing at all.
pub fn select_printing(request: &CardRequest, printings: &[Printing]) -> (res: Result<
    Printing,
    ProxyNexusError,
>)
    ensures
        match res {
            Ok(p) => exists|i: int|
                is_choice(request@, printing_views(printings@), i) && p@ == printings@[i]@,
            Err(e) => {
                &&& printings@.len() == 0
                &&& e matches ProxyNexusError::Message(m)
                &&& m@ == "No matching printing found for '"@ + request.title@ + "'"@
            },
        },
{
    if printings.len() == 0 {
        let msg = concat3("No matching printing found for '", request.title.as_str(), "'");
        return Err(ProxyNexusError::Message(msg));
    }
    let key = request_key(request);
    let ghost r = request@;
    let ghost ps = printing_views(printings@);
    let mut best: usize = 0;
    let mut best_rank = rank_of(&key, &printings[0]);
    let mut i: usize = 1;
    proof {
        lemma_better_match_irreflexive(r, ps[0]);
    }
    while i < printings.len()
        invariant
            1 <= i <= printings@.len(),
            best < i,
            key.matches(r),
            r == request@,
            ps == printing_views(printings@),
            best_rank as nat == mismatch_rank(r, ps[best as int]),
            forall|j: int| 0 <= j < i ==> !better_match(r, #[trigger] ps[j], ps[best as int]),
            forall|j: int| 0 <= j < best ==> better_match(r, ps[best as int], #[trigger] ps[j]),
        decreases printings.len() - i,
    {
        let ri = rank_of(&key, &printings[i]);
        let better = ri < best_rank || (ri == best_rank && date_less(
            &printings[i].date_release,
            &printings[best].date_release,
        ));
        assert(ps[i as int] == printings@[i as int]@);
        assert(ps[best as int] == printings@[best as int]@);
        assert(better == better_match(r, ps[i as int], ps[best as int]));
        if better {
            proof {
                let old_best = best as int;
                assert forall|j: int| 0 <= j < i + 1 implies !better_match(
                    r,
                    #[trigger] ps[j],
                    ps[i as int],
                ) by {
                    if j == i {
                        lemma_better_match_irreflexive(r, ps[i as int]);
                    } else if better_match(r, ps[j], ps[i as int]) {
                        lemma_better_match_transitive(r, ps[j], ps[i as int], ps[old_best]);
                    }
                }
                assert forall|j: int| 0 <= j < i implies better_match(
                    r,
                    ps[i as int],
                    #[trigger] ps[j],
                ) by {
                    lemma_better_match_mixed(r, ps[i as int], ps[old_best], ps[j]);
                }
            }
            best = i;
            best_rank = ri;
        }
        i = i + 1;
    }
    let chosen = printings[best].duplicate();
    assert(is_choice(r, ps, best as int));
    Ok(chosen)
}

/// An override slot of `[variant:collection:pack]`: trimmed and lowered,
/// absent when empty or not written.
pub open spec fn override_slot(parts: Seq<Seq<char>>, k: int) -> Option<Seq<char>> {
    if 0 <= k < parts.len() {
        let c = unicode_lowercase(trim(parts[k]));
        if c.len() == 0 {
            None
        } else {
            Some(c)
        }
    } else {
        None
    }
}

/// The bracket of a line does not close before it opens (where it would,
/// slicing the override text panics).
pub open spec fn brackets_ordered(text: Seq<char>) -> bool {
    match (find(text, seq!['[']), find(text, seq![']'])) {
        (Some(b), Some(e)) => b < e,
        _ => true,
    }
}

pub open spec fn unclosed_bracket_message() -> Seq<char> {
    "Unclosed bracket in card override"@
}

pub open spec fn empty_brackets_message() -> Seq<char> {
    "Empty override brackets"@
}

/// The name and the overrides of `Name [variant:collection:pack]`, or the
/// message of the failure.
pub open spec fn overrides_of(text: Seq<char>) -> Result<
    (Seq<char>, Option<Seq<char>>, Option<Seq<char>>, Option<Seq<char>>),
    Seq<char>,
> {
    match find(text, seq!['[']) {
        None => Ok((trim(text), None, None, None)),
        Some(b) => match find(text, seq![']']) {
            None => Err(unclosed_bracket_message()),
            Some(e) => {
                let inner = text.subrange(b + 1, e);
                if trim(inner).len() == 0 {
                    Err(empty_brackets_message())
                } else {
                    let parts = split(inner, ':');
                    Ok(
                        (
                            trim(text.take(b)),
                            override_slot(parts, 0),
                            override_slot(parts, 1),
                            override_slot(parts, 2),
                        ),
                    )
                }
            },
        },
    }
}

pub fn brackets_in_order(text: &str) -> (r: bool)
    ensures
        r == brackets_ordered(text@),
{
    let v = chars_of(text);
    match (find_char(&v, '['), find_char(&v, ']')) {
        (Some(b), Some(e)) => b < e,
        _ => true,
    }
}

fn slot(parts: &Vec<Vec<char>>, k: usize) -> (r: Option<String>)
    ensures
        opt_view(r) == override_slot(parts@.map_values(|p: Vec<char>| p@), k as int),
{
    let ghost ps = parts@.map_values(|p: Vec<char>| p@);
    if k < parts.len() {
        let t = trim_chars(&parts[k]);
        let ts = string_of(&t);
        let c = str_to_lowercase(ts.as_str());
        if c.unicode_len() == 0 {
            None
        } else {
            Some(c)
        }
    } else {
        None
    }
}

pub fn parse_overrides(text: &str) -> (r: Result<
    (String, Option<String>, Option<String>, Option<String>),
    ProxyNexusError,
>)
    requires
        brackets_ordered(text@),
    ensures
        match (r, overrides_of(text@)) {
            (Ok(o), Ok(s)) => o.0@ == s.0 && opt_view(o.1) == s.1 && opt_view(o.2) == s.2 && opt_view(
                o.3,
            ) == s.3,
            (Err(e), Err(m)) => e == ProxyNexusError::Message(e->Message_0) && e->Message_0@ == m,
            _ => false,
        },
{
    let v = chars_of(text);
    match find_char(&v, '[') {
        None => {
            let t = trim_chars(&v);
            Ok((string_of(&t), None, None, None))
        },
        Some(b) => {
            let head = sub_chars(&v, 0, b);
            assert(head@ =~= v@.take(b as int));
            let name = string_of(&trim_chars(&head));
            match find_char(&v, ']') {
                None => Err(ProxyNexusError::Message(String::from_str("Unclosed bracket in card override"))),
                Some(e) => {
                    let inner = sub_chars(&v, b + 1, e);
                    let (x, y) = trim_bounds(&inner);
                    if x == y {
                        return Err(ProxyNexusError::Message(String::from_str("Empty override brackets")));
                    }
                    let parts = split_chars(&inner, ':');
                    proof {
                        assert(parts@.map_values(|p: Vec<char>| p@) =~= split(inner@, ':'));
                    }
                    Ok((name, slot(&parts, 0), slot(&parts, 1), slot(&parts, 2)))
                },
            }
        },
    }
}

// ---------------------------------------------------------------------------
// Card lists
// ---------------------------------------------------------------------------

/// One line of a card list: the cleaned card name, how many copies, and the
/// overrides written in brackets.
#[derive(Clone, Debug, PartialEq, Eq)]
pub struct CardlistEntry {
    pub name: String,
    pub quantity: u32,
    pub variant: Option<String>,
    pub collection: Option<String>,
    pub pack_code: Option<String>,
}

pub struct EntryView {
    pub name: Seq<char>,
    pub quantity: u32,
    pub variant: Option<Seq<char>>,
    pub collection: Option<Seq<char>>,
    pub pack_code: Option<Seq<char>>,
}

impl View for CardlistEntry {
    type V = EntryView;

    open spec fn view(&self) -> EntryView {
        EntryView {
            name: self.name@,
            quantity: self.quantity,
            variant: opt_view(self.variant),
            collection: opt_view(self.collection),
            pack_code: opt_view(self.pack_code),
        }
    }
}

/// What a line says once its `#` comment is cut off and it is trimmed.
pub open spec fn line_content(line: Seq<char>) -> Seq<char> {
    trim(before_char(line, '#'))
}

/// The entry of a line that has content, or the message of its failure.
pub open spec fn entry_of(content: Seq<char>) -> Result<EntryView, Seq<char>> {
    let (qty, rest) = quantity_split(content);
    match overrides_of(rest) {
        Ok((name, v, c, p)) => Ok(
            EntryView { name: cleaned_name(name), quantity: qty, variant: v, collection: c, pack_code: p },
        ),
        Err(m) => Err(m),
    }
}

/// The entries of the lines that have content, or the failure of the first
/// line that fails.
pub open spec fn entries_of(ls: Seq<Seq<char>>) -> Result<Seq<EntryView>, Seq<char>>
    decreases ls.len(),
{
    if ls.len() == 0 {
        Ok(Seq::empty())
    } else {
        let c = line_content(ls[0]);
        if c.len() == 0 {
            entries_of(ls.drop_first())
        } else {
            match entry_of(c) {
                Err(m) => Err(m),
                Ok(e) => match entries_of(ls.drop_first()) {
                    Ok(es) => Ok(seq![e] + es),
                    Err(m) => Err(m),
                },
            }
        }
    }
}

pub open spec fn cardlist_entries(text: Seq<char>) -> Result<Seq<EntryView>, Seq<char>> {
    entries_of(lines(text))
}

/// No line of the list has its closing bracket before its opening one.
pub open spec fn cardlist_brackets_ordered(text: Seq<char>) -> bool {
    forall|k: int|
        0 <= k < lines(text).len() ==> brackets_ordered(
            quantity_split(line_content(#[trigger] lines(text)[k])).1,
        )
}

pub open spec fn prepend_entries(
    done: Seq<EntryView>,
    r: Result<Seq<EntryView>, Seq<char>>,
) -> Result<Seq<EntryView>, Seq<char>> {
    match r {
        Ok(es) => Ok(done + es),
        Err(m) => Err(m),
    }
}

fn content_of_line(line: &Vec<char>) -> (r: Vec<char>)
    ensures
        r@ == line_content(line@),
{
    let parts = split_chars(line, '#');
    proof {
        crate::text::lemma_split_from_nonempty(line@, '#', Seq::empty());
    }
    trim_chars(&parts[0])
}

pub fn cardlist_brackets_in_order(text: &str) -> (r: bool)
    ensures
        r == cardlist_brackets_ordered(text@),
{
    let v = chars_of(text);
    let ls = lines_of(&v);
    let mut k: usize = 0;
    while k < ls.len()
        invariant
            v@ == text@,
            ls@.len() == lines(text@).len(),
            forall|i: int| 0 <= i < ls@.len() ==> (#[trigger] ls@[i])@ == lines(text@)[i],
            k <= ls@.len(),
            forall|i: int|
                0 <= i < k ==> brackets_ordered(
                    quantity_split(line_content(#[trigger] lines(text@)[i])).1,
                ),
        decreases ls.len() - k,
    {
        let c = content_of_line(&ls[k]);
        let cs = string_of(&c);
        let (_, rest) = parse_quantity(cs.as_str());
        if !brackets_in_order(rest.as_str()) {
            assert(ls@[k as int]@ == lines(text@)[k as int]);
            return false;
        }
        k = k + 1;
    }
    true
}

/// Reads a card list into entries: one per line that has content once its
/// `#` comment is cut off, in order.
pub fn parse_cardlist_entries(text: &str) -> (r: Result<Vec<CardlistEntry>, ProxyNexusError>)
    requires
        cardlist_brackets_ordered(text@),
    ensures
        match (r, cardlist_entries(text@)) {
            (Ok(es), Ok(s)) => es@.map_values(|e: CardlistEntry| e@) == s,
            (Err(e), Err(m)) => e == ProxyNexusError::Message(e->Message_0) && e->Message_0@ == m,
            _ => false,
        },
{
    let v = chars_of(text);
    let ls = lines_of(&v);
    let ghost all = lines(text@);
    let mut out: Vec<CardlistEntry> = Vec::new();
    let mut k: usize = 0;
    assert(all.skip(0) =~= all);
    assert(Seq::<EntryView>::empty() + Seq::<EntryView>::empty() =~= Seq::<EntryView>::empty());
    while k < ls.len()
        invariant
            v@ == text@,
            all == lines(text@),
            cardlist_brackets_ordered(text@),
            ls@.len() == all.len(),
            forall|i: int| 0 <= i < ls@.len() ==> (#[trigger] ls@[i])@ == all[i],
            k <= ls@.len(),
            entries_of(all) == prepend_entries(
                out@.map_values(|e: CardlistEntry| e@),
                entries_of(all.skip(k as int)),
            ),
        decreases ls.len() - k,
    {
        let ghost rest_lines = all.skip(k as int);
        assert(rest_lines[0] == all[k as int]);
        assert(rest_lines.drop_first() =~= all.skip(k + 1));
        assert(ls@[k as int]@ == all[k as int]);
        let c = content_of_line(&ls[k]);
        if c.len() > 0 {
            let cs = string_of(&c);
            let (qty, rest) = parse_quantity(cs.as_str());
            assert(brackets_ordered(quantity_split(line_content(all[k as int])).1));
            match parse_overrides(rest.as_str()) {
                Err(e) => {
                    return Err(e);
                },
                Ok((name, variant, collection, pack_code)) => {
                    let cleaned = clean_card_name(name.as_str());
                    let entry = CardlistEntry {
                        name: cleaned,
                        quantity: qty,
                        variant,
                        collection,
                        pack_code,
                    };
                    let ghost before = out@.map_values(|e: CardlistEntry| e@);
                    out.push(entry);
                    proof {
                        assert(out@.map_values(|e: CardlistEntry| e@) =~= before.push(entry@));
                        match entries_of(all.skip(k + 1)) {
                            Ok(es) => {
                                assert(before + (seq![entry@] + es) =~= before.push(entry@) + es);
                            },
                            Err(_) => {},
                        }
                    }
                },
            }
        }
        k = k + 1;
    }
    proof {
        assert(all.skip(k as int) =~= Seq::<Seq<char>>::empty());
        assert(out@.map_values(|e: CardlistEntry| e@) + Seq::<EntryView>::empty() =~= out@.map_values(
            |e: CardlistEntry| e@,
        ));
    }
    Ok(out)
}

// ---------------------------------------------------------------------------
// Resolving names to cards
// ---------------------------------------------------------------------------

/// The distinct items of `s`, each where it first occurs.
pub open spec fn distinct_prefix(s: Seq<Seq<char>>, n: int) -> Seq<Seq<char>>
    decreases n,
{
    if n <= 0 {
        Seq::empty()
    } else {
        let d = distinct_prefix(s, n - 1);
        if d.contains(s[n - 1]) {
            d
        } else {
            d.push(s[n - 1])
        }
    }
}

pub open spec fn distinct(s: Seq<Seq<char>>) -> Seq<Seq<char>> {
    distinct_prefix(s, s.len() as int)
}

pub fn contains_string(v: &Vec<String>, s: &String) -> (r: bool)
    ensures
        r == v@.map_values(|x: String| x@).contains(s@),
{
    let ghost views = v@.map_values(|x: String| x@);
    let sv = chars_of(s.as_str());
    let mut i: usize = 0;
    while i < v.len()
        invariant
            views == v@.map_values(|x: String| x@),
            sv@ == s@,
            i <= v@.len(),
            forall|k: int| 0 <= k < i ==> views[k] != s@,
        decreases v.len() - i,
    {
        let c = chars_of(v[i].as_str());
        if chars_eq(&c, &sv) {
            assert(views[i as int] == s@);
            return true;
        }
        i = i + 1;
    }
    false
}

/// The distinct strings of `items`, each where it first occurs.
pub fn distinct_strings(items: &Vec<String>) -> (r: Vec<String>)
    ensures
        r@.map_values(|x: String| x@) == distinct(items@.map_values(|x: String| x@)),
{
    let ghost views = items@.map_values(|x: String| x@);
    let mut out: Vec<String> = Vec::new();
    let mut i: usize = 0;
    while i < items.len()
        invariant
            views == items@.map_values(|x: String| x@),
            i <= items@.len(),
            out@.map_values(|x: String| x@) == distinct_prefix(views, i as int),
        decreases items.len() - i,
    {
        if !contains_string(&out, &items[i]) {
            let ghost before = out@.map_values(|x: String| x@);
            out.push(items[i].clone());
            assert(out@.map_values(|x: String| x@) =~= before.push(views[i as int]));
        }
        i = i + 1;
    }
    out
}

/// A row of the title lookup.
#[derive(Clone, Debug, PartialEq, Eq)]
pub struct CardNameRow {
    pub code: String,
    pub title: String,
    pub pack_code: String,
    pub title_normalized: String,
}

/// A card list name with the card it stands for.
#[derive(Clone, Debug, PartialEq, Eq)]
pub struct ResolvedCard {
    pub name: String,
    pub code: String,
    pub title: String,
    pub pack_code: String,
}

/// The first row whose normalized title is `norm`.
pub open spec fn first_row_for(rows: Seq<CardNameRow>, norm: Seq<char>, i: int) -> Option<int>
    decreases rows.len() - i,
{
    if i < 0 || i >= rows.len() {
        None
    } else if rows[i].title_normalized@ == norm {
        Some(i)
    } else {
        first_row_for(rows, norm, i + 1)
    }
}

pub open spec fn resolved_view(c: ResolvedCard) -> (Seq<char>, Seq<char>, Seq<char>, Seq<char>) {
    (c.name@, c.code@, c.title@, c.pack_code@)
}

/// The names resolved by the rows (name, code, title, pack), and the names that
/// no row matches; each distinct name once, where it first occurs.
pub open spec fn resolution(names: Seq<Seq<char>>, rows: Seq<CardNameRow>) -> (
    Seq<(Seq<char>, Seq<char>, Seq<char>, Seq<char>)>,
    Seq<Seq<char>>,
) {
    resolution_prefix(distinct(names), rows, distinct(names).len() as int)
}

pub open spec fn resolution_prefix(names: Seq<Seq<char>>, rows: Seq<CardNameRow>, n: int) -> (
    Seq<(Seq<char>, Seq<char>, Seq<char>, Seq<char>)>,
    Seq<Seq<char>>,
)
    decreases n,
{
    if n <= 0 {
        (Seq::empty(), Seq::empty())
    } else {
        let (found, missing) = resolution_prefix(names, rows, n - 1);
        let name = names[n - 1];
        match first_row_for(rows, normalized_title(name), 0) {
            Some(i) => (
                found.push((name, rows[i].code@, rows[i].title@, rows[i].pack_code@)),
                missing,
            ),
            None => (found, missing.push(name)),
        }
    }
}

pub open spec fn no_titles_message() -> Seq<char> {
    "No card titles found in the local catalog. Is your catalog seeded?"@
}

fn first_row_index(rows: &Vec<CardNameRow>, norm: &Vec<char>) -> (r: Option<usize>)
    ensures
        match r {
            Some(i) => first_row_for(rows@, norm@, 0) == Some(i as int) && i < rows@.len(),
            None => first_row_for(rows@, norm@, 0) is None,
        },
{
    let mut i: usize = 0;
    while i < rows.len()
        invariant
            i <= rows@.len(),
            first_row_for(rows@, norm@, 0) == first_row_for(rows@, norm@, i as int),
        decreases rows.len() - i,
    {
        let t = chars_of(rows[i].title_normalized.as_str());
        if chars_eq(&t, norm) {
            return Some(i);
        }
        i = i + 1;
    }
    None
}

/// Matches the card list names against the rows of the title lookup: a name
/// is resolved by the first row with its normalized title.  Fails when the
/// lookup found no row at all for a non-empty list of names.
pub fn resolve_card_names(names: &Vec<String>, rows: &Vec<CardNameRow>) -> (r: Result<
    (Vec<ResolvedCard>, Vec<String>),
    ProxyNexusError,
>)
    ensures
        match r {
            Ok((found, missing)) => {
                &&& !(rows@.len() == 0 && names@.len() > 0)
                &&& found@.map_values(|c: ResolvedCard| resolved_view(c)) == resolution(
                    names@.map_values(|x: String| x@),
                    rows@,
                ).0
                &&& missing@.map_values(|x: String| x@) == resolution(
                    names@.map_values(|x: String| x@),
                    rows@,
                ).1
            },
            Err(e) => {
                &&& rows@.len() == 0 && names@.len() > 0
                &&& e matches ProxyNexusError::Message(m)
                &&& m@ == no_titles_message()
            },
        },
{
    if rows.len() == 0 && names.len() > 0 {
        return Err(
            ProxyNexusError::Message(
                String::from_str("No card titles found in the local catalog. Is your catalog seeded?"),
            ),
        );
    }
    let uniq = distinct_strings(names);
    let ghost dn = uniq@.map_values(|x: String| x@);
    let mut found: Vec<ResolvedCard> = Vec::new();
    let mut missing: Vec<String> = Vec::new();
    let mut i: usize = 0;
    while i < uniq.len()
        invariant
            dn == uniq@.map_values(|x: String| x@),
            i <= uniq@.len(),
            found@.map_values(|c: ResolvedCard| resolved_view(c)) == resolution_prefix(
                dn,
                rows@,
                i as int,
            ).0,
            missing@.map_values(|x: String| x@) == resolution_prefix(dn, rows@, i as int).1,
        decreases uniq.len() - i,
    {
        let name = &uniq[i];
        let norm = normalize_title(name.as_str());
        let nv = chars_of(norm.as_str());
        let ghost bf = found@.map_values(|c: ResolvedCard| resolved_view(c));
        let ghost bm = missing@.map_values(|x: String| x@);
        assert(dn[i as int] == name@);
        match first_row_index(rows, &nv) {
            Some(k) => {
                let row = &rows[k];
                let c = ResolvedCard {
                    name: name.clone(),
                    code: row.code.clone(),
                    title: row.title.clone(),
                    pack_code: row.pack_code.clone(),
                };
                found.push(c);
                assert(found@.map_values(|c: ResolvedCard| resolved_view(c)) =~= bf.push(
                    resolved_view(c),
                ));
            },
            None => {
                missing.push(name.clone());
                assert(missing@.map_values(|x: String| x@) =~= bm.push(name@));
            },
        }
        i = i + 1;
    }
    Ok((found, missing))
}

// ---------------------------------------------------------------------------
// Requests
// ---------------------------------------------------------------------------

/// The first resolved card of the given name.
pub open spec fn card_named(found: Seq<ResolvedCard>, name: Seq<char>, i: int) -> Option<int>
    decreases found.len() - i,
{
    if i < 0 || i >= found.len() {
        None
    } else if found[i].name@ == name {
        Some(i)
    } else {
        card_named(found, name, i + 1)
    }
}

/// The request for one copy of an entry resolved to a card: the pack asked
/// for, else the pack of the card's newest printing.
pub open spec fn entry_request(e: EntryView, c: ResolvedCard) -> RequestView {
    RequestView {
        title: c.title@,
        code: c.code@,
        variant: e.variant,
        collection: e.collection,
        pack_code: match e.pack_code {
            Some(p) => Some(p),
            None => Some(c.pack_code@),
        },
    }
}

/// For each entry whose name was resolved, as many requests as its quantity;
/// entries not resolved give none.
pub open spec fn requests_for(entries: Seq<EntryView>, found: Seq<ResolvedCard>) -> Seq<RequestView>
    decreases entries.len(),
{
    if entries.len() == 0 {
        Seq::empty()
    } else {
        let e = entries.last();
        let more = match card_named(found, e.name, 0) {
            Some(i) => Seq::new(e.quantity as nat, |k: int| entry_request(e, found[i])),
            None => Seq::empty(),
        };
        requests_for(entries.drop_last(), found) + more
    }
}

fn card_index(found: &Vec<ResolvedCard>, name: &Vec<char>) -> (r: Option<usize>)
    ensures
        match r {
            Some(i) => card_named(found@, name@, 0) == Some(i as int) && i < found@.len(),
            None => card_named(found@, name@, 0) is None,
        },
{
    let mut i: usize = 0;
    while i < found.len()
        invariant
            i <= found@.len(),
            card_named(found@, name@, 0) == card_named(found@, name@, i as int),
        decreases found.len() - i,
    {
        let t = chars_of(found[i].name.as_str());
        if chars_eq(&t, name) {
            return Some(i);
        }
        i = i + 1;
    }
    None
}

/// The card requests of a parsed card list (see [`requests_for`]).
pub fn card_requests_from_entries(entries: &Vec<CardlistEntry>, found: &Vec<ResolvedCard>) -> (r:
    Vec<CardRequest>)
    requires
        requests_for(entries@.map_values(|e: CardlistEntry| e@), found@).len() <= usize::MAX,
    ensures
        r@.map_values(|q: CardRequest| q@) == requests_for(
            entries@.map_values(|e: CardlistEntry| e@),
            found@,
        ),
{
    let ghost ev = entries@.map_values(|e: CardlistEntry| e@);
    let mut out: Vec<CardRequest> = Vec::new();
    let mut i: usize = 0;
    while i < entries.len()
        invariant
            ev == entries@.map_values(|e: CardlistEntry| e@),
            requests_for(ev, found@).len() <= usize::MAX,
            i <= entries@.len(),
            out@.map_values(|q: CardRequest| q@) == requests_for(ev.take(i as int), found@),
        decreases entries.len() - i,
    {
        let e = &entries[i];
        let ghost pre = ev.take(i as int);
        let ghost next = ev.take(i + 1);
        assert(next.drop_last() =~= pre);
        assert(next.last() == e@);
        proof {
            lemma_requests_for_prefix(ev, found@, i + 1);
        }
        let nv = chars_of(e.name.as_str());
        match card_index(found, &nv) {
            Some(k) => {
                let c = &found[k];
                let request = CardRequest {
                    title: c.title.clone(),
                    code: c.code.clone(),
                    variant: clone_opt(&e.variant),
                    collection: clone_opt(&e.collection),
                    pack_code: match &e.pack_code {
                        Some(p) => Some(p.clone()),
                        None => Some(c.pack_code.clone()),
                    },
                };
                assert(request@ == entry_request(e@, found@[k as int]));
                let ghost base = out@.map_values(|q: CardRequest| q@);
                let mut n: u32 = 0;
                while n < e.quantity
                    invariant
                        n <= e.quantity,
                        out@.map_values(|q: CardRequest| q@) == base + Seq::new(
                            n as nat,
                            |j: int| request@,
                        ),
                        base.len() + e.quantity <= usize::MAX,
                    decreases e.quantity - n,
                {
                    let ghost before = out@.map_values(|q: CardRequest| q@);
                    let d = request.duplicate();
                    out.push(d);
                    assert(out@.map_values(|q: CardRequest| q@) =~= before.push(request@));
                    assert(Seq::new((n + 1) as nat, |j: int| request@) =~= Seq::new(
                        n as nat,
                        |j: int| request@,
                    ).push(request@));
                    assert(out@.map_values(|q: CardRequest| q@) =~= base + Seq::new(
                        (n + 1) as nat,
                        |j: int| request@,
                    ));
                    n = n + 1;
                }
                assert(Seq::new(e.quantity as nat, |j: int| request@) =~= Seq::new(
                    e@.quantity as nat,
                    |j: int| entry_request(e@, found@[k as int]),
                ));
            },
            None => {
                assert(requests_for(next, found@) =~= requests_for(pre, found@));
            },
        }
        i = i + 1;
    }
    assert(ev.take(entries@.len() as int) =~= ev);
    out
}

proof fn lemma_requests_for_prefix(entries: Seq<EntryView>, found: Seq<ResolvedCard>, n: int)
    requires
        0 <= n <= entries.len(),
    ensures
        requests_for(entries.take(n), found).len() <= requests_for(entries, found).len(),
    decreases entries.len() - n,
{
    if n < entries.len() {
        lemma_requests_for_prefix(entries, found, n + 1);
        assert(entries.take(n + 1).drop_last() =~= entries.take(n));
    } else {
        assert(entries.take(n) =~= entries);
    }
}

// ---------------------------------------------------------------------------
// Queries
// ---------------------------------------------------------------------------

pub open spec fn normalized_all(names: Seq<Seq<char>>) -> Seq<Seq<char>> {
    names.map_values(|n: Seq<char>| normalized_title(n))
}

pub fn normalize_all(names: &Vec<String>) -> (r: Vec<String>)
    ensures
        r@.map_values(|x: String| x@) == normalized_all(names@.map_values(|x: String| x@)),
{
    let mut out: Vec<String> = Vec::new();
    let mut i: usize = 0;
    while i < names.len()
        invariant
            i <= names@.len(),
            out@.len() == i,
            forall|k: int| 0 <= k < i ==> (#[trigger] out@[k])@ == normalized_title(names@[k]@),
        decreases names.len() - i,
    {
        out.push(normalize_title(names[i].as_str()));
        i = i + 1;
    }
    assert(out@.map_values(|x: String| x@) =~= normalized_all(names@.map_values(|x: String| x@)));
    out
}

/// The quoted, distinct normalized titles of the names, for an `IN` list.
pub open spec fn title_in_list(names: Seq<Seq<char>>) -> Seq<char> {
    joined(quoted_all(distinct(normalized_all(names))), ", "@)
}

pub fn title_in_clause(names: &Vec<String>) -> (r: String)
    ensures
        r@ == title_in_list(names@.map_values(|x: String| x@)),
{
    let norms = normalize_all(names);
    let uniq = distinct_strings(&norms);
    build_in_clause(&uniq)
}

pub open spec fn title_lookup_head() -> Seq<char> {
    "SELECT c.code, c.title, c.pack_code, c.title_normalized FROM cards c JOIN packs p ON c.pack_code = p.code WHERE c.title_normalized IN ("@
}

pub open spec fn title_lookup_tail() -> Seq<char> {
    ") ORDER BY CASE WHEN p.date_release IS NULL THEN 1 ELSE 0 END, p.date_release DESC"@
}

/// The query that finds the cards of the given names, newest pack first.
pub fn title_lookup_query(names: &Vec<String>) -> (r: String)
    ensures
        r@ == title_lookup_head() + title_in_list(names@.map_values(|x: String| x@))
            + title_lookup_tail(),
{
    let list = title_in_clause(names);
    let mut q = String::from_str(
        "SELECT c.code, c.title, c.pack_code, c.title_normalized FROM cards c JOIN packs p ON c.pack_code = p.code WHERE c.title_normalized IN (",
    );
    q.append(list.as_str());
    q.append(") ORDER BY CASE WHEN p.date_release IS NULL THEN 1 ELSE 0 END, p.date_release DESC");
    q
}

pub open spec fn set_cards_head() -> Seq<char> {
    "SELECT c.code, c.title, c.quantity, c.pack_code FROM cards c JOIN packs p ON c.pack_code = p.code WHERE LOWER(p.name) = "@
}

pub open spec fn set_cards_tail() -> Seq<char> {
    " ORDER BY c.code"@
}

/// The query that lists the cards of a set, by its name in any case.
pub fn set_cards_query(set_name: &str) -> (r: String)
    ensures
        r@ == set_cards_head() + quoted(unicode_lowercase(set_name@)) + set_cards_tail(),
{
    let lower = str_to_lowercase(set_name);
    let mut q = String::from_str(
        "SELECT c.code, c.title, c.quantity, c.pack_code FROM cards c JOIN packs p ON c.pack_code = p.code WHERE LOWER(p.name) = ",
    );
    append_quoted(&mut q, lower.as_str());
    q.append(" ORDER BY c.code");
    q
}

pub open spec fn code_lookup_head() -> Seq<char> {
    "SELECT code, title FROM cards WHERE code IN ("@
}

/// The query that finds the titles of the given card codes.
pub fn code_lookup_query(codes: &Vec<(String, u32)>) -> (r: String)
    ensures
        r@ == code_lookup_head() + joined(
            quoted_all(codes@.map_values(|c: (String, u32)| c.0@)),
            ", "@,
        ) + ")"@,
{
    let mut keys: Vec<String> = Vec::new();
    let mut i: usize = 0;
    while i < codes.len()
        invariant
            i <= codes@.len(),
            keys@.len() == i,
            forall|k: int| 0 <= k < i ==> (#[trigger] keys@[k])@ == codes@[k].0@,
        decreases codes.len() - i,
    {
        keys.push(codes[i].0.clone());
        i = i + 1;
    }
    assert(keys@.map_values(|x: String| x@) =~= codes@.map_values(|c: (String, u32)| c.0@));
    let list = build_in_clause(&keys);
    let mut q = String::from_str("SELECT code, title FROM cards WHERE code IN (");
    q.append(list.as_str());
    q.append(")");
    q
}

// ---------------------------------------------------------------------------
// Requests of a set, and of a deck
// ---------------------------------------------------------------------------

/// A card of a set, with how many copies the set holds.
#[derive(Clone, Debug, PartialEq, Eq)]
pub struct CardRequestRow {
    pub code: String,
    pub title: String,
    pub quantity: i64,
    pub pack_code: String,
}

pub open spec fn set_row_request(r: CardRequestRow) -> RequestView {
    RequestView {
        title: r.title@,
        code: r.code@,
        variant: None,
        collection: None,
        pack_code: Some(r.pack_code@),
    }
}

/// Each row repeated as often as its quantity.
pub open spec fn set_requests(rows: Seq<CardRequestRow>) -> Seq<RequestView>
    decreases rows.len(),
{
    if rows.len() == 0 {
        Seq::empty()
    } else {
        set_requests(rows.drop_last()) + Seq::new(
            rows.last().quantity as nat,
            |k: int| set_row_request(rows.last()),
        )
    }
}

pub open spec fn no_set_cards_message(set_name: Seq<char>) -> Seq<char> {
    "No cards found for set '"@ + set_name + "'"@
}

proof fn lemma_set_requests_prefix(rows: Seq<CardRequestRow>, n: int)
    requires
        0 <= n <= rows.len(),
        forall|i: int| 0 <= i < rows.len() ==> (#[trigger] rows[i]).quantity >= 0,
    ensures
        set_requests(rows.take(n)).len() <= set_requests(rows).len(),
    decreases rows.len() - n,
{
    if n < rows.len() {
        lemma_set_requests_prefix(rows, n + 1);
        assert(rows.take(n + 1).drop_last() =~= rows.take(n));
    } else {
        assert(rows.take(n) =~= rows);
    }
}

/// The requests of a set: each card as many times as the set holds it.
/// Fails when that gives no request at all.
pub fn requests_from_set_rows(set_name: &str, rows: &Vec<CardRequestRow>) -> (r: Result<
    Vec<CardRequest>,
    ProxyNexusError,
>)
    requires
        forall|i: int| 0 <= i < rows@.len() ==> (#[trigger] rows@[i]).quantity >= 0,
        set_requests(rows@).len() <= usize::MAX,
    ensures
        match r {
            Ok(v) => v@.map_values(|q: CardRequest| q@) == set_requests(rows@) && v@.len() > 0,
            Err(e) => {
                &&& set_requests(rows@).len() == 0
                &&& e matches ProxyNexusError::Message(m)
                &&& m@ == no_set_cards_message(set_name@)
            },
        },
{
    let mut out: Vec<CardRequest> = Vec::new();
    let mut i: usize = 0;
    while i < rows.len()
        invariant
            i <= rows@.len(),
            forall|k: int| 0 <= k < rows@.len() ==> (#[trigger] rows@[k]).quantity >= 0,
            set_requests(rows@).len() <= usize::MAX,
            out@.map_values(|q: CardRequest| q@) == set_requests(rows@.take(i as int)),
        decreases rows.len() - i,
    {
        let row = &rows[i];
        proof {
            lemma_set_requests_prefix(rows@, i + 1);
            assert(rows@.take(i + 1).drop_last() =~= rows@.take(i as int));
            assert(rows@.take(i + 1).last() == *row);
        }
        let request = CardRequest {
            title: row.title.clone(),
            code: row.code.clone(),
            variant: None,
            collection: None,
            pack_code: Some(row.pack_code.clone()),
        };
        let ghost base = out@.map_values(|q: CardRequest| q@);
        let mut n: i64 = 0;
        while n < row.quantity
            invariant
                0 <= n <= row.quantity,
                out@.map_values(|q: CardRequest| q@) == base + Seq::new(
                    n as nat,
                    |j: int| set_row_request(*row),
                ),
                base.len() + row.quantity <= usize::MAX,
                request@ == set_row_request(*row),
            decreases row.quantity - n,
        {
            let ghost before = out@.map_values(|q: CardRequest| q@);
            let d = request.duplicate();
            out.push(d);
            assert(out@.map_values(|q: CardRequest| q@) =~= before.push(set_row_request(*row)));
            assert(Seq::new((n + 1) as nat, |j: int| set_row_request(*row)) =~= Seq::new(
                n as nat,
                |j: int| set_row_request(*row),
            ).push(set_row_request(*row)));
            n = n + 1;
        }
        i = i + 1;
    }
    assert(rows@.take(rows@.len() as int) =~= rows@);
    if out.len() == 0 {
        return Err(ProxyNexusError::Message(concat3("No cards found for set '", set_name, "'")));
    }
    Ok(out)
}

/// A card found by its code.
#[derive(Clone, Debug, PartialEq, Eq)]
pub struct CardRow {
    pub code: String,
    pub title: String,
}

/// The last row of the given code (later rows take the place of earlier ones).
pub open spec fn last_row_of(rows: Seq<CardRow>, code: Seq<char>, n: int) -> Option<int>
    decreases n,
{
    if n <= 0 {
        None
    } else if rows[n - 1].code@ == code {
        Some(n - 1)
    } else {
        last_row_of(rows, code, n - 1)
    }
}

pub open spec fn code_request(title: Seq<char>, code: Seq<char>) -> RequestView {
    RequestView { title, code, variant: None, collection: None, pack_code: None }
}

/// For each code with a title, as many requests as its count, in the order of
/// the codes; codes without a title give none.
pub open spec fn code_requests(codes: Seq<(String, u32)>, rows: Seq<CardRow>) -> Seq<RequestView>
    decreases codes.len(),
{
    if codes.len() == 0 {
        Seq::empty()
    } else {
        let (code, qty) = codes.last();
        let more = match last_row_of(rows, code@, rows.len() as int) {
            Some(i) => Seq::new(qty as nat, |k: int| code_request(rows[i].title@, code@)),
            None => Seq::empty(),
        };
        code_requests(codes.drop_last(), rows) + more
    }
}

pub open spec fn no_codes_message() -> Seq<char> {
    "No card codes found in the local catalog. Is your catalog seeded?"@
}

proof fn lemma_code_requests_prefix(codes: Seq<(String, u32)>, rows: Seq<CardRow>, n: int)
    requires
        0 <= n <= codes.len(),
    ensures
        code_requests(codes.take(n), rows).len() <= code_requests(codes, rows).len(),
    decreases codes.len() - n,
{
    if n < codes.len() {
        lemma_code_requests_prefix(codes, rows, n + 1);
        assert(codes.take(n + 1).drop_last() =~= codes.take(n));
    } else {
        assert(codes.take(n) =~= codes);
    }
}

fn last_row_index(rows: &Vec<CardRow>, code: &Vec<char>) -> (r: Option<usize>)
    ensures
        match r {
            Some(i) => last_row_of(rows@, code@, rows@.len() as int) == Some(i as int) && i
                < rows@.len(),
            None => last_row_of(rows@, code@, rows@.len() as int) is None,
        },
{
    let mut n = rows.len();
    while n > 0
        invariant
            n <= rows@.len(),
            last_row_of(rows@, code@, rows@.len() as int) == last_row_of(rows@, code@, n as int),
        decreases n,
    {
        let c = chars_of(rows[n - 1].code.as_str());
        if chars_eq(&c, code) {
            return Some(n - 1);
        }
        n = n - 1;
    }
    None
}

/// The requests of a deck given as card codes and counts: see
/// [`code_requests`].  No codes give no requests; codes of which the catalog
/// knows none fail.
pub fn requests_from_codes(codes: &Vec<(String, u32)>, rows: &Vec<CardRow>) -> (r: Result<
    Vec<CardRequest>,
    ProxyNexusError,
>)
    requires
        code_requests(codes@, rows@).len() <= usize::MAX,
    ensures
        match r {
            Ok(v) => v@.map_values(|q: CardRequest| q@) == code_requests(codes@, rows@)
                && !(rows@.len() == 0 && codes@.len() > 0),
            Err(e) => {
                &&& rows@.len() == 0 && codes@.len() > 0
                &&& e matches ProxyNexusError::Message(m)
                &&& m@ == no_codes_message()
            },
        },
{
    if codes.len() == 0 {
        return Ok(Vec::new());
    }
    if rows.len() == 0 {
        return Err(
            ProxyNexusError::Message(
                String::from_str("No card codes found in the local catalog. Is your catalog seeded?"),
            ),
        );
    }
    let mut out: Vec<CardRequest> = Vec::new();
    let mut i: usize = 0;
    while i < codes.len()
        invariant
            i <= codes@.len(),
            code_requests(codes@, rows@).len() <= usize::MAX,
            out@.map_values(|q: CardRequest| q@) == code_requests(codes@.take(i as int), rows@),
        decreases codes.len() - i,
    {
        let (code, qty) = (&codes[i].0, codes[i].1);
        proof {
            lemma_code_requests_prefix(codes@, rows@, i + 1);
            assert(codes@.take(i + 1).drop_last() =~= codes@.take(i as int));
            assert(codes@.take(i + 1).last() == codes@[i as int]);
        }
        let cv = chars_of(code.as_str());
        match last_row_index(rows, &cv) {
            Some(k) => {
                let request = CardRequest {
                    title: rows[k].title.clone(),
                    code: code.clone(),
                    variant: None,
                    collection: None,
                    pack_code: None,
                };
                let ghost want = code_request(rows@[k as int].title@, code@);
                let ghost base = out@.map_values(|q: CardRequest| q@);
                let mut n: u32 = 0;
                while n < qty
                    invariant
                        n <= qty,
                        out@.map_values(|q: CardRequest| q@) == base + Seq::new(
                            n as nat,
                            |j: int| want,
                        ),
                        base.len() + qty <= usize::MAX,
                        request@ == want,
                    decreases qty - n,
                {
                    let ghost before = out@.map_values(|q: CardRequest| q@);
                    let d = request.duplicate();
                    out.push(d);
                    assert(out@.map_values(|q: CardRequest| q@) =~= before.push(want));
                    assert(Seq::new((n + 1) as nat, |j: int| want) =~= Seq::new(
                        n as nat,
                        |j: int| want,
                    ).push(want));
                    n = n + 1;
                }
            },
            None => {},
        }
        i = i + 1;
    }
    assert(codes@.take(codes@.len() as int) =~= codes@);
    Ok(out)
}

// ---------------------------------------------------------------------------
// Printings available in the collections
// ---------------------------------------------------------------------------

/// One image of a printing, as the collections hold it.
#[derive(Clone, Debug, PartialEq, Eq)]
pub struct AvailablePrintingRow {
    pub title: String,
    pub code: String,
    pub variant: String,
    pub file_path: String,
    pub part: String,
    pub name: String,
    pub side: String,
    pub pack_code: String,
    pub date_release: Option<String>,
}

/// What the images of one printing share: normalized title, card code,
/// variant and collection.
pub open spec fn row_key(r: AvailablePrintingRow) -> (Seq<char>, Seq<char>, Seq<char>, Seq<char>) {
    (normalized_title(r.title@), r.code@, r.variant@, r.name@)
}

pub open spec fn key_seen(rows: Seq<AvailablePrintingRow>, k: (Seq<char>, Seq<char>, Seq<char>, Seq<char>), n: int) -> bool {
    exists|i: int| 0 <= i < n && row_key(#[trigger] rows[i]) == k
}

/// The distinct keys of the first `n` rows, where each first occurs.
pub open spec fn keys_prefix(rows: Seq<AvailablePrintingRow>, n: int) -> Seq<(Seq<char>, Seq<char>, Seq<char>, Seq<char>)>
    decreases n,
{
    if n <= 0 {
        Seq::empty()
    } else if key_seen(rows, row_key(rows[n - 1]), n - 1) {
        keys_prefix(rows, n - 1)
    } else {
        keys_prefix(rows, n - 1).push(row_key(rows[n - 1]))
    }
}

pub open spec fn printing_keys(rows: Seq<AvailablePrintingRow>) -> Seq<(Seq<char>, Seq<char>, Seq<char>, Seq<char>)> {
    keys_prefix(rows, rows.len() as int)
}

pub open spec fn is_front(r: AvailablePrintingRow) -> bool {
    r.part@ == "front"@
}

/// The printing begun by the first image of its key.
pub open spec fn printing_start(r: AvailablePrintingRow) -> PrintingView {
    PrintingView {
        card_title: r.title@,
        card_code: r.code@,
        variant: r.variant@,
        image_key: if is_front(r) {
            r.file_path@
        } else {
            Seq::empty()
        },
        parts: if is_front(r) {
            Seq::empty()
        } else {
            seq![PartView { name: r.part@, image_key: r.file_path@ }]
        },
        collection: r.name@,
        side: r.side@,
        pack_code: r.pack_code@,
        date_release: opt_view(r.date_release),
    }
}

/// A later image of the printing: a front replaces the image key, any other
/// part is added after the parts before it.
pub open spec fn printing_extend(p: PrintingView, r: AvailablePrintingRow) -> PrintingView {
    if is_front(r) {
        PrintingView { image_key: r.file_path@, ..p }
    } else {
        PrintingView { parts: p.parts.push(PartView { name: r.part@, image_key: r.file_path@ }), ..p }
    }
}

/// The printing of key `k` assembled from the first `n` rows.
pub open spec fn printing_of_key(rows: Seq<AvailablePrintingRow>, k: (Seq<char>, Seq<char>, Seq<char>, Seq<char>), n: int) -> PrintingView
    decreases n,
{
    if n <= 0 {
        printing_start(rows[0])
    } else {
        let r = rows[n - 1];
        if row_key(r) != k {
            printing_of_key(rows, k, n - 1)
        } else if !key_seen(rows, k, n - 1) {
            printing_start(r)
        } else {
            printing_extend(printing_of_key(rows, k, n - 1), r)
        }
    }
}

/// The distinct normalized titles of the keys, where each first occurs.
pub open spec fn titles_of(keys: Seq<(Seq<char>, Seq<char>, Seq<char>, Seq<char>)>) -> Seq<Seq<char>> {
    distinct(keys.map_values(|k: (Seq<char>, Seq<char>, Seq<char>, Seq<char>)| k.0))
}

/// The printings of the keys of one title, in the order of the keys.
pub open spec fn of_title(t: Seq<char>) -> spec_fn((Seq<char>, Seq<char>, Seq<char>, Seq<char>)) -> bool {
    |k: (Seq<char>, Seq<char>, Seq<char>, Seq<char>)| k.0 == t
}

pub open spec fn key_printing(rows: Seq<AvailablePrintingRow>) -> spec_fn((Seq<char>, Seq<char>, Seq<char>, Seq<char>)) -> PrintingView {
    |k: (Seq<char>, Seq<char>, Seq<char>, Seq<char>)| printing_of_key(rows, k, rows.len() as int)
}

pub open spec fn printings_of_title(rows: Seq<AvailablePrintingRow>, t: Seq<char>) -> Seq<PrintingView> {
    printing_keys(rows).filter(of_title(t)).map_values(key_printing(rows))
}

pub open spec fn sorted_by_date(ps: Seq<PrintingView>) -> bool {
    forall|i: int, j: int| 0 <= i < j < ps.len() ==> date_le(ps[i].date_release, ps[j].date_release)
}

/// The printings by normalized title: a title once for each title of the
/// rows, with its printings sorted by release date.
pub open spec fn assembled(rows: Seq<AvailablePrintingRow>, out: Seq<(Seq<char>, Seq<PrintingView>)>) -> bool {
    let titles = titles_of(printing_keys(rows));
    &&& out.len() == titles.len()
    &&& forall|j: int|
        0 <= j < out.len() ==> {
            &&& (#[trigger] out[j]).0 == titles[j]
            &&& sorted_by_date(out[j].1)
            &&& out[j].1.to_multiset() == printings_of_title(rows, titles[j]).to_multiset()
        }
}

pub open spec fn available_view(v: Seq<(String, Vec<Printing>)>) -> Seq<(Seq<char>, Seq<PrintingView>)> {
    v.map_values(|e: (String, Vec<Printing>)| (e.0@, printing_views(e.1@)))
}

fn same_key(a: &(Vec<char>, Vec<char>, Vec<char>, Vec<char>), b: &(Vec<char>, Vec<char>, Vec<char>, Vec<char>)) -> (r: bool)
    ensures
        r == ((a.0@, a.1@, a.2@, a.3@) == (b.0@, b.1@, b.2@, b.3@)),
{
    chars_eq(&a.0, &b.0) && chars_eq(&a.1, &b.1) && chars_eq(&a.2, &b.2) && chars_eq(&a.3, &b.3)
}

pub open spec fn key_view(k: (Vec<char>, Vec<char>, Vec<char>, Vec<char>)) -> (Seq<char>, Seq<char>, Seq<char>, Seq<char>) {
    (k.0@, k.1@, k.2@, k.3@)
}

fn row_keys(rows: &Vec<AvailablePrintingRow>) -> (r: Vec<(Vec<char>, Vec<char>, Vec<char>, Vec<char>)>)
    ensures
        r@.len() == rows@.len(),
        forall|i: int| 0 <= i < rows@.len() ==> key_view(#[trigger] r@[i]) == row_key(rows@[i]),
{
    let mut out: Vec<(Vec<char>, Vec<char>, Vec<char>, Vec<char>)> = Vec::new();
    let mut i: usize = 0;
    while i < rows.len()
        invariant
            i <= rows@.len(),
            out@.len() == i,
            forall|k: int| 0 <= k < i ==> key_view(#[trigger] out@[k]) == row_key(rows@[k]),
        decreases rows.len() - i,
    {
        let r = &rows[i];
        let norm = normalize_title(r.title.as_str());
        out.push(
            (
                chars_of(norm.as_str()),
                chars_of(r.code.as_str()),
                chars_of(r.variant.as_str()),
                chars_of(r.name.as_str()),
            ),
        );
        i = i + 1;
    }
    out
}

fn distinct_keys(rk: &Vec<(Vec<char>, Vec<char>, Vec<char>, Vec<char>)>, rows: Ghost<Seq<AvailablePrintingRow>>) -> (r: Vec<usize>)
    requires
        rk@.len() == rows@.len(),
        forall|i: int| 0 <= i < rows@.len() ==> key_view(#[trigger] rk@[i]) == row_key(rows@[i]),
    ensures
        r@.len() == printing_keys(rows@).len(),
        forall|j: int| 0 <= j < r@.len() ==> (#[trigger] r@[j]) < rows@.len() && row_key(rows@[r@[j] as int]) == printing_keys(rows@)[j],
        forall|j: int| 0 <= j < r@.len() ==> !key_seen(rows@, row_key(rows@[#[trigger] r@[j] as int]), r@[j] as int),
{
    let mut firsts: Vec<usize> = Vec::new();
    let mut i: usize = 0;
    while i < rk.len()
        invariant
            rk@.len() == rows@.len(),
            forall|q: int| 0 <= q < rows@.len() ==> key_view(#[trigger] rk@[q]) == row_key(rows@[q]),
            i <= rk@.len(),
            firsts@.len() == keys_prefix(rows@, i as int).len(),
            forall|j: int| 0 <= j < firsts@.len() ==> (#[trigger] firsts@[j]) < i && row_key(rows@[firsts@[j] as int]) == keys_prefix(rows@, i as int)[j],
            forall|j: int| 0 <= j < firsts@.len() ==> !key_seen(rows@, row_key(rows@[#[trigger] firsts@[j] as int]), firsts@[j] as int),
            forall|q: int| 0 <= q < i ==> keys_prefix(rows@, i as int).contains(row_key(#[trigger] rows@[q])),
            forall|j: int| 0 <= j < keys_prefix(rows@, i as int).len() ==> key_seen(rows@, #[trigger] keys_prefix(rows@, i as int)[j], i as int),
        decreases rk.len() - i,
    {
        let ghost ks = keys_prefix(rows@, i as int);
        let mut found = false;
        let mut j: usize = 0;
        while j < firsts.len()
            invariant
                rk@.len() == rows@.len(),
                forall|q: int| 0 <= q < rows@.len() ==> key_view(#[trigger] rk@[q]) == row_key(rows@[q]),
                i < rk@.len(),
                firsts@.len() == ks.len(),
                forall|t: int| 0 <= t < firsts@.len() ==> (#[trigger] firsts@[t]) < i && row_key(rows@[firsts@[t] as int]) == ks[t],
                j <= firsts@.len(),
                forall|t: int| 0 <= t < firsts@.len() ==> !key_seen(rows@, row_key(rows@[#[trigger] firsts@[t] as int]), firsts@[t] as int),
                found == (exists|t: int| 0 <= t < j && ks[t] == row_key(rows@[i as int])),
            decreases firsts.len() - j,
        {
            if same_key(&rk[firsts[j]], &rk[i]) {
                found = true;
            }
            j = j + 1;
        }
        proof {
            let k = row_key(rows@[i as int]);
            if found {
                let t = choose|t: int| 0 <= t < j && ks[t] == k;
                assert(key_seen(rows@, ks[t], i as int));
                assert(key_seen(rows@, k, i as int));
            } else {
                if key_seen(rows@, k, i as int) {
                    let q = choose|q: int| 0 <= q < i && row_key(#[trigger] rows@[q]) == k;
                    assert(ks.contains(row_key(rows@[q])));
                }
                assert(!key_seen(rows@, k, i as int));
            }
        }
        if !found {
            firsts.push(i);
        }
        proof {
            let ks2 = keys_prefix(rows@, i + 1);
            assert forall|q: int| 0 <= q < i + 1 implies ks2.contains(row_key(#[trigger] rows@[q])) by {
                if q < i {
                    assert(ks.contains(row_key(rows@[q])));
                    let t = choose|t: int| 0 <= t < ks.len() && ks[t] == row_key(rows@[q]);
                    assert(ks2[t] == ks[t]);
                } else if found {
                    let t = choose|t: int| 0 <= t < j && ks[t] == row_key(rows@[i as int]);
                    assert(ks2[t] == ks[t]);
                } else {
                    assert(ks2[ks.len() as int] == row_key(rows@[i as int]));
                }
            }
            assert forall|t: int| 0 <= t < ks2.len() implies key_seen(rows@, #[trigger] ks2[t], i + 1) by {
                if t < ks.len() {
                    assert(key_seen(rows@, ks[t], i as int));
                    let q = choose|q: int| 0 <= q < i && row_key(#[trigger] rows@[q]) == ks[t];
                    assert(ks2[t] == ks[t]);
                } else {
                    assert(row_key(rows@[i as int]) == ks2[t]);
                }
            }
        }
        i = i + 1;
    }
    firsts
}

fn part_is_front(part: &String) -> (r: bool)
    ensures
        r == (part@ == "front"@),
{
    let a = chars_of(part.as_str());
    let b = chars_of("front");
    chars_eq(&a, &b)
}

fn start_printing(r: &AvailablePrintingRow) -> (p: Printing)
    ensures
        p@ == printing_start(*r),
{
    let front = part_is_front(&r.part);
    let mut parts: Vec<PrintingPart> = Vec::new();
    let image_key = if front {
        r.file_path.clone()
    } else {
        parts.push(PrintingPart { name: r.part.clone(), image_key: r.file_path.clone() });
        String::new()
    };
    let p = Printing {
        card_title: r.title.clone(),
        card_code: r.code.clone(),
        variant: r.variant.clone(),
        image_key,
        parts,
        collection: r.name.clone(),
        side: r.side.clone(),
        pack_code: r.pack_code.clone(),
        date_release: clone_opt(&r.date_release),
    };
    assert(p@.parts =~= printing_start(*r).parts);
    p
}

fn extend_printing(p: &mut Printing, r: &AvailablePrintingRow)
    ensures
        final(p)@ == printing_extend(old(p)@, *r),
{
    if part_is_front(&r.part) {
        p.image_key = r.file_path.clone();
    } else {
        let ghost before = p.parts@;
        p.parts.push(PrintingPart { name: r.part.clone(), image_key: r.file_path.clone() });
        assert(p.parts@.map_values(|x: PrintingPart| x@) =~= before.map_values(|x: PrintingPart| x@).push(
            PartView { name: r.part@, image_key: r.file_path@ },
        ));
    }
}

fn assemble_key(
    rows: &Vec<AvailablePrintingRow>,
    rk: &Vec<(Vec<char>, Vec<char>, Vec<char>, Vec<char>)>,
    f: usize,
) -> (p: Printing)
    requires
        rk@.len() == rows@.len(),
        forall|i: int| 0 <= i < rows@.len() ==> key_view(#[trigger] rk@[i]) == row_key(rows@[i]),
        f < rows@.len(),
        !key_seen(rows@, row_key(rows@[f as int]), f as int),
    ensures
        p@ == printing_of_key(rows@, row_key(rows@[f as int]), rows@.len() as int),
{
    let ghost k = row_key(rows@[f as int]);
    let n = rows.len();
    let mut p = start_printing(&rows[f]);
    let mut j = f + 1;
    while j < rows.len()
        invariant
            rk@.len() == rows@.len(),
            forall|i: int| 0 <= i < rows@.len() ==> key_view(#[trigger] rk@[i]) == row_key(rows@[i]),
            f < j <= rows@.len(),
            k == row_key(rows@[f as int]),
            p@ == printing_of_key(rows@, k, j as int),
        decreases rows.len() - j,
    {
        if same_key(&rk[j], &rk[f]) {
            assert(key_seen(rows@, k, j as int)) by {
                assert(row_key(rows@[f as int]) == k);
            }
            extend_printing(&mut p, &rows[j]);
        }
        j = j + 1;
    }
    p
}

/// The printings of the first `n` keys that belong to title `t`.
pub open spec fn title_printings_prefix(
    rows: Seq<AvailablePrintingRow>,
    t: Seq<char>,
    n: int,
) -> Seq<PrintingView>
    decreases n,
{
    if n <= 0 {
        Seq::empty()
    } else {
        let rest = title_printings_prefix(rows, t, n - 1);
        let k = printing_keys(rows)[n - 1];
        if k.0 == t {
            rest.push(printing_of_key(rows, k, rows.len() as int))
        } else {
            rest
        }
    }
}

/// Sorts printings by release date (see [`date_le`]), keeping the order of
/// those of the same date.
pub fn sort_by_release(v: Vec<Printing>) -> (r: Vec<Printing>)
    ensures
        sorted_by_date(printing_views(r@)),
        printing_views(r@).to_multiset() == printing_views(v@).to_multiset(),
{
    broadcast use vstd::multiset::group_multiset_axioms;

    let mut out: Vec<Printing> = Vec::new();
    let mut i: usize = 0;
    assert(printing_views(out@) =~= printing_views(v@.take(0)));
    while i < v.len()
        invariant
            i <= v@.len(),
            sorted_by_date(printing_views(out@)),
            printing_views(out@).to_multiset() == printing_views(v@.take(i as int)).to_multiset(),
        decreases v.len() - i,
    {
        let x = v[i].duplicate();
        let mut p = out.len();
        while p > 0 && !date_le_exec(&out[p - 1].date_release, &x.date_release)
            invariant
                p <= out@.len(),
                i < v@.len(),
                x@ == v@[i as int]@,
                forall|q: int| p <= q < out@.len() ==> !date_le(
                    out@[q]@.date_release,
                    x@.date_release,
                ),
            decreases p,
        {
            p = p - 1;
        }
        assert(i < v@.len());
        let ghost before = printing_views(out@);
        proof {
            assert forall|a: int, b: int|
                0 <= a < b < before.len() + 1 implies date_le(
                before.insert(p as int, x@)[a].date_release,
                before.insert(p as int, x@)[b].date_release,
            ) by {
                let s = before.insert(p as int, x@);
                if a < p && b == p {
                    if p > 0 {
                        assert(date_le(before[p - 1].date_release, x@.date_release));
                        if a < p - 1 {
                            lemma_date_le_transitive(
                                before[a].date_release,
                                before[p - 1].date_release,
                                x@.date_release,
                            );
                        }
                    }
                } else if a == p && b > p {
                    lemma_date_le_total(before[b - 1].date_release, x@.date_release);
                } else if a < p && b > p {
                    lemma_date_le_total(before[b - 1].date_release, x@.date_release);
                    assert(date_le(x@.date_release, before[b - 1].date_release));
                    if p > 0 {
                        assert(date_le(before[p - 1].date_release, x@.date_release));
                        if a < p - 1 {
                            lemma_date_le_transitive(
                                before[a].date_release,
                                before[p - 1].date_release,
                                x@.date_release,
                            );
                        }
                        lemma_date_le_transitive(
                            before[a].date_release,
                            x@.date_release,
                            before[b - 1].date_release,
                        );
                    }
                }
            }
        }
        out.insert(p, x);
        proof {
            assert(printing_views(out@) =~= before.insert(p as int, v@[i as int]@));
            assert(printing_views(v@.take(i + 1)) =~= printing_views(v@.take(i as int)).push(
                v@[i as int]@,
            ));
            vstd::seq_lib::to_multiset_insert(before, p as int, v@[i as int]@);
            vstd::seq_lib::to_multiset_build(printing_views(v@.take(i as int)), v@[i as int]@);
        }
        i = i + 1;
    }
    assert(v@.take(v@.len() as int) =~= v@);
    out
}

pub open spec fn no_printings_message() -> Seq<char> {
    "No printings found in your collections for any requested cards."@
}

/// Groups the images into printings (one per normalized title, card code,
/// variant and collection) and the printings by normalized title: see
/// [`assembled`].
pub fn assemble_printings(rows: &Vec<AvailablePrintingRow>) -> (r: Vec<(String, Vec<Printing>)>)
    ensures
        assembled(rows@, available_view(r@)),
{
    let rk = row_keys(rows);
    let firsts = distinct_keys(&rk, Ghost(rows@));
    let ghost keys = printing_keys(rows@);
    let mut printings: Vec<Printing> = Vec::new();
    let mut key_titles: Vec<String> = Vec::new();
    let mut j: usize = 0;
    while j < firsts.len()
        invariant
            rk@.len() == rows@.len(),
            forall|i: int| 0 <= i < rows@.len() ==> key_view(#[trigger] rk@[i]) == row_key(rows@[i]),
            keys == printing_keys(rows@),
            firsts@.len() == keys.len(),
            forall|t: int| 0 <= t < firsts@.len() ==> (#[trigger] firsts@[t]) < rows@.len() && row_key(rows@[firsts@[t] as int]) == keys[t],
            forall|t: int| 0 <= t < firsts@.len() ==> !key_seen(rows@, row_key(rows@[#[trigger] firsts@[t] as int]), firsts@[t] as int),
            j <= firsts@.len(),
            printings@.len() == j,
            key_titles@.len() == j,
            forall|t: int| 0 <= t < j ==> (#[trigger] printings@[t])@ == printing_of_key(rows@, keys[t], rows@.len() as int),
            forall|t: int| 0 <= t < j ==> (#[trigger] key_titles@[t])@ == keys[t].0,
        decreases firsts.len() - j,
    {
        let f = firsts[j];
        printings.push(assemble_key(rows, &rk, f));
        key_titles.push(string_of(&rk[f].0));
        j = j + 1;
    }
    let titles = distinct_strings(&key_titles);
    assert(key_titles@.map_values(|x: String| x@) =~= keys.map_values(
        |k: (Seq<char>, Seq<char>, Seq<char>, Seq<char>)| k.0,
    ));
    let ghost tv = titles_of(keys);
    let mut out: Vec<(String, Vec<Printing>)> = Vec::new();
    let mut a: usize = 0;
    while a < titles.len()
        invariant
            keys == printing_keys(rows@),
            printings@.len() == keys.len(),
            key_titles@.len() == keys.len(),
            forall|t: int| 0 <= t < keys.len() ==> (#[trigger] printings@[t])@ == printing_of_key(rows@, keys[t], rows@.len() as int),
            forall|t: int| 0 <= t < keys.len() ==> (#[trigger] key_titles@[t])@ == keys[t].0,
            tv == titles_of(keys),
            titles@.map_values(|x: String| x@) == tv,
            a <= titles@.len(),
            out@.len() == a,
            forall|q: int| 0 <= q < a ==> {
                &&& (#[trigger] out@[q]).0@ == tv[q]
                &&& sorted_by_date(printing_views(out@[q].1@))
                &&& printing_views(out@[q].1@).to_multiset() == title_printings_prefix(rows@, tv[q], keys.len() as int).to_multiset()
            },
        decreases titles.len() - a,
    {
        let t = chars_of(titles[a].as_str());
        assert(t@ == tv[a as int]);
        let mut group: Vec<Printing> = Vec::new();
        let mut b: usize = 0;
        while b < printings.len()
            invariant
                keys == printing_keys(rows@),
                printings@.len() == keys.len(),
                key_titles@.len() == keys.len(),
                forall|q: int| 0 <= q < keys.len() ==> (#[trigger] printings@[q])@ == printing_of_key(rows@, keys[q], rows@.len() as int),
                forall|q: int| 0 <= q < keys.len() ==> (#[trigger] key_titles@[q])@ == keys[q].0,
                b <= printings@.len(),
                printing_views(group@) == title_printings_prefix(rows@, t@, b as int),
            decreases printings.len() - b,
        {
            let kt = chars_of(key_titles[b].as_str());
            if chars_eq(&kt, &t) {
                let ghost before = printing_views(group@);
                group.push(printings[b].duplicate());
                assert(printing_views(group@) =~= before.push(printings@[b as int]@));
            }
            b = b + 1;
        }
        let sorted = sort_by_release(group);
        out.push((titles[a].clone(), sorted));
        a = a + 1;
    }
    proof {
        assert forall|q: int| 0 <= q < tv.len() implies title_printings_prefix(rows@, tv[q], keys.len() as int) == printings_of_title(rows@, tv[q]) by {
            lemma_title_printings(rows@, tv[q], keys.len() as int);
            assert(keys.take(keys.len() as int) =~= keys);
        }
    }
    out
}

proof fn lemma_title_printings(rows: Seq<AvailablePrintingRow>, t: Seq<char>, n: int)
    requires
        0 <= n <= printing_keys(rows).len(),
    ensures
        title_printings_prefix(rows, t, n) == printing_keys(rows).take(n).filter(of_title(t)).map_values(
            key_printing(rows),
        ),
    decreases n,
{
    reveal_with_fuel(Seq::filter, 1);
    let keys = printing_keys(rows);
    if n == 0 {
        assert(keys.take(0) =~= Seq::<(Seq<char>, Seq<char>, Seq<char>, Seq<char>)>::empty());
    } else {
        lemma_title_printings(rows, t, n - 1);
        assert(keys.take(n).drop_last() =~= keys.take(n - 1));
        let f = keys.take(n).filter(of_title(t));
        let g = keys.take(n - 1).filter(of_title(t));
        if keys[n - 1].0 == t {
            assert(f =~= g.push(keys[n - 1]));
        } else {
            assert(f =~= g);
        }
        assert(f.map_values(key_printing(rows)) =~= title_printings_prefix(rows, t, n));
    }
}

/// The query that reads the images of every printing of the requested cards
/// (by normalized title).
pub open spec fn printings_query_head() -> Seq<char> {
    "SELECT c.title, c.code, p.variant, p.file_path, p.part, col.name, c.side, c.pack_code, pks.date_release FROM printings p JOIN cards c ON p.card_code = c.code JOIN collections col ON p.collection_id = col.id JOIN packs pks ON c.pack_code = pks.code WHERE c.title_normalized IN ("@
}

pub open spec fn request_titles(requests: Seq<CardRequest>) -> Seq<Seq<char>> {
    requests.map_values(|q: CardRequest| q.title@)
}

pub fn printings_query(requests: &Vec<CardRequest>) -> (r: String)
    ensures
        r@ == printings_query_head() + title_in_list(request_titles(requests@)) + ")"@,
{
    let mut titles: Vec<String> = Vec::new();
    let mut i: usize = 0;
    while i < requests.len()
        invariant
            i <= requests@.len(),
            titles@.len() == i,
            forall|k: int| 0 <= k < i ==> (#[trigger] titles@[k])@ == requests@[k].title@,
        decreases requests.len() - i,
    {
        titles.push(requests[i].title.clone());
        i = i + 1;
    }
    assert(titles@.map_values(|x: String| x@) =~= request_titles(requests@));
    let list = title_in_clause(&titles);
    let mut q = String::from_str(
        "SELECT c.title, c.code, p.variant, p.file_path, p.part, col.name, c.side, c.pack_code, pks.date_release FROM printings p JOIN cards c ON p.card_code = c.code JOIN collections col ON p.collection_id = col.id JOIN packs pks ON c.pack_code = pks.code WHERE c.title_normalized IN (",
    );
    q.append(list.as_str());
    q.append(")");
    q
}

/// The printings available for the requests, by normalized title (see
/// [`assembled`]).  Fails when requests were made and no printing at all was
/// found.
pub fn available_printings(requests: &Vec<CardRequest>, rows: &Vec<AvailablePrintingRow>) -> (r:
    Result<Vec<(String, Vec<Printing>)>, ProxyNexusError>)
    ensures
        match r {
            Ok(v) => assembled(rows@, available_view(v@)) && !(v@.len() == 0 && requests@.len() > 0),
            Err(e) => {
                &&& titles_of(printing_keys(rows@)).len() == 0 && requests@.len() > 0
                &&& e matches ProxyNexusError::Message(m)
                &&& m@ == no_printings_message()
            },
        },
{
    let v = assemble_printings(rows);
    if v.len() == 0 && requests.len() > 0 {
        return Err(
            ProxyNexusError::Message(
                String::from_str("No printings found in your collections for any requested cards."),
            ),
        );
    }
    Ok(v)
}

/// The index that [`is_choice`] singles out.
pub open spec fn choice_index(r: RequestView, ps: Seq<PrintingView>) -> int {
    choose|i: int| is_choice(r, ps, i)
}

/// Only one printing is the choice for a request.
pub proof fn lemma_choice_unique(r: RequestView, ps: Seq<PrintingView>, i: int, j: int)
    requires
        is_choice(r, ps, i),
        is_choice(r, ps, j),
    ensures
        i == j,
{
    if i < j {
        assert(better_match(r, ps[j], ps[i]));
    } else if j < i {
        assert(better_match(r, ps[i], ps[j]));
    }
}

/// A non-empty list of printings always has a choice.
pub proof fn lemma_choice_exists(r: RequestView, ps: Seq<PrintingView>)
    requires
        ps.len() > 0,
    ensures
        exists|i: int| is_choice(r, ps, i),
    decreases ps.len(),
{
    if ps.len() == 1 {
        lemma_better_match_irreflexive(r, ps[0]);
        assert(is_choice(r, ps, 0));
    } else {
        let init = ps.drop_last();
        lemma_choice_exists(r, init);
        let i = choose|i: int| is_choice(r, init, i);
        let last = ps.len() - 1;
        if better_match(r, ps[last], ps[i]) {
            assert forall|j: int| 0 <= j < ps.len() implies !better_match(r, #[trigger] ps[j], ps[last]) by {
                if j == last {
                    lemma_better_match_irreflexive(r, ps[last]);
                } else {
                    assert(ps[j] == init[j]);
                    if better_match(r, ps[j], ps[last]) {
                        lemma_better_match_transitive(r, ps[j], ps[last], ps[i]);
                    }
                }
            }
            assert forall|j: int| 0 <= j < last implies better_match(r, ps[last], #[trigger] ps[j]) by {
                assert(ps[j] == init[j]);
                lemma_better_match_mixed(r, ps[last], ps[i], ps[j]);
            }
            assert(is_choice(r, ps, last));
        } else {
            assert forall|j: int| 0 <= j < ps.len() implies !better_match(r, #[trigger] ps[j], ps[i]) by {
                if j < last {
                    assert(ps[j] == init[j]);
                }
            }
            assert forall|j: int| 0 <= j < i implies better_match(r, ps[i], #[trigger] ps[j]) by {
                assert(ps[j] == init[j]);
            }
            assert(is_choice(r, ps, i));
        }
    }
}

/// The first entry of the given title.
pub open spec fn entry_of_title(avail: Seq<(Seq<char>, Seq<PrintingView>)>, t: Seq<char>, i: int) -> Option<int>
    decreases avail.len() - i,
{
    if i < 0 || i >= avail.len() {
        None
    } else if avail[i].0 == t {
        Some(i)
    } else {
        entry_of_title(avail, t, i + 1)
    }
}

/// For each request whose title has printings, the printing chosen for it;
/// requests without printings give none.
pub open spec fn resolved(reqs: Seq<RequestView>, avail: Seq<(Seq<char>, Seq<PrintingView>)>) -> Seq<PrintingView>
    decreases reqs.len(),
{
    if reqs.len() == 0 {
        Seq::empty()
    } else {
        let r = reqs.last();
        let more = match entry_of_title(avail, normalized_title(r.title), 0) {
            Some(i) => if avail[i].1.len() > 0 {
                seq![avail[i].1[choice_index(r, avail[i].1)]]
            } else {
                Seq::empty()
            },
            None => Seq::empty(),
        };
        resolved(reqs.drop_last(), avail) + more
    }
}

fn entry_index(avail: &Vec<(String, Vec<Printing>)>, t: &Vec<char>) -> (r: Option<usize>)
    ensures
        match r {
            Some(i) => entry_of_title(available_view(avail@), t@, 0) == Some(i as int) && i < avail@.len(),
            None => entry_of_title(available_view(avail@), t@, 0) is None,
        },
{
    let ghost av = available_view(avail@);
    let mut i: usize = 0;
    while i < avail.len()
        invariant
            av == available_view(avail@),
            i <= avail@.len(),
            entry_of_title(av, t@, 0) == entry_of_title(av, t@, i as int),
        decreases avail.len() - i,
    {
        let k = chars_of(avail[i].0.as_str());
        if chars_eq(&k, t) {
            return Some(i);
        }
        i = i + 1;
    }
    None
}

/// Chooses a printing for each request (see [`resolved`]).
pub fn resolve_printings(requests: &Vec<CardRequest>, available: &Vec<(String, Vec<Printing>)>) -> (r: Vec<Printing>)
    ensures
        printing_views(r@) == resolved(requests@.map_values(|q: CardRequest| q@), available_view(available@)),
{
    let ghost rv = requests@.map_values(|q: CardRequest| q@);
    let ghost av = available_view(available@);
    let mut out: Vec<Printing> = Vec::new();
    let mut i: usize = 0;
    while i < requests.len()
        invariant
            rv == requests@.map_values(|q: CardRequest| q@),
            av == available_view(available@),
            i <= requests@.len(),
            printing_views(out@) == resolved(rv.take(i as int), av),
        decreases requests.len() - i,
    {
        let request = &requests[i];
        assert(rv.take(i + 1).drop_last() =~= rv.take(i as int));
        assert(rv.take(i + 1).last() == request@);
        let norm = normalize_title(request.title.as_str());
        let nv = chars_of(norm.as_str());
        let ghost before = printing_views(out@);
        match entry_index(available, &nv) {
            Some(k) => {
                let ps = &available[k].1;
                assert(av[k as int].1 == printing_views(ps@));
                match select_printing(request, ps.as_slice()) {
                    Ok(p) => {
                        proof {
                            let j = choose|j: int| is_choice(request@, printing_views(ps@), j) && p@ == ps@[j]@;
                            lemma_choice_unique(request@, printing_views(ps@), j, choice_index(request@, printing_views(ps@)));
                        }
                        out.push(p);
                        assert(printing_views(out@) =~= before.push(p@));
                    },
                    Err(_) => {
                        assert(printing_views(out@) =~= before + Seq::<PrintingView>::empty());
                    },
                }
            },
            None => {
                assert(printing_views(out@) =~= before + Seq::<PrintingView>::empty());
            },
        }
        i = i + 1;
    }
    assert(rv.take(requests@.len() as int) =~= rv);
    out
}

// ---------------------------------------------------------------------------
// The priority hierarchy
// ---------------------------------------------------------------------------

/// The requested variant (`"original"` when none is named) comes first: when
/// some printing has it, the chosen printing has it.
pub proof fn law_variant_first(r: RequestView, ps: Seq<PrintingView>, i: int, j: int)
    requires
        is_choice(r, ps, i),
        0 <= j < ps.len(),
        !variant_miss(r, ps[j]),
    ensures
        !variant_miss(r, ps[i]),
{
    assert(!better_match(r, ps[j], ps[i]));
}

/// Next comes the requested collection: when some printing has the variant
/// and the collection, so has the chosen one.
pub proof fn law_collection_second(r: RequestView, ps: Seq<PrintingView>, i: int, j: int)
    requires
        is_choice(r, ps, i),
        0 <= j < ps.len(),
        !variant_miss(r, ps[j]),
        !collection_miss(r, ps[j]),
    ensures
        !variant_miss(r, ps[i]),
        !collection_miss(r, ps[i]),
{
    assert(!better_match(r, ps[j], ps[i]));
}

/// Next comes the requested pack: when some printing has the variant, the
/// collection as far as it was matched by the choice, and the pack, so has the
/// chosen one.
pub proof fn law_pack_third(r: RequestView, ps: Seq<PrintingView>, i: int, j: int)
    requires
        is_choice(r, ps, i),
        0 <= j < ps.len(),
        !variant_miss(r, ps[j]),
        collection_miss(r, ps[j]) == collection_miss(r, ps[i]),
        !pack_miss(r, ps[j]),
    ensures
        !pack_miss(r, ps[i]),
{
    assert(!better_match(r, ps[j], ps[i]));
    law_variant_first(r, ps, i, j);
}

/// Next comes the card code: when some printing has the variant, and the
/// collection and the pack as far as they were matched by the choice, and the
/// requested code, so has the chosen one.
pub proof fn law_code_fourth(r: RequestView, ps: Seq<PrintingView>, i: int, j: int)
    requires
        is_choice(r, ps, i),
        0 <= j < ps.len(),
        !variant_miss(r, ps[j]),
        collection_miss(r, ps[j]) == collection_miss(r, ps[i]),
        pack_miss(r, ps[j]) == pack_miss(r, ps[i]),
        !code_miss(r, ps[j]),
    ensures
        !code_miss(r, ps[i]),
{
    assert(!better_match(r, ps[j], ps[i]));
    law_variant_first(r, ps, i, j);
}

/// Among printings that match the request equally well, the chosen one is the
/// oldest: no printing of the same rank has an earlier release date.
pub proof fn law_oldest_among_equals(r: RequestView, ps: Seq<PrintingView>, i: int, j: int)
    requires
        is_choice(r, ps, i),
        0 <= j < ps.len(),
        mismatch_rank(r, ps[j]) == mismatch_rank(r, ps[i]),
    ensures
        !opt_lt(ps[j].date_release, ps[i].date_release),
{
    assert(!better_match(r, ps[j], ps[i]));
}

// ---------------------------------------------------------------------------
// Packs
// ---------------------------------------------------------------------------

/// A pack with one collection that holds printings of its cards (or none).
#[derive(Clone, Debug, PartialEq, Eq)]
pub struct PackRow {
    pub pack_name: String,
    pub pack_code: String,
    pub coll_name: Option<String>,
    pub coll_count: i64,
    pub date_release: Option<String>,
}

/// A pack with the collections that hold its printings, as `"N in name"`.
#[derive(Clone, Debug, PartialEq, Eq)]
pub struct PackGroup {
    pub name: String,
    pub code: String,
    pub date_release: String,
    pub collections: Vec<String>,
}

pub struct PackGroupView {
    pub name: Seq<char>,
    pub code: Seq<char>,
    pub date_release: Seq<char>,
    pub collections: Seq<Seq<char>>,
}

impl View for PackGroup {
    type V = PackGroupView;

    open spec fn view(&self) -> PackGroupView {
        PackGroupView {
            name: self.name@,
            code: self.code@,
            date_release: self.date_release@,
            collections: self.collections@.map_values(|s: String| s@),
        }
    }
}

/// What a row adds to its pack: `"N in name"` when a collection holds N > 0
/// of its printings.
pub open spec fn row_collections(r: PackRow) -> Seq<Seq<char>> {
    match r.coll_name {
        Some(n) => if r.coll_count > 0 {
            seq![decimal_int(r.coll_count as int) + " in "@ + n@]
        } else {
            Seq::empty()
        },
        None => Seq::empty(),
    }
}

/// The first row of pack `code`, from row `i` on.
pub open spec fn first_pack_row(rows: Seq<PackRow>, code: Seq<char>, i: int) -> Option<int>
    decreases rows.len() - i,
{
    if i < 0 || i >= rows.len() {
        None
    } else if rows[i].pack_code@ == code {
        Some(i)
    } else {
        first_pack_row(rows, code, i + 1)
    }
}

/// What the first `n` rows of pack `code` add, in order.
pub open spec fn pack_collections(rows: Seq<PackRow>, code: Seq<char>, n: int) -> Seq<Seq<char>>
    decreases n,
{
    if n <= 0 {
        Seq::empty()
    } else if rows[n - 1].pack_code@ == code {
        pack_collections(rows, code, n - 1) + row_collections(rows[n - 1])
    } else {
        pack_collections(rows, code, n - 1)
    }
}

pub open spec fn pack_codes(rows: Seq<PackRow>) -> Seq<Seq<char>> {
    distinct(rows.map_values(|r: PackRow| r.pack_code@))
}

/// The pack `code`: name and date (empty when unknown) of its first row, and
/// what all its rows add.
pub open spec fn pack_group(rows: Seq<PackRow>, code: Seq<char>) -> PackGroupView {
    let f = first_pack_row(rows, code, 0).unwrap();
    PackGroupView {
        name: rows[f].pack_name@,
        code,
        date_release: match rows[f].date_release {
            Some(d) => d@,
            None => Seq::empty(),
        },
        collections: pack_collections(rows, code, rows.len() as int),
    }
}

/// The packs of the rows, where each first occurs.
pub open spec fn pack_groups(rows: Seq<PackRow>) -> Seq<PackGroupView> {
    pack_codes(rows).map_values(|c: Seq<char>| pack_group(rows, c))
}

fn row_collection_texts(r: &PackRow, out: &mut Vec<String>)
    ensures
        final(out)@.map_values(|s: String| s@) == old(out)@.map_values(|s: String| s@) + row_collections(*r),
{
    let ghost before = out@.map_values(|s: String| s@);
    match &r.coll_name {
        Some(n) => {
            if r.coll_count > 0 {
                let mut t = decimal_i64(r.coll_count);
                t.append(" in ");
                t.append(n.as_str());
                out.push(t);
                assert(out@.map_values(|s: String| s@) =~= before + row_collections(*r));
            } else {
                assert(before + Seq::<Seq<char>>::empty() =~= before);
            }
        },
        None => {
            assert(before + Seq::<Seq<char>>::empty() =~= before);
        },
    }
}

fn group_for_code(rows: &Vec<PackRow>, code: &String) -> (g: PackGroup)
    requires
        first_pack_row(rows@, code@, 0) is Some,
    ensures
        g@ == pack_group(rows@, code@),
{
    let cv = chars_of(code.as_str());
    let mut first: Option<usize> = None;
    let mut colls: Vec<String> = Vec::new();
    let mut i: usize = 0;
    assert(colls@.map_values(|s: String| s@) =~= pack_collections(rows@, code@, 0));
    while i < rows.len()
        invariant
            cv@ == code@,
            first_pack_row(rows@, code@, 0) is Some,
            i <= rows@.len(),
            match first {
                Some(f) => first_pack_row(rows@, code@, 0) == Some(f as int) && f < i,
                None => first_pack_row(rows@, code@, 0) == first_pack_row(rows@, code@, i as int),
            },
            colls@.map_values(|s: String| s@) == pack_collections(rows@, code@, i as int),
        decreases rows.len() - i,
    {
        let pc = chars_of(rows[i].pack_code.as_str());
        if chars_eq(&pc, &cv) {
            if first.is_none() {
                first = Some(i);
            }
            row_collection_texts(&rows[i], &mut colls);
        }
        i = i + 1;
    }
    let f = match first {
        Some(f) => f,
        None => {
            assert(first_pack_row(rows@, code@, rows@.len() as int) is None);
            0
        },
    };
    PackGroup {
        name: rows[f].pack_name.clone(),
        code: code.clone(),
        date_release: match &rows[f].date_release {
            Some(d) => d.clone(),
            None => String::new(),
        },
        collections: colls,
    }
}

/// Groups the rows by pack (see [`pack_groups`]).
pub fn group_pack_rows(rows: &Vec<PackRow>) -> (r: Vec<PackGroup>)
    ensures
        r@.map_values(|g: PackGroup| g@) == pack_groups(rows@),
{
    let mut all_codes: Vec<String> = Vec::new();
    let mut i: usize = 0;
    while i < rows.len()
        invariant
            i <= rows@.len(),
            all_codes@.len() == i,
            forall|k: int| 0 <= k < i ==> (#[trigger] all_codes@[k])@ == rows@[k].pack_code@,
        decreases rows.len() - i,
    {
        all_codes.push(rows[i].pack_code.clone());
        i = i + 1;
    }
    assert(all_codes@.map_values(|s: String| s@) =~= rows@.map_values(|r: PackRow| r.pack_code@));
    let codes = distinct_strings(&all_codes);
    let ghost cv = codes@.map_values(|s: String| s@);
    let mut out: Vec<PackGroup> = Vec::new();
    let mut j: usize = 0;
    while j < codes.len()
        invariant
            cv == codes@.map_values(|s: String| s@),
            cv == pack_codes(rows@),
            j <= codes@.len(),
            out@.len() == j,
            forall|k: int| 0 <= k < j ==> (#[trigger] out@[k])@ == pack_group(rows@, cv[k]),
        decreases codes.len() - j,
    {
        proof {
            let sv = rows@.map_values(|r: PackRow| r.pack_code@);
            lemma_distinct_member(sv, rows@.len() as int, j as int);
            let q = choose|q: int| 0 <= q < rows@.len() && #[trigger] sv[q] == cv[j as int];
            lemma_first_pack_row_found(rows@, cv[j as int], 0, q);
        }
        out.push(group_for_code(rows, &codes[j]));
        j = j + 1;
    }
    assert(out@.map_values(|g: PackGroup| g@) =~= pack_groups(rows@));
    out
}

pub(crate) proof fn lemma_distinct_member(s: Seq<Seq<char>>, n: int, j: int)
    requires
        0 <= n <= s.len(),
        0 <= j < distinct_prefix(s, n).len(),
    ensures
        exists|q: int| 0 <= q < n && #[trigger] s[q] == distinct_prefix(s, n)[j],
    decreases n,
{
    if n > 0 {
        let d = distinct_prefix(s, n - 1);
        if j < d.len() {
            lemma_distinct_member(s, n - 1, j);
            let q = choose|q: int| 0 <= q < n - 1 && s[q] == d[j];
            if !d.contains(s[n - 1]) {
                assert(distinct_prefix(s, n)[j] == d[j]);
            }
        } else {
            assert(distinct_prefix(s, n)[j] == s[n - 1]);
        }
    }
}

proof fn lemma_first_pack_row_found(rows: Seq<PackRow>, code: Seq<char>, i: int, q: int)
    requires
        0 <= i <= q < rows.len(),
        rows[q].pack_code@ == code,
    ensures
        first_pack_row(rows, code, i) is Some,
    decreases q - i,
{
    if rows[i].pack_code@ != code {
        lemma_first_pack_row_found(rows, code, i + 1, q);
    }
}

pub open spec fn strings_sorted(s: Seq<Seq<char>>) -> bool {
    forall|i: int, j: int| 0 <= i < j < s.len() ==> seq_le(s[i], s[j])
}

/// Sorts strings in the order of `str`.
pub fn sort_strings(v: &Vec<String>) -> (r: Vec<String>)
    ensures
        strings_sorted(r@.map_values(|s: String| s@)),
        r@.map_values(|s: String| s@).to_multiset() == v@.map_values(|s: String| s@).to_multiset(),
{
    broadcast use vstd::multiset::group_multiset_axioms;

    let ghost vv = v@.map_values(|s: String| s@);
    let mut out: Vec<String> = Vec::new();
    let mut i: usize = 0;
    assert(out@.map_values(|s: String| s@) =~= vv.take(0));
    while i < v.len()
        invariant
            vv == v@.map_values(|s: String| s@),
            i <= v@.len(),
            strings_sorted(out@.map_values(|s: String| s@)),
            out@.map_values(|s: String| s@).to_multiset() == vv.take(i as int).to_multiset(),
        decreases v.len() - i,
    {
        let x = v[i].clone();
        let mut p = out.len();
        while p > 0 && !seq_le_exec(out[p - 1].as_str(), x.as_str())
            invariant
                p <= out@.len(),
                x@ == vv[i as int],
                i < v@.len(),
                forall|q: int| p <= q < out@.len() ==> !seq_le(out@[q]@, x@),
            decreases p,
        {
            p = p - 1;
        }
        let ghost before = out@.map_values(|s: String| s@);
        proof {
            assert forall|a: int, b: int|
                0 <= a < b < before.len() + 1 implies seq_le(
                before.insert(p as int, x@)[a],
                before.insert(p as int, x@)[b],
            ) by {
                if a < p && b == p {
                    if a < p - 1 {
                        lemma_seq_le_transitive(before[a], before[p - 1], x@);
                    }
                } else if a == p && b > p {
                    lemma_seq_le_total(before[b - 1], x@);
                } else if a < p && b > p {
                    lemma_seq_le_total(before[b - 1], x@);
                    if a < p - 1 {
                        lemma_seq_le_transitive(before[a], before[p - 1], x@);
                    }
                    lemma_seq_le_transitive(before[a], x@, before[b - 1]);
                }
            }
        }
        out.insert(p, x);
        proof {
            assert(out@.map_values(|s: String| s@) =~= before.insert(p as int, vv[i as int]));
            assert(vv.take(i + 1) =~= vv.take(i as int).push(vv[i as int]));
            vstd::seq_lib::to_multiset_insert(before, p as int, vv[i as int]);
            vstd::seq_lib::to_multiset_build(vv.take(i as int), vv[i as int]);
        }
        i = i + 1;
    }
    assert(vv.take(v@.len() as int) =~= vv);
    out
}

pub open spec fn packs_sorted(gs: Seq<PackGroupView>) -> bool {
    forall|i: int, j: int| 0 <= i < j < gs.len() ==> seq_le(gs[i].date_release, gs[j].date_release)
}

/// Sorts packs by release date (the packs of one date in the order given).
pub fn sort_packs(v: Vec<PackGroup>) -> (r: Vec<PackGroup>)
    ensures
        packs_sorted(r@.map_values(|g: PackGroup| g@)),
        r@.map_values(|g: PackGroup| g@).to_multiset() == v@.map_values(|g: PackGroup| g@).to_multiset(),
{
    broadcast use vstd::multiset::group_multiset_axioms;

    let ghost vv = v@.map_values(|g: PackGroup| g@);
    let mut out: Vec<PackGroup> = Vec::new();
    let mut rest = v;
    let mut i: usize = 0;
    assert(out@.map_values(|g: PackGroup| g@) =~= vv.take(0));
    while i < rest.len()
        invariant
            vv == rest@.map_values(|g: PackGroup| g@),
            i <= rest@.len(),
            packs_sorted(out@.map_values(|g: PackGroup| g@)),
            out@.map_values(|g: PackGroup| g@).to_multiset() == vv.take(i as int).to_multiset(),
        decreases rest.len() - i,
    {
        let x = PackGroup {
            name: rest[i].name.clone(),
            code: rest[i].code.clone(),
            date_release: rest[i].date_release.clone(),
            collections: clone_strings(&rest[i].collections),
        };
        let mut p = out.len();
        while p > 0 && !seq_le_exec(out[p - 1].date_release.as_str(), x.date_release.as_str())
            invariant
                p <= out@.len(),
                x@ == vv[i as int],
                i < rest@.len(),
                forall|q: int| p <= q < out@.len() ==> !seq_le(out@[q]@.date_release, x@.date_release),
            decreases p,
        {
            p = p - 1;
        }
        let ghost before = out@.map_values(|g: PackGroup| g@);
        proof {
            assert forall|a: int, b: int|
                0 <= a < b < before.len() + 1 implies seq_le(
                before.insert(p as int, x@)[a].date_release,
                before.insert(p as int, x@)[b].date_release,
            ) by {
                if a < p && b == p {
                    if a < p - 1 {
                        lemma_seq_le_transitive(before[a].date_release, before[p - 1].date_release, x@.date_release);
                    }
                } else if a == p && b > p {
                    lemma_seq_le_total(before[b - 1].date_release, x@.date_release);
                } else if a < p && b > p {
                    lemma_seq_le_total(before[b - 1].date_release, x@.date_release);
                    if a < p - 1 {
                        lemma_seq_le_transitive(before[a].date_release, before[p - 1].date_release, x@.date_release);
                    }
                    lemma_seq_le_transitive(before[a].date_release, x@.date_release, before[b - 1].date_release);
                }
            }
        }
        out.insert(p, x);
        proof {
            assert(out@.map_values(|g: PackGroup| g@) =~= before.insert(p as int, vv[i as int]));
            assert(vv.take(i + 1) =~= vv.take(i as int).push(vv[i as int]));
            vstd::seq_lib::to_multiset_insert(before, p as int, vv[i as int]);
            vstd::seq_lib::to_multiset_build(vv.take(i as int), vv[i as int]);
        }
        i = i + 1;
    }
    assert(vv.take(rest@.len() as int) =~= vv);
    out
}

pub fn clone_strings(v: &Vec<String>) -> (r: Vec<String>)
    ensures
        r@.map_values(|s: String| s@) == v@.map_values(|s: String| s@),
{
    let mut out: Vec<String> = Vec::new();
    let mut i: usize = 0;
    while i < v.len()
        invariant
            i <= v@.len(),
            out@.len() == i,
            forall|k: int| 0 <= k < i ==> (#[trigger] out@[k])@ == v@[k]@,
        decreases v.len() - i,
    {
        out.push(v[i].clone());
        i = i + 1;
    }
    assert(out@.map_values(|s: String| s@) =~= v@.map_values(|s: String| s@));
    out
}

/// What the listing says of a pack's collections, already sorted.
pub open spec fn pack_meta(sorted: Seq<Seq<char>>) -> Seq<char> {
    if sorted.len() == 0 {
        "# no printings available"@
    } else {
        "# "@ + joined(sorted, ", "@)
    }
}

/// How a pack is asked for in a card list: `[::code]`.
pub open spec fn pack_bracket(code: Seq<char>) -> Seq<char> {
    "[::"@ + code + "]"@
}

/// The widest pack bracket of the packs, in characters (0 for none).
pub open spec fn bracket_width(gs: Seq<PackGroupView>) -> nat
    decreases gs.len(),
{
    if gs.len() == 0 {
        0
    } else {
        let m = bracket_width(gs.drop_last());
        let b = pack_bracket(gs.last().code).len();
        if b > m {
            b
        } else {
            m
        }
    }
}

/// The listing of the packs: for each, in the order given, its name, and its
/// bracket padded to the widest one, then what its collections hold, sorted.
pub open spec fn pack_listing(gs: Seq<PackGroupView>, width: nat, out: Seq<(Seq<char>, Seq<char>)>) -> bool {
    &&& out.len() == gs.len()
    &&& forall|j: int|
        0 <= j < out.len() ==> {
            &&& (#[trigger] out[j]).0 == gs[j].name
            &&& exists|cs: Seq<Seq<char>>|
                strings_sorted(cs) && cs.to_multiset() == gs[j].collections.to_multiset() && out[j].1
                    == pad_right(pack_bracket(gs[j].code), width) + "    "@ + pack_meta(cs)
        }
}

fn bracket_text(code: &str) -> (r: String)
    ensures
        r@ == pack_bracket(code@),
{
    let mut b = String::from_str("[::");
    b.append(code);
    b.append("]");
    b
}

fn widest_bracket(gs: &Vec<PackGroup>) -> (r: usize)
    ensures
        r == bracket_width(gs@.map_values(|g: PackGroup| g@)),
{
    let ghost gv = gs@.map_values(|g: PackGroup| g@);
    let mut m: usize = 0;
    let mut i: usize = 0;
    while i < gs.len()
        invariant
            gv == gs@.map_values(|g: PackGroup| g@),
            i <= gs@.len(),
            m == bracket_width(gv.take(i as int)),
        decreases gs.len() - i,
    {
        let b = bracket_text(gs[i].code.as_str());
        let n = b.unicode_len();
        assert(gv.take(i + 1).drop_last() =~= gv.take(i as int));
        assert(gv.take(i + 1).last() == gs@[i as int]@);
        if n > m {
            m = n;
        }
        i = i + 1;
    }
    assert(gv.take(gs@.len() as int) =~= gv);
    m
}

fn meta_text(sorted: &Vec<String>) -> (r: String)
    ensures
        r@ == pack_meta(sorted@.map_values(|s: String| s@)),
{
    if sorted.len() == 0 {
        String::from_str("# no printings available")
    } else {
        let list = join_strings(sorted);
        let mut r = String::from_str("# ");
        r.append(list.as_str());
        r
    }
}

/// The strings joined with `", "`.
pub fn join_strings(v: &Vec<String>) -> (r: String)
    ensures
        r@ == joined(v@.map_values(|s: String| s@), ", "@),
{
    let ghost vv = v@.map_values(|s: String| s@);
    let mut out = String::new();
    let mut i: usize = 0;
    while i < v.len()
        invariant
            vv == v@.map_values(|s: String| s@),
            i <= v@.len(),
            out@ == joined(vv.take(i as int), ", "@),
        decreases v.len() - i,
    {
        if i > 0 {
            out.append(", ");
        }
        out.append(v[i].as_str());
        proof {
            let next = vv.take(i + 1);
            assert(next.drop_last() =~= vv.take(i as int));
            if i == 0 {
                assert(out@ =~= next[0]);
            }
        }
        i = i + 1;
    }
    assert(vv.take(v@.len() as int) =~= vv);
    out
}

proof fn lemma_listing_push(
    gs: Seq<PackGroupView>,
    width: nat,
    out: Seq<(Seq<char>, Seq<char>)>,
    g: PackGroupView,
    e: (Seq<char>, Seq<char>),
    c: Seq<Seq<char>>,
)
    requires
        pack_listing(gs, width, out),
        e.0 == g.name,
        strings_sorted(c),
        c.to_multiset() == g.collections.to_multiset(),
        e.1 == pad_right(pack_bracket(g.code), width) + "    "@ + pack_meta(c),
    ensures
        pack_listing(gs.push(g), width, out.push(e)),
{
    let gs2 = gs.push(g);
    let out2 = out.push(e);
    assert forall|j: int| 0 <= j < out2.len() implies {
        &&& (#[trigger] out2[j]).0 == gs2[j].name
        &&& exists|cs: Seq<Seq<char>>|
            strings_sorted(cs) && cs.to_multiset() == gs2[j].collections.to_multiset() && out2[j].1
                == pad_right(pack_bracket(gs2[j].code), width) + "    "@ + pack_meta(cs)
    } by {
        if j < out.len() {
            assert(out2[j] == out[j]);
            assert(gs2[j] == gs[j]);
        } else {
            assert(out2[j] == e);
            assert(gs2[j] == g);
        }
    }
}

/// The packs sorted by release date, each with its bracket and what its
/// collections hold: the listing of the available sets.
pub fn available_packs(rows: &Vec<PackRow>) -> (r: Vec<(String, String)>)
    ensures
        exists|order: Seq<PackGroupView>|
            order.to_multiset() == pack_groups(rows@).to_multiset() && packs_sorted(order) && pack_listing(
                order,
                bracket_width(order),
                r@.map_values(|e: (String, String)| (e.0@, e.1@)),
            ),
{
    let groups = group_pack_rows(rows);
    let sorted = sort_packs(groups);
    let ghost order = sorted@.map_values(|g: PackGroup| g@);
    let width = widest_bracket(&sorted);
    let mut out: Vec<(String, String)> = Vec::new();
    let mut i: usize = 0;
    while i < sorted.len()
        invariant
            order == sorted@.map_values(|g: PackGroup| g@),
            width == bracket_width(order),
            i <= sorted@.len(),
            pack_listing(order.take(i as int), width as nat, out@.map_values(|e: (String, String)| (e.0@, e.1@))),
        decreases sorted.len() - i,
    {
        let cs = sort_strings(&sorted[i].collections);
        let meta = meta_text(&cs);
        let bracket = bracket_text(sorted[i].code.as_str());
        let mut column = String::new();
        append_padded(&mut column, bracket.as_str(), width);
        column.append("    ");
        column.append(meta.as_str());
        let ghost before = out@.map_values(|e: (String, String)| (e.0@, e.1@));
        out.push((sorted[i].name.clone(), column));
        proof {
            let now = out@.map_values(|e: (String, String)| (e.0@, e.1@));
            let o2 = order.take(i + 1);
            assert(now =~= before.push((sorted@[i as int].name@, column@)));
            assert(o2 =~= order.take(i as int).push(order[i as int]));
            let c = cs@.map_values(|s: String| s@);
            lemma_listing_push(order.take(i as int), width as nat, before, order[i as int], (sorted@[i as int].name@, column@), c);
        }
        i = i + 1;
    }
    assert(order.take(sorted@.len() as int) =~= order);
    out
}

} // verus!
