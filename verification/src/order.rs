//! The lexicographic order of strings (`Ord` for `String` and `str`), and of
//! optional strings (`Ord` for `Option<String>`: `None` first).
use vstd::prelude::*;

verus! {

/// `a < b` in the order of `str`: by code point, a proper prefix first.
pub open spec fn seq_lt(a: Seq<char>, b: Seq<char>) -> bool
    decreases a.len(),
{
    if a.len() == 0 {
        b.len() > 0
    } else if b.len() == 0 {
        false
    } else if a[0] < b[0] {
        true
    } else if a[0] == b[0] {
        seq_lt(a.drop_first(), b.drop_first())
    } else {
        false
    }
}

pub open spec fn seq_le(a: Seq<char>, b: Seq<char>) -> bool {
    seq_lt(a, b) || a == b
}

/// `a < b` in the order of `Option<String>`.
pub open spec fn opt_lt(a: Option<Seq<char>>, b: Option<Seq<char>>) -> bool {
    match (a, b) {
        (None, Some(_)) => true,
        (Some(x), Some(y)) => seq_lt(x, y),
        _ => false,
    }
}

pub proof fn lemma_seq_lt_irreflexive(a: Seq<char>)
    ensures
        !seq_lt(a, a),
    decreases a.len(),
{
    if a.len() > 0 {
        lemma_seq_lt_irreflexive(a.drop_first());
    }
}

pub proof fn lemma_seq_lt_transitive(a: Seq<char>, b: Seq<char>, c: Seq<char>)
    requires
        seq_lt(a, b),
        seq_lt(b, c),
    ensures
        seq_lt(a, c),
    decreases a.len(),
{
    if a.len() > 0 && b.len() > 0 && c.len() > 0 {
        if a[0] == b[0] && b[0] == c[0] {
            lemma_seq_lt_transitive(a.drop_first(), b.drop_first(), c.drop_first());
        }
    }
}

pub proof fn lemma_seq_lt_total(a: Seq<char>, b: Seq<char>)
    ensures
        a == b || seq_lt(a, b) || seq_lt(b, a),
    decreases a.len(),
{
    if a.len() > 0 && b.len() > 0 {
        if a[0] == b[0] {
            lemma_seq_lt_total(a.drop_first(), b.drop_first());
            if a.drop_first() == b.drop_first() {
                assert(a =~= seq![a[0]] + a.drop_first());
                assert(b =~= seq![b[0]] + b.drop_first());
            }
        }
    } else if a.len() == 0 && b.len() == 0 {
        assert(a =~= b);
    }
}

pub proof fn lemma_opt_lt_irreflexive(a: Option<Seq<char>>)
    ensures
        !opt_lt(a, a),
{
    if let Some(x) = a {
        lemma_seq_lt_irreflexive(x);
    }
}

pub proof fn lemma_opt_lt_transitive(a: Option<Seq<char>>, b: Option<Seq<char>>, c: Option<Seq<char>>)
    requires
        opt_lt(a, b),
        opt_lt(b, c),
    ensures
        opt_lt(a, c),
{
    if let (Some(x), Some(y), Some(z)) = (a, b, c) {
        lemma_seq_lt_transitive(x, y, z);
    }
}

pub proof fn lemma_opt_lt_total(a: Option<Seq<char>>, b: Option<Seq<char>>)
    ensures
        a == b || opt_lt(a, b) || opt_lt(b, a),
{
    if let (Some(x), Some(y)) = (a, b) {
        lemma_seq_lt_total(x, y);
    }
}

/// Compares two strings in the order of `str`.
pub fn str_less(a: &[char], b: &[char]) -> (r: bool)
    ensures
        r == seq_lt(a@, b@),
{
    let mut i: usize = 0;
    proof {
        assert(a@.skip(0) =~= a@);
        assert(b@.skip(0) =~= b@);
    }
    while i < a.len() && i < b.len() && a[i] == b[i]
        invariant
            i <= a@.len(),
            i <= b@.len(),
            seq_lt(a@, b@) == seq_lt(a@.skip(i as int), b@.skip(i as int)),
        decreases a.len() - i,
    {
        proof {
            let sa = a@.skip(i as int);
            let sb = b@.skip(i as int);
            assert(sa.drop_first() =~= a@.skip(i + 1));
            assert(sb.drop_first() =~= b@.skip(i + 1));
            assert(sa[0] == a@[i as int]);
            assert(sb[0] == b@[i as int]);
        }
        i = i + 1;
    }
    if i == a.len() {
        i < b.len()
    } else if i == b.len() {
        false
    } else {
        proof {
            assert(a@.skip(i as int)[0] == a@[i as int]);
            assert(b@.skip(i as int)[0] == b@[i as int]);
        }
        a[i] < b[i]
    }
}

/// The order of printings by release date: dated ones by date, then the
/// undated ones (the order of `(date.is_none(), date)`).
pub open spec fn date_le(a: Option<Seq<char>>, b: Option<Seq<char>>) -> bool {
    match (a, b) {
        (Some(x), Some(y)) => seq_le(x, y),
        (Some(_), None) => true,
        (None, None) => true,
        (None, Some(_)) => false,
    }
}

pub proof fn lemma_date_le_transitive(a: Option<Seq<char>>, b: Option<Seq<char>>, c: Option<Seq<char>>)
    requires
        date_le(a, b),
        date_le(b, c),
    ensures
        date_le(a, c),
{
    if let (Some(x), Some(y), Some(z)) = (a, b, c) {
        if seq_lt(x, y) && seq_lt(y, z) {
            lemma_seq_lt_transitive(x, y, z);
        }
    }
}

pub proof fn lemma_date_le_total(a: Option<Seq<char>>, b: Option<Seq<char>>)
    ensures
        date_le(a, b) || date_le(b, a),
{
    if let (Some(x), Some(y)) = (a, b) {
        lemma_seq_lt_total(x, y);
    }
}

pub fn date_le_exec(a: &Option<String>, b: &Option<String>) -> (r: bool)
    ensures
        r == date_le(crate::models::opt_view(*a), crate::models::opt_view(*b)),
{
    match (a, b) {
        (Some(x), Some(y)) => {
            let xv = crate::text::chars_of(x.as_str());
            let yv = crate::text::chars_of(y.as_str());
            str_less(&xv, &yv) || crate::text::chars_eq(&xv, &yv)
        },
        (Some(_), None) => true,
        (None, None) => true,
        (None, Some(_)) => false,
    }
}

pub fn seq_le_exec(a: &str, b: &str) -> (r: bool)
    ensures
        r == seq_le(a@, b@),
{
    let av = crate::text::chars_of(a);
    let bv = crate::text::chars_of(b);
    str_less(&av, &bv) || crate::text::chars_eq(&av, &bv)
}

pub proof fn lemma_seq_le_transitive(a: Seq<char>, b: Seq<char>, c: Seq<char>)
    requires
        seq_le(a, b),
        seq_le(b, c),
    ensures
        seq_le(a, c),
{
    if seq_lt(a, b) && seq_lt(b, c) {
        lemma_seq_lt_transitive(a, b, c);
    }
}

pub proof fn lemma_seq_le_total(a: Seq<char>, b: Seq<char>)
    ensures
        seq_le(a, b) || seq_le(b, a),
{
    lemma_seq_lt_total(a, b);
}

} // verus!
