//! SQL text: quoted literals, `IN` lists, and the statements that export the
//! database.
use vstd::prelude::*;

use crate::text::{append_chars, chars_of, decimal_int, decimal_i64, push_char};

verus! {

// ---------------------------------------------------------------------------
// Quoted literals
// ---------------------------------------------------------------------------

/// The text of one character inside a quoted literal: a quote is doubled.
pub open spec fn escaped_char(c: char) -> Seq<char> {
    if c == '\'' {
        seq!['\'', '\'']
    } else {
        seq![c]
    }
}

pub open spec fn escaped(s: Seq<char>) -> Seq<char>
    decreases s.len(),
{
    if s.len() == 0 {
        Seq::empty()
    } else {
        escaped_char(s[0]) + escaped(s.drop_first())
    }
}

/// A string as an SQL literal: in single quotes, with each quote doubled.
pub open spec fn quoted(s: Seq<char>) -> Seq<char> {
    seq!['\''] + escaped(s) + seq!['\'']
}

/// Reads the inside of a quoted literal back: `''` stands for a quote, and a
/// lone quote is malformed.
pub open spec fn unescaped(t: Seq<char>) -> Option<Seq<char>>
    decreases t.len(),
{
    if t.len() == 0 {
        Some(Seq::empty())
    } else if t[0] == '\'' {
        if t.len() >= 2 && t[1] == '\'' {
            match unescaped(t.skip(2)) {
                Some(r) => Some(seq!['\''] + r),
                None => None,
            }
        } else {
            None
        }
    } else {
        match unescaped(t.drop_first()) {
            Some(r) => Some(seq![t[0]] + r),
            None => None,
        }
    }
}

/// Reads an SQL literal back to the string it stands for.
pub open spec fn unquoted(t: Seq<char>) -> Option<Seq<char>> {
    if t.len() >= 2 && t[0] == '\'' && t.last() == '\'' {
        unescaped(t.subrange(1, t.len() - 1))
    } else {
        None
    }
}

pub proof fn lemma_escaped_concat(a: Seq<char>, b: Seq<char>)
    ensures
        escaped(a + b) == escaped(a) + escaped(b),
    decreases a.len(),
{
    if a.len() == 0 {
        assert(a + b =~= b);
        assert(escaped(a) + escaped(b) =~= escaped(b));
    } else {
        lemma_escaped_concat(a.drop_first(), b);
        assert((a + b).drop_first() =~= a.drop_first() + b);
        assert((a + b)[0] == a[0]);
        assert(escaped_char(a[0]) + (escaped(a.drop_first()) + escaped(b)) =~= escaped_char(a[0])
            + escaped(a.drop_first()) + escaped(b));
    }
}

proof fn lemma_unescaped_escaped(s: Seq<char>)
    ensures
        unescaped(escaped(s)) == Some(s),
    decreases s.len(),
{
    if s.len() == 0 {
    } else {
        lemma_unescaped_escaped(s.drop_first());
        let t = escaped(s);
        let rest = escaped(s.drop_first());
        if s[0] == '\'' {
            assert(t =~= seq!['\'', '\''] + rest);
            assert(t.skip(2) =~= rest);
        } else {
            assert(t =~= seq![s[0]] + rest);
            assert(t.drop_first() =~= rest);
        }
        assert(seq![s[0]] + s.drop_first() =~= s);
    }
}

/// Quoting loses nothing: the literal reads back as the string it quotes.
pub proof fn lemma_unquote_quote(s: Seq<char>)
    ensures
        unquoted(quoted(s)) == Some(s),
{
    let q = quoted(s);
    assert(q.subrange(1, q.len() - 1) =~= escaped(s));
    lemma_unescaped_escaped(s);
}

/// Two different strings never quote to the same literal.
pub proof fn lemma_quote_injective(a: Seq<char>, b: Seq<char>)
    requires
        quoted(a) == quoted(b),
    ensures
        a == b,
{
    lemma_unquote_quote(a);
    lemma_unquote_quote(b);
}

/// Appends `quoted(s)` to `out`.
pub fn append_quoted(out: &mut String, s: &str)
    ensures
        final(out)@ == old(out)@ + quoted(s@),
{
    let v = chars_of(s);
    push_char(out, '\'');
    let mut i: usize = 0;
    while i < v.len()
        invariant
            v@ == s@,
            i <= v@.len(),
            out@ == old(out)@ + seq!['\''] + escaped(v@.take(i as int)),
        decreases v.len() - i,
    {
        let c = v[i];
        if c == '\'' {
            push_char(out, '\'');
            push_char(out, '\'');
        } else {
            push_char(out, c);
        }
        proof {
            lemma_escaped_concat(v@.take(i as int), seq![c]);
            assert(v@.take(i + 1) =~= v@.take(i as int) + seq![c]);
            assert(escaped(seq![c]) =~= escaped_char(c)) by {
                assert(seq![c].drop_first() =~= Seq::<char>::empty());
                assert(escaped(seq![c].drop_first()) =~= Seq::<char>::empty());
                assert(seq![c][0] == c);
                assert(escaped(seq![c]) == escaped_char(c) + escaped(seq![c].drop_first()));
            }
        }
        i = i + 1;
    }
    push_char(out, '\'');
    assert(v@.take(v@.len() as int) =~= v@);
}

/// Quotes a string as an SQL literal.
pub fn quote_sql_string(s: &str) -> (r: String)
    ensures
        r@ == quoted(s@),
{
    let mut out = String::new();
    append_quoted(&mut out, s);
    out
}

/// The pieces joined with `sep` between them.
pub open spec fn joined(pieces: Seq<Seq<char>>, sep: Seq<char>) -> Seq<char>
    decreases pieces.len(),
{
    if pieces.len() == 0 {
        Seq::empty()
    } else if pieces.len() == 1 {
        pieces[0]
    } else {
        joined(pieces.drop_last(), sep) + sep + pieces.last()
    }
}

/// Joining puts the first piece, then the separator, then the rest joined.
pub proof fn lemma_joined_first(pieces: Seq<Seq<char>>, sep: Seq<char>)
    requires
        pieces.len() >= 2,
    ensures
        joined(pieces, sep) == pieces[0] + sep + joined(pieces.drop_first(), sep),
    decreases pieces.len(),
{
    if pieces.len() == 2 {
        assert(pieces.drop_last().len() == 1);
        assert(pieces.drop_last()[0] == pieces[0]);
        assert(joined(pieces.drop_last(), sep) == pieces[0]);
        assert(pieces.drop_first().len() == 1);
        assert(pieces.drop_first()[0] == pieces[1]);
        assert(joined(pieces.drop_first(), sep) == pieces[1]);
        assert(joined(pieces, sep) == joined(pieces.drop_last(), sep) + sep + pieces.last());
    } else {
        let init = pieces.drop_last();
        let tail = pieces.drop_first();
        lemma_joined_first(init, sep);
        assert(init[0] == pieces[0]);
        assert(init.drop_first() =~= tail.drop_last());
        assert(tail.last() == pieces.last());
        assert(joined(tail, sep) == joined(tail.drop_last(), sep) + sep + tail.last());
        assert(joined(pieces, sep) == joined(init, sep) + sep + pieces.last());
        assert(pieces[0] + sep + (joined(tail.drop_last(), sep) + sep + pieces.last()) =~= pieces[0] + sep
            + joined(tail.drop_last(), sep) + sep + pieces.last());
    }
}

pub open spec fn quoted_all(items: Seq<Seq<char>>) -> Seq<Seq<char>> {
    items.map_values(|s: Seq<char>| quoted(s))
}

/// The quoted items separated by `", "`: the list inside `IN (...)`.
pub fn build_in_clause(items: &Vec<String>) -> (r: String)
    ensures
        r@ == joined(quoted_all(items@.map_values(|s: String| s@)), ", "@),
{
    let ghost views = items@.map_values(|s: String| s@);
    let mut out = String::new();
    let mut i: usize = 0;
    while i < items.len()
        invariant
            views == items@.map_values(|s: String| s@),
            i <= items@.len(),
            out@ == joined(quoted_all(views.take(i as int)), ", "@),
        decreases items.len() - i,
    {
        let ghost prev = quoted_all(views.take(i as int));
        if i > 0 {
            out.append(", ");
        }
        append_quoted(&mut out, items[i].as_str());
        proof {
            let next = quoted_all(views.take(i + 1));
            assert(next.drop_last() =~= prev);
            assert(next.last() == quoted(items@[i as int]@));
            if i == 0 {
                assert(out@ =~= next[0]);
            }
        }
        i = i + 1;
    }
    assert(views.take(items@.len() as int) =~= views);
    out
}

// ---------------------------------------------------------------------------
// Export
// ---------------------------------------------------------------------------

/// How many rows one `INSERT` statement of the export holds.
pub open spec fn chunk_rows() -> nat {
    500
}

/// One `INSERT` statement per run of [`chunk_rows`] value tuples, each ended
/// by `;` and a line feed.
pub open spec fn chunked_inserts(head: Seq<char>, values: Seq<Seq<char>>) -> Seq<char>
    decreases values.len(),
{
    if values.len() == 0 {
        Seq::empty()
    } else if values.len() <= chunk_rows() {
        head + joined(values, ", "@) + ";\n"@
    } else {
        head + joined(values.take(chunk_rows() as int), ", "@) + ";\n"@ + chunked_inserts(
            head,
            values.skip(chunk_rows() as int),
        )
    }
}

fn append_joined(out: &mut String, pieces: &Vec<String>, from: usize, to: usize)
    requires
        from < to <= pieces@.len(),
    ensures
        final(out)@ == old(out)@ + joined(
            pieces@.map_values(|s: String| s@).subrange(from as int, to as int),
            ", "@,
        ),
{
    let ghost views = pieces@.map_values(|s: String| s@);
    out.append(pieces[from].as_str());
    let mut i = from + 1;
    proof {
        let first = views.subrange(from as int, from + 1);
        assert(first.len() == 1);
        assert(first[0] == pieces@[from as int]@);
    }
    while i < to
        invariant
            from < i <= to,
            to <= pieces@.len(),
            views == pieces@.map_values(|s: String| s@),
            out@ == old(out)@ + joined(views.subrange(from as int, i as int), ", "@),
        decreases to - i,
    {
        out.append(", ");
        out.append(pieces[i].as_str());
        proof {
            let next = views.subrange(from as int, i + 1);
            assert(next.drop_last() =~= views.subrange(from as int, i as int));
            assert(next.last() == pieces@[i as int]@);
        }
        i = i + 1;
    }
}

/// Appends the `INSERT` statements of one table.
pub fn append_chunked_inserts(out: &mut String, head: &str, values: &Vec<String>)
    ensures
        final(out)@ == old(out)@ + chunked_inserts(head@, values@.map_values(|s: String| s@)),
{
    let ghost views = values@.map_values(|s: String| s@);
    let n = values.len();
    let mut start: usize = 0;
    assert(views.skip(0) =~= views);
    while start < n
        invariant
            n == values@.len(),
            start <= n,
            views == values@.map_values(|s: String| s@),
            old(out)@ + chunked_inserts(head@, views) == out@ + chunked_inserts(
                head@,
                views.skip(start as int),
            ),
        decreases n - start,
    {
        let ghost rest = views.skip(start as int);
        let end = if n - start <= 500 {
            n
        } else {
            start + 500
        };
        let ghost before = out@;
        out.append(head);
        append_joined(out, values, start, end);
        out.append(";\n");
        proof {
            if n - start <= 500 {
                assert(views.subrange(start as int, end as int) =~= rest);
                assert(rest.skip(rest.len() as int) =~= Seq::<Seq<char>>::empty());
                assert(views.skip(end as int) =~= Seq::<Seq<char>>::empty());
            } else {
                assert(views.subrange(start as int, end as int) =~= rest.take(500));
                assert(rest.skip(500) =~= views.skip(end as int));
            }
            assert(before + (head@ + joined(views.subrange(start as int, end as int), ", "@)
                + ";\n"@) =~= out@);
        }
        start = end;
    }
}

/// `NULL` for an absent value, the quoted string otherwise.
pub open spec fn quoted_or_null(o: Option<Seq<char>>) -> Seq<char> {
    match o {
        Some(s) => quoted(s),
        None => "NULL"@,
    }
}

pub fn append_quoted_or_null(out: &mut String, o: &Option<String>)
    ensures
        final(out)@ == old(out)@ + quoted_or_null(crate::models::opt_view(*o)),
{
    match o {
        Some(s) => append_quoted(out, s.as_str()),
        None => out.append("NULL"),
    }
}

} // verus!
