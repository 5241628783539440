//! Reading exported SQL back: the literals, tuples and `INSERT` statements
//! that the export writes, read as the values they stand for.
use vstd::prelude::*;

use crate::sql::{chunk_rows, chunked_inserts, escaped, escaped_char, joined, lemma_joined_first, quoted};
use crate::text::{ascii_digit, decimal, decimal_int, digits_value, lemma_decimal_reads_back};

verus! {

/// A value of an SQL tuple: a string literal, an integer, or `NULL`.
pub enum SqlValue {
    Text(Seq<char>),
    Int(int),
    Null,
}

pub open spec fn starts_with(t: Seq<char>, p: Seq<char>) -> bool {
    p.len() <= t.len() && t.take(p.len() as int) == p
}

/// Reads the inside of a string literal up to its closing quote, `''`
/// standing for a quote: the string and what follows the literal.
pub open spec fn read_quoted_body(t: Seq<char>) -> Option<(Seq<char>, Seq<char>)>
    decreases t.len(),
{
    if t.len() == 0 {
        None
    } else if t[0] == '\'' {
        if t.len() >= 2 && t[1] == '\'' {
            match read_quoted_body(t.skip(2)) {
                Some((s, r)) => Some((seq!['\''] + s, r)),
                None => None,
            }
        } else {
            Some((Seq::empty(), t.drop_first()))
        }
    } else {
        match read_quoted_body(t.drop_first()) {
            Some((s, r)) => Some((seq![t[0]] + s, r)),
            None => None,
        }
    }
}

/// How many digits `t` starts with.
pub open spec fn digit_run(t: Seq<char>) -> nat
    decreases t.len(),
{
    if t.len() > 0 && ascii_digit(t[0]) {
        1 + digit_run(t.drop_first())
    } else {
        0
    }
}

/// Reads the digits at the start of `t` as a number.
pub open spec fn read_natural(t: Seq<char>) -> Option<(int, Seq<char>)> {
    let k = digit_run(t);
    if k == 0 {
        None
    } else {
        Some((digits_value(t.take(k as int)) as int, t.skip(k as int)))
    }
}

/// Reads one value at the start of `t`: a string literal, `NULL`, or an
/// integer with an optional `-`; and what follows it.
pub open spec fn read_value(t: Seq<char>) -> Option<(SqlValue, Seq<char>)> {
    if t.len() > 0 && t[0] == '\'' {
        match read_quoted_body(t.drop_first()) {
            Some((s, r)) => Some((SqlValue::Text(s), r)),
            None => None,
        }
    } else if starts_with(t, seq!['N', 'U', 'L', 'L']) {
        Some((SqlValue::Null, t.skip(4)))
    } else if t.len() > 0 && t[0] == '-' {
        match read_natural(t.drop_first()) {
            Some((n, r)) => Some((SqlValue::Int(-n), r)),
            None => None,
        }
    } else {
        match read_natural(t) {
            Some((n, r)) => Some((SqlValue::Int(n), r)),
            None => None,
        }
    }
}

/// Reads `k` values separated by `", "` and closed by `)`.
pub open spec fn read_fields(t: Seq<char>, k: nat) -> Option<(Seq<SqlValue>, Seq<char>)>
    decreases k,
{
    if k == 0 {
        None
    } else {
        match read_value(t) {
            None => None,
            Some((v, r)) => if k == 1 {
                if r.len() > 0 && r[0] == ')' {
                    Some((seq![v], r.drop_first()))
                } else {
                    None
                }
            } else if starts_with(r, seq![',', ' ']) {
                match read_fields(r.skip(2), (k - 1) as nat) {
                    Some((vs, r2)) => Some((seq![v] + vs, r2)),
                    None => None,
                }
            } else {
                None
            },
        }
    }
}

/// Reads a tuple of `k` values in brackets.
pub open spec fn read_tuple(t: Seq<char>, k: nat) -> Option<(Seq<SqlValue>, Seq<char>)> {
    if t.len() > 0 && t[0] == '(' {
        read_fields(t.drop_first(), k)
    } else {
        None
    }
}

/// Reads at most `budget` tuples of `k` values separated by `", "`, up to
/// the `;` and line feed that end the statement.
pub open spec fn read_tuple_list(t: Seq<char>, k: nat, budget: nat) -> Option<(Seq<Seq<SqlValue>>, Seq<char>)>
    decreases budget,
{
    if budget == 0 {
        None
    } else {
        match read_tuple(t, k) {
            None => None,
            Some((vs, r)) => if starts_with(r, seq![';', '\n']) {
                Some((seq![vs], r.skip(2)))
            } else if starts_with(r, seq![',', ' ']) {
                match read_tuple_list(r.skip(2), k, (budget - 1) as nat) {
                    Some((more, r2)) => Some((seq![vs] + more, r2)),
                    None => None,
                }
            } else {
                None
            },
        }
    }
}

/// Reads the statements that start with `head`, each with at most
/// [`chunk_rows`] tuples of `k` values, one after the other (at most `fuel`
/// of them): all their tuples in order, and what follows the last.
#[verifier::opaque]
pub open spec fn read_inserts(t: Seq<char>, head: Seq<char>, k: nat, fuel: nat) -> Option<
    (Seq<Seq<SqlValue>>, Seq<char>),
>
    decreases fuel,
{
    if !starts_with(t, head) {
        Some((Seq::empty(), t))
    } else if fuel == 0 {
        None
    } else {
        match read_tuple_list(t.skip(head.len() as int), k, chunk_rows()) {
            None => None,
            Some((vs, r)) => match read_inserts(r, head, k, (fuel - 1) as nat) {
                Some((more, r2)) => Some((vs + more, r2)),
                None => None,
            },
        }
    }
}

/// The text of a value as the export writes it.
pub open spec fn value_text(v: SqlValue) -> Seq<char> {
    match v {
        SqlValue::Text(s) => quoted(s),
        SqlValue::Int(n) => decimal_int(n),
        SqlValue::Null => seq!['N', 'U', 'L', 'L'],
    }
}

/// What may follow a value in a tuple: a separator or the closing bracket.
pub open spec fn after_value(r: Seq<char>) -> bool {
    r.len() > 0 && (r[0] == ',' || r[0] == ')')
}

proof fn lemma_read_quoted_body(s: Seq<char>, rest: Seq<char>)
    requires
        rest.len() == 0 || rest[0] != '\'',
    ensures
        read_quoted_body(escaped(s) + seq!['\''] + rest) == Some((s, rest)),
    decreases s.len(),
{
    let t = escaped(s) + seq!['\''] + rest;
    if s.len() == 0 {
        assert(t =~= seq!['\''] + rest);
        assert(t.drop_first() =~= rest);
    } else {
        lemma_read_quoted_body(s.drop_first(), rest);
        let tail = escaped(s.drop_first()) + seq!['\''] + rest;
        assert(t =~= escaped_char(s[0]) + tail);
        if s[0] == '\'' {
            assert(t.skip(2) =~= tail);
        } else {
            assert(t.drop_first() =~= tail);
        }
        assert(seq![s[0]] + s.drop_first() =~= s);
    }
}

proof fn lemma_digit_run(d: Seq<char>, rest: Seq<char>)
    requires
        forall|i: int| 0 <= i < d.len() ==> ascii_digit(#[trigger] d[i]),
        rest.len() == 0 || !ascii_digit(rest[0]),
    ensures
        digit_run(d + rest) == d.len(),
    decreases d.len(),
{
    if d.len() > 0 {
        assert((d + rest).drop_first() =~= d.drop_first() + rest);
        lemma_digit_run(d.drop_first(), rest);
    } else {
        assert(d + rest =~= rest);
    }
}

proof fn lemma_read_natural(n: nat, rest: Seq<char>)
    requires
        rest.len() == 0 || !ascii_digit(rest[0]),
    ensures
        read_natural(decimal(n) + rest) == Some((n as int, rest)),
{
    lemma_decimal_reads_back(n);
    let d = decimal(n);
    lemma_digit_run(d, rest);
    assert((d + rest).take(d.len() as int) =~= d);
    assert((d + rest).skip(d.len() as int) =~= rest);
}

/// A value's text, followed by a separator or a closing bracket, reads back
/// as the value.
pub proof fn lemma_read_value(v: SqlValue, rest: Seq<char>)
    requires
        after_value(rest),
    ensures
        read_value(value_text(v) + rest) == Some((v, rest)),
{
    let t = value_text(v) + rest;
    match v {
        SqlValue::Text(s) => {
            assert(t =~= seq!['\''] + (escaped(s) + seq!['\''] + rest));
            assert(t.drop_first() =~= escaped(s) + seq!['\''] + rest);
            lemma_read_quoted_body(s, rest);
        },
        SqlValue::Null => {
            assert(t.take(4) =~= seq!['N', 'U', 'L', 'L']);
            assert(t.skip(4) =~= rest);
        },
        SqlValue::Int(n) => {
            lemma_decimal_reads_back((if n < 0 { -n } else { n }) as nat);
            if n < 0 {
                let d = decimal((-n) as nat);
                assert(t =~= seq!['-'] + (d + rest));
                assert(t.drop_first() =~= d + rest);
                lemma_read_natural((-n) as nat, rest);
                if starts_with(t, seq!['N', 'U', 'L', 'L']) {
                    assert(t.take(4)[0] == t[0]);
                }
            } else {
                let d = decimal(n as nat);
                assert(t =~= d + rest);
                lemma_read_natural(n as nat, rest);
                assert(ascii_digit(d[0]));
                assert(t[0] == d[0]);
                if starts_with(t, seq!['N', 'U', 'L', 'L']) {
                    assert(t.take(4)[0] == t[0]);
                }
            }
        },
    }
}

/// The values separated by `", "`.
pub open spec fn fields_text(vs: Seq<SqlValue>) -> Seq<char>
    decreases vs.len(),
{
    if vs.len() == 0 {
        Seq::empty()
    } else if vs.len() == 1 {
        value_text(vs[0])
    } else {
        value_text(vs[0]) + seq![',', ' '] + fields_text(vs.drop_first())
    }
}

/// A tuple as the export writes it: the values in brackets.
pub open spec fn tuple_text(vs: Seq<SqlValue>) -> Seq<char> {
    seq!['('] + fields_text(vs) + seq![')']
}

proof fn lemma_read_fields(vs: Seq<SqlValue>, rest: Seq<char>)
    requires
        vs.len() > 0,
    ensures
        read_fields(fields_text(vs) + seq![')'] + rest, vs.len()) == Some((vs, rest)),
    decreases vs.len(),
{
    let t = fields_text(vs) + seq![')'] + rest;
    if vs.len() == 1 {
        let r = seq![')'] + rest;
        assert(t =~= value_text(vs[0]) + r);
        lemma_read_value(vs[0], r);
        assert(r.drop_first() =~= rest);
        assert(seq![vs[0]] =~= vs);
    } else {
        let tail = vs.drop_first();
        lemma_read_fields(tail, rest);
        let x = fields_text(tail) + seq![')'] + rest;
        let r = seq![',', ' '] + x;
        assert(t =~= value_text(vs[0]) + r);
        lemma_read_value(vs[0], r);
        assert(r.take(2) =~= seq![',', ' ']);
        assert(r.skip(2) =~= x);
        assert(seq![vs[0]] + tail =~= vs);
    }
}

/// A tuple's text reads back as its values.
pub proof fn lemma_read_tuple(vs: Seq<SqlValue>, rest: Seq<char>)
    requires
        vs.len() > 0,
    ensures
        read_tuple(tuple_text(vs) + rest, vs.len()) == Some((vs, rest)),
{
    let t = tuple_text(vs) + rest;
    assert(t.drop_first() =~= fields_text(vs) + seq![')'] + rest);
    lemma_read_fields(vs, rest);
}

pub open spec fn tuple_texts(vss: Seq<Seq<SqlValue>>) -> Seq<Seq<char>> {
    vss.map_values(|vs: Seq<SqlValue>| tuple_text(vs))
}

/// Every tuple has `k` values.
pub open spec fn all_of_width(vss: Seq<Seq<SqlValue>>, k: nat) -> bool {
    forall|i: int| 0 <= i < vss.len() ==> (#[trigger] vss[i]).len() == k
}

proof fn lemma_read_tuple_list(vss: Seq<Seq<SqlValue>>, k: nat, budget: nat, rest: Seq<char>)
    requires
        0 < vss.len() <= budget,
        k > 0,
        all_of_width(vss, k),
    ensures
        read_tuple_list(joined(tuple_texts(vss), ", "@) + ";\n"@ + rest, k, budget) == Some((vss, rest)),
    decreases vss.len(),
{
    reveal_strlit(", ");
    reveal_strlit(";\n");
    assert(", "@ =~= seq![',', ' ']);
    assert(";\n"@ =~= seq![';', '\n']);
    let tts = tuple_texts(vss);
    let t = joined(tts, ", "@) + ";\n"@ + rest;
    assert(vss[0].len() == k);
    if vss.len() == 1 {
        assert(joined(tts, ", "@) == tts[0]);
        let r = seq![';', '\n'] + rest;
        assert(t =~= tuple_text(vss[0]) + r);
        lemma_read_tuple(vss[0], r);
        assert(r.take(2) =~= seq![';', '\n']);
        assert(r.skip(2) =~= rest);
        assert(seq![vss[0]] =~= vss);
    } else {
        let tail = vss.drop_first();
        assert(tuple_texts(tail) =~= tts.drop_first());
        lemma_joined_first(tts, ", "@);
        assert(all_of_width(tail, k)) by {
            assert forall|i: int| 0 <= i < tail.len() implies (#[trigger] tail[i]).len() == k by {
                assert(tail[i] == vss[i + 1]);
            }
        }
        lemma_read_tuple_list(tail, k, (budget - 1) as nat, rest);
        let x = joined(tuple_texts(tail), ", "@) + ";\n"@ + rest;
        let r = seq![',', ' '] + x;
        assert(t =~= tuple_text(vss[0]) + r);
        lemma_read_tuple(vss[0], r);
        assert(r.take(2) =~= seq![',', ' ']);
        assert(!starts_with(r, seq![';', '\n'])) by {
            assert(r.take(2)[0] == ',');
        }
        assert(r.skip(2) =~= x);
        assert(seq![vss[0]] + tail =~= vss);
    }
}

/// How many statements the export writes for `n` rows.
pub open spec fn chunk_count(n: nat) -> nat
    decreases n,
{
    if n == 0 {
        0
    } else if n <= chunk_rows() {
        1
    } else {
        1 + chunk_count((n - chunk_rows()) as nat)
    }
}

pub proof fn lemma_chunked_len(head: Seq<char>, vs: Seq<Seq<char>>)
    requires
        head.len() > 0,
    ensures
        chunk_count(vs.len()) <= chunked_inserts(head, vs).len(),
        chunked_inserts(head, vs).len() == 0 || starts_with(chunked_inserts(head, vs), head),
        vs.len() == 0 <==> chunked_inserts(head, vs).len() == 0,
    decreases vs.len(),
{
    let c = chunked_inserts(head, vs);
    if vs.len() > chunk_rows() {
        let skipped = vs.skip(chunk_rows() as int);
        lemma_chunked_len(head, skipped);
        let first = head + joined(vs.take(chunk_rows() as int), ", "@) + ";\n"@;
        assert(c == first + chunked_inserts(head, skipped));
        assert(c.take(head.len() as int) =~= head);
    } else if vs.len() > 0 {
        assert(c.take(head.len() as int) =~= head);
    }
}

/// The statements of one table, followed by text that does not start with
/// its head, read back as the table's tuples.
pub proof fn lemma_read_inserts(head: Seq<char>, vss: Seq<Seq<SqlValue>>, k: nat, fuel: nat, rest: Seq<char>)
    requires
        head.len() > 0,
        k > 0,
        all_of_width(vss, k),
        chunk_count(vss.len()) <= fuel,
        !starts_with(rest, head),
    ensures
        read_inserts(chunked_inserts(head, tuple_texts(vss)) + rest, head, k, fuel) == Some((vss, rest)),
    decreases vss.len(),
{
    reveal(read_inserts);
    reveal_strlit(", ");
    reveal_strlit(";\n");
    let tts = tuple_texts(vss);
    let t = chunked_inserts(head, tts) + rest;
    if vss.len() == 0 {
        assert(t =~= rest);
        assert(Seq::<Seq<SqlValue>>::empty() =~= vss);
    } else if vss.len() <= chunk_rows() {
        assert(t =~= head + (joined(tts, ", "@) + ";\n"@ + rest));
        assert(t.take(head.len() as int) =~= head);
        assert(t.skip(head.len() as int) =~= joined(tts, ", "@) + ";\n"@ + rest);
        lemma_read_tuple_list(vss, k, chunk_rows(), rest);
        assert(fuel >= 1);
        assert(read_inserts(rest, head, k, (fuel - 1) as nat) == Some((Seq::<Seq<SqlValue>>::empty(), rest)));
        assert(vss + Seq::<Seq<SqlValue>>::empty() =~= vss);
    } else {
        let m = chunk_rows() as int;
        let first = vss.take(m);
        let later = vss.skip(m);
        assert(tuple_texts(first) =~= tts.take(m));
        assert(tuple_texts(later) =~= tts.skip(m));
        assert(all_of_width(first, k)) by {
            assert forall|i: int| 0 <= i < first.len() implies (#[trigger] first[i]).len() == k by {
                assert(first[i] == vss[i]);
            }
        }
        assert(all_of_width(later, k)) by {
            assert forall|i: int| 0 <= i < later.len() implies (#[trigger] later[i]).len() == k by {
                assert(later[i] == vss[i + m]);
            }
        }
        assert(later.len() == vss.len() - chunk_rows());
        assert(chunk_count(vss.len()) == 1 + chunk_count(later.len()));
        lemma_read_inserts(head, later, k, (fuel - 1) as nat, rest);
        let r = chunked_inserts(head, tts.skip(m)) + rest;
        lemma_read_tuple_list(first, k, chunk_rows(), r);
        assert(t =~= head + (joined(tts.take(m), ", "@) + ";\n"@ + r));
        assert(t.take(head.len() as int) =~= head);
        assert(t.skip(head.len() as int) =~= joined(tts.take(m), ", "@) + ";\n"@ + r);
        assert(first + later =~= vss);
        assert(starts_with(t, head));
        assert(read_tuple_list(t.skip(head.len() as int), k, chunk_rows()) == Some((first, r)));
    }
}

} // verus!
