//! Character and string primitives shared by the parsers and formatters.
//!
//! Strings are modelled by their view, a `Seq<char>`.  The Unicode tables
//! behind `char::is_alphanumeric`, `char::is_whitespace` and
//! `str::to_lowercase` are not restated here: beyond ASCII their results are
//! named, and only the plain ASCII behaviour that the standard documentation
//! gives is spelled out.
use vstd::prelude::*;

verus! {

// ---------------------------------------------------------------------------
// Names for the Unicode tables of std
// ---------------------------------------------------------------------------

/// What `char::is_alphanumeric` answers for a character beyond ASCII.
pub uninterp spec fn alphanumeric_beyond_ascii(c: char) -> bool;

/// What `char::is_whitespace` answers for a character beyond ASCII.
pub uninterp spec fn whitespace_beyond_ascii(c: char) -> bool;

/// What `str::to_lowercase` returns for a string that is not all ASCII.
pub uninterp spec fn lowercase_beyond_ascii(s: Seq<char>) -> Seq<char>;

// ---------------------------------------------------------------------------
// ASCII
// ---------------------------------------------------------------------------

pub open spec fn is_ascii_char(c: char) -> bool {
    (c as u32) < 128
}

pub open spec fn all_ascii(s: Seq<char>) -> bool {
    forall|i: int| 0 <= i < s.len() ==> is_ascii_char(#[trigger] s[i])
}

pub open spec fn ascii_digit(c: char) -> bool {
    '0' <= c && c <= '9'
}

pub open spec fn ascii_alnum(c: char) -> bool {
    ||| ascii_digit(c)
    ||| ('a' <= c && c <= 'z')
    ||| ('A' <= c && c <= 'Z')
}

pub open spec fn ascii_whitespace(c: char) -> bool {
    c == ' ' || c == '\t' || c == '\n' || c == '\u{0B}' || c == '\u{0C}' || c == '\r'
}

pub open spec fn ascii_lower_char(c: char) -> char {
    if 'A' <= c && c <= 'Z' {
        ((c as u32) + 32) as char
    } else {
        c
    }
}

pub open spec fn ascii_lower(s: Seq<char>) -> Seq<char> {
    s.map_values(|c: char| ascii_lower_char(c))
}

pub open spec fn all_digits(s: Seq<char>) -> bool {
    forall|i: int| 0 <= i < s.len() ==> ascii_digit(#[trigger] s[i])
}

/// `char::is_alphanumeric`: on ASCII, the letters and digits.
pub open spec fn unicode_alphanumeric(c: char) -> bool {
    if is_ascii_char(c) {
        ascii_alnum(c)
    } else {
        alphanumeric_beyond_ascii(c)
    }
}

/// `char::is_whitespace`: on ASCII, space, tab, line feed, vertical tab,
/// form feed and carriage return.
pub open spec fn unicode_whitespace(c: char) -> bool {
    if is_ascii_char(c) {
        ascii_whitespace(c)
    } else {
        whitespace_beyond_ascii(c)
    }
}

/// `str::to_lowercase`: on an ASCII string, `A`..`Z` lowered and every other
/// character kept.
pub open spec fn unicode_lowercase(s: Seq<char>) -> Seq<char> {
    if all_ascii(s) {
        ascii_lower(s)
    } else {
        lowercase_beyond_ascii(s)
    }
}

// ---------------------------------------------------------------------------
// Trusted std calls
// ---------------------------------------------------------------------------

/// Calls `char::is_alphanumeric`.  Claimed: on ASCII characters the answer
/// is exactly the ASCII letters and digits; beyond ASCII it is the named
/// Unicode property.
#[verifier::external_body]
pub(crate) fn char_is_alphanumeric(c: char) -> (r: bool)
    ensures
        r == unicode_alphanumeric(c),
        !is_ascii_char(c) ==> r == alphanumeric_beyond_ascii(c),
{
    c.is_alphanumeric()
}

/// Calls `char::is_whitespace`.  Claimed: on ASCII characters the answer is
/// space, tab, line feed, vertical tab, form feed and carriage return;
/// beyond ASCII it is the named Unicode property.
#[verifier::external_body]
pub(crate) fn char_is_whitespace(c: char) -> (r: bool)
    ensures
        r == unicode_whitespace(c),
        !is_ascii_char(c) ==> r == whitespace_beyond_ascii(c),
{
    c.is_whitespace()
}

/// Calls `str::to_lowercase`.  Claimed: on an ASCII string it lowers `A`..`Z`
/// and keeps every other character; on any other string the result is the
/// named Unicode lowercase mapping.
#[verifier::external_body]
pub(crate) fn str_to_lowercase(s: &str) -> (r: String)
    ensures
        r@ == unicode_lowercase(s@),
        !all_ascii(s@) ==> r@ == lowercase_beyond_ascii(s@),
{
    s.to_lowercase()
}

/// Calls `String::push`: the character is appended.
#[verifier::external_body]
pub(crate) fn push_char(s: &mut String, c: char)
    ensures
        final(s)@ == old(s)@.push(c),
{
    s.push(c)
}

// ---------------------------------------------------------------------------
// Conversions between strings and character vectors
// ---------------------------------------------------------------------------

pub fn chars_of(s: &str) -> (v: Vec<char>)
    ensures
        v@ == s@,
{
    let n = s.unicode_len();
    let mut v: Vec<char> = Vec::with_capacity(n);
    let mut i: usize = 0;
    while i < n
        invariant
            n == s@.len(),
            i <= n,
            v@ == s@.subrange(0, i as int),
        decreases n - i,
    {
        v.push(s.get_char(i));
        i = i + 1;
    }
    assert(v@ == s@);
    v
}

pub fn string_of(v: &[char]) -> (s: String)
    ensures
        s@ == v@,
{
    let mut s = String::new();
    let mut i: usize = 0;
    while i < v.len()
        invariant
            i <= v@.len(),
            s@ == v@.subrange(0, i as int),
        decreases v.len() - i,
    {
        push_char(&mut s, v[i]);
        i = i + 1;
    }
    assert(s@ == v@);
    s
}

pub fn sub_chars(v: &[char], from: usize, to: usize) -> (r: Vec<char>)
    requires
        from <= to <= v@.len(),
    ensures
        r@ == v@.subrange(from as int, to as int),
{
    let mut r: Vec<char> = Vec::new();
    let mut i = from;
    while i < to
        invariant
            from <= i <= to,
            to <= v@.len(),
            r@ == v@.subrange(from as int, i as int),
        decreases to - i,
    {
        r.push(v[i]);
        i = i + 1;
    }
    r
}

pub fn string_of_range(v: &[char], from: usize, to: usize) -> (s: String)
    requires
        from <= to <= v@.len(),
    ensures
        s@ == v@.subrange(from as int, to as int),
{
    let mut s = String::new();
    let mut i = from;
    while i < to
        invariant
            from <= i <= to,
            to <= v@.len(),
            s@ == v@.subrange(from as int, i as int),
        decreases to - i,
    {
        push_char(&mut s, v[i]);
        i = i + 1;
    }
    s
}

pub fn append_chars(s: &mut String, v: &[char])
    ensures
        final(s)@ == old(s)@ + v@,
{
    let mut i: usize = 0;
    while i < v.len()
        invariant
            i <= v@.len(),
            s@ == old(s)@ + v@.subrange(0, i as int),
        decreases v.len() - i,
    {
        push_char(s, v[i]);
        i = i + 1;
    }
    assert(v@.subrange(0, v@.len() as int) == v@);
}

pub fn chars_eq(a: &[char], b: &[char]) -> (r: bool)
    ensures
        r == (a@ == b@),
{
    if a.len() != b.len() {
        return false;
    }
    let mut i: usize = 0;
    while i < a.len()
        invariant
            a@.len() == b@.len(),
            i <= a@.len(),
            forall|j: int| 0 <= j < i ==> a@[j] == b@[j],
        decreases a.len() - i,
    {
        if a[i] != b[i] {
            return false;
        }
        i = i + 1;
    }
    assert(a@ =~= b@);
    true
}

pub fn str_eq(a: &str, b: &str) -> (r: bool)
    ensures
        r == (a@ == b@),
{
    let va = chars_of(a);
    let vb = chars_of(b);
    chars_eq(&va, &vb)
}

// ---------------------------------------------------------------------------
// Trimming
// ---------------------------------------------------------------------------

pub open spec fn trim_start(s: Seq<char>) -> Seq<char>
    decreases s.len(),
{
    if s.len() > 0 && unicode_whitespace(s[0]) {
        trim_start(s.drop_first())
    } else {
        s
    }
}

pub open spec fn trim_end(s: Seq<char>) -> Seq<char>
    decreases s.len(),
{
    if s.len() > 0 && unicode_whitespace(s.last()) {
        trim_end(s.drop_last())
    } else {
        s
    }
}

/// `str::trim`: leading and trailing whitespace removed.
pub open spec fn trim(s: Seq<char>) -> Seq<char> {
    trim_end(trim_start(s))
}

proof fn lemma_trim_start_step(s: Seq<char>, i: int)
    requires
        0 <= i < s.len(),
        unicode_whitespace(s[i]),
    ensures
        trim_start(s.subrange(i, s.len() as int)) == trim_start(s.subrange(i + 1, s.len() as int)),
{
    assert(s.subrange(i, s.len() as int).drop_first() =~= s.subrange(i + 1, s.len() as int));
}

proof fn lemma_trim_end_step(s: Seq<char>, j: int)
    requires
        0 < j <= s.len(),
        unicode_whitespace(s[j - 1]),
    ensures
        trim_end(s.subrange(0, j)) == trim_end(s.subrange(0, j - 1)),
{
    assert(s.subrange(0, j).drop_last() =~= s.subrange(0, j - 1));
}

/// The bounds `[start, end)` of `trim(v@)` inside `v`.
pub fn trim_bounds(v: &[char]) -> (r: (usize, usize))
    ensures
        r.0 <= r.1 <= v@.len(),
        v@.subrange(r.0 as int, r.1 as int) == trim(v@),
{
    let n = v.len();
    let mut i: usize = 0;
    assert(v@.subrange(0, n as int) =~= v@);
    while i < n && char_is_whitespace(v[i])
        invariant
            n == v@.len(),
            i <= n,
            trim_start(v@) == trim_start(v@.subrange(i as int, n as int)),
        decreases n - i,
    {
        proof {
            lemma_trim_start_step(v@, i as int);
        }
        i = i + 1;
    }
    let ghost rest = v@.subrange(i as int, n as int);
    assert(trim_start(rest) == rest) by {
        if rest.len() > 0 {
            assert(rest[0] == v@[i as int]);
        }
    }
    let mut j: usize = n;
    assert(rest.subrange(0, n - i) =~= rest);
    while j > i && char_is_whitespace(v[j - 1])
        invariant
            n == v@.len(),
            i <= j <= n,
            rest == v@.subrange(i as int, n as int),
            trim_end(rest) == trim_end(rest.subrange(0, j - i)),
        decreases j,
    {
        proof {
            lemma_trim_end_step(rest, (j - i) as int);
        }
        j = j - 1;
    }
    proof {
        let t = rest.subrange(0, j - i);
        if t.len() > 0 {
            assert(t.last() == v@[j - 1]);
        }
        assert(trim_end(t) == t);
        assert(rest.subrange(0, n - i) =~= rest);
        assert(t =~= v@.subrange(i as int, j as int));
    }
    (i, j)
}

pub fn trim_chars(v: &[char]) -> (r: Vec<char>)
    ensures
        r@ == trim(v@),
{
    let (a, b) = trim_bounds(v);
    sub_chars(v, a, b)
}

pub fn trim_str(s: &str) -> (r: String)
    ensures
        r@ == trim(s@),
{
    let v = chars_of(s);
    let (a, b) = trim_bounds(&v);
    string_of_range(&v, a, b)
}

// ---------------------------------------------------------------------------
// Searching
// ---------------------------------------------------------------------------

pub open spec fn matches_at(s: Seq<char>, p: Seq<char>, i: int) -> bool {
    0 <= i && i + p.len() <= s.len() && s.subrange(i, i + p.len()) == p
}

/// The first index at or after `i` where `p` occurs in `s`.
pub open spec fn find_from(s: Seq<char>, p: Seq<char>, i: int) -> Option<int>
    decreases s.len() + 1 - i,
{
    if i < 0 || i + p.len() > s.len() {
        None
    } else if s.subrange(i, i + p.len()) == p {
        Some(i)
    } else {
        find_from(s, p, i + 1)
    }
}

/// `str::find`: the first occurrence of `p` in `s`.
pub open spec fn find(s: Seq<char>, p: Seq<char>) -> Option<int> {
    find_from(s, p, 0)
}

pub proof fn lemma_find_from_bounds(s: Seq<char>, p: Seq<char>, i: int)
    requires
        0 <= i,
    ensures
        find_from(s, p, i) matches Some(k) ==> i <= k && matches_at(s, p, k)
            && (forall|j: int| i <= j < k ==> !matches_at(s, p, j)),
        find_from(s, p, i) is None ==> (forall|j: int| i <= j ==> !matches_at(s, p, j)),
    decreases s.len() + 1 - i,
{
    if i + p.len() > s.len() {
    } else if s.subrange(i, i + p.len()) == p {
    } else {
        lemma_find_from_bounds(s, p, i + 1);
    }
}

pub fn find_chars(s: &[char], p: &[char], start: usize) -> (r: Option<usize>)
    requires
        start <= s@.len(),
    ensures
        r matches Some(k) ==> find_from(s@, p@, start as int) == Some(k as int),
        r is None ==> find_from(s@, p@, start as int) is None,
{
    let n = s.len();
    let m = p.len();
    if m > n {
        return None;
    }
    let mut i = start;
    while i <= n - m
        invariant
            n == s@.len(),
            m == p@.len(),
            m <= n,
            start <= i,
            find_from(s@, p@, start as int) == find_from(s@, p@, i as int),
        decreases n - i,
    {
        let mut k: usize = 0;
        let mut same = true;
        while k < m
            invariant
                n == s@.len(),
                m == p@.len(),
                i + m <= n,
                k <= m,
                same == (forall|j: int| 0 <= j < k ==> s@[i + j] == p@[j]),
            decreases m - k,
        {
            if s[i + k] != p[k] {
                same = false;
            }
            k = k + 1;
        }
        if same {
            assert(s@.subrange(i as int, i + m) =~= p@);
            return Some(i);
        }
        assert(s@.subrange(i as int, i + m) != p@) by {
            let j = choose|j: int| 0 <= j < m && s@[i + j] != p@[j];
            assert(s@.subrange(i as int, i + m)[j] == s@[i + j]);
        }
        i = i + 1;
    }
    None
}

pub fn find_char(s: &[char], c: char) -> (r: Option<usize>)
    ensures
        r matches Some(k) ==> find(s@, seq![c]) == Some(k as int) && k < s@.len() && s@[k as int] == c
            && (forall|j: int| 0 <= j < k ==> s@[j] != c),
        r is None ==> find(s@, seq![c]) is None && (forall|j: int| 0 <= j < s@.len() ==> s@[j] != c),
{
    let mut i: usize = 0;
    while i < s.len()
        invariant
            i <= s@.len(),
            forall|j: int| 0 <= j < i ==> s@[j] != c,
            find(s@, seq![c]) == find_from(s@, seq![c], i as int),
        decreases s.len() - i,
    {
        if s[i] == c {
            assert(s@.subrange(i as int, i + 1) =~= seq![c]);
            return Some(i);
        }
        assert(s@.subrange(i as int, i + 1) != seq![c]) by {
            assert(s@.subrange(i as int, i + 1)[0] == s@[i as int]);
        }
        i = i + 1;
    }
    None
}

// ---------------------------------------------------------------------------
// Splitting
// ---------------------------------------------------------------------------

/// `str::split(c)` continued from a segment `cur` already begun.
pub open spec fn split_from(s: Seq<char>, c: char, cur: Seq<char>) -> Seq<Seq<char>>
    decreases s.len(),
{
    if s.len() == 0 {
        seq![cur]
    } else if s[0] == c {
        seq![cur] + split_from(s.drop_first(), c, Seq::empty())
    } else {
        split_from(s.drop_first(), c, cur.push(s[0]))
    }
}

/// `str::split(c)`: the pieces between the occurrences of `c`.
pub open spec fn split(s: Seq<char>, c: char) -> Seq<Seq<char>> {
    split_from(s, c, Seq::empty())
}

pub proof fn lemma_split_from_nonempty(s: Seq<char>, c: char, cur: Seq<char>)
    ensures
        split_from(s, c, cur).len() >= 1,
    decreases s.len(),
{
    if s.len() > 0 {
        if s[0] == c {
            lemma_split_from_nonempty(s.drop_first(), c, Seq::empty());
        } else {
            lemma_split_from_nonempty(s.drop_first(), c, cur.push(s[0]));
        }
    }
}

pub fn split_chars(s: &[char], c: char) -> (r: Vec<Vec<char>>)
    ensures
        r@.len() == split(s@, c).len(),
        forall|k: int| 0 <= k < r@.len() ==> (#[trigger] r@[k])@ == split(s@, c)[k],
{
    let mut parts: Vec<Vec<char>> = Vec::new();
    let mut cur: Vec<char> = Vec::new();
    let mut i: usize = 0;
    let ghost done: Seq<Seq<char>> = Seq::empty();
    assert(s@.skip(0) =~= s@);
    while i < s.len()
        invariant
            i <= s@.len(),
            parts@.len() == done.len(),
            forall|k: int| 0 <= k < parts@.len() ==> (#[trigger] parts@[k])@ == done[k],
            split(s@, c) == done + split_from(s@.skip(i as int), c, cur@),
        decreases s.len() - i,
    {
        let ghost rest = s@.skip(i as int);
        assert(rest.drop_first() =~= s@.skip(i + 1));
        assert(rest[0] == s@[i as int]);
        if s[i] == c {
            proof {
                assert(done + split_from(rest, c, cur@) =~= done.push(cur@) + split_from(
                    s@.skip(i + 1),
                    c,
                    Seq::empty(),
                ));
                done = done.push(cur@);
            }
            parts.push(cur);
            cur = Vec::new();
            assert(cur@ =~= Seq::<char>::empty());
        } else {
            cur.push(s[i]);
        }
        i = i + 1;
    }
    proof {
        assert(split_from(s@.skip(i as int), c, cur@) == seq![cur@]);
        done = done.push(cur@);
    }
    parts.push(cur);
    parts
}

pub open spec fn strip_cr(line: Seq<char>) -> Seq<char> {
    if line.len() > 0 && line.last() == '\r' {
        line.drop_last()
    } else {
        line
    }
}

/// `str::lines` continued from a line `cur` already begun.
pub open spec fn lines_from(s: Seq<char>, cur: Seq<char>) -> Seq<Seq<char>>
    decreases s.len(),
{
    if s.len() == 0 {
        if cur.len() == 0 {
            Seq::empty()
        } else {
            seq![cur]
        }
    } else if s[0] == '\n' {
        seq![strip_cr(cur)] + lines_from(s.drop_first(), Seq::empty())
    } else {
        lines_from(s.drop_first(), cur.push(s[0]))
    }
}

/// `str::lines`: the lines ended by `\n` (with a `\r` before it dropped), and
/// the rest, if it is not empty.
pub open spec fn lines(s: Seq<char>) -> Seq<Seq<char>> {
    lines_from(s, Seq::empty())
}

pub fn lines_of(s: &[char]) -> (r: Vec<Vec<char>>)
    ensures
        r@.len() == lines(s@).len(),
        forall|k: int| 0 <= k < r@.len() ==> (#[trigger] r@[k])@ == lines(s@)[k],
{
    let mut out: Vec<Vec<char>> = Vec::new();
    let mut cur: Vec<char> = Vec::new();
    let mut i: usize = 0;
    let ghost done: Seq<Seq<char>> = Seq::empty();
    assert(s@.skip(0) =~= s@);
    while i < s.len()
        invariant
            i <= s@.len(),
            out@.len() == done.len(),
            forall|k: int| 0 <= k < out@.len() ==> (#[trigger] out@[k])@ == done[k],
            lines(s@) == done + lines_from(s@.skip(i as int), cur@),
        decreases s.len() - i,
    {
        let ghost rest = s@.skip(i as int);
        assert(rest.drop_first() =~= s@.skip(i + 1));
        assert(rest[0] == s@[i as int]);
        if s[i] == '\n' {
            let mut line = cur;
            let n = line.len();
            if n > 0 && line[n - 1] == '\r' {
                line.pop();
                assert(line@ =~= strip_cr(cur@));
            }
            proof {
                assert(done + lines_from(rest, cur@) =~= done.push(strip_cr(cur@)) + lines_from(
                    s@.skip(i + 1),
                    Seq::empty(),
                ));
                done = done.push(strip_cr(cur@));
            }
            out.push(line);
            cur = Vec::new();
            assert(cur@ =~= Seq::<char>::empty());
        } else {
            cur.push(s[i]);
        }
        i = i + 1;
    }
    if cur.len() > 0 {
        proof {
            assert(lines_from(s@.skip(i as int), cur@) == seq![cur@]);
            assert(done + seq![cur@] =~= done.push(cur@));
            done = done.push(cur@);
        }
        out.push(cur);
    } else {
        assert(done + lines_from(s@.skip(i as int), cur@) =~= done);
    }
    out
}

/// The text before the first occurrence of `c` (all of it when there is none):
/// `s.split(c).next()`.
pub open spec fn before_char(s: Seq<char>, c: char) -> Seq<char> {
    split(s, c)[0]
}

// ---------------------------------------------------------------------------
// Decimal numbers
// ---------------------------------------------------------------------------

pub open spec fn digit_char(d: nat) -> char {
    ((d % 10) + 48) as char
}

/// Decimal notation of a natural number, as `Display` writes it.
pub open spec fn decimal(n: nat) -> Seq<char>
    decreases n,
{
    if n < 10 {
        seq![digit_char(n)]
    } else {
        decimal(n / 10).push(digit_char(n % 10))
    }
}

/// Decimal notation of an integer, with a leading `-` when negative.
pub open spec fn decimal_int(n: int) -> Seq<char> {
    if n < 0 {
        seq!['-'] + decimal((-n) as nat)
    } else {
        decimal(n as nat)
    }
}

pub fn decimal_u64(n: u64) -> (s: String)
    ensures
        s@ == decimal(n as nat),
    decreases n,
{
    let d = (n % 10) as u8;
    let c = (d + 48u8) as char;
    assert(c == digit_char(n as nat)) by {
        assert((n % 10) as nat == (n as nat) % 10);
    }
    if n < 10 {
        let mut s = String::new();
        push_char(&mut s, c);
        assert(s@ =~= seq![digit_char(n as nat)]);
        s
    } else {
        let mut s = decimal_u64(n / 10);
        push_char(&mut s, c);
        s
    }
}

pub fn decimal_i64(n: i64) -> (s: String)
    ensures
        s@ == decimal_int(n as int),
{
    if n < 0 {
        let m: u64 = ((-(n + 1)) as u64) + 1;
        let mut s = String::new();
        push_char(&mut s, '-');
        let d = decimal_u64(m);
        s.append(d.as_str());
        assert(s@ =~= seq!['-'] + decimal((-n) as nat));
        s
    } else {
        decimal_u64(n as u64)
    }
}

/// The value of a string of decimal digits.
pub open spec fn digits_value(s: Seq<char>) -> nat
    decreases s.len(),
{
    if s.len() == 0 {
        0
    } else {
        digits_value(s.drop_last()) * 10 + ((s.last() as u32) - 48) as nat
    }
}

proof fn lemma_digits_value_grows(s: Seq<char>, k: int)
    requires
        0 <= k <= s.len(),
        all_digits(s),
    ensures
        digits_value(s.subrange(0, k)) <= digits_value(s),
    decreases s.len() - k,
{
    if k < s.len() {
        let t = s.subrange(0, k + 1);
        assert(t.drop_last() =~= s.subrange(0, k));
        assert(all_digits(t)) by {
            assert forall|i: int| 0 <= i < t.len() implies ascii_digit(#[trigger] t[i]) by {
                assert(t[i] == s[i]);
            }
        }
        lemma_digits_value_grows(s, k + 1);
    } else {
        assert(s.subrange(0, k) =~= s);
    }
}

/// `str::parse::<u32>` on a string of ASCII digits, with `1` in place of a
/// failure: the empty string and values above `u32::MAX` fail.
pub open spec fn parse_u32_or_one(s: Seq<char>) -> u32 {
    if s.len() > 0 && digits_value(s) <= u32::MAX {
        digits_value(s) as u32
    } else {
        1
    }
}

pub fn parse_digits_or_one(v: &[char], from: usize, to: usize) -> (r: u32)
    requires
        from <= to <= v@.len(),
        all_digits(v@.subrange(from as int, to as int)),
    ensures
        r == parse_u32_or_one(v@.subrange(from as int, to as int)),
{
    let ghost s = v@.subrange(from as int, to as int);
    if from == to {
        return 1;
    }
    let mut acc: u64 = 0;
    let mut i = from;
    while i < to
        invariant
            from <= i <= to,
            to <= v@.len(),
            s == v@.subrange(from as int, to as int),
            all_digits(s),
            acc == digits_value(s.subrange(0, i - from)),
            acc <= u32::MAX,
        decreases to - i,
    {
        let ghost t = s.subrange(0, i - from + 1);
        assert(t.drop_last() =~= s.subrange(0, i - from));
        assert(t.last() == v@[i as int]);
        assert(ascii_digit(s[i - from]));
        let d = (v[i] as u32 - 48) as u64;
        let next = acc * 10 + d;
        if next > u32::MAX as u64 {
            proof {
                lemma_digits_value_grows(s, i - from + 1);
            }
            return 1;
        }
        acc = next;
        i = i + 1;
    }
    assert(s.subrange(0, to - from) =~= s);
    acc as u32
}

// ---------------------------------------------------------------------------
// Padding (the `{:width$}` format of a string)
// ---------------------------------------------------------------------------

pub open spec fn spaces(n: nat) -> Seq<char> {
    Seq::new(n, |i: int| ' ')
}

/// `format!("{:w$}", s)`: `s` followed by spaces up to `w` characters.
pub open spec fn pad_right(s: Seq<char>, w: nat) -> Seq<char> {
    if s.len() >= w {
        s
    } else {
        s + spaces((w - s.len()) as nat)
    }
}

pub fn append_padded(out: &mut String, s: &str, w: usize)
    ensures
        final(out)@ == old(out)@ + pad_right(s@, w as nat),
{
    let n = s.unicode_len();
    out.append(s);
    let mut k = n;
    assert(spaces(0) =~= Seq::<char>::empty());
    assert(out@ =~= old(out)@ + s@ + spaces(0));
    while k < w
        invariant
            n == s@.len(),
            k >= n,
            k <= w || k == n,
            out@ == old(out)@ + s@ + spaces((k - n) as nat),
        decreases w - k,
    {
        push_char(out, ' ');
        assert(spaces((k + 1 - n) as nat) =~= spaces((k - n) as nat).push(' '));
        k = k + 1;
    }
    proof {
        if n >= w {
            assert(out@ =~= old(out)@ + s@);
        } else {
            assert(out@ =~= old(out)@ + (s@ + spaces((w - n) as nat)));
        }
    }
}

// ---------------------------------------------------------------------------
// Facts about searching, splitting and numbers
// ---------------------------------------------------------------------------

proof fn lemma_find_from_first(s: Seq<char>, p: Seq<char>, i: int, k: int)
    requires
        0 <= i <= k,
        matches_at(s, p, k),
        forall|j: int| 0 <= j < k ==> !matches_at(s, p, j),
    ensures
        find_from(s, p, i) == Some(k),
    decreases k - i,
{
    if i < k {
        assert(!matches_at(s, p, i));
        lemma_find_from_first(s, p, i + 1, k);
    }
}

/// `find` gives the first place where the pattern occurs.
pub proof fn lemma_find_first(s: Seq<char>, p: Seq<char>, k: int)
    requires
        0 <= k,
        matches_at(s, p, k),
        forall|j: int| 0 <= j < k ==> !matches_at(s, p, j),
    ensures
        find(s, p) == Some(k),
{
    lemma_find_from_first(s, p, 0, k);
}

/// The first place of a character.
pub proof fn lemma_find_char_first(s: Seq<char>, c: char, k: int)
    requires
        0 <= k < s.len(),
        s[k] == c,
        forall|j: int| 0 <= j < k ==> s[j] != c,
    ensures
        find(s, seq![c]) == Some(k),
{
    assert(s.subrange(k, k + 1) =~= seq![c]);
    assert forall|j: int| 0 <= j < k implies !matches_at(s, seq![c], j) by {
        if matches_at(s, seq![c], j) {
            assert(s.subrange(j, j + 1)[0] == s[j]);
        }
    }
    lemma_find_first(s, seq![c], k);
}

/// Splitting runs over a stretch without the separator.
pub proof fn lemma_split_from_plain(a: Seq<char>, rest: Seq<char>, c: char, cur: Seq<char>)
    requires
        forall|j: int| 0 <= j < a.len() ==> a[j] != c,
    ensures
        split_from(a + rest, c, cur) == split_from(rest, c, cur + a),
    decreases a.len(),
{
    if a.len() == 0 {
        assert(a + rest =~= rest);
        assert(cur + a =~= cur);
    } else {
        assert((a + rest)[0] == a[0]);
        assert((a + rest).drop_first() =~= a.drop_first() + rest);
        assert(cur.push(a[0]) + a.drop_first() =~= cur + a);
        lemma_split_from_plain(a.drop_first(), rest, c, cur.push(a[0]));
    }
}

/// A text without the separator is one piece.
pub proof fn lemma_split_plain(a: Seq<char>, c: char)
    requires
        forall|j: int| 0 <= j < a.len() ==> a[j] != c,
    ensures
        split(a, c) == seq![a],
{
    lemma_split_from_plain(a, Seq::empty(), c, Seq::empty());
    assert(a + Seq::<char>::empty() =~= a);
    assert(Seq::<char>::empty() + a =~= a);
}

/// The first piece of a text ends at the first separator.
pub proof fn lemma_split_at(a: Seq<char>, b: Seq<char>, c: char)
    requires
        forall|j: int| 0 <= j < a.len() ==> a[j] != c,
    ensures
        split(a + seq![c] + b, c) == seq![a] + split(b, c),
{
    assert(a + seq![c] + b =~= a + (seq![c] + b));
    lemma_split_from_plain(a, seq![c] + b, c, Seq::empty());
    assert(Seq::<char>::empty() + a =~= a);
    assert((seq![c] + b)[0] == c);
    assert((seq![c] + b).drop_first() =~= b);
}

/// The text before the first `c`.
pub proof fn lemma_before_char(a: Seq<char>, b: Seq<char>, c: char)
    requires
        forall|j: int| 0 <= j < a.len() ==> a[j] != c,
    ensures
        before_char(a + seq![c] + b, c) == a,
{
    lemma_split_at(a, b, c);
}

/// The decimal notation of a number: digits that read back as the number.
pub proof fn lemma_decimal_reads_back(n: nat)
    ensures
        decimal(n).len() > 0,
        all_digits(decimal(n)),
        digits_value(decimal(n)) == n,
        !decimal(n).contains('x'),
    decreases n,
{
    let d = digit_char(n);
    assert(((n % 10) + 48) < 58);
    assert(d as u32 == (n % 10) + 48);
    if n < 10 {
        assert(seq![d].drop_last() =~= Seq::<char>::empty());
        assert(digits_value(seq![d]) == digits_value(Seq::<char>::empty()) * 10 + ((d as u32) - 48) as nat);
    } else {
        lemma_decimal_reads_back(n / 10);
        let s = decimal(n / 10).push(d);
        assert(s.drop_last() =~= decimal(n / 10));
        assert(all_digits(s)) by {
            assert forall|i: int| 0 <= i < s.len() implies ascii_digit(#[trigger] s[i]) by {
                if i < s.len() - 1 {
                    assert(s[i] == decimal(n / 10)[i]);
                }
            }
        }
        assert(n == (n / 10) * 10 + n % 10);
        if s.contains('x') {
            let i = choose|i: int| 0 <= i < s.len() && s[i] == 'x';
            if i < s.len() - 1 {
                assert(decimal(n / 10)[i] == 'x');
            }
        }
    }
}

/// Trimming leaves a text alone that has no white space at its ends.
pub proof fn lemma_trim_untouched(s: Seq<char>)
    requires
        s.len() > 0,
        !unicode_whitespace(s[0]),
        !unicode_whitespace(s.last()),
    ensures
        trim(s) == s,
{
}

/// Reading lines runs over a stretch without a line feed.
pub proof fn lemma_lines_from_plain(a: Seq<char>, rest: Seq<char>, cur: Seq<char>)
    requires
        forall|j: int| 0 <= j < a.len() ==> a[j] != '\n',
    ensures
        lines_from(a + rest, cur) == lines_from(rest, cur + a),
    decreases a.len(),
{
    if a.len() == 0 {
        assert(a + rest =~= rest);
        assert(cur + a =~= cur);
    } else {
        assert((a + rest)[0] == a[0]);
        assert((a + rest).drop_first() =~= a.drop_first() + rest);
        assert(cur.push(a[0]) + a.drop_first() =~= cur + a);
        lemma_lines_from_plain(a.drop_first(), rest, cur.push(a[0]));
    }
}

/// The lines of `a`, a line feed, and `b`: `a`, then the lines of `b`.
pub proof fn lemma_lines_first(a: Seq<char>, b: Seq<char>)
    requires
        forall|j: int| 0 <= j < a.len() ==> a[j] != '\n',
    ensures
        lines(a + seq!['\n'] + b) == seq![strip_cr(a)] + lines(b),
{
    assert(a + seq!['\n'] + b =~= a + (seq!['\n'] + b));
    lemma_lines_from_plain(a, seq!['\n'] + b, Seq::empty());
    assert(Seq::<char>::empty() + a =~= a);
    assert((seq!['\n'] + b)[0] == '\n');
    assert((seq!['\n'] + b).drop_first() =~= b);
}

/// A non-empty text without a line feed is one line.
pub proof fn lemma_lines_single(a: Seq<char>)
    requires
        a.len() > 0,
        forall|j: int| 0 <= j < a.len() ==> a[j] != '\n',
    ensures
        lines(a) == seq![a],
{
    lemma_lines_from_plain(a, Seq::empty(), Seq::empty());
    assert(a + Seq::<char>::empty() =~= a);
    assert(Seq::<char>::empty() + a =~= a);
}

} // verus!
