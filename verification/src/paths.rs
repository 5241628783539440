//! File paths as strings, with `/` as the separator (the semantics of
//! `std::path::Path` on Unix).
use vstd::prelude::*;

use crate::text::{chars_of, split, split_chars, string_of, string_of_range, sub_chars};

verus! {

/// The normal components among the first `n` pieces: without empty pieces and
/// without `.`.
pub open spec fn kept_prefix(parts: Seq<Seq<char>>, n: int) -> Seq<Seq<char>>
    decreases n,
{
    if n <= 0 {
        Seq::empty()
    } else {
        let rest = kept_prefix(parts, n - 1);
        let c = parts[n - 1];
        if c.len() > 0 && c != seq!['.'] {
            rest.push(c)
        } else {
            rest
        }
    }
}

/// `Path::file_name`: the last normal component, unless it is `..`.
pub open spec fn file_name(p: Seq<char>) -> Option<Seq<char>> {
    let cs = kept_prefix(split(p, '/'), split(p, '/').len() as int);
    if cs.len() == 0 || cs.last() == seq!['.', '.'] {
        None
    } else {
        Some(cs.last())
    }
}

/// The position of the last `.` of a name.
pub open spec fn last_dot(name: Seq<char>, n: int) -> Option<int>
    decreases n,
{
    if n <= 0 {
        None
    } else if name[n - 1] == '.' {
        Some(n - 1)
    } else {
        last_dot(name, n - 1)
    }
}

/// `Path::file_stem`: the file name before its last `.`; all of it when the
/// only `.` is the first character or there is none.
pub open spec fn file_stem(p: Seq<char>) -> Option<Seq<char>> {
    match file_name(p) {
        None => None,
        Some(name) => match last_dot(name, name.len() as int) {
            Some(i) => if i == 0 {
                Some(name)
            } else {
                Some(name.take(i))
            },
            None => Some(name),
        },
    }
}

/// `Path::extension`: the file name after its last `.`, when there is a stem
/// before it.
pub open spec fn extension(p: Seq<char>) -> Option<Seq<char>> {
    match file_name(p) {
        None => None,
        Some(name) => match last_dot(name, name.len() as int) {
            Some(i) => if i == 0 {
                None
            } else {
                Some(name.skip(i + 1))
            },
            None => None,
        },
    }
}

fn is_dot_dot(c: &Vec<char>) -> (r: bool)
    ensures
        r == (c@ == seq!['.', '.']),
{
    if c.len() == 2 && c[0] == '.' && c[1] == '.' {
        assert(c@ =~= seq!['.', '.']);
        true
    } else {
        false
    }
}

pub fn path_file_name(p: &str) -> (r: Option<Vec<char>>)
    ensures
        match r {
            Some(v) => file_name(p@) == Some(v@),
            None => file_name(p@) is None,
        },
{
    let v = chars_of(p);
    let parts = split_chars(&v, '/');
    let ghost pv = split(p@, '/');
    let mut last: Option<usize> = None;
    let ghost kept: Seq<Seq<char>> = Seq::empty();
    let mut i: usize = 0;
    while i < parts.len()
        invariant
            v@ == p@,
            pv == split(p@, '/'),
            parts@.len() == pv.len(),
            forall|k: int| 0 <= k < parts@.len() ==> (#[trigger] parts@[k])@ == pv[k],
            i <= parts@.len(),
            kept == kept_prefix(pv, i as int),
            match last {
                Some(k) => k < i && kept.len() > 0 && kept.last() == pv[k as int],
                None => kept.len() == 0,
            },
        decreases parts.len() - i,
    {
        let c = &parts[i];
        let keep = c.len() > 0 && !(c.len() == 1 && c[0] == '.');
        proof {
            if c@ == seq!['.'] {
                assert(c@.len() == 1 && c@[0] == '.');
            }
            if c.len() == 1 && c@[0] == '.' {
                assert(c@ =~= seq!['.']);
            }
            assert(keep == (pv[i as int].len() > 0 && pv[i as int] != seq!['.']));
            kept = kept_prefix(pv, i + 1);
        }
        if keep {
            last = Some(i);
        }
        i = i + 1;
    }
    match last {
        None => None,
        Some(k) => {
            if is_dot_dot(&parts[k]) {
                None
            } else {
                Some(sub_chars(&parts[k], 0, parts[k].len()))
            }
        },
    }
}

fn find_last_dot(name: &Vec<char>) -> (r: Option<usize>)
    ensures
        match r {
            Some(i) => last_dot(name@, name@.len() as int) == Some(i as int) && i < name@.len(),
            None => last_dot(name@, name@.len() as int) is None,
        },
{
    let mut n = name.len();
    while n > 0
        invariant
            n <= name@.len(),
            last_dot(name@, name@.len() as int) == last_dot(name@, n as int),
        decreases n,
    {
        if name[n - 1] == '.' {
            return Some(n - 1);
        }
        n = n - 1;
    }
    None
}

pub fn path_file_stem(p: &str) -> (r: Option<String>)
    ensures
        match r {
            Some(s) => file_stem(p@) == Some(s@),
            None => file_stem(p@) is None,
        },
{
    match path_file_name(p) {
        None => None,
        Some(name) => match find_last_dot(&name) {
            Some(i) => {
                if i == 0 {
                    Some(string_of(&name))
                } else {
                    assert(name@.take(i as int) =~= name@.subrange(0, i as int));
                    Some(string_of_range(&name, 0, i))
                }
            },
            None => Some(string_of(&name)),
        },
    }
}

pub fn path_extension(p: &str) -> (r: Option<String>)
    ensures
        match r {
            Some(s) => extension(p@) == Some(s@),
            None => extension(p@) is None,
        },
{
    match path_file_name(p) {
        None => None,
        Some(name) => match find_last_dot(&name) {
            Some(i) => {
                if i == 0 {
                    None
                } else {
                    let n = name.len();
                    assert(name@.skip(i + 1) =~= name@.subrange(i + 1, n as int));
                    Some(string_of_range(&name, i + 1, n))
                }
            },
            None => None,
        },
    }
}

/// `PathBuf::push` on Unix: an absolute part replaces the path; otherwise it
/// is added after a separator (none is added to an empty path or after a
/// trailing one).
pub open spec fn joined_path(base: Seq<char>, part: Seq<char>) -> Seq<char> {
    if part.len() > 0 && part[0] == '/' {
        part
    } else if base.len() == 0 || base.last() == '/' {
        base + part
    } else {
        base + seq!['/'] + part
    }
}

pub fn join_path(base: &str, part: &str) -> (r: String)
    ensures
        r@ == joined_path(base@, part@),
{
    let b = chars_of(base);
    let p = chars_of(part);
    if p.len() > 0 && p[0] == '/' {
        return string_of(&p);
    }
    let mut out = string_of(&b);
    let n = b.len();
    if n == 0 || b[n - 1] == '/' {
        out.append(part);
    } else {
        proof {
            reveal_strlit("/");
        }
        out.append("/");
        out.append(part);
    }
    out
}

} // verus!
