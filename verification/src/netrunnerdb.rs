//! NetrunnerDB deck and decklist addresses.
use vstd::prelude::*;

use crate::error::ProxyNexusError;
use crate::text::{chars_of, find, find_chars, split, split_chars, string_of, string_of_range, sub_chars};

verus! {

/// `s.split(p).nth(1)`: the text between the first and the second `p`.
pub open spec fn piece_after(s: Seq<char>, p: Seq<char>) -> Option<Seq<char>> {
    match find(s, p) {
        None => None,
        Some(i) => {
            let rest = s.skip(i + p.len());
            match find(rest, p) {
                Some(j) => Some(rest.take(j)),
                None => Some(rest),
            }
        },
    }
}

/// `trim_end_matches('/')`.
pub open spec fn without_trailing_slashes(s: Seq<char>) -> Seq<char>
    decreases s.len(),
{
    if s.len() > 0 && s.last() == '/' {
        without_trailing_slashes(s.drop_last())
    } else {
        s
    }
}

pub open spec fn bad_url_message() -> Seq<char> {
    "URL must be a NetrunnerDB decklist or deck URL"@
}

/// The deck id and API path of a NetrunnerDB address: a published decklist
/// (`.../decklist/{id}/...`) or a private deck (`.../deck/view/{id}`).
pub open spec fn nrdb_target(url: Seq<char>) -> Result<(Seq<char>, Seq<char>), Seq<char>> {
    if find(url, "/decklist/"@) is Some {
        Ok((split(piece_after(url, "/decklist/"@).unwrap(), '/')[0], "decklist"@))
    } else if find(url, "/deck/view/"@) is Some {
        Ok((without_trailing_slashes(piece_after(url, "/deck/view/"@).unwrap()), "deck"@))
    } else {
        Err(bad_url_message())
    }
}

fn piece_after_exec(s: &Vec<char>, p: &Vec<char>) -> (r: Option<Vec<char>>)
    ensures
        match r {
            Some(v) => piece_after(s@, p@) == Some(v@),
            None => piece_after(s@, p@) is None,
        },
{
    match find_chars(s, p, 0) {
        None => None,
        Some(i) => {
            proof {
                crate::text::lemma_find_from_bounds(s@, p@, 0);
            }
            let n = s.len();
            let rest = sub_chars(s, i + p.len(), n);
            assert(rest@ =~= s@.skip(i + p@.len()));
            match find_chars(&rest, p, 0) {
                Some(j) => {
                    proof {
                        crate::text::lemma_find_from_bounds(rest@, p@, 0);
                    }
                    let r = sub_chars(&rest, 0, j);
                    assert(r@ =~= rest@.take(j as int));
                    Some(r)
                },
                None => Some(rest),
            }
        },
    }
}

fn strip_trailing_slashes(v: &Vec<char>) -> (r: Vec<char>)
    ensures
        r@ == without_trailing_slashes(v@),
{
    let mut j = v.len();
    assert(v@.subrange(0, j as int) =~= v@);
    while j > 0 && v[j - 1] == '/'
        invariant
            j <= v@.len(),
            without_trailing_slashes(v@) == without_trailing_slashes(v@.subrange(0, j as int)),
        decreases j,
    {
        assert(v@.subrange(0, j as int).drop_last() =~= v@.subrange(0, j - 1));
        j = j - 1;
    }
    proof {
        let t = v@.subrange(0, j as int);
        if t.len() > 0 {
            assert(t.last() == v@[j - 1]);
        }
    }
    sub_chars(v, 0, j)
}

/// Reads the deck id and API path from a NetrunnerDB address (see
/// [`nrdb_target`]).
pub fn parse_nrdb_url(url: &str) -> (r: Result<(String, String), ProxyNexusError>)
    ensures
        match (r, nrdb_target(url@)) {
            (Ok((id, path)), Ok((sid, spath))) => id@ == sid && path@ == spath,
            (Err(e), Err(m)) => e == ProxyNexusError::Internal(e->Internal_0) && e->Internal_0@ == m,
            _ => false,
        },
{
    let v = chars_of(url);
    let dl = chars_of("/decklist/");
    if let Some(piece) = piece_after_exec(&v, &dl) {
        let parts = split_chars(&piece, '/');
        proof {
            crate::text::lemma_split_from_nonempty(piece@, '/', Seq::empty());
        }
        let id = string_of(&parts[0]);
        return Ok((id, String::from_str("decklist")));
    }
    let dv = chars_of("/deck/view/");
    if let Some(piece) = piece_after_exec(&v, &dv) {
        let id = strip_trailing_slashes(&piece);
        return Ok((string_of(&id), String::from_str("deck")));
    }
    Err(ProxyNexusError::Internal(String::from_str("URL must be a NetrunnerDB decklist or deck URL")))
}

pub open spec fn api_url(id: Seq<char>, path: Seq<char>) -> Seq<char> {
    "https://netrunnerdb.com/api/2.0/public/"@ + path + "/"@ + id
}

/// The API address of the deck that a NetrunnerDB address shows.
pub fn nrdb_api_url(url: &str) -> (r: Result<String, ProxyNexusError>)
    ensures
        match (r, nrdb_target(url@)) {
            (Ok(a), Ok((id, path))) => a@ == api_url(id, path),
            (Err(e), Err(m)) => e == ProxyNexusError::Internal(e->Internal_0) && e->Internal_0@ == m,
            _ => false,
        },
{
    let (id, path) = parse_nrdb_url(url)?;
    let mut a = String::from_str("https://netrunnerdb.com/api/2.0/public/");
    a.append(path.as_str());
    a.append("/");
    a.append(id.as_str());
    Ok(a)
}

pub open spec fn empty_response_message() -> Seq<char> {
    "Empty response from NetrunnerDB"@
}

/// The cards of the first deck of an API answer.
pub fn first_deck_cards(decks: Vec<Vec<(String, u32)>>) -> (r: Result<Vec<(String, u32)>, ProxyNexusError>)
    ensures
        match r {
            Ok(c) => decks@.len() > 0 && c == decks@[0],
            Err(e) => decks@.len() == 0 && e == ProxyNexusError::Internal(e->Internal_0)
                && e->Internal_0@ == empty_response_message(),
        },
{
    let mut decks = decks;
    if decks.len() == 0 {
        return Err(ProxyNexusError::Internal(String::from_str("Empty response from NetrunnerDB")));
    }
    Ok(decks.swap_remove(0))
}

} // verus!
