//! Key propagation: one key with one literal value is put into a domain file,
//! unless a string is already there under that key.

use vstd::prelude::*;
use crate::json::{entries_view, parse_top_level, pretty_json, pretty_object, top_level_of, Leaf, LeafView};

verus! {

/// The position of the first entry keyed `k`, or -1 where there is none.
pub open spec fn first_pos(es: Seq<(Seq<char>, LeafView)>, k: Seq<char>) -> int
    decreases es.len(),
{
    if es.len() == 0 {
        -1
    } else {
        let p = first_pos(es.subrange(0, es.len() - 1), k);
        if p >= 0 {
            p
        } else if es[es.len() - 1].0 == k {
            es.len() - 1
        } else {
            -1
        }
    }
}

/// The value under `k` is a string.
pub open spec fn holds_text(es: Seq<(Seq<char>, LeafView)>, k: Seq<char>) -> bool {
    let p = first_pos(es, k);
    p >= 0 && es[p].1 is Text
}

/// The entries after adding `k` with the string `v`: unchanged where a string
/// is already there; else `v` replaces the value under `k`, or comes last.
pub open spec fn with_key(es: Seq<(Seq<char>, LeafView)>, k: Seq<char>, v: Seq<char>) -> Seq<(Seq<char>, LeafView)> {
    let p = first_pos(es, k);
    if holds_text(es, k) {
        es
    } else if p >= 0 {
        es.update(p, (k, LeafView::Text(v)))
    } else {
        es.push((k, LeafView::Text(v)))
    }
}

proof fn lemma_first_pos_bounds(s: Seq<(Seq<char>, LeafView)>, k: Seq<char>)
    ensures
        -1 <= first_pos(s, k) < s.len(),
        first_pos(s, k) >= 0 ==> s[first_pos(s, k)].0 == k,
    decreases s.len(),
{
    if s.len() > 0 {
        let t = s.subrange(0, s.len() - 1);
        lemma_first_pos_bounds(t, k);
    }
}

proof fn lemma_first_pos_prefix(s: Seq<(Seq<char>, LeafView)>, j: int, k: Seq<char>)
    requires
        0 <= j <= s.len(),
        first_pos(s.subrange(0, j), k) >= 0,
    ensures
        first_pos(s, k) == first_pos(s.subrange(0, j), k),
    decreases s.len(),
{
    if j == s.len() {
        assert(s.subrange(0, j) =~= s);
    } else {
        let t = s.subrange(0, s.len() - 1);
        assert(t.subrange(0, j) =~= s.subrange(0, j));
        lemma_first_pos_prefix(t, j, k);
    }
}

proof fn lemma_first_pos_update(s: Seq<(Seq<char>, LeafView)>, k: Seq<char>, e: (Seq<char>, LeafView))
    requires
        first_pos(s, k) >= 0,
        e.0 == k,
    ensures
        first_pos(s.update(first_pos(s, k), e), k) == first_pos(s, k),
    decreases s.len(),
{
    let p = first_pos(s, k);
    let n = s.len() as int;
    let t = s.subrange(0, n - 1);
    let s2 = s.update(p, e);
    lemma_first_pos_bounds(s, k);
    if p == n - 1 {
        assert(s2.subrange(0, n - 1) =~= t);
    } else {
        lemma_first_pos_bounds(t, k);
        assert(s2.subrange(0, n - 1) =~= t.update(p, e));
        lemma_first_pos_update(t, k, e);
    }
}

/// Adding a key a second time changes nothing: after the first addition a string
/// stands under the key.
pub proof fn lemma_add_key_idempotent(es: Seq<(Seq<char>, LeafView)>, k: Seq<char>, v: Seq<char>)
    ensures
        holds_text(with_key(es, k, v), k),
        with_key(with_key(es, k, v), k, v) == with_key(es, k, v),
{
    let p = first_pos(es, k);
    let e = (k, LeafView::Text(v));
    lemma_first_pos_bounds(es, k);
    if !holds_text(es, k) {
        if p >= 0 {
            lemma_first_pos_update(es, k, e);
        } else {
            assert(es.push(e).subrange(0, es.len() as int) =~= es);
        }
    }
}

/// Position of the first entry keyed like `k`, found by a scan.
fn find_entry(es: &Vec<(String, Leaf)>, k: &String) -> (r: Option<usize>)
    ensures
        match r {
            Some(p) => first_pos(entries_view(es@), k@) == p as int && p < es.len(),
            None => first_pos(entries_view(es@), k@) == -1,
        },
{
    let ghost s = entries_view(es@);
    let mut j: usize = 0;
    while j < es.len()
        invariant
            j <= es.len(),
            s == entries_view(es@),
            first_pos(s.subrange(0, j as int), k@) == -1,
        decreases es.len() - j,
    {
        assert(s.subrange(0, j + 1).subrange(0, j as int) =~= s.subrange(0, j as int));
        if es[j].0 == *k {
            proof {
                lemma_first_pos_prefix(s, j + 1, k@);
            }
            return Some(j);
        }
        j += 1;
    }
    assert(s.subrange(0, es.len() as int) =~= s);
    None
}

/// Puts `key` with the string `value` into an object's entries, unless a string
/// already stands under `key`. Says whether it put it in.
pub fn add_key_to_object(entries: &mut Vec<(String, Leaf)>, key: &String, value: &String) -> (inserted: bool)
    ensures
        inserted == !holds_text(entries_view(old(entries)@), key@),
        entries_view(final(entries)@) == with_key(entries_view(old(entries)@), key@, value@),
{
    let ghost s = entries_view(entries@);
    proof {
        lemma_first_pos_bounds(s, key@);
    }
    match find_entry(entries, key) {
        Some(p) => {
            match &entries[p].1 {
                Leaf::Text(_) => {
                    return false;
                },
                Leaf::Other(_) => {},
            }
            entries.set(p, (key.clone(), Leaf::Text(value.clone())));
            assert(entries_view(entries@) =~= s.update(p as int, (key@, LeafView::Text(value@))));
            true
        },
        None => {
            entries.push((key.clone(), Leaf::Text(value.clone())));
            assert(entries_view(entries@) =~= s.push((key@, LeafView::Text(value@))));
            true
        },
    }
}

/// What adding a key did to one domain file.
#[derive(Debug)]
pub enum KeyUpdate {
    /// A string already stood under the key; the file stays as it was.
    Exists,
    /// The key was put in; this is the file's new text.
    Inserted(String),
}

/// Adds `key` with the string `value` to the text of a domain file. `None` where
/// the text is not a JSON object.
pub fn add_key_to_text(text: &str, key: &String, value: &String) -> (r: Option<KeyUpdate>)
    ensures
        match top_level_of(text@) {
            None => r is None,
            Some(es) => if holds_text(es, key@) {
                r matches Some(KeyUpdate::Exists)
            } else {
                r matches Some(KeyUpdate::Inserted(t)) && t@ == pretty_object(with_key(es, key@, value@))
            },
        },
{
    match parse_top_level(text) {
        None => None,
        Some(entries) => {
            let mut entries = entries;
            if add_key_to_object(&mut entries, key, value) {
                Some(KeyUpdate::Inserted(pretty_json(&entries)))
            } else {
                Some(KeyUpdate::Exists)
            }
        },
    }
}

} // verus!
