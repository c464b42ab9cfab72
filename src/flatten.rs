//! Flattening: a nested object becomes one level whose keys are the dotted
//! paths from the root to each leaf.

use vstd::prelude::*;
use crate::json::{entries_v, entries_view, json_view, Json, JsonV, Leaf, LeafView};

verus! {

broadcast use crate::json::lemma_entries_v_map;

/// `outer.inner`.
pub open spec fn join_path(outer: Seq<char>, inner: Seq<char>) -> Seq<char> {
    outer + seq!['.'] + inner
}

/// The entries of `sub`, each key put under `outer`.
pub open spec fn prefixed(outer: Seq<char>, sub: Seq<(Seq<char>, LeafView)>) -> Seq<(Seq<char>, LeafView)> {
    sub.map_values(|e: (Seq<char>, LeafView)| (join_path(outer, e.0), e.1))
}

/// The leaves of an object in depth-first order, each with its dotted path.
/// An empty nested object gives nothing.
pub open spec fn flat_entries(es: Seq<(Seq<char>, JsonV)>) -> Seq<(Seq<char>, LeafView)>
    decreases es,
{
    if es.len() == 0 {
        seq![]
    } else {
        let last = es[es.len() - 1];
        flat_entries(es.subrange(0, es.len() - 1)) + match last.1 {
            JsonV::Leaf(l) => seq![(last.0, l)],
            JsonV::Object(sub) => prefixed(last.0, flat_entries(sub)),
        }
    }
}

/// No value of the object is itself an object.
pub open spec fn is_flat(es: Seq<(Seq<char>, JsonV)>) -> bool {
    forall|i: int| 0 <= i < es.len() ==> (#[trigger] es[i]).1 is Leaf
}

/// A flat object's entries as keys and leaves.
pub open spec fn leaves_of(es: Seq<(Seq<char>, JsonV)>) -> Seq<(Seq<char>, LeafView)> {
    es.map_values(|e: (Seq<char>, JsonV)| (e.0, e.1->Leaf_0))
}

/// Flattening an object that holds no nested object gives back its entries
/// unchanged.
pub proof fn lemma_flatten_flat_unchanged(es: Seq<(Seq<char>, JsonV)>)
    requires
        is_flat(es),
    ensures
        flat_entries(es) == leaves_of(es),
    decreases es.len(),
{
    if es.len() > 0 {
        let t = es.subrange(0, es.len() - 1);
        assert(is_flat(t)) by {
            assert forall|i: int| 0 <= i < t.len() implies (#[trigger] t[i]).1 is Leaf by {
                assert(t[i] == es[i]);
            }
        }
        lemma_flatten_flat_unchanged(t);
        assert(es[es.len() - 1].1 is Leaf);
        assert(leaves_of(es) =~= leaves_of(t).push((es[es.len() - 1].0, es[es.len() - 1].1->Leaf_0)));
    } else {
        assert(leaves_of(es) =~= seq![]);
    }
}

/// Following the keys of `path` down from the object `es` ends at the leaf `l`.
pub open spec fn reaches(es: Seq<(Seq<char>, JsonV)>, path: Seq<Seq<char>>, l: LeafView) -> bool
    decreases es,
{
    path.len() > 0 && exists|i: int|
        0 <= i < es.len() && #[trigger] es[i].0 == path[0] && match es[i].1 {
            JsonV::Leaf(x) => path.len() == 1 && x == l,
            JsonV::Object(sub) => reaches(sub, path.drop_first(), l),
        }
}

/// The keys of `path` joined by dots.
pub open spec fn dotted(path: Seq<Seq<char>>) -> Seq<char>
    decreases path.len(),
{
    if path.len() <= 1 {
        if path.len() == 1 { path[0] } else { seq![] }
    } else {
        join_path(path[0], dotted(path.drop_first()))
    }
}

proof fn lemma_flat_sound(es: Seq<(Seq<char>, JsonV)>, k: int)
    requires
        0 <= k < flat_entries(es).len(),
    ensures
        exists|path: Seq<Seq<char>>| reaches(es, path, flat_entries(es)[k].1) && #[trigger] dotted(path) == flat_entries(es)[k].0,
    decreases es,
{
    let n = es.len() as int;
    let t = es.subrange(0, n - 1);
    let last = es[n - 1];
    let e = flat_entries(es)[k];
    if k < flat_entries(t).len() {
        lemma_flat_sound(t, k);
        let path = choose|path: Seq<Seq<char>>| reaches(t, path, flat_entries(t)[k].1) && #[trigger] dotted(path) == flat_entries(t)[k].0;
        let i = choose|i: int| 0 <= i < t.len() && #[trigger] t[i].0 == path[0] && match t[i].1 {
            JsonV::Leaf(x) => path.len() == 1 && x == flat_entries(t)[k].1,
            JsonV::Object(sub) => reaches(sub, path.drop_first(), flat_entries(t)[k].1),
        };
        assert(es[i] == t[i]);
        assert(reaches(es, path, e.1));
    } else {
        let m = k - flat_entries(t).len();
        match last.1 {
            JsonV::Leaf(x) => {
                let path = seq![last.0];
                assert(es[n - 1].0 == path[0]);
                assert(reaches(es, path, e.1));
                assert(dotted(path) == e.0);
            },
            JsonV::Object(sub) => {
                let inner = flat_entries(sub);
                assert(e == (join_path(last.0, inner[m].0), inner[m].1));
                lemma_flat_sound(sub, m);
                let q = choose|q: Seq<Seq<char>>| reaches(sub, q, inner[m].1) && #[trigger] dotted(q) == inner[m].0;
                let path = seq![last.0] + q;
                assert(path.drop_first() =~= q);
                assert(es[n - 1].0 == path[0]);
                assert(reaches(es, path, e.1));
                assert(dotted(path) == e.0);
            },
        }
    }
}

proof fn lemma_flat_complete(es: Seq<(Seq<char>, JsonV)>, path: Seq<Seq<char>>, l: LeafView)
    requires
        reaches(es, path, l),
    ensures
        flat_entries(es).contains((dotted(path), l)),
    decreases es,
{
    let n = es.len() as int;
    let t = es.subrange(0, n - 1);
    let i = choose|i: int| 0 <= i < es.len() && #[trigger] es[i].0 == path[0] && match es[i].1 {
        JsonV::Leaf(x) => path.len() == 1 && x == l,
        JsonV::Object(sub) => reaches(sub, path.drop_first(), l),
    };
    if i < n - 1 {
        assert(t[i] == es[i]);
        assert(reaches(t, path, l));
        lemma_flat_complete(t, path, l);
        let k = choose|k: int| 0 <= k < flat_entries(t).len() && flat_entries(t)[k] == (dotted(path), l);
        assert(flat_entries(es)[k] == (dotted(path), l));
    } else {
        let base = flat_entries(t).len() as int;
        match es[i].1 {
            JsonV::Leaf(x) => {
                assert(flat_entries(es)[base] == (dotted(path), l));
            },
            JsonV::Object(sub) => {
                let q = path.drop_first();
                lemma_flat_complete(sub, q, l);
                let k = choose|k: int| 0 <= k < flat_entries(sub).len() && flat_entries(sub)[k] == (dotted(q), l);
                assert(dotted(path) == join_path(path[0], dotted(q)));
                assert(flat_entries(es)[base + k] == (dotted(path), l));
            },
        }
    }
}

/// Flattening keeps exactly the leaves that can be reached from the object:
/// each entry of the result is a leaf under its dot-joined path, and each leaf
/// reachable along a path of keys is an entry under that path joined by dots.
pub proof fn lemma_flatten_complete(es: Seq<(Seq<char>, JsonV)>)
    ensures
        forall|p: Seq<char>, l: LeafView| #[trigger] flat_entries(es).contains((p, l)) <==> exists|path: Seq<Seq<char>>|
            reaches(es, path, l) && #[trigger] dotted(path) == p,
{
    assert forall|p: Seq<char>, l: LeafView| #[trigger] flat_entries(es).contains((p, l)) <==> exists|path: Seq<Seq<char>>|
        reaches(es, path, l) && #[trigger] dotted(path) == p by {
        if flat_entries(es).contains((p, l)) {
            let k = choose|k: int| 0 <= k < flat_entries(es).len() && flat_entries(es)[k] == (p, l);
            lemma_flat_sound(es, k);
        }
        if exists|path: Seq<Seq<char>>| reaches(es, path, l) && #[trigger] dotted(path) == p {
            let path = choose|path: Seq<Seq<char>>| reaches(es, path, l) && #[trigger] dotted(path) == p;
            lemma_flat_complete(es, path, l);
        }
    }
}

/// Flattens an object: each leaf appears once under the dot-joined keys that
/// lead to it, in depth-first order.
pub fn flatten_json(entries: &Vec<(String, Json)>) -> (r: Vec<(String, Leaf)>)
    ensures
        entries_view(r@) == flat_entries(entries_v(entries@)),
    decreases entries,
{
    let ghost ev = entries_v(entries@);
    let mut out: Vec<(String, Leaf)> = Vec::new();
    let mut i: usize = 0;
    while i < entries.len()
        invariant
            i <= entries.len(),
            entries_view(out@) == flat_entries(ev.subrange(0, i as int)),
            ev == entries_v(entries@),
        decreases entries.len() - i,
    {
        assert(ev.subrange(0, i + 1).subrange(0, i as int) =~= ev.subrange(0, i as int));
        let key = &entries[i].0;
        assert(ev[i as int] == (key@, json_view(entries@[i as int].1)));
        match &entries[i].1 {
            Json::Leaf(l) => {
                out.push((key.clone(), l.duplicate()));
                assert(entries_view(out@) =~= flat_entries(ev.subrange(0, i + 1)));
            },
            Json::Object(sub) => {
                let inner = flatten_json(sub);
                let ghost base = entries_view(out@);
                let mut j: usize = 0;
                while j < inner.len()
                    invariant
                        j <= inner.len(),
                        entries_view(inner@) == flat_entries(entries_v(sub@)),
                        entries_view(out@) == base + prefixed(key@, entries_view(inner@)).take(j as int),
                    decreases inner.len() - j,
                {
                    let mut path = key.clone();
                    proof {
                        reveal_strlit(".");
                    }
                    path.append(".");
                    path.append(inner[j].0.as_str());
                    assert(path@ =~= join_path(key@, inner@[j as int].0@));
                    let ghost before = out@;
                    out.push((path, inner[j].1.duplicate()));
                    assert(entries_view(out@) =~= entries_view(before).push((join_path(key@, inner@[j as int].0@), inner@[j as int].1@)));
                    assert(prefixed(key@, entries_view(inner@)).take(j + 1) =~= prefixed(key@, entries_view(inner@)).take(j as int).push(
                        (join_path(key@, inner@[j as int].0@), inner@[j as int].1@)));
                    assert(entries_view(out@) =~= base + prefixed(key@, entries_view(inner@)).take(j + 1));
                    j += 1;
                }
                assert(prefixed(key@, entries_view(inner@)).take(inner.len() as int) =~= prefixed(key@, entries_view(inner@)));
                assert(entries_view(out@) =~= flat_entries(ev.subrange(0, i + 1)));
            },
        }
        i += 1;
    }
    assert(ev.subrange(0, entries.len() as int) =~= ev);
    out
}

} // verus!
