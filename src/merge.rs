//! Merging: the top-level entries of several domain objects are combined into
//! one object, a later domain's value replacing an earlier one under the same key.

use vstd::prelude::*;
use crate::json::{entries_v, json_view, keys_of, Json, JsonV};
use crate::order::{sorted_of, sorted_unique, strictly_sorted, views, lemma_lt_irreflexive};

verus! {

broadcast use crate::json::lemma_entries_v_map;

/// The position of the first entry keyed `k`, or -1 where there is none.
pub open spec fn key_pos(es: Seq<(Seq<char>, JsonV)>, k: Seq<char>) -> int
    decreases es.len(),
{
    if es.len() == 0 {
        -1
    } else {
        let p = key_pos(es.subrange(0, es.len() - 1), k);
        if p >= 0 {
            p
        } else if es[es.len() - 1].0 == k {
            es.len() - 1
        } else {
            -1
        }
    }
}

/// Puts entry `e` into `acc`: in place of the entry with the same key, or at the end.
pub open spec fn upsert(acc: Seq<(Seq<char>, JsonV)>, e: (Seq<char>, JsonV)) -> Seq<(Seq<char>, JsonV)> {
    let p = key_pos(acc, e.0);
    if p >= 0 {
        acc.update(p, e)
    } else {
        acc.push(e)
    }
}

/// The entries of `es`, put one after another into `acc`.
pub open spec fn merge_into(acc: Seq<(Seq<char>, JsonV)>, es: Seq<(Seq<char>, JsonV)>) -> Seq<(Seq<char>, JsonV)>
    decreases es.len(),
{
    if es.len() == 0 {
        acc
    } else {
        upsert(merge_into(acc, es.subrange(0, es.len() - 1)), es[es.len() - 1])
    }
}

/// The domains' entries, merged in the order of the domains.
pub open spec fn merge_all(domains: Seq<Seq<(Seq<char>, JsonV)>>) -> Seq<(Seq<char>, JsonV)>
    decreases domains.len(),
{
    if domains.len() == 0 {
        seq![]
    } else {
        merge_into(merge_all(domains.subrange(0, domains.len() - 1)), domains[domains.len() - 1])
    }
}

proof fn lemma_key_pos_prefix(s: Seq<(Seq<char>, JsonV)>, j: int, k: Seq<char>)
    requires
        0 <= j <= s.len(),
        key_pos(s.subrange(0, j), k) >= 0,
    ensures
        key_pos(s, k) == key_pos(s.subrange(0, j), k),
    decreases s.len(),
{
    if j == s.len() {
        assert(s.subrange(0, j) =~= s);
    } else {
        let t = s.subrange(0, s.len() - 1);
        assert(t.subrange(0, j) =~= s.subrange(0, j));
        lemma_key_pos_prefix(t, j, k);
    }
}

/// The value under `k`, where an entry has that key.
pub open spec fn value_at(es: Seq<(Seq<char>, JsonV)>, k: Seq<char>) -> Option<JsonV> {
    let p = key_pos(es, k);
    if 0 <= p < es.len() {
        Some(es[p].1)
    } else {
        None
    }
}

/// The value of the last entry of `es` keyed `k`.
pub open spec fn last_value(es: Seq<(Seq<char>, JsonV)>, k: Seq<char>) -> Option<JsonV>
    decreases es.len(),
{
    if es.len() == 0 {
        None
    } else if es[es.len() - 1].0 == k {
        Some(es[es.len() - 1].1)
    } else {
        last_value(es.subrange(0, es.len() - 1), k)
    }
}

/// The value under `k` in the last of the domains that defines `k`.
pub open spec fn last_domain_value(ds: Seq<Seq<(Seq<char>, JsonV)>>, k: Seq<char>) -> Option<JsonV>
    decreases ds.len(),
{
    if ds.len() == 0 {
        None
    } else {
        match last_value(ds[ds.len() - 1], k) {
            Some(v) => Some(v),
            None => last_domain_value(ds.subrange(0, ds.len() - 1), k),
        }
    }
}

pub proof fn lemma_key_pos_bounds(s: Seq<(Seq<char>, JsonV)>, k: Seq<char>)
    ensures
        -1 <= key_pos(s, k) < s.len(),
        key_pos(s, k) >= 0 ==> s[key_pos(s, k)].0 == k,
    decreases s.len(),
{
    if s.len() > 0 {
        lemma_key_pos_bounds(s.subrange(0, s.len() - 1), k);
    }
}

proof fn lemma_key_pos_update(s: Seq<(Seq<char>, JsonV)>, p: int, e: (Seq<char>, JsonV), k: Seq<char>)
    requires
        0 <= p < s.len(),
        s[p].0 == e.0,
    ensures
        key_pos(s.update(p, e), k) == key_pos(s, k),
    decreases s.len(),
{
    let n = s.len() as int;
    let t = s.subrange(0, n - 1);
    let s2 = s.update(p, e);
    if p == n - 1 {
        assert(s2.subrange(0, n - 1) =~= t);
    } else {
        assert(s2.subrange(0, n - 1) =~= t.update(p, e));
        lemma_key_pos_update(t, p, e, k);
    }
}

proof fn lemma_upsert_value(acc: Seq<(Seq<char>, JsonV)>, e: (Seq<char>, JsonV), k: Seq<char>)
    ensures
        value_at(upsert(acc, e), k) == if e.0 == k {
            Some(e.1)
        } else {
            value_at(acc, k)
        },
{
    let p = key_pos(acc, e.0);
    lemma_key_pos_bounds(acc, e.0);
    lemma_key_pos_bounds(acc, k);
    if p >= 0 {
        lemma_key_pos_update(acc, p, e, k);
    } else {
        assert(acc.push(e).subrange(0, acc.len() as int) =~= acc);
    }
}

proof fn lemma_merge_into_value(acc: Seq<(Seq<char>, JsonV)>, es: Seq<(Seq<char>, JsonV)>, k: Seq<char>)
    ensures
        value_at(merge_into(acc, es), k) == match last_value(es, k) {
            Some(v) => Some(v),
            None => value_at(acc, k),
        },
    decreases es.len(),
{
    if es.len() > 0 {
        let t = es.subrange(0, es.len() - 1);
        lemma_merge_into_value(acc, t, k);
        lemma_upsert_value(merge_into(acc, t), es[es.len() - 1], k);
    }
}

/// Under each key, the merged object holds the value of the last domain that
/// defines the key, and of its last entry with that key; a key that no domain
/// defines is not there.
pub proof fn lemma_merge_later_wins(domains: Seq<Seq<(Seq<char>, JsonV)>>, k: Seq<char>)
    ensures
        value_at(merge_all(domains), k) == last_domain_value(domains, k),
    decreases domains.len(),
{
    if domains.len() > 0 {
        let t = domains.subrange(0, domains.len() - 1);
        lemma_merge_later_wins(t, k);
        lemma_merge_into_value(merge_all(t), domains[domains.len() - 1], k);
    } else {
        assert(value_at(seq![], k) is None);
    }
}

/// The object with the keys of `es`, sorted and each once, each with the value
/// of its first entry in `es`: an object as serde_json's map holds it.
pub open spec fn by_key(es: Seq<(Seq<char>, JsonV)>) -> Seq<(Seq<char>, JsonV)> {
    sorted_of(keys_of(es).to_set()).map_values(|k: Seq<char>| (k, es[key_pos(es, k)].1))
}

/// The domains' objects merged: every key of any domain, in key order, with
/// the value of the last domain that defines it.
pub open spec fn merged(domains: Seq<Seq<(Seq<char>, JsonV)>>) -> Seq<(Seq<char>, JsonV)> {
    by_key(merge_all(domains))
}

pub proof fn lemma_key_pos_contains(s: Seq<(Seq<char>, JsonV)>, k: Seq<char>)
    requires
        keys_of(s).contains(k),
    ensures
        key_pos(s, k) >= 0,
    decreases s.len(),
{
    let t = s.subrange(0, s.len() - 1);
    let i = choose|i: int| 0 <= i < keys_of(s).len() && keys_of(s)[i] == k;
    if i < s.len() - 1 {
        assert(keys_of(t)[i] == k);
        lemma_key_pos_contains(t, k);
    }
}

proof fn lemma_value_at_remove(s: Seq<(Seq<char>, JsonV)>, k: Seq<char>, k2: Seq<char>)
    requires
        key_pos(s, k) >= 0,
        k2 != k,
    ensures
        value_at(s.remove(key_pos(s, k)), k2) == value_at(s, k2),
    decreases s.len(),
{
    let p = key_pos(s, k);
    let n = s.len() as int;
    let t = s.subrange(0, n - 1);
    let s2 = s.remove(p);
    lemma_key_pos_bounds(s, k);
    lemma_key_pos_bounds(s, k2);
    lemma_key_pos_bounds(t, k2);
    if p == n - 1 {
        assert(s2 =~= t);
    } else {
        lemma_key_pos_bounds(t, k);
        let t2 = t.remove(p);
        lemma_value_at_remove(t, k, k2);
        assert(s2 =~= t2.push(s[n - 1]));
        assert(s2.subrange(0, s2.len() - 1) =~= t2);
        lemma_key_pos_bounds(t2, k2);
        lemma_key_pos_bounds(s2, k2);
    }
}

/// Each domain's entries as keys and trees.
pub open spec fn domain_views(ds: Seq<Vec<(String, Json)>>) -> Seq<Seq<(Seq<char>, JsonV)>> {
    ds.map_values(|d: Vec<(String, Json)>| entries_v(d@))
}

/// Position of the first entry keyed like `k`, found by a scan.
fn find_key(acc: &Vec<(String, Json)>, k: &String) -> (r: Option<usize>)
    ensures
        match r {
            Some(p) => key_pos(entries_v(acc@), k@) == p as int && p < acc.len(),
            None => key_pos(entries_v(acc@), k@) == -1,
        },
{
    let ghost av = entries_v(acc@);
    let mut j: usize = 0;
    while j < acc.len()
        invariant
            j <= acc.len(),
            av == entries_v(acc@),
            key_pos(av.subrange(0, j as int), k@) == -1,
        decreases acc.len() - j,
    {
        assert(av.subrange(0, j + 1).subrange(0, j as int) =~= av.subrange(0, j as int));
        if acc[j].0 == *k {
            proof {
                lemma_key_pos_prefix(av, j + 1, k@);
            }
            return Some(j);
        }
        j += 1;
    }
    assert(av.subrange(0, acc.len() as int) =~= av);
    None
}

/// Adds the entries of `es` to `acc` in order; an entry replaces the value of
/// one already there under the same key.
pub fn merge_into_object(acc: &mut Vec<(String, Json)>, es: Vec<(String, Json)>)
    ensures
        entries_v(final(acc)@) == merge_into(entries_v(old(acc)@), entries_v(es@)),
{
    let ghost acc0 = entries_v(acc@);
    let ghost es0 = entries_v(es@);
    let ghost raw0 = es@;
    let n: usize = es.len();
    let mut rest = es;
    let mut i: usize = 0;
    while rest.len() > 0
        invariant
            i + rest@.len() == n,
            es0.len() == n,
            raw0.len() == n,
            es0 == entries_v(raw0),
            rest@ == raw0.subrange(i as int, n as int),
            entries_v(acc@) == merge_into(acc0, es0.subrange(0, i as int)),
        decreases rest.len(),
    {
        let e = rest.remove(0);
        assert(e == raw0[i as int]);
        assert(es0[i as int] == (e.0@, json_view(e.1)));
        assert(es0.subrange(0, i + 1).subrange(0, i as int) =~= es0.subrange(0, i as int));
        assert(rest@ =~= raw0.subrange(i + 1, n as int));
        let ghost before = acc@;
        let ghost ev = (e.0@, json_view(e.1));
        match find_key(acc, &e.0) {
            Some(p) => {
                acc.set(p, e);
                assert(entries_v(acc@) =~= entries_v(before).update(p as int, ev));
            },
            None => {
                acc.push(e);
                assert(entries_v(acc@) =~= entries_v(before).push(ev));
            },
        }
        i += 1;
    }
    assert(es0.subrange(0, n as int) =~= es0);
}

/// Merges the domains' objects in the order given, keys in the order they
/// first come.
fn merge_in_order(domains: Vec<Vec<(String, Json)>>) -> (r: Vec<(String, Json)>)
    ensures
        entries_v(r@) == merge_all(domain_views(domains@)),
{
    let ghost ds0 = domain_views(domains@);
    let ghost raw0 = domains@;
    let n: usize = domains.len();
    let mut rest = domains;
    let mut acc: Vec<(String, Json)> = Vec::new();
    let mut i: usize = 0;
    assert(entries_v(acc@) =~= seq![]);
    while rest.len() > 0
        invariant
            i + rest@.len() == n,
            ds0.len() == n,
            raw0.len() == n,
            ds0 == domain_views(raw0),
            rest@ == raw0.subrange(i as int, n as int),
            entries_v(acc@) == merge_all(ds0.subrange(0, i as int)),
        decreases rest.len(),
    {
        let d = rest.remove(0);
        assert(d == raw0[i as int]);
        assert(ds0.subrange(0, i + 1).subrange(0, i as int) =~= ds0.subrange(0, i as int));
        assert(rest@ =~= raw0.subrange(i + 1, n as int));
        merge_into_object(&mut acc, d);
        i += 1;
    }
    assert(ds0.subrange(0, n as int) =~= ds0);
    acc
}

/// Puts an object's entries in key order, each key once with the value of its
/// first entry.
fn order_by_key(es: Vec<(String, Json)>) -> (r: Vec<(String, Json)>)
    ensures
        entries_v(r@) == by_key(entries_v(es@)),
        strictly_sorted(keys_of(entries_v(r@))),
{
    let ghost ev = entries_v(es@);
    let mut keys: Vec<String> = Vec::new();
    let mut i: usize = 0;
    while i < es.len()
        invariant
            i <= es.len(),
            ev == entries_v(es@),
            views(keys@) == keys_of(ev).take(i as int),
        decreases es.len() - i,
    {
        let ghost before = keys@;
        keys.push(es[i].0.clone());
        assert(views(keys@) =~= views(before).push(ev[i as int].0));
        assert(keys_of(ev).take(i + 1) =~= keys_of(ev).take(i as int).push(ev[i as int].0));
        i += 1;
    }
    assert(keys_of(ev).take(es.len() as int) =~= keys_of(ev));
    let order = sorted_unique(&keys);
    let ghost o = views(order@);
    let mut rest = es;
    let mut out: Vec<(String, Json)> = Vec::new();
    let mut m: usize = 0;
    assert(entries_v(out@) =~= o.take(0).map_values(|k: Seq<char>| (k, ev[key_pos(ev, k)].1)));
    while m < order.len()
        invariant
            m <= order.len(),
            o == views(order@),
            o == sorted_of(keys_of(ev).to_set()),
            strictly_sorted(o),
            o.to_set() == keys_of(ev).to_set(),
            forall|k: Seq<char>| keys_of(ev).contains(k) && !o.take(m as int).contains(k) ==> value_at(entries_v(rest@), k)
                == value_at(ev, k),
            entries_v(out@) == o.take(m as int).map_values(|k: Seq<char>| (k, ev[key_pos(ev, k)].1)),
        decreases order.len() - m,
    {
        let ghost k = o[m as int];
        assert(order@[m as int]@ == k);
        assert(o.to_set().contains(k));
        assert(!o.take(m as int).contains(k)) by {
            if o.take(m as int).contains(k) {
                let q = choose|q: int| 0 <= q < m && o.take(m as int)[q] == k;
                assert(crate::order::char_seq_lt(o[q], o[m as int]));
                lemma_lt_irreflexive(k);
            }
        }
        let ghost rv = entries_v(rest@);
        proof {
            lemma_key_pos_contains(ev, k);
            lemma_key_pos_bounds(ev, k);
            lemma_key_pos_bounds(rv, k);
        }
        assert(value_at(rv, k) == value_at(ev, k));
        let p = match find_key(&rest, &order[m]) {
            Some(p) => p,
            None => {
                assert(false);
                0
            },
        };
        let e = rest.remove(p);
        assert(entries_v(rest@) =~= rv.remove(p as int));
        assert forall|k2: Seq<char>| keys_of(ev).contains(k2) && !o.take(m + 1).contains(k2) implies value_at(
            entries_v(rest@),
            k2,
        ) == value_at(ev, k2) by {
            assert(o.take(m + 1) =~= o.take(m as int).push(k));
            if k2 == k {
                assert(o.take(m + 1)[m as int] == k);
            } else {
                assert(!o.take(m as int).contains(k2)) by {
                    if o.take(m as int).contains(k2) {
                        let q = choose|q: int| 0 <= q < m && o.take(m as int)[q] == k2;
                        assert(o.take(m + 1)[q] == k2);
                    }
                }
                lemma_value_at_remove(rv, k, k2);
            }
        }
        let ghost before = out@;
        let ghost evi = (e.0@, json_view(e.1));
        assert(evi == (k, ev[key_pos(ev, k)].1));
        out.push(e);
        assert(entries_v(out@) =~= entries_v(before).push(evi));
        assert(o.take(m + 1).map_values(|k: Seq<char>| (k, ev[key_pos(ev, k)].1)) =~= o.take(m as int).map_values(
            |k: Seq<char>| (k, ev[key_pos(ev, k)].1),
        ).push(evi));
        m += 1;
    }
    assert(o.take(order.len() as int) =~= o);
    assert(keys_of(entries_v(out@)) =~= o);
    out
}

/// Merges the domains' objects in the order given: the result holds every key
/// of any domain, in key order, each with the value of the last domain that
/// defines it.
pub fn merge_objects(domains: Vec<Vec<(String, Json)>>) -> (r: Vec<(String, Json)>)
    ensures
        entries_v(r@) == merged(domain_views(domains@)),
        strictly_sorted(keys_of(entries_v(r@))),
{
    order_by_key(merge_in_order(domains))
}

} // verus!

