//! The order of strings by their characters' code points, and sorted sets of
//! strings.

use vstd::prelude::*;

verus! {

/// `a` comes before `b`: at the first place where they differ `a` has the
/// smaller character, or `a` is a proper prefix of `b`.
pub open spec fn char_seq_lt(a: Seq<char>, b: Seq<char>) -> bool
    decreases a.len(),
{
    if a.len() == 0 {
        b.len() > 0
    } else if b.len() == 0 {
        false
    } else if a[0] != b[0] {
        (a[0] as int) < (b[0] as int)
    } else {
        char_seq_lt(a.drop_first(), b.drop_first())
    }
}

/// Every element comes before every later one.
pub open spec fn strictly_sorted(s: Seq<Seq<char>>) -> bool {
    forall|i: int, j: int| 0 <= i < j < s.len() ==> char_seq_lt(#[trigger] s[i], #[trigger] s[j])
}

/// The strings' characters.
pub open spec fn views(v: Seq<String>) -> Seq<Seq<char>> {
    v.map_values(|s: String| s@)
}

/// The strictly sorted sequence of the elements of `s`.
pub open spec fn sorted_of(s: Set<Seq<char>>) -> Seq<Seq<char>> {
    choose|q: Seq<Seq<char>>| strictly_sorted(q) && q.to_set() == s
}

pub proof fn lemma_lt_irreflexive(a: Seq<char>)
    ensures
        !char_seq_lt(a, a),
    decreases a.len(),
{
    if a.len() > 0 {
        lemma_lt_irreflexive(a.drop_first());
    }
}

pub proof fn lemma_lt_transitive(a: Seq<char>, b: Seq<char>, c: Seq<char>)
    requires
        char_seq_lt(a, b),
        char_seq_lt(b, c),
    ensures
        char_seq_lt(a, c),
    decreases a.len(),
{
    if a.len() > 0 && b.len() > 0 && c.len() > 0 && a[0] == b[0] && b[0] == c[0] {
        lemma_lt_transitive(a.drop_first(), b.drop_first(), c.drop_first());
    }
}

pub proof fn lemma_lt_total(a: Seq<char>, b: Seq<char>)
    ensures
        a == b || char_seq_lt(a, b) || char_seq_lt(b, a),
    decreases a.len(),
{
    if a.len() > 0 && b.len() > 0 && a[0] == b[0] {
        lemma_lt_total(a.drop_first(), b.drop_first());
        if a.drop_first() == b.drop_first() {
            assert(a =~= seq![a[0]] + a.drop_first());
            assert(b =~= seq![b[0]] + b.drop_first());
        }
    } else if a.len() == 0 && b.len() == 0 {
        assert(a =~= b);
    } else if a.len() > 0 && b.len() > 0 {
        assert((a[0] as int) != (b[0] as int));
    }
}

pub proof fn lemma_lt_asymmetric(a: Seq<char>, b: Seq<char>)
    requires
        char_seq_lt(a, b),
    ensures
        !char_seq_lt(b, a),
{
    if char_seq_lt(b, a) {
        lemma_lt_transitive(a, b, a);
        lemma_lt_irreflexive(a);
    }
}

/// Two strictly sorted sequences with the same elements are equal.
pub proof fn lemma_sorted_unique(a: Seq<Seq<char>>, b: Seq<Seq<char>>)
    requires
        strictly_sorted(a),
        strictly_sorted(b),
        a.to_set() == b.to_set(),
    ensures
        a == b,
    decreases a.len(),
{
    if a.len() == 0 {
        if b.len() > 0 {
            assert(b.to_set().contains(b[0]));
        }
        assert(a =~= b);
    } else {
        assert(a.to_set().contains(a[0]));
        assert(b.to_set().contains(a[0]));
        let j = choose|j: int| 0 <= j < b.len() && b[j] == a[0];
        assert(b.to_set().contains(b[0]));
        assert(a.to_set().contains(b[0]));
        let i = choose|i: int| 0 <= i < a.len() && a[i] == b[0];
        if i > 0 && j > 0 {
            lemma_lt_asymmetric(a[0], a[i]);
        } else if i > 0 {
            lemma_lt_irreflexive(a[0]);
        } else if j > 0 {
            lemma_lt_irreflexive(b[0]);
        }
        assert(a[0] == b[0]);
        let a1 = a.drop_first();
        let b1 = b.drop_first();
        assert forall|x: Seq<char>| a1.to_set().contains(x) implies b1.to_set().contains(x) by {
            let k = choose|k: int| 0 <= k < a1.len() && a1[k] == x;
            assert(a.to_set().contains(a[k + 1]));
            assert(b.to_set().contains(x));
            let m = choose|m: int| 0 <= m < b.len() && b[m] == x;
            if m == 0 {
                lemma_lt_irreflexive(a[0]);
            }
            assert(b1[m - 1] == x);
        }
        assert forall|x: Seq<char>| b1.to_set().contains(x) implies a1.to_set().contains(x) by {
            let k = choose|k: int| 0 <= k < b1.len() && b1[k] == x;
            assert(b.to_set().contains(b[k + 1]));
            assert(a.to_set().contains(x));
            let m = choose|m: int| 0 <= m < a.len() && a[m] == x;
            if m == 0 {
                lemma_lt_irreflexive(b[0]);
            }
            assert(a1[m - 1] == x);
        }
        assert(a1.to_set() =~= b1.to_set());
        lemma_sorted_unique(a1, b1);
        assert(a =~= seq![a[0]] + a1);
        assert(b =~= seq![b[0]] + b1);
    }
}

/// `q` with `x` put before the first element that `x` comes before.
pub open spec fn insert_sorted(q: Seq<Seq<char>>, x: Seq<char>) -> Seq<Seq<char>>
    decreases q.len(),
{
    if q.len() == 0 {
        seq![x]
    } else if char_seq_lt(x, q[0]) {
        seq![x] + q
    } else {
        seq![q[0]] + insert_sorted(q.drop_first(), x)
    }
}

proof fn lemma_insert_sorted(q: Seq<Seq<char>>, x: Seq<char>)
    requires
        strictly_sorted(q),
        !q.contains(x),
    ensures
        strictly_sorted(insert_sorted(q, x)),
        forall|y: Seq<char>| #[trigger] insert_sorted(q, x).contains(y) <==> q.contains(y) || y == x,
    decreases q.len(),
{
    let r = insert_sorted(q, x);
    if q.len() == 0 {
        assert forall|y: Seq<char>| #[trigger] r.contains(y) <==> q.contains(y) || y == x by {
            if r.contains(y) {
                let k = choose|k: int| 0 <= k < r.len() && r[k] == y;
            }
            if y == x {
                assert(r[0] == x);
            }
        }
    } else if char_seq_lt(x, q[0]) {
        assert forall|i: int, j: int| 0 <= i < j < r.len() implies char_seq_lt(#[trigger] r[i], #[trigger] r[j]) by {
            if i == 0 {
                if j > 1 {
                    assert(char_seq_lt(q[0], q[j - 1]));
                    lemma_lt_transitive(x, q[0], q[j - 1]);
                }
            } else {
                assert(char_seq_lt(q[i - 1], q[j - 1]));
            }
        }
        assert forall|y: Seq<char>| #[trigger] r.contains(y) <==> q.contains(y) || y == x by {
            if r.contains(y) {
                let k = choose|k: int| 0 <= k < r.len() && r[k] == y;
                if k > 0 {
                    assert(q[k - 1] == y);
                }
            }
            if q.contains(y) {
                let k = choose|k: int| 0 <= k < q.len() && q[k] == y;
                assert(r[k + 1] == y);
            }
            if y == x {
                assert(r[0] == x);
            }
        }
    } else {
        let t = q.drop_first();
        assert(strictly_sorted(t)) by {
            assert forall|i: int, j: int| 0 <= i < j < t.len() implies char_seq_lt(#[trigger] t[i], #[trigger] t[j]) by {
                assert(char_seq_lt(q[i + 1], q[j + 1]));
            }
        }
        assert(!t.contains(x)) by {
            if t.contains(x) {
                let k = choose|k: int| 0 <= k < t.len() && t[k] == x;
                assert(q[k + 1] == x);
            }
        }
        lemma_insert_sorted(t, x);
        let rt = insert_sorted(t, x);
        assert(q[0] != x) by {
            if q[0] == x {
                assert(q.contains(x));
            }
        }
        lemma_lt_total(x, q[0]);
        assert forall|m: int| 0 <= m < rt.len() implies char_seq_lt(q[0], #[trigger] rt[m]) by {
            assert(rt.contains(rt[m]));
            if rt[m] != x {
                let k = choose|k: int| 0 <= k < t.len() && t[k] == rt[m];
                assert(char_seq_lt(q[0], q[k + 1]));
            }
        }
        assert(r == seq![q[0]] + rt);
        assert forall|i: int, j: int| 0 <= i < j < r.len() implies char_seq_lt(#[trigger] r[i], #[trigger] r[j]) by {
            if i == 0 {
                assert(r[j] == rt[j - 1]);
            } else {
                assert(char_seq_lt(rt[i - 1], rt[j - 1]));
            }
        }
        assert forall|y: Seq<char>| #[trigger] r.contains(y) <==> q.contains(y) || y == x by {
            if r.contains(y) {
                let k = choose|k: int| 0 <= k < r.len() && r[k] == y;
                if k > 0 {
                    assert(rt[k - 1] == y);
                    assert(rt.contains(y));
                    if y != x {
                        let m = choose|m: int| 0 <= m < t.len() && t[m] == y;
                        assert(q[m + 1] == y);
                    }
                } else {
                    assert(q[0] == y);
                }
            }
            if q.contains(y) {
                let k = choose|k: int| 0 <= k < q.len() && q[k] == y;
                if k == 0 {
                    assert(r[0] == y);
                } else {
                    assert(t[k - 1] == y);
                    assert(rt.contains(y));
                    let m = choose|m: int| 0 <= m < rt.len() && rt[m] == y;
                    assert(r[m + 1] == y);
                }
            }
            if y == x {
                assert(rt.contains(x));
                let m = choose|m: int| 0 <= m < rt.len() && rt[m] == x;
                assert(r[m + 1] == x);
            }
        }
    }
}

/// The elements of a sequence can be put in strict order.
pub proof fn lemma_sorted_exists(s: Seq<Seq<char>>)
    ensures
        exists|q: Seq<Seq<char>>| strictly_sorted(q) && q.to_set() == s.to_set(),
    decreases s.len(),
{
    if s.len() == 0 {
        let q: Seq<Seq<char>> = seq![];
        assert(q.to_set() =~= s.to_set());
        assert(strictly_sorted(q));
    } else {
        let t = s.drop_last();
        let x = s.last();
        lemma_sorted_exists(t);
        let qt = choose|q: Seq<Seq<char>>| strictly_sorted(q) && q.to_set() == t.to_set();
        assert(s =~= t.push(x));
        assert forall|y: Seq<char>| s.contains(y) <==> t.contains(y) || y == x by {
            if s.contains(y) {
                let k = choose|k: int| 0 <= k < s.len() && s[k] == y;
                if k < t.len() {
                    assert(t[k] == y);
                }
            }
            if t.contains(y) {
                let k = choose|k: int| 0 <= k < t.len() && t[k] == y;
                assert(s[k] == y);
            }
            if y == x {
                assert(s[s.len() - 1] == y);
            }
        }
        assert(forall|y: Seq<char>| qt.contains(y) <==> qt.to_set().contains(y));
        if qt.contains(x) {
            assert(qt.to_set() =~= s.to_set());
        } else {
            lemma_insert_sorted(qt, x);
            let q = insert_sorted(qt, x);
            assert(q.to_set() =~= s.to_set());
        }
    }
}

/// `sorted_of` of the elements of a sequence is strictly sorted and holds
/// exactly those elements.
pub proof fn lemma_sorted_of(s: Seq<Seq<char>>)
    ensures
        strictly_sorted(sorted_of(s.to_set())),
        sorted_of(s.to_set()).to_set() == s.to_set(),
{
    lemma_sorted_exists(s);
}

/// Whether `a` comes before `b`, character by character.
pub fn str_less(a: &str, b: &str) -> (r: bool)
    ensures
        r == char_seq_lt(a@, b@),
{
    let la = a.unicode_len();
    let lb = b.unicode_len();
    let mut i: usize = 0;
    assert(a@.skip(0) =~= a@);
    assert(b@.skip(0) =~= b@);
    while i < la && i < lb
        invariant
            la == a@.len(),
            lb == b@.len(),
            i <= la,
            i <= lb,
            char_seq_lt(a@, b@) == char_seq_lt(a@.skip(i as int), b@.skip(i as int)),
        decreases la - i,
    {
        let ca = a.get_char(i);
        let cb = b.get_char(i);
        if ca != cb {
            return (ca as u32) < (cb as u32);
        }
        assert(a@.skip(i as int).drop_first() =~= a@.skip(i + 1));
        assert(b@.skip(i as int).drop_first() =~= b@.skip(i + 1));
        i += 1;
    }
    i < lb
}

/// The strings of `v`, sorted, each once.
pub fn sorted_unique(v: &Vec<String>) -> (r: Vec<String>)
    ensures
        strictly_sorted(views(r@)),
        views(r@).to_set() == views(v@).to_set(),
        views(r@) == sorted_of(views(v@).to_set()),
{
    let mut r: Vec<String> = Vec::new();
    let mut i: usize = 0;
    while i < v.len()
        invariant
            i <= v.len(),
            strictly_sorted(views(r@)),
            forall|x: Seq<char>| views(r@).contains(x) <==> views(v@.subrange(0, i as int)).contains(x),
        decreases v.len() - i,
    {
        let s = &v[i];
        let mut pos: usize = 0;
        while pos < r.len() && str_less(r[pos].as_str(), s.as_str())
            invariant
                pos <= r.len(),
                forall|m: int| 0 <= m < pos ==> char_seq_lt(#[trigger] r@[m]@, s@),
            decreases r.len() - pos,
        {
            pos += 1;
        }
        let ghost old_r = r@;
        let ghost seen = views(v@.subrange(0, i as int));
        assert(views(v@.subrange(0, i + 1)) =~= seen.push(s@));
        assert forall|x: Seq<char>| seen.push(s@).contains(x) <==> seen.contains(x) || x == s@ by {
            if seen.push(s@).contains(x) {
                let k = choose|k: int| 0 <= k < seen.push(s@).len() && seen.push(s@)[k] == x;
                if k < seen.len() {
                    assert(seen[k] == x);
                }
            }
            if seen.contains(x) {
                let k = choose|k: int| 0 <= k < seen.len() && seen[k] == x;
                assert(seen.push(s@)[k] == x);
            }
            if x == s@ {
                assert(seen.push(s@)[seen.len() as int] == x);
            }
        }
        if pos < r.len() && r[pos] == *s {
            assert(views(r@)[pos as int] == s@);
            assert(views(r@).contains(s@));
        } else {
            proof {
                if pos < r.len() {
                    lemma_lt_total(r@[pos as int]@, s@);
                    assert(char_seq_lt(s@, r@[pos as int]@));
                    assert forall|m: int| pos < m < r.len() implies char_seq_lt(s@, #[trigger] r@[m]@) by {
                        assert(char_seq_lt(views(r@)[pos as int], views(r@)[m]));
                        lemma_lt_transitive(s@, r@[pos as int]@, r@[m]@);
                    }
                }
            }
            r.insert(pos, s.clone());
            assert(views(r@) =~= views(old_r).insert(pos as int, s@));
            assert forall|a: int, b: int| 0 <= a < b < views(r@).len() implies char_seq_lt(
                #[trigger] views(r@)[a],
                #[trigger] views(r@)[b],
            ) by {
                if a < pos && b > pos {
                    assert(char_seq_lt(views(old_r)[a], s@));
                    assert(char_seq_lt(s@, views(old_r)[b - 1]));
                    lemma_lt_transitive(views(old_r)[a], s@, views(old_r)[b - 1]);
                } else if a < pos && b == pos {
                } else if a == pos {
                    assert(char_seq_lt(s@, views(old_r)[b - 1]));
                } else if b < pos {
                    assert(char_seq_lt(views(old_r)[a], views(old_r)[b]));
                } else {
                    assert(char_seq_lt(views(old_r)[a - 1], views(old_r)[b - 1]));
                }
            }
            assert forall|x: Seq<char>| views(r@).contains(x) <==> views(old_r).contains(x) || x == s@ by {
                if views(r@).contains(x) {
                    let k = choose|k: int| 0 <= k < views(r@).len() && views(r@)[k] == x;
                    if k < pos {
                        assert(views(old_r)[k] == x);
                    } else if k > pos {
                        assert(views(old_r)[k - 1] == x);
                    }
                }
                if views(old_r).contains(x) {
                    let k = choose|k: int| 0 <= k < views(old_r).len() && views(old_r)[k] == x;
                    if k < pos {
                        assert(views(r@)[k] == x);
                    } else {
                        assert(views(r@)[k + 1] == x);
                    }
                }
                if x == s@ {
                    assert(views(r@)[pos as int] == x);
                }
            }
        }
        assert forall|x: Seq<char>| views(r@).contains(x) <==> views(v@.subrange(0, i + 1)).contains(x) by {
            assert(views(old_r).contains(x) <==> seen.contains(x));
            if x == s@ {
                assert(seen.push(s@).contains(x));
            }
        }
        i += 1;
    }
    assert(v@.subrange(0, v.len() as int) =~= v@);
    proof {
        assert(views(r@).to_set() =~= views(v@).to_set());
        let q = sorted_of(views(v@).to_set());
        assert(strictly_sorted(views(r@)) && views(r@).to_set() == views(v@).to_set());
        lemma_sorted_unique(q, views(r@));
    }
    r
}

} // verus!
