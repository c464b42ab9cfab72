//! Index synthesis: every locale's domains are merged and flattened into its
//! index object, and the aggregate module binds all locales under one table.

use vstd::prelude::*;
use crate::error::GenError;
use crate::flatten::{flat_entries, flatten_json, reaches};
use crate::json::{entries_view, entries_v, keys_of, object_of, parse_object, pretty_json, pretty_object, Json, JsonV, Leaf, LeafView};
use crate::keys::{constant_ident, constants_module, flat_keys, generate_constants, has_collision};
use crate::merge::{domain_views, key_pos, last_domain_value, lemma_key_pos_bounds, lemma_merge_later_wins, merge_all, merge_objects, merged};
use crate::order::{lemma_lt_irreflexive, lemma_sorted_of, lemma_sorted_unique, sorted_of, sorted_unique, strictly_sorted, views};

verus! {

broadcast use crate::json::lemma_entries_v_map;

/// `locale` with its domain objects, parsed, in the order they are merged.
pub struct ParsedLocale {
    pub name: String,
    pub domains: Vec<Vec<(String, Json)>>,
}

/// The index text of one locale.
pub struct LocaleIndex {
    pub name: String,
    pub text: String,
}

/// Everything one run generates.
pub struct Generated {
    /// Each processed locale's flattened object, pretty-printed.
    pub indexes: Vec<LocaleIndex>,
    /// The module that imports every locale's index.
    pub aggregate: String,
    /// The module of key constants, or the two key paths that give the same
    /// identifier.
    pub constants: Result<String, GenError>,
}

pub open spec fn import_line(l: Seq<char>) -> Seq<char> {
    "import "@ + l + " from './"@ + l + "/_index.json';\n"@
}

pub open spec fn import_lines(ls: Seq<Seq<char>>) -> Seq<char>
    decreases ls.len(),
{
    if ls.len() == 0 {
        seq![]
    } else {
        import_lines(ls.subrange(0, ls.len() - 1)) + import_line(ls[ls.len() - 1])
    }
}

/// The names separated by `, `.
pub open spec fn joined(ls: Seq<Seq<char>>) -> Seq<char>
    decreases ls.len(),
{
    if ls.len() == 0 {
        seq![]
    } else if ls.len() == 1 {
        ls[0]
    } else {
        joined(ls.subrange(0, ls.len() - 1)) + ", "@ + ls[ls.len() - 1]
    }
}

/// The aggregate module: one import per locale, then the exported table.
pub open spec fn aggregate_module(ls: Seq<Seq<char>>) -> Seq<char> {
    import_lines(ls) + "\nexport const translations = { "@ + joined(ls) + " };"@ + "\n"@
}

/// A locale's name and its domain objects, in the order they are merged.
pub open spec fn parsed_view(l: ParsedLocale) -> (Seq<char>, Seq<Seq<(Seq<char>, JsonV)>>) {
    (l.name@, domain_views(l.domains@))
}

/// Parsed locales as names and domain objects.
pub open spec fn views_of_parsed(ls: Seq<ParsedLocale>) -> Seq<(Seq<char>, Seq<Seq<(Seq<char>, JsonV)>>)> {
    ls.map_values(|l: ParsedLocale| parsed_view(l))
}

/// A locale's flattened object: its domains merged, then flattened.
pub open spec fn locale_flat(l: (Seq<char>, Seq<Seq<(Seq<char>, JsonV)>>)) -> Seq<(Seq<char>, LeafView)> {
    flat_entries(merged(l.1))
}

/// The first non-empty flattened object from position `i` on, or none.
pub open spec fn reference_from(ls: Seq<(Seq<char>, Seq<Seq<(Seq<char>, JsonV)>>)>, i: int) -> Seq<(Seq<char>, LeafView)>
    decreases ls.len() - i,
{
    if i < 0 || i >= ls.len() {
        seq![]
    } else if locale_flat(ls[i]).len() > 0 {
        locale_flat(ls[i])
    } else {
        reference_from(ls, i + 1)
    }
}

/// The locales' names.
pub open spec fn locale_names(ls: Seq<(Seq<char>, Seq<Seq<(Seq<char>, JsonV)>>)>) -> Seq<Seq<char>> {
    ls.map_values(|l: (Seq<char>, Seq<Seq<(Seq<char>, JsonV)>>)| l.0)
}

/// The names separated by `, `, in the order given.
fn join_names(locales: &Vec<String>) -> (r: String)
    ensures
        r@ == joined(views(locales@)),
{
    let mut r = String::new();
    let mut i: usize = 0;
    while i < locales.len()
        invariant
            i <= locales.len(),
            r@ == joined(views(locales@).take(i as int)),
        decreases locales.len() - i,
    {
        let ghost before = r@;
        assert(views(locales@).take(i + 1).subrange(0, i as int) =~= views(locales@).take(i as int));
        if i > 0 {
            r.append(", ");
        }
        r.append(locales[i].as_str());
        assert(r@ =~= joined(views(locales@).take(i + 1)));
        i += 1;
    }
    assert(views(locales@).take(locales.len() as int) =~= views(locales@));
    r
}

/// The locale names of the aggregate table: sorted, each once, separated by `, `.
pub fn get_translations_keys(locales: &Vec<String>) -> (r: String)
    ensures
        r@ == joined(sorted_of(views(locales@).to_set())),
{
    let names = sorted_unique(locales);
    join_names(&names)
}

/// The aggregate module for the locales, in their order.
pub fn render_aggregate(locales: &Vec<String>) -> (r: String)
    ensures
        r@ == aggregate_module(views(locales@)),
{
    let mut r = String::new();
    let mut i: usize = 0;
    while i < locales.len()
        invariant
            i <= locales.len(),
            r@ == import_lines(views(locales@).take(i as int)),
        decreases locales.len() - i,
    {
        let l = locales[i].as_str();
        let ghost before = r@;
        r.append("import ");
        r.append(l);
        r.append(" from './");
        r.append(l);
        r.append("/_index.json';\n");
        assert(views(locales@).take(i + 1).subrange(0, i as int) =~= views(locales@).take(i as int));
        assert(r@ =~= before + import_line(l@));
        i += 1;
    }
    assert(views(locales@).take(locales.len() as int) =~= views(locales@));
    let table = join_names(locales);
    r.append("\nexport const translations = { ");
    r.append(table.as_str());
    r.append(" };");
    r.append("\n");
    r
}

/// Merges a locale's domain objects, in the order given, and flattens the
/// result: its pretty-printed text and its entries.
fn index_of(domains: Vec<Vec<(String, Json)>>) -> (r: (String, Vec<(String, Leaf)>))
    ensures
        entries_view(r.1@) == flat_entries(merged(domain_views(domains@))),
        r.0@ == pretty_object(flat_entries(merged(domain_views(domains@)))),
{
    let merged = merge_objects(domains);
    let flat = flatten_json(&merged);
    (pretty_json(&flat), flat)
}

/// Each index as its locale's name and its text.
pub open spec fn index_views(g: Generated) -> Seq<(Seq<char>, Seq<char>)> {
    g.indexes@.map_values(|x: LocaleIndex| (x.name@, x.text@))
}

/// `g` holds the artifacts of the parsed locales `ls`: each locale's flattened
/// object printed, the aggregate module over their names, and the key constants
/// of the first locale whose flattened object is not empty.
pub open spec fn generated_from(ls: Seq<(Seq<char>, Seq<Seq<(Seq<char>, JsonV)>>)>, g: Generated) -> bool {
    &&& index_views(g) == ls.map_values(|l: (Seq<char>, Seq<Seq<(Seq<char>, JsonV)>>)| (l.0, pretty_object(locale_flat(l))))
    &&& g.aggregate@ == aggregate_module(locale_names(ls))
    &&& constants_from(keys_of(reference_from(ls, 0)), g.constants)
}

/// `c` is the key-constant module of the key paths `keys`, or names two of
/// them that give the same identifier.
pub open spec fn constants_from(keys: Seq<Seq<char>>, c: Result<String, GenError>) -> bool {
    &&& c is Err <==> has_collision(sorted_of(keys.to_set()))
    &&& c matches Ok(t) ==> t@ == constants_module(sorted_of(keys.to_set()))
    &&& c matches Err(e) ==> (e matches GenError::IdentifierCollision { first, second }
        && first@ != second@
        && constant_ident(first@) == constant_ident(second@)
        && keys.contains(first@)
        && keys.contains(second@))
}

/// Generation is a function of its input: two runs on the same locales give
/// the same index texts, aggregate module and constants module, character for
/// character.
pub proof fn lemma_generate_deterministic(ls: Seq<(Seq<char>, Seq<Seq<(Seq<char>, JsonV)>>)>, g1: Generated, g2: Generated)
    requires
        generated_from(ls, g1),
        generated_from(ls, g2),
    ensures
        index_views(g1) == index_views(g2),
        g1.aggregate@ == g2.aggregate@,
        g1.constants is Ok <==> g2.constants is Ok,
        g1.constants matches Ok(t1) ==> g2.constants matches Ok(t2) && t1@ == t2@,
{
}

/// Under a key that several domains define, a locale's merged object holds
/// what the last of them gives and nothing of the others: a path of keys
/// starting with `k` reaches a leaf there exactly when it reaches it in the
/// object holding only `k` with the last domain's value. Through
/// `lemma_flatten_complete` the same holds of the flattened entries.
pub proof fn lemma_index_later_wins(
    domains: Seq<Seq<(Seq<char>, JsonV)>>,
    k: Seq<char>,
    v: JsonV,
    path: Seq<Seq<char>>,
    l: LeafView,
)
    requires
        last_domain_value(domains, k) == Some(v),
        path.len() > 0,
        path[0] == k,
    ensures
        reaches(merged(domains), path, l) <==> reaches(seq![(k, v)], path, l),
{
    let m = merge_all(domains);
    let o = sorted_of(keys_of(m).to_set());
    let big = merged(domains);
    lemma_merge_later_wins(domains, k);
    lemma_key_pos_bounds(m, k);
    lemma_sorted_of(keys_of(m));
    let p = key_pos(m, k);
    assert(keys_of(m)[p] == k);
    assert(keys_of(m).to_set().contains(k));
    assert(o.to_set().contains(k));
    let q = choose|q: int| 0 <= q < o.len() && o[q] == k;
    assert(big[q] == (k, v));
    assert forall|i: int| 0 <= i < big.len() && #[trigger] big[i].0 == k implies i == q by {
        if i < q {
            assert(crate::order::char_seq_lt(o[i], o[q]));
            lemma_lt_irreflexive(k);
        } else if i > q {
            assert(crate::order::char_seq_lt(o[q], o[i]));
            lemma_lt_irreflexive(k);
        }
    }
    let small = seq![(k, v)];
    if reaches(big, path, l) {
        let i = choose|i: int| 0 <= i < big.len() && #[trigger] big[i].0 == path[0] && match big[i].1 {
            JsonV::Leaf(x) => path.len() == 1 && x == l,
            JsonV::Object(sub) => reaches(sub, path.drop_first(), l),
        };
        assert(i == q);
        assert(small[0].0 == path[0]);
    }
    if reaches(small, path, l) {
        let i = choose|i: int| 0 <= i < small.len() && #[trigger] small[i].0 == path[0] && match small[i].1 {
            JsonV::Leaf(x) => path.len() == 1 && x == l,
            JsonV::Object(sub) => reaches(sub, path.drop_first(), l),
        };
        assert(big[q].0 == path[0]);
    }
}

/// Generates every artifact from parsed locales, in their order: each locale's
/// index, the aggregate module over their names, and the key constants of the
/// first locale whose flattened object is not empty.
pub fn generate_parsed(locales: Vec<ParsedLocale>) -> (g: Generated)
    ensures
        generated_from(views_of_parsed(locales@), g),
{
    let ghost ls0 = views_of_parsed(locales@);
    let ghost raw0 = locales@;
    let n: usize = locales.len();
    let mut rest = locales;
    let mut indexes: Vec<LocaleIndex> = Vec::new();
    let mut names: Vec<String> = Vec::new();
    let mut reference: Option<Vec<(String, Leaf)>> = None;
    let mut i: usize = 0;
    while rest.len() > 0
        invariant
            i + rest@.len() == n,
            n == ls0.len(),
            raw0.len() == n,
            ls0 == views_of_parsed(raw0),
            rest@ == raw0.subrange(i as int, n as int),
            indexes@.len() == i,
            forall|k: int| 0 <= k < i ==> {
                &&& (#[trigger] indexes@[k]).name@ == ls0[k].0
                &&& indexes@[k].text@ == pretty_object(locale_flat(ls0[k]))
            },
            views(names@) == locale_names(ls0).take(i as int),
            match reference {
                None => reference_from(ls0, 0) == reference_from(ls0, i as int),
                Some(f) => entries_view(f@) == reference_from(ls0, 0),
            },
        decreases rest.len(),
    {
        let ghost r0 = rest@;
        let l = rest.remove(0);
        assert(l == raw0[i as int]);
        assert(ls0[i as int] == parsed_view(l));
        assert(rest@ =~= raw0.subrange(i + 1, n as int));
        let name = l.name;
        let (text, flat) = index_of(l.domains);
        let ghost before = names@;
        let copy = name.clone();
        assert(copy@ == ls0[i as int].0);
        names.push(copy);
        assert(views(names@) =~= views(before).push(ls0[i as int].0));
        assert(locale_names(ls0).take(i + 1) =~= locale_names(ls0).take(i as int).push(ls0[i as int].0));
        assert(entries_view(flat@).len() == flat@.len());
        assert(reference_from(ls0, i as int) == if locale_flat(ls0[i as int]).len() > 0 {
            locale_flat(ls0[i as int])
        } else {
            reference_from(ls0, i + 1)
        });
        indexes.push(LocaleIndex { name, text });
        if reference.is_none() && flat.len() > 0 {
            reference = Some(flat);
        }
        i += 1;
    }
    assert(locale_names(ls0).take(n as int) =~= locale_names(ls0));
    let aggregate = render_aggregate(&names);
    let empty: Vec<(String, Leaf)> = Vec::new();
    assert(reference_from(ls0, n as int) =~= seq![]);
    assert(entries_view(empty@) =~= seq![]);
    let reference = match reference {
        Some(f) => f,
        None => empty,
    };
    assert(entries_view(reference@) == reference_from(ls0, 0));
    assert(flat_keys(reference@) =~= keys_of(entries_view(reference@)));
    let constants = generate_constants(&reference);
    let g = Generated { indexes, aggregate, constants };
    assert(index_views(g) =~= ls0.map_values(|l: (Seq<char>, Seq<Seq<(Seq<char>, JsonV)>>)| (l.0, pretty_object(locale_flat(l)))));
    g
}

/// One domain file of a locale: its name and its text.
pub struct DomainSource {
    pub name: String,
    pub text: String,
}

/// One locale: its name and its domain files.
pub struct LocaleSource {
    pub name: String,
    pub domains: Vec<DomainSource>,
}

pub open spec fn domain_names(ds: Seq<DomainSource>) -> Seq<Seq<char>> {
    ds.map_values(|d: DomainSource| d.name@)
}

pub open spec fn source_names(ls: Seq<LocaleSource>) -> Seq<Seq<char>> {
    ls.map_values(|l: LocaleSource| l.name@)
}

/// A locale named `n` has at least one domain file.
pub open spec fn has_domains(ls: Seq<LocaleSource>, n: Seq<char>) -> bool {
    exists|i: int| 0 <= i < ls.len() && ls[i].name@ == n && #[trigger] ls[i].domains@.len() > 0
}

/// The names, in order, of the locales that have domain files.
pub open spec fn with_domains(ls: Seq<LocaleSource>, names: Seq<Seq<char>>) -> Seq<Seq<char>>
    decreases names.len(),
{
    if names.len() == 0 {
        seq![]
    } else {
        let t = with_domains(ls, names.subrange(0, names.len() - 1));
        if has_domains(ls, names[names.len() - 1]) {
            t.push(names[names.len() - 1])
        } else {
            t
        }
    }
}

/// Domain files have distinct names.
pub open spec fn unique_domains(ds: Seq<DomainSource>) -> bool {
    forall|a: int, b: int| 0 <= a < b < ds.len() ==> (#[trigger] ds[a]).name@ != (#[trigger] ds[b]).name@
}

/// The text of the domain file named `name`.
pub open spec fn domain_text(ds: Seq<DomainSource>, name: Seq<char>) -> Seq<char> {
    ds[choose|j: int| 0 <= j < ds.len() && ds[j].name@ == name].text@
}

/// The objects of the domain files named in `order`, in that order; `None`
/// where one of them holds no JSON object.
pub open spec fn domain_trees(ds: Seq<DomainSource>, order: Seq<Seq<char>>) -> Option<Seq<Seq<(Seq<char>, JsonV)>>>
    decreases order.len(),
{
    if order.len() == 0 {
        Some(seq![])
    } else {
        match (domain_trees(ds, order.subrange(0, order.len() - 1)), object_of(domain_text(ds, order[order.len() - 1]))) {
            (Some(a), Some(b)) => Some(a.push(b)),
            _ => None,
        }
    }
}

/// A locale's domain objects in the order of the domains' names.
pub open spec fn locale_trees(src: LocaleSource) -> Option<Seq<Seq<(Seq<char>, JsonV)>>> {
    domain_trees(src.domains@, sorted_of(domain_names(src.domains@).to_set()))
}

/// The locale named `n`.
pub open spec fn source_of(ls: Seq<LocaleSource>, n: Seq<char>) -> LocaleSource {
    ls[choose|i: int| 0 <= i < ls.len() && ls[i].name@ == n]
}

/// Every locale named in `order` has domain files that all hold JSON objects.
pub open spec fn all_parse(ls: Seq<LocaleSource>, order: Seq<Seq<char>>) -> bool {
    forall|k: int| 0 <= k < order.len() ==> (#[trigger] locale_trees(source_of(ls, order[k]))) is Some
}

/// The locales named in `order`, each with its domain objects.
pub open spec fn parsed_views(ls: Seq<LocaleSource>, order: Seq<Seq<char>>) -> Seq<(Seq<char>, Seq<Seq<(Seq<char>, JsonV)>>)> {
    order.map_values(|n: Seq<char>| (n, locale_trees(source_of(ls, n)).unwrap_or(seq![])))
}

/// The order in which locales are processed: by name, leaving out those
/// without domain files.
pub open spec fn locale_order(ls: Seq<LocaleSource>) -> Seq<Seq<char>> {
    with_domains(ls, sorted_of(source_names(ls).to_set()))
}

proof fn lemma_domain_trees_none(ds: Seq<DomainSource>, order: Seq<Seq<char>>, i: int)
    requires
        0 <= i <= order.len(),
        domain_trees(ds, order.subrange(0, i)) is None,
    ensures
        domain_trees(ds, order) is None,
    decreases order.len(),
{
    if i < order.len() {
        let t = order.subrange(0, order.len() - 1);
        assert(t.subrange(0, i) =~= order.subrange(0, i));
        lemma_domain_trees_none(ds, t, i);
    } else {
        assert(order.subrange(0, i) =~= order);
    }
}

proof fn lemma_with_domains_prefix(ls: Seq<LocaleSource>, names: Seq<Seq<char>>, m: int)
    requires
        0 <= m <= names.len(),
    ensures
        with_domains(ls, names.subrange(0, m)).len() <= with_domains(ls, names).len(),
        with_domains(ls, names).subrange(0, with_domains(ls, names.subrange(0, m)).len() as int)
            == with_domains(ls, names.subrange(0, m)),
    decreases names.len(),
{
    if m == names.len() {
        assert(names.subrange(0, m) =~= names);
        assert(with_domains(ls, names).subrange(0, with_domains(ls, names).len() as int) =~= with_domains(ls, names));
    } else {
        let t = names.subrange(0, names.len() - 1);
        assert(t.subrange(0, m) =~= names.subrange(0, m));
        lemma_with_domains_prefix(ls, t, m);
        let w = with_domains(ls, t);
        let wm = with_domains(ls, names.subrange(0, m));
        if has_domains(ls, names[names.len() - 1]) {
            assert(w.push(names[names.len() - 1]).subrange(0, wm.len() as int) =~= w.subrange(0, wm.len() as int));
        }
    }
}

/// The names of the domain files, in their order.
fn names_of_domains(ds: &Vec<DomainSource>) -> (r: Vec<String>)
    ensures
        views(r@) == domain_names(ds@),
{
    let mut r: Vec<String> = Vec::new();
    let mut i: usize = 0;
    while i < ds.len()
        invariant
            i <= ds.len(),
            views(r@) == domain_names(ds@).take(i as int),
        decreases ds.len() - i,
    {
        let ghost before = r@;
        r.push(ds[i].name.clone());
        assert(views(r@) =~= views(before).push(ds@[i as int].name@));
        assert(domain_names(ds@).take(i + 1) =~= domain_names(ds@).take(i as int).push(ds@[i as int].name@));
        i += 1;
    }
    assert(domain_names(ds@).take(ds.len() as int) =~= domain_names(ds@));
    r
}

/// The domain file named `name`.
fn find_domain(ds: &Vec<DomainSource>, name: &String) -> (r: usize)
    requires
        domain_names(ds@).contains(name@),
    ensures
        r < ds.len(),
        ds@[r as int].name@ == name@,
{
    let mut j: usize = 0;
    while j < ds.len()
        invariant
            j <= ds.len(),
            domain_names(ds@).contains(name@),
            forall|m: int| 0 <= m < j ==> (#[trigger] ds@[m]).name@ != name@,
        decreases ds.len() - j,
    {
        if ds[j].name == *name {
            return j;
        }
        j += 1;
    }
    proof {
        let m = choose|m: int| 0 <= m < ds.len() && domain_names(ds@)[m] == name@;
        assert(ds@[m].name@ == name@);
    }
    0
}

/// Parses a locale's domain files in the order of their names.
pub fn parse_domains(locale: &LocaleSource) -> (r: Result<Vec<Vec<(String, Json)>>, GenError>)
    requires
        unique_domains(locale.domains@),
    ensures
        match r {
            Ok(ds) => locale_trees(*locale) == Some(domain_views(ds@)),
            Err(e) => locale_trees(*locale) is None && (e matches GenError::Parse { locale: l, domain: d }
                && l@ == locale.name@ && exists|j: int| 0 <= j < locale.domains@.len()
                && (#[trigger] locale.domains@[j]).name@ == d@ && object_of(locale.domains@[j].text@) is None),
        },
{
    let names = names_of_domains(&locale.domains);
    let order = sorted_unique(&names);
    let ghost o = views(order@);
    let ghost dv = locale.domains@;
    let mut out: Vec<Vec<(String, Json)>> = Vec::new();
    let mut k: usize = 0;
    assert(o.subrange(0, 0) =~= seq![]);
    assert(domain_views(out@) =~= seq![]);
    while k < order.len()
        invariant
            k <= order.len(),
            o == views(order@),
            dv == locale.domains@,
            unique_domains(dv),
            o == sorted_of(domain_names(dv).to_set()),
            o.to_set() == domain_names(dv).to_set(),
            domain_trees(dv, o.subrange(0, k as int)) == Some(domain_views(out@)),
        decreases order.len() - k,
    {
        assert(o[k as int] == order@[k as int]@);
        assert(o.to_set().contains(o[k as int]));
        assert(o.subrange(0, k + 1).subrange(0, k as int) =~= o.subrange(0, k as int));
        let j = find_domain(&locale.domains, &order[k]);
        proof {
            let c = choose|c: int| 0 <= c < dv.len() && dv[c].name@ == o[k as int];
            if c < j {
                assert(dv[c].name@ != dv[j as int].name@);
            } else if c > j {
                assert(dv[j as int].name@ != dv[c].name@);
            }
            assert(domain_text(dv, o[k as int]) == dv[j as int].text@);
        }
        match parse_object(locale.domains[j].text.as_str()) {
            Some(es) => {
                let ghost before = out@;
                let ghost ev = entries_v(es@);
                out.push(es);
                assert(domain_views(out@) =~= domain_views(before).push(ev));
            },
            None => {
                proof {
                    lemma_domain_trees_none(dv, o, k + 1);
                }
                return Err(GenError::Parse { locale: locale.name.clone(), domain: order[k].clone() });
            },
        }
        k += 1;
    }
    assert(o.subrange(0, order.len() as int) =~= o);
    Ok(out)
}

/// Merges a locale's domain files, taken in the order of their names, a later
/// domain winning under a shared top-level key, and flattens the result: its
/// pretty-printed text and its entries. Fails where a domain file holds no JSON
/// object.
pub fn merge_json_files(locale: &LocaleSource) -> (r: Result<(String, Vec<(String, Leaf)>), GenError>)
    requires
        unique_domains(locale.domains@),
    ensures
        r is Err <==> locale_trees(*locale) is None,
        r matches Ok(x) ==> locale_trees(*locale) matches Some(ds) && entries_view(x.1@) == flat_entries(merged(ds))
            && x.0@ == pretty_object(flat_entries(merged(ds))),
        r matches Err(e) ==> (e matches GenError::Parse { locale: l, domain: d } && l@ == locale.name@
            && exists|j: int| 0 <= j < locale.domains@.len() && (#[trigger] locale.domains@[j]).name@ == d@
            && object_of(locale.domains@[j].text@) is None),
{
    match parse_domains(locale) {
        Ok(ds) => Ok(index_of(ds)),
        Err(e) => Err(e),
    }
}

/// Generates every artifact from the locales' sources. Locales are taken in
/// the order of their names, each locale's domains too; a locale without
/// domain files is left out. It fails where a domain file holds no JSON object;
/// two key paths of the reference locale with the same identifier fail only the
/// key constants.
#[verifier::rlimit(40)]
pub fn generate(locales: &Vec<LocaleSource>) -> (r: Result<Generated, GenError>)
    requires
        forall|a: int, b: int| 0 <= a < b < locales@.len() ==> (#[trigger] locales@[a]).name@ != (#[trigger] locales@[b]).name@,
        forall|i: int| 0 <= i < locales@.len() ==> unique_domains((#[trigger] locales@[i]).domains@),
    ensures
        r is Err <==> !all_parse(locales@, locale_order(locales@)),
        r matches Ok(g) ==> generated_from(parsed_views(locales@, locale_order(locales@)), g),
        r matches Err(e) ==> (e matches GenError::Parse { locale: l, domain: d } && exists|i: int, j: int|
            0 <= i < locales@.len() && (#[trigger] locales@[i]).name@ == l@ && 0 <= j < locales@[i].domains@.len()
            && (#[trigger] locales@[i].domains@[j]).name@ == d@ && object_of(locales@[i].domains@[j].text@) is None),
{
    let mut names: Vec<String> = Vec::new();
    let mut i: usize = 0;
    while i < locales.len()
        invariant
            i <= locales.len(),
            views(names@) == source_names(locales@).take(i as int),
        decreases locales.len() - i,
    {
        let ghost before = names@;
        names.push(locales[i].name.clone());
        assert(views(names@) =~= views(before).push(locales@[i as int].name@));
        assert(source_names(locales@).take(i + 1) =~= source_names(locales@).take(i as int).push(locales@[i as int].name@));
        i += 1;
    }
    assert(source_names(locales@).take(locales.len() as int) =~= source_names(locales@));
    let order = sorted_unique(&names);
    let ghost o = views(order@);
    let ghost full = locale_order(locales@);
    let mut parsed: Vec<ParsedLocale> = Vec::new();
    let mut k: usize = 0;
    assert(o.take(0) =~= seq![]);
    assert(views_of_parsed(parsed@) =~= seq![]);
    while k < order.len()
        invariant
            k <= order.len(),
            o == views(order@),
            o.to_set() == source_names(locales@).to_set(),
            o == sorted_of(source_names(locales@).to_set()),
            full == with_domains(locales@, o),
            forall|a: int, b: int| 0 <= a < b < locales@.len() ==> (#[trigger] locales@[a]).name@ != (#[trigger] locales@[b]).name@,
            forall|i: int| 0 <= i < locales@.len() ==> unique_domains((#[trigger] locales@[i]).domains@),
            views_of_parsed(parsed@) == parsed_views(locales@, with_domains(locales@, o.take(k as int))),
            all_parse(locales@, with_domains(locales@, o.take(k as int))),
        decreases order.len() - k,
    {
        assert(o[k as int] == order@[k as int]@);
        assert(o.to_set().contains(o[k as int]));
        let ghost w = choose|m: int| 0 <= m < locales@.len() && source_names(locales@)[m] == o[k as int];
        let mut j: usize = 0;
        while j < locales.len() && locales[j].name != order[k]
            invariant
                j <= locales.len(),
                k < order.len(),
                0 <= w < locales@.len(),
                locales@[w].name@ == order@[k as int]@,
                forall|m: int| 0 <= m < j ==> (#[trigger] locales@[m]).name@ != order@[k as int]@,
            decreases locales.len() - j,
        {
            j += 1;
        }
        assert(j < locales.len());
        proof {
            let c = choose|c: int| 0 <= c < locales@.len() && locales@[c].name@ == o[k as int];
            if c < j {
                assert(locales@[c].name@ != locales@[j as int].name@);
            } else if c > j {
                assert(locales@[j as int].name@ != locales@[c].name@);
            }
            assert(source_of(locales@, o[k as int]) == locales@[j as int]);
        }
        let ghost prev = with_domains(locales@, o.take(k as int));
        assert(o.take(k + 1).subrange(0, k as int) =~= o.take(k as int));
        if locales[j].domains.len() > 0 {
            assert(has_domains(locales@, o[k as int]));
            let ghost next = prev.push(o[k as int]);
            assert(with_domains(locales@, o.take(k + 1)) == next);
            match parse_domains(&locales[j]) {
                Ok(ds) => {
                    let ghost before = parsed@;
                    let ghost dsv = domain_views(ds@);
                    let p = ParsedLocale { name: order[k].clone(), domains: ds };
                    assert(parsed_view(p) == (o[k as int], dsv));
                    assert(locale_trees(source_of(locales@, o[k as int])) == Some(dsv));
                    parsed.push(p);
                    assert(parsed_views(locales@, next) =~= parsed_views(locales@, prev).push((o[k as int], dsv)));
                    assert(views_of_parsed(parsed@) =~= views_of_parsed(before).push((o[k as int], dsv)));
                    assert forall|q: int| 0 <= q < next.len() implies (#[trigger] locale_trees(
                        source_of(locales@, next[q]),
                    )) is Some by {
                        if q < prev.len() {
                            assert(next[q] == prev[q]);
                        }
                    }
                },
                Err(e) => {
                    proof {
                        lemma_with_domains_prefix(locales@, o, k + 1);
                        assert(o.subrange(0, k + 1) =~= o.take(k + 1));
                        let q = next.len() - 1;
                        assert(full[q] == next[q]);
                        assert(!(locale_trees(source_of(locales@, full[q])) is Some));
                    }
                    return Err(e);
                },
            }
        } else {
            proof {
                if has_domains(locales@, o[k as int]) {
                    let m = choose|m: int| 0 <= m < locales@.len() && locales@[m].name@ == o[k as int]
                        && #[trigger] locales@[m].domains@.len() > 0;
                    if m < j {
                        assert(locales@[m].name@ != locales@[j as int].name@);
                    } else if m > j {
                        assert(locales@[j as int].name@ != locales@[m].name@);
                    }
                }
            }
            assert(with_domains(locales@, o.take(k + 1)) == prev);
        }
        k += 1;
    }
    assert(o.take(order.len() as int) =~= o);
    Ok(generate_parsed(parsed))
}

} // verus!
