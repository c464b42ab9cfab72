//! Key constants: every dotted key path of a flat object gets an upper-case
//! identifier, and the registry module maps each identifier to its path.

use vstd::prelude::*;
use crate::error::GenError;
use crate::json::Leaf;
use crate::order::{sorted_of, sorted_unique, views};

verus! {

/// The upper-case form of `s`, as Rust's `str::to_uppercase` gives it.
pub uninterp spec fn upper_of(s: Seq<char>) -> Seq<char>;

/// Relies on str::to_uppercase: the upper-case form depends on the characters alone.
#[verifier::external_body]
fn uppercase(s: &str) -> (r: String)
    ensures
        r@ == upper_of(s@),
{
    s.to_uppercase()
}

/// Relies on String::push: appends one character.
#[verifier::external_body]
pub(crate) fn push_char(s: &mut String, c: char)
    ensures
        final(s)@ == old(s)@.push(c),
{
    s.push(c)
}

pub open spec fn sep_to_underscore(c: char) -> char {
    if c == '.' || c == '-' {
        '_'
    } else {
        c
    }
}

/// `u` with every `.` and `-` made `_`.
pub open spec fn underscored(u: Seq<char>) -> Seq<char> {
    u.map_values(|c: char| sep_to_underscore(c))
}

/// The identifier of a key path: upper case, with `.` and `-` made `_`.
pub open spec fn constant_ident(path: Seq<char>) -> Seq<char> {
    underscored(upper_of(path))
}

/// The line of the registry for one path.
pub open spec fn constant_line(p: Seq<char>) -> Seq<char> {
    "\n\t"@ + constant_ident(p) + ": \""@ + p + "\","@
}

pub open spec fn constant_lines(ps: Seq<Seq<char>>) -> Seq<char>
    decreases ps.len(),
{
    if ps.len() == 0 {
        seq![]
    } else {
        constant_lines(ps.subrange(0, ps.len() - 1)) + constant_line(ps[ps.len() - 1])
    }
}

/// The registry module for the paths `ps`, in their order.
pub open spec fn constants_module(ps: Seq<Seq<char>>) -> Seq<char> {
    "export const I18N_TRANSLATIONS = {"@ + constant_lines(ps) + "\n} as const;"@
}

/// Two of the paths give the same identifier.
pub open spec fn has_collision(ps: Seq<Seq<char>>) -> bool {
    exists|i: int, j: int| 0 <= i < j < ps.len() && constant_ident(#[trigger] ps[i]) == constant_ident(#[trigger] ps[j])
}

/// The key paths of a flat object.
pub open spec fn flat_keys(flat: Seq<(String, Leaf)>) -> Seq<Seq<char>> {
    flat.map_values(|e: (String, Leaf)| e.0@)
}

/// Makes an identifier of an upper-cased path: `.` and `-` become `_`.
pub fn identifier_from_upper(u: &str) -> (r: String)
    ensures
        r@ == underscored(u@),
{
    let n = u.unicode_len();
    let mut r = String::new();
    let mut i: usize = 0;
    while i < n
        invariant
            n == u@.len(),
            i <= n,
            r@ == underscored(u@).take(i as int),
        decreases n - i,
    {
        let c = u.get_char(i);
        if c == '.' || c == '-' {
            push_char(&mut r, '_');
        } else {
            push_char(&mut r, c);
        }
        assert(underscored(u@).take(i + 1) =~= underscored(u@).take(i as int).push(sep_to_underscore(c)));
        i += 1;
    }
    assert(underscored(u@).take(n as int) =~= underscored(u@));
    r
}

/// The identifier of a key path: `auth.login-button` gives `AUTH_LOGIN_BUTTON`.
pub fn constant_name(path: &str) -> (r: String)
    ensures
        r@ == constant_ident(path@),
{
    let upper = uppercase(path);
    identifier_from_upper(upper.as_str())
}

/// The registry module text for the given paths, in their order.
pub fn render_constants(paths: &Vec<String>) -> (r: String)
    ensures
        r@ == constants_module(views(paths@)),
{
    let mut text = String::from_str("export const I18N_TRANSLATIONS = {");
    let ghost head = text@;
    let mut i: usize = 0;
    while i < paths.len()
        invariant
            i <= paths.len(),
            head == "export const I18N_TRANSLATIONS = {"@,
            text@ == head + constant_lines(views(paths@).take(i as int)),
        decreases paths.len() - i,
    {
        let p = paths[i].as_str();
        let name = constant_name(p);
        let ghost before = text@;
        text.append("\n\t");
        text.append(name.as_str());
        text.append(": \"");
        text.append(p);
        text.append("\",");
        assert(views(paths@).take(i + 1).subrange(0, i as int) =~= views(paths@).take(i as int));
        assert(text@ =~= before + constant_line(p@));
        i += 1;
    }
    text.append("\n} as const;");
    assert(views(paths@).take(paths.len() as int) =~= views(paths@));
    text
}

/// Finds two paths with the same identifier, the first such pair in order.
fn find_collision(paths: &Vec<String>, names: &Vec<String>) -> (r: Option<(usize, usize)>)
    requires
        names.len() == paths.len(),
        forall|k: int| 0 <= k < paths.len() ==> (#[trigger] names@[k])@ == constant_ident(paths@[k]@),
    ensures
        r is None <==> !has_collision(views(paths@)),
        r matches Some(p) ==> p.0 < p.1 < paths.len() && names@[p.0 as int]@ == names@[p.1 as int]@,
{
    let mut i: usize = 0;
    while i < names.len()
        invariant
            i <= names.len(),
            names.len() == paths.len(),
            forall|k: int| 0 <= k < paths.len() ==> (#[trigger] names@[k])@ == constant_ident(paths@[k]@),
            forall|a: int, b: int| 0 <= a < i && a < b < names.len() ==> names@[a]@ != names@[b]@,
        decreases names.len() - i,
    {
        let mut j: usize = i + 1;
        while j < names.len()
            invariant
                i < j <= names.len(),
                names.len() == paths.len(),
                forall|k: int| 0 <= k < paths.len() ==> (#[trigger] names@[k])@ == constant_ident(paths@[k]@),
                forall|a: int, b: int| 0 <= a < i && a < b < names.len() ==> names@[a]@ != names@[b]@,
                forall|b: int| i < b < j ==> names@[i as int]@ != (#[trigger] names@[b])@,
            decreases names.len() - j,
        {
            if names[i] == names[j] {
                assert(views(paths@)[i as int] == paths@[i as int]@);
                assert(views(paths@)[j as int] == paths@[j as int]@);
                return Some((i, j));
            }
            j += 1;
        }
        i += 1;
    }
    assert forall|a: int, b: int| 0 <= a < b < views(paths@).len() implies constant_ident(#[trigger] views(paths@)[a])
        != constant_ident(#[trigger] views(paths@)[b]) by {
        assert(names@[a]@ != names@[b]@);
    }
    None
}

/// The registry module for a flat object: its key paths sorted, each once, each
/// with its identifier. Two paths with the same identifier are an error.
pub fn generate_constants(flat: &Vec<(String, Leaf)>) -> (r: Result<String, GenError>)
    ensures
        r is Err <==> has_collision(sorted_of(flat_keys(flat@).to_set())),
        r matches Ok(t) ==> t@ == constants_module(sorted_of(flat_keys(flat@).to_set())),
        r matches Err(e) ==> (e matches GenError::IdentifierCollision { first, second }
            && first@ != second@
            && constant_ident(first@) == constant_ident(second@)
            && flat_keys(flat@).contains(first@)
            && flat_keys(flat@).contains(second@)),
{
    let mut keys: Vec<String> = Vec::new();
    let mut i: usize = 0;
    while i < flat.len()
        invariant
            i <= flat.len(),
            views(keys@) == flat_keys(flat@).take(i as int),
        decreases flat.len() - i,
    {
        let key = flat[i].0.clone();
        let ghost before = keys@;
        keys.push(key);
        assert(views(keys@) =~= views(before).push(flat@[i as int].0@));
        assert(views(keys@) =~= flat_keys(flat@).take(i + 1));
        i += 1;
    }
    assert(flat_keys(flat@).take(flat.len() as int) =~= flat_keys(flat@));
    let paths = sorted_unique(&keys);
    let mut names: Vec<String> = Vec::new();
    let mut k: usize = 0;
    while k < paths.len()
        invariant
            k <= paths.len(),
            names.len() == k,
            forall|m: int| 0 <= m < k ==> (#[trigger] names@[m])@ == constant_ident(paths@[m]@),
        decreases paths.len() - k,
    {
        names.push(constant_name(paths[k].as_str()));
        k += 1;
    }
    match find_collision(&paths, &names) {
        Some((a, b)) => {
            proof {
                let sp = views(paths@);
                assert(sp[a as int] == paths@[a as int]@);
                assert(sp[b as int] == paths@[b as int]@);
                assert(crate::order::strictly_sorted(sp));
                crate::order::lemma_lt_irreflexive(sp[a as int]);
                assert(sp.to_set().contains(sp[a as int]));
                assert(sp.to_set().contains(sp[b as int]));
            }
            Err(GenError::IdentifierCollision { first: paths[a].clone(), second: paths[b].clone() })
        },
        None => Ok(render_constants(&paths)),
    }
}

} // verus!
