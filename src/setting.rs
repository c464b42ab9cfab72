//! Where the generator finds and writes things, relative to the project root.

use vstd::prelude::*;

verus! {

/// The directory, under the library directory, that holds one directory per locale.
pub const PROJECT_LOCALES: &'static str = "locales";
pub const PROJECT_SRC: &'static str = "src";
pub const PROJECT_LIB: &'static str = "lib";
/// The file that marks the project root.
pub const PROJECT_SEARCH_ROOT: &'static str = "package.json";
/// A locale's flattened object, inside its directory.
pub const INDEX_FILE: &'static str = "_index.json";
/// The aggregate module, inside the locales directory.
pub const AGGREGATE_FILE: &'static str = "index.ts";
/// The key-constant module, inside the locales directory.
pub const CONSTANTS_FILE: &'static str = "translations.ts";

/// The library directory, relative to the project root: `src/lib`.
pub fn get_project_lib() -> (r: String)
    ensures
        r@ == PROJECT_SRC@ + "/"@ + PROJECT_LIB@,
{
    let mut r = String::from_str(PROJECT_SRC);
    r.append("/");
    r.append(PROJECT_LIB);
    r
}

/// The domain a file of a locale directory holds: a `.json` file other than
/// the generated index, named by its name without the extension.
pub open spec fn domain_of_file(name: Seq<char>) -> Option<Seq<char>> {
    if name.len() >= 5 && name.subrange(name.len() - 5, name.len() as int) == ".json"@
        && name.subrange(0, name.len() - 5) != "_index"@ {
        Some(name.subrange(0, name.len() - 5))
    } else {
        None
    }
}

/// The domain name of the file `file_name`, or `None` where it is no domain file.
pub fn domain_name_of(file_name: &str) -> (r: Option<String>)
    ensures
        match r {
            Some(d) => domain_of_file(file_name@) == Some(d@),
            None => domain_of_file(file_name@) is None,
        },
{
    proof {
        reveal_strlit(".json");
    }
    let n = file_name.unicode_len();
    if n < 5 {
        return None;
    }
    if !(file_name.get_char(n - 5) == '.' && file_name.get_char(n - 4) == 'j' && file_name.get_char(n - 3) == 's'
        && file_name.get_char(n - 2) == 'o' && file_name.get_char(n - 1) == 'n') {
        assert(file_name@.subrange(n - 5, n as int) != ".json"@) by {
            if file_name@.subrange(n - 5, n as int) == ".json"@ {
                assert(file_name@.subrange(n - 5, n as int)[0] == '.');
                assert(file_name@.subrange(n - 5, n as int)[1] == 'j');
                assert(file_name@.subrange(n - 5, n as int)[2] == 's');
                assert(file_name@.subrange(n - 5, n as int)[3] == 'o');
                assert(file_name@.subrange(n - 5, n as int)[4] == 'n');
            }
        }
        return None;
    }
    assert(file_name@.subrange(n - 5, n as int) =~= ".json"@);
    let mut stem = String::new();
    let mut i: usize = 0;
    while i < n - 5
        invariant
            n == file_name@.len(),
            n >= 5,
            i <= n - 5,
            stem@ == file_name@.subrange(0, i as int),
        decreases n - 5 - i,
    {
        crate::keys::push_char(&mut stem, file_name.get_char(i));
        assert(stem@ =~= file_name@.subrange(0, i + 1));
        i += 1;
    }
    let index_stem = String::from_str("_index");
    if stem == index_stem {
        None
    } else {
        Some(stem)
    }
}

} // verus!
