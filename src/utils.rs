//! Locating the project and its library directory.

use vstd::prelude::*;
use crate::setting::{PROJECT_LIB, PROJECT_SRC};

verus! {

/// The first directory that holds the project marker, given the directories
/// from the start directory upwards, nearest first, each with whether the
/// marker is there.
pub fn find_project_root(candidates: &Vec<(String, bool)>) -> (r: Option<String>)
    ensures
        r is None <==> forall|i: int| 0 <= i < candidates@.len() ==> !(#[trigger] candidates@[i]).1,
        r matches Some(d) ==> exists|i: int| {
            &&& 0 <= i < candidates@.len()
            &&& (#[trigger] candidates@[i]).1
            &&& d@ == candidates@[i].0@
            &&& forall|j: int| 0 <= j < i ==> !(#[trigger] candidates@[j]).1
        },
{
    let mut i: usize = 0;
    while i < candidates.len()
        invariant
            i <= candidates.len(),
            forall|j: int| 0 <= j < i ==> !(#[trigger] candidates@[j]).1,
        decreases candidates.len() - i,
    {
        if candidates[i].1 {
            let d = candidates[i].0.clone();
            assert(candidates@[i as int].1);
            return Some(d);
        }
        i += 1;
    }
    None
}

/// The library directory under the project root `root`.
pub fn get_project_lib(root: &str) -> (r: String)
    ensures
        root@.len() > 0 && root@.last() == '/' ==> r@ == root@ + PROJECT_SRC@ + "/"@ + PROJECT_LIB@,
        !(root@.len() > 0 && root@.last() == '/') ==> r@ == root@ + "/"@ + PROJECT_SRC@ + "/"@ + PROJECT_LIB@,
{
    let mut r = String::from_str(root);
    let n = root.unicode_len();
    if !(n > 0 && root.get_char(n - 1) == '/') {
        r.append("/");
    }
    let lib = crate::setting::get_project_lib();
    r.append(lib.as_str());
    r
}

} // verus!
