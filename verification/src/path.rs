//! Joining paths.

use vstd::prelude::*;
use vstd::string::{StrSliceExecFns, StringExecFns};

verus! {

/// The character that separates the parts of a path.
pub open spec fn separator() -> char {
    '/'
}

/// The path `rel` taken from `base`: `rel` itself where it starts at the
/// root, else `base` followed by `rel`, with a separator between them unless
/// `base` is empty or already ends in one.
pub open spec fn joined(base: Seq<char>, rel: Seq<char>) -> Seq<char> {
    if rel.len() > 0 && rel[0] == separator() {
        rel
    } else if base.len() == 0 || base.last() == separator() {
        base + rel
    } else {
        base + seq![separator()] + rel
    }
}

/// Joins `rel` to `base`.
pub fn join(base: &str, rel: &str) -> (path: String)
    ensures
        path@ == joined(base@, rel@),
{
    if !rel.is_empty() && rel.get_char(0) == '/' {
        return String::from_str(rel);
    }
    let mut path = String::from_str(base);
    let len = base.unicode_len();
    if len > 0 && base.get_char(len - 1) != '/' {
        proof {
            reveal_strlit("/");
        }
        path.append("/");
        assert("/"@ =~= seq![separator()]);
    }
    path.append(rel);
    path
}

} // verus!
