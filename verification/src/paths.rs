//! Recognition of dictionary bundle files by name, and extraction of the
//! base identifier (the file stem) that seeds tag expansion.

use crate::text::str_eq;
use vstd::prelude::*;
use vstd::string::*;

verus! {

/// Index just past the last path separator of `p`; 0 when `p` holds none.
pub open spec fn file_name_start(p: Seq<char>) -> int
    decreases p.len(),
{
    if p.len() == 0 {
        0
    } else if p[p.len() - 1] == '/' {
        p.len() as int
    } else {
        file_name_start(p.drop_last())
    }
}

/// The final path component of `p`.
pub open spec fn file_name(p: Seq<char>) -> Seq<char> {
    p.skip(file_name_start(p))
}

/// A path names a dictionary bundle when its file name is long enough to
/// leave a non-empty stem and ends in one of the two recognized extensions.
pub open spec fn is_bundle_path(p: Seq<char>) -> bool {
    let n = file_name(p);
    n.len() > 6 && (n.skip(n.len() - 6) == ".zhfst"@ || n.skip(n.len() - 6) == ".bhfst"@)
}

/// The base identifier of a bundle path: its file name with the extension
/// removed.
pub open spec fn stem(p: Seq<char>) -> Seq<char> {
    file_name(p).take(file_name(p).len() - 6)
}

/// Position just past the last `/` in `p`.
fn find_file_name_start(p: &str) -> (i: usize)
    ensures
        i as int == file_name_start(p@),
        i <= p@.len(),
{
    let n = p.unicode_len();
    let mut i: usize = n;
    proof {
        assert(p@.take(n as int) =~= p@);
    }
    while i > 0
        invariant
            i <= n,
            n == p@.len(),
            file_name_start(p@) == file_name_start(p@.take(i as int)),
        decreases i,
    {
        if p.get_char(i - 1) == '/' {
            proof {
                assert(p@.take(i as int).len() == i);
                assert(p@.take(i as int)[i - 1] == '/');
            }
            return i;
        }
        proof {
            assert(p@.take(i as int)[i - 1] != '/');
            assert(p@.take(i as int).drop_last() =~= p@.take(i - 1));
        }
        i -= 1;
    }
    proof {
        assert(p@.take(0).len() == 0);
    }
    0
}

/// Decides whether `p` names a dictionary bundle.
pub fn is_bundle(p: &str) -> (r: bool)
    ensures
        r == is_bundle_path(p@),
{
    let n = p.unicode_len();
    let start = find_file_name_start(p);
    if n - start <= 6 {
        return false;
    }
    let ext = p.substring_char(n - 6, n);
    proof {
        assert(file_name(p@).len() == n - start);
        assert(file_name(p@).skip(file_name(p@).len() - 6) =~= p@.subrange(
            n - 6,
            n as int,
        ));
    }
    str_eq(ext, ".zhfst") || str_eq(ext, ".bhfst")
}

/// The base identifier of a bundle path, when `p` names one.
pub fn bundle_stem(p: &str) -> (r: Option<String>)
    ensures
        r is Some <==> is_bundle_path(p@),
        r matches Some(s) ==> s@ == stem(p@),
{
    if !is_bundle(p) {
        return None;
    }
    let n = p.unicode_len();
    let start = find_file_name_start(p);
    proof {
        assert(file_name(p@).len() == n - start);
        assert(file_name(p@).take(file_name(p@).len() - 6) =~= p@.subrange(
            start as int,
            n - 6,
        ));
    }
    let s = p.substring_char(start, n - 6);
    Some(String::from_str(s))
}

} // verus!
