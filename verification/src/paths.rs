use crate::text::str_eq;
use vstd::prelude::*;

verus! {

/// The root with a single trailing separator removed: `/repo/` names
/// the same root as `/repo`. A root of just a separator reduces to the
/// empty root, which matches nothing.
pub open spec fn spec_root_base(root: Seq<char>) -> Seq<char> {
    if root.len() > 0 && root.last() == '/' {
        root.drop_last()
    } else {
        root
    }
}

/// A path stripped of a repository root: the root itself becomes `.`,
/// a path under the root loses the root and its separator, and any
/// other path stays as it is. An empty root matches no prefix and
/// leaves every non-empty path unchanged.
pub open spec fn spec_strip_root(path: Seq<char>, root: Seq<char>) -> Seq<char> {
    let base = spec_root_base(root);
    if path == base {
        "."@
    } else if base.len() > 0 && path.len() > base.len() && path.take(base.len() as int) == base
        && path[base.len() as int] == '/' {
        path.skip(base.len() as int + 1)
    } else {
        path
    }
}

/// Strip a repository root off a path, when one is given and matches.
pub fn normalize_path(path: &str, repo_root: Option<&str>) -> (r: String)
    ensures
        repo_root is None ==> r@ == path@,
        repo_root matches Some(root) ==> r@ == spec_strip_root(path@, root@),
{
    match repo_root {
        None => path.to_owned(),
        Some(root) => {
            let root_len = root.unicode_len();
            let base_len = if root_len > 0 && root.get_char(root_len - 1) == '/' {
                root_len - 1
            } else {
                root_len
            };
            let base = root.substring_char(0, base_len);
            proof {
                assert(root@.subrange(0, base_len as int) =~= spec_root_base(root@));
            }
            if str_eq(path, base) {
                String::from_str(".")
            } else {
                let n = path.unicode_len();
                if base_len > 0 && n > base_len {
                    let prefix = path.substring_char(0, base_len);
                    proof {
                        assert(path@.subrange(0, base_len as int) =~= path@.take(base_len as int));
                    }
                    if str_eq(prefix, base) && path.get_char(base_len) == '/' {
                        let stripped = path.substring_char(base_len + 1, n);
                        proof {
                            assert(path@.subrange(base_len as int + 1, n as int) =~= path@.skip(
                                base_len as int + 1,
                            ));
                        }
                        stripped.to_owned()
                    } else {
                        path.to_owned()
                    }
                } else {
                    path.to_owned()
                }
            }
        },
    }
}

} // verus!
