//! Source locations out of debug info: the toolchain supplies a split
//! directory and file, which are rebuilt so that the reported directory is
//! the parent of the reported file name.
use vstd::prelude::*;

use crate::process::spec_path_join;
use crate::report::Location;
use crate::text::{rfind_sub, spec_rfind};

verus! {

/// `p` with every trailing separator removed.
pub open spec fn spec_strip_slashes(p: Seq<char>) -> Seq<char>
    decreases p.len(),
{
    if p.len() > 0 && p.last() == '/' {
        spec_strip_slashes(p.drop_last())
    } else {
        p
    }
}

/// The parent of a path, with the path's trailing separators ignored: the
/// prefix before the last separator, again without its trailing
/// separators; the root `/` when only separators precede; `Some` of the
/// empty path for a separator-free name; `None` for an empty or all-
/// separator path.
pub open spec fn spec_path_parent(path: Seq<char>) -> Option<Seq<char>> {
    let t = spec_strip_slashes(path);
    if t.len() == 0 {
        None
    } else {
        match spec_rfind(t, "/"@) {
            Some(j) => {
                let d = spec_strip_slashes(t.take(j));
                if d.len() == 0 && t[0] == '/' {
                    Some("/"@)
                } else {
                    Some(d)
                }
            },
            None => Some(Seq::<char>::empty()),
        }
    }
}

/// The file name of a path, with trailing separators ignored: the last
/// component, or `..` when the path is empty or all separators. Component
/// names are taken textually (a final `.` or `..` component is kept as
/// is).
pub open spec fn spec_path_file_name(path: Seq<char>) -> Seq<char> {
    let t = spec_strip_slashes(path);
    if t.len() == 0 {
        ".."@
    } else {
        match spec_rfind(t, "/"@) {
            Some(j) => t.skip(j + 1),
            None => t,
        }
    }
}

/// A path without a trailing separator strips to itself.
proof fn lemma_strip_fixed(p: Seq<char>)
    requires
        p.len() == 0 || p.last() != '/',
    ensures
        spec_strip_slashes(p) == p,
{
}

/// Rebuild a location from debug info: the split directory and file are
/// joined, then re-split at the last separator so that the reported
/// directory is the parent of the reported file name, with `Path`-style
/// handling of trailing separators, separator-free names and the root.
pub fn location_from_debug(
    directory: Option<&str>,
    filename: &str,
    line: u64,
    column: Option<u64>,
) -> (r: Location)
    ensures
        ({
            let path = match directory {
                Some(dir) => spec_path_join(dir@, filename@),
                None => filename@,
            };
            &&& (match r.directory {
                Some(d) => spec_path_parent(path) == Some(d@),
                None => spec_path_parent(path) is None,
            })
            &&& r.filename@ == spec_path_file_name(path)
            &&& r.line == line
            &&& r.column == column
        }),
{
    proof {
        reveal_strlit("/");
        reveal_strlit("..");
    }
    let path: String = match directory {
        Some(dir) => crate::syscall::join_paths(dir, filename),
        None => String::from_str(filename),
    };
    let plen = path.as_str().unicode_len();
    let mut end = plen;
    proof {
        assert(path@.take(plen as int) =~= path@);
    }
    while end > 0 && path.as_str().get_char(end - 1) == '/'
        invariant
            end <= plen,
            plen == path@.len(),
            spec_strip_slashes(path@) == spec_strip_slashes(path@.take(end as int)),
        decreases end,
    {
        proof {
            let t = path@.take(end as int);
            assert(t.last() == path@[end - 1]);
            assert(t.drop_last() =~= path@.take(end - 1));
        }
        end -= 1;
    }
    proof {
        let t = path@.take(end as int);
        if end > 0 {
            assert(t.last() == path@[end - 1]);
        }
        lemma_strip_fixed(t);
    }
    if end == 0 {
        proof {
            assert(path@.take(0) =~= Seq::<char>::empty());
        }
        return Location { directory: None, filename: String::from_str(".."), line, column };
    }
    let t = path.as_str().substring_char(0, end);
    proof {
        assert(t@ =~= path@.take(end as int));
    }
    match rfind_sub(t, "/") {
        Some(j) => {
            proof {
                crate::text::lemma_spec_rfind_occurs(t@, "/"@, t@.len() - 1);
            }
            let file = String::from_str(t.substring_char(j + 1, end));
            proof {
                assert(file@ =~= t@.skip(j + 1));
            }
            let mut dend = j;
            while dend > 0 && t.get_char(dend - 1) == '/'
                invariant
                    dend <= j,
                    j < t@.len(),
                    t@.len() == end,
                    spec_strip_slashes(t@.take(j as int)) == spec_strip_slashes(
                        t@.take(dend as int),
                    ),
                decreases dend,
            {
                proof {
                    let d = t@.take(dend as int);
                    assert(d.last() == t@[dend - 1]);
                    assert(d.drop_last() =~= t@.take(dend - 1));
                }
                dend -= 1;
            }
            proof {
                let d = t@.take(dend as int);
                if dend > 0 {
                    assert(d.last() == t@[dend - 1]);
                }
                lemma_strip_fixed(d);
            }
            let dir = if dend == 0 && t.get_char(0) == '/' {
                proof {
                    assert(t@.take(0) =~= Seq::<char>::empty());
                }
                String::from_str("/")
            } else {
                let d = String::from_str(t.substring_char(0, dend));
                proof {
                    assert(d@ =~= t@.take(dend as int));
                }
                d
            };
            Location { directory: Some(dir), filename: file, line, column }
        },
        None => {
            // A separator-free name: its parent is the empty path.
            Location {
                directory: Some(String::new()),
                filename: String::from_str(t),
                line,
                column,
            }
        },
    }
}

} // verus!
