//! The set of built executables, held under normalised file names so that
//! bitcode files can be matched back to the executable they belong to.
use vstd::prelude::*;

use crate::text::{spec_rfind, str_eq};

verus! {

/// An ASCII letter or digit.
pub open spec fn spec_is_alnum(c: char) -> bool {
    ('0' <= c && c <= '9') || ('a' <= c && c <= 'z') || ('A' <= c && c <= 'Z')
}

/// The length of a character's UTF-8 encoding, in bytes.
pub open spec fn spec_utf8_len(c: char) -> int {
    if (c as u32) < 0x80 {
        1
    } else if (c as u32) < 0x800 {
        2
    } else if (c as u32) < 0x10000 {
        3
    } else {
        4
    }
}

/// A name normalised byte by byte: an ASCII letter or digit stands as it
/// is; any other character becomes one underscore for each byte of its
/// UTF-8 encoding.
pub open spec fn spec_normalised(s: Seq<char>) -> Seq<char>
    decreases s.len(),
{
    if s.len() == 0 {
        Seq::<char>::empty()
    } else {
        spec_normalised(s.drop_last()) + (if spec_is_alnum(s.last()) {
            seq![s.last()]
        } else {
            Seq::new(spec_utf8_len(s.last()) as nat, |_i: int| '_')
        })
    }
}

/// Append `n` underscores to `r`.
fn push_underscores(r: &mut String, n: usize)
    ensures
        final(r)@ == old(r)@ + Seq::new(n as nat, |_i: int| '_'),
{
    let mut k: usize = 0;
    while k < n
        invariant
            k <= n,
            r@ =~= old(r)@ + Seq::new(k as nat, |_i: int| '_'),
        decreases n - k,
    {
        r.append("_");
        proof {
            reveal_strlit("_");
            assert(r@ =~= old(r)@ + Seq::new((k + 1) as nat, |_i: int| '_'));
        }
        k += 1;
    }
    proof {
        assert(r@ =~= old(r)@ + Seq::new(n as nat, |_i: int| '_'));
    }
}

/// The final path component: everything after the last separator, or the
/// whole path.
pub open spec fn spec_base_name(path: Seq<char>) -> Seq<char> {
    match spec_rfind(path, "/"@) {
        Some(j) => path.skip(j + 1),
        None => path,
    }
}

/// Normalise a name byte by byte: an ASCII letter or digit stands, any
/// other character becomes one underscore per byte of its UTF-8 encoding.
fn normalise(s: &str) -> (r: String)
    ensures
        r@ == spec_normalised(s@),
{
    let len = s.unicode_len();
    let mut r = String::new();
    let mut i: usize = 0;
    proof {
        assert(s@.take(0) =~= Seq::<char>::empty());
    }
    while i < len
        invariant
            i <= len,
            len == s@.len(),
            r@ == spec_normalised(s@.take(i as int)),
        decreases len - i,
    {
        let c = s.get_char(i);
        let ghost t = s@.take(i as int + 1);
        proof {
            assert(t.drop_last() =~= s@.take(i as int));
            assert(t.last() == c);
        }
        if ('0' <= c && c <= '9') || ('a' <= c && c <= 'z') || ('A' <= c && c <= 'Z') {
            let one = s.substring_char(i, i + 1);
            proof {
                assert(one@ =~= s@.subrange(i as int, i as int + 1));
                assert(one@[0] == s@[i as int]);
            }
            r.append(one);
            proof {
                assert(r@ =~= spec_normalised(t));
            }
        } else {
            let code = c as u32;
            let n: usize = if code < 0x80 {
                1
            } else if code < 0x800 {
                2
            } else if code < 0x10000 {
                3
            } else {
                4
            };
            push_underscores(&mut r, n);
            proof {
                assert(r@ =~= spec_normalised(t));
            }
        }
        i += 1;
    }
    proof {
        assert(s@.take(len as int) =~= s@);
    }
    r
}

/// The set of executables a build produced, by normalised file name.
pub struct ExecutableSet {
    names: Vec<String>,
}

impl ExecutableSet {
    /// The stored normalised names.
    pub closed spec fn names(&self) -> Seq<Seq<char>> {
        self.names.deep_view()
    }

    /// An empty set.
    pub fn new() -> (r: ExecutableSet)
        ensures
            r.names() == Seq::<Seq<char>>::empty(),
    {
        let names: Vec<String> = Vec::new();
        let r = ExecutableSet { names };
        proof {
            assert(r.names() =~= Seq::<Seq<char>>::empty());
        }
        r
    }

    /// Record an executable: the normalised form of its path's file name.
    /// A path without a file name (empty, or ending in a separator) fails.
    pub fn insert(&mut self, path: &str) -> (r: Result<(), ()>)
        ensures
            match r {
                Ok(_) => spec_base_name(path@).len() > 0 && final(self).names() == old(
                    self,
                ).names().push(spec_normalised(spec_base_name(path@))),
                Err(_) => spec_base_name(path@).len() == 0 && *final(self) == *old(self),
            },
    {
        proof {
            reveal_strlit("/");
        }
        let plen = path.unicode_len();
        let base = match crate::text::rfind_sub(path, "/") {
            Some(j) => {
                proof {
                    crate::text::lemma_spec_rfind_occurs(path@, "/"@, path@.len() - 1);
                }
                path.substring_char(j + 1, plen)
            },
            None => path,
        };
        proof {
            assert(base@ =~= spec_base_name(path@));
        }
        if base.unicode_len() == 0 {
            return Err(());
        }
        let ghost before = self.names();
        self.names.push(normalise(base));
        proof {
            assert(self.names() =~= before.push(spec_normalised(spec_base_name(path@))));
        }
        Ok(())
    }

    /// Whether the normalised form of `needle` starts with some recorded
    /// executable name.
    pub fn contains_prefix_match(&self, needle: &str) -> (r: bool)
        ensures
            r == exists|i: int|
                0 <= i < self.names().len() && (#[trigger] self.names()[i]).is_prefix_of(
                    spec_normalised(needle@),
                ),
    {
        let n = normalise(needle);
        let nlen = n.as_str().unicode_len();
        let mut i: usize = 0;
        while i < self.names.len()
            invariant
                i <= self.names@.len(),
                self.names().len() == self.names@.len(),
                nlen == n@.len(),
                n@ == spec_normalised(needle@),
                forall|j: int|
                    0 <= j < i ==> !(#[trigger] self.names()[j]).is_prefix_of(
                        spec_normalised(needle@),
                    ),
            decreases self.names@.len() - i,
        {
            proof {
                assert(self.names()[i as int] == self.names@[i as int]@);
            }
            let hay = &self.names[i];
            let hlen = hay.as_str().unicode_len();
            if hlen <= nlen {
                let head = n.as_str().substring_char(0, hlen);
                proof {
                    assert(head@ =~= n@.take(hlen as int));
                }
                if str_eq(head, hay.as_str()) {
                    proof {
                        assert(self.names()[i as int].is_prefix_of(spec_normalised(needle@)));
                    }
                    return true;
                }
            }
            proof {
                if self.names()[i as int].is_prefix_of(spec_normalised(needle@)) {
                    assert(n@.take(hlen as int) =~= self.names()[i as int]);
                }
            }
            i += 1;
        }
        false
    }
}

} // verus!
