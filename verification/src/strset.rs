//! A set of strings kept in sorted order, as a syscall-name set is.
use vstd::prelude::*;

use crate::text::{lemma_str_lt_trans, lemma_str_lt_trichotomy, spec_str_lt, str_lt};

verus! {

/// Membership in a sequence of character sequences.
pub open spec fn spec_strs_contain(s: Seq<Seq<char>>, x: Seq<char>) -> bool {
    exists|i: int| 0 <= i < s.len() && s[i] == x
}

/// A set of strings, kept sorted lexicographically and free of duplicates.
pub struct StrSet {
    items: Vec<String>,
}

impl View for StrSet {
    type V = Seq<Seq<char>>;

    closed spec fn view(&self) -> Seq<Seq<char>> {
        self.items.deep_view()
    }
}

impl Clone for StrSet {
    fn clone(&self) -> (r: Self)
        ensures
            r@ == self@,
    {
        let mut items: Vec<String> = Vec::new();
        let mut i: usize = 0;
        while i < self.items.len()
            invariant
                i <= self.items@.len(),
                items@.len() == i,
                items.deep_view() == self.items.deep_view().take(i as int),
            decreases self.items@.len() - i,
        {
            items.push(self.items[i].clone());
            proof {
                assert forall|k: int| 0 <= k < items@.len() implies items.deep_view()[k]
                    == self.items.deep_view().take(i as int + 1)[k] by {
                    assert(items.deep_view()[k] == items@[k]@);
                    assert(self.items.deep_view()[k] == self.items@[k]@);
                    if k < i {
                        assert(items@[k]@ == self.items.deep_view().take(i as int)[k]);
                    }
                }
                assert(items.deep_view() =~= self.items.deep_view().take(i as int + 1));
            }
            i += 1;
        }
        proof {
            assert(items.deep_view() =~= self.items.deep_view());
        }
        StrSet { items }
    }
}

impl StrSet {
    /// The items are strictly sorted lexicographically.
    pub open spec fn wf(&self) -> bool {
        forall|i: int, j: int| 0 <= i < j < self@.len() ==> spec_str_lt(self@[i], self@[j])
    }

    /// The empty set.
    pub fn new() -> (r: StrSet)
        ensures
            r@ == Seq::<Seq<char>>::empty(),
            r.wf(),
    {
        let items: Vec<String> = Vec::new();
        proof {
            assert(items.deep_view() =~= Seq::<Seq<char>>::empty());
        }
        StrSet { items }
    }

    /// The number of strings held.
    pub fn len(&self) -> (r: usize)
        ensures
            r == self@.len(),
    {
        proof {
            assert(self.items.deep_view().len() == self.items@.len());
        }
        self.items.len()
    }

    /// The string at position `i`, in sorted order.
    pub fn item_at(&self, i: usize) -> (r: &String)
        requires
            i < self@.len(),
        ensures
            r@ == self@[i as int],
    {
        proof {
            assert(self.items.deep_view().len() == self.items@.len());
        }
        &self.items[i]
    }

    /// Whether `x` is in the set.
    pub fn contains(&self, x: &str) -> (r: bool)
        ensures
            r == spec_strs_contain(self@, x@),
    {
        proof {
            assert(self.items.deep_view().len() == self.items@.len());
        }
        let mut i: usize = 0;
        while i < self.items.len()
            invariant
                i <= self@.len(),
                self@.len() == self.items@.len(),
                forall|j: int| 0 <= j < i ==> self@[j] != x@,
            decreases self@.len() - i,
        {
            proof {
                assert(self@[i as int] == self.items@[i as int]@);
            }
            if crate::text::str_eq(self.items[i].as_str(), x) {
                return true;
            }
            i += 1;
        }
        false
    }

    /// Insert `x`; the set is unchanged when `x` is already present.
    pub fn insert(&mut self, x: String)
        requires
            old(self).wf(),
        ensures
            final(self).wf(),
            spec_strs_contain(final(self)@, x@),
            forall|d: Seq<char>| spec_strs_contain(old(self)@, d) ==> spec_strs_contain(
                final(self)@,
                d,
            ),
            forall|d: Seq<char>|
                spec_strs_contain(final(self)@, d) ==> d == x@ || spec_strs_contain(old(self)@, d),
    {
        proof {
            assert(self.items.deep_view().len() == self.items@.len());
        }
        let mut i: usize = 0;
        while i < self.items.len() && str_lt(self.items[i].as_str(), x.as_str())
            invariant
                i <= self@.len(),
                self@.len() == self.items@.len(),
                *self == *old(self),
                forall|j: int| 0 <= j < i ==> spec_str_lt(self@[j], x@),
            decreases self@.len() - i,
        {
            proof {
                assert(self@[i as int] == self.items@[i as int]@);
            }
            i += 1;
        }
        if i < self.items.len() {
            proof {
                assert(self@[i as int] == self.items@[i as int]@);
            }
            if !str_lt(x.as_str(), self.items[i].as_str()) {
                proof {
                    lemma_str_lt_trichotomy(self@[i as int], x@);
                    assert(self@[i as int] == x@);
                    assert(spec_strs_contain(self@, x@));
                }
                return ;
            }
        }
        self.items.insert(i, x);
        proof {
            let o = old(self)@;
            let n = final(self)@;
            assert(n =~= o.insert(i as int, x@)) by {
                assert(n.len() == o.len() + 1);
                assert forall|k: int| 0 <= k < n.len() implies n[k] == o.insert(i as int, x@)[k] by {
                    if k < i {
                        assert(n[k] == final(self).items@[k]@);
                        assert(o[k] == old(self).items@[k]@);
                    } else if k == i {
                        assert(n[k] == final(self).items@[k]@);
                    } else {
                        assert(n[k] == final(self).items@[k]@);
                        assert(o[k - 1] == old(self).items@[k - 1]@);
                    }
                }
            }
            assert(n[i as int] == x@);
            assert forall|d: Seq<char>| spec_strs_contain(o, d) implies spec_strs_contain(
                n,
                d,
            ) by {
                let w = choose|w: int| 0 <= w < o.len() && o[w] == d;
                if w < i {
                    assert(n[w] == d);
                } else {
                    assert(n[w + 1] == d);
                }
            }
            assert forall|d: Seq<char>| spec_strs_contain(n, d) implies d == x@
                || spec_strs_contain(o, d) by {
                let w = choose|w: int| 0 <= w < n.len() && n[w] == d;
                if w < i {
                    assert(o[w] == d);
                } else if w > i {
                    assert(o[w - 1] == d);
                }
            }
            assert forall|p: int, q: int| 0 <= p < q < n.len() implies spec_str_lt(
                n[p],
                n[q],
            ) by {
                if q < i {
                } else if p >= i + 1 {
                    assert(n[p] == o[p - 1]);
                    assert(n[q] == o[q - 1]);
                } else if q == i {
                    assert(n[p] == o[p]);
                } else if p == i {
                    assert(n[q] == o[q - 1]);
                    if q - 1 > i {
                        lemma_str_lt_trans(x@, o[i as int], o[q - 1]);
                    }
                } else {
                    assert(n[p] == o[p]);
                    assert(n[q] == o[q - 1]);
                }
            }
        }
    }
}

} // verus!
