//! Ordered capability containers: a map from `Capability` to
//! `CapabilityType` that combines duplicate insertions by taking the more
//! severe type, and a set of capabilities. Both keep their entries sorted by
//! the capability's stable code.
use vstd::prelude::*;

use crate::caps::{
    lemma_cap_code_injective, spec_cap_code, spec_cap_type_max, Capability, CapabilityType,
};

verus! {

/// First-match lookup in a sequence of capability entries.
pub open spec fn spec_get(entries: Seq<(Capability, CapabilityType)>, c: Capability) -> Option<
    CapabilityType,
>
    decreases entries.len(),
{
    if entries.len() == 0 {
        None
    } else if entries[0].0 == c {
        Some(entries[0].1)
    } else {
        spec_get(entries.drop_first(), c)
    }
}

/// Entries are sorted strictly increasing by capability code.
pub open spec fn spec_sorted(entries: Seq<(Capability, CapabilityType)>) -> bool {
    forall|i: int, j: int|
        0 <= i < j < entries.len() ==> spec_cap_code(entries[i].0) < spec_cap_code(entries[j].0)
}

/// In a sorted sequence, codes grow at least as fast as indices.
proof fn lemma_sorted_gap(entries: Seq<(Capability, CapabilityType)>, i: int, j: int)
    requires
        spec_sorted(entries),
        0 <= i <= j < entries.len(),
    ensures
        spec_cap_code(entries[j].0) - spec_cap_code(entries[i].0) >= j - i,
    decreases j - i,
{
    if i < j {
        lemma_sorted_gap(entries, i, j - 1);
    }
}

/// A sorted capability sequence has at most one entry per capability, so at
/// most as many entries as there are capabilities.
pub proof fn lemma_sorted_len(entries: Seq<(Capability, CapabilityType)>)
    requires
        spec_sorted(entries),
    ensures
        entries.len() <= 18,
{
    if entries.len() > 18 {
        lemma_sorted_gap(entries, 0, entries.len() - 1);
    }
}

/// In a sorted sequence, lookup of the capability at index `k` finds it.
pub proof fn lemma_sorted_get_at(entries: Seq<(Capability, CapabilityType)>, k: int)
    requires
        spec_sorted(entries),
        0 <= k < entries.len(),
    ensures
        spec_get(entries, entries[k].0) == Some(entries[k].1),
    decreases k,
{
    if k > 0 {
        assert(spec_cap_code(entries[0].0) < spec_cap_code(entries[k].0));
        assert(entries[0].0 != entries[k].0);
        assert forall|i: int, j: int|
            0 <= i < j < entries.drop_first().len() implies spec_cap_code(
            entries.drop_first()[i].0,
        ) < spec_cap_code(entries.drop_first()[j].0) by {
            assert(entries.drop_first()[i] == entries[i + 1]);
            assert(entries.drop_first()[j] == entries[j + 1]);
        }
        assert(entries.drop_first()[k - 1] == entries[k]);
        lemma_sorted_get_at(entries.drop_first(), k - 1);
    }
}

/// In a sorted sequence, a capability out of every entry is absent.
proof fn lemma_get_absent(entries: Seq<(Capability, CapabilityType)>, c: Capability)
    requires
        forall|i: int| 0 <= i < entries.len() ==> entries[i].0 != c,
    ensures
        spec_get(entries, c) is None,
    decreases entries.len(),
{
    if entries.len() > 0 {
        assert forall|i: int| 0 <= i < entries.drop_first().len() implies entries.drop_first()[i].0
            != c by {
            assert(entries.drop_first()[i] == entries[i + 1]);
        }
        lemma_get_absent(entries.drop_first(), c);
    }
}

/// Lookup distributes over point updates and insertions.
proof fn lemma_get_update(
    entries: Seq<(Capability, CapabilityType)>,
    k: int,
    t: CapabilityType,
    d: Capability,
)
    requires
        spec_sorted(entries),
        0 <= k < entries.len(),
    ensures
        spec_get(entries.update(k, (entries[k].0, t)), d) == if d == entries[k].0 {
            Some(t)
        } else {
            spec_get(entries, d)
        },
    decreases k,
{
    let upd = entries.update(k, (entries[k].0, t));
    if k == 0 {
        if d != entries[0].0 {
            assert(upd.drop_first() =~= entries.drop_first());
        }
    } else {
        assert(spec_cap_code(entries[0].0) < spec_cap_code(entries[k].0));
        assert forall|i: int, j: int|
            0 <= i < j < entries.drop_first().len() implies spec_cap_code(
            entries.drop_first()[i].0,
        ) < spec_cap_code(entries.drop_first()[j].0) by {
            assert(entries.drop_first()[i] == entries[i + 1]);
            assert(entries.drop_first()[j] == entries[j + 1]);
        }
        assert(upd.drop_first() =~= entries.drop_first().update(k - 1, (entries[k].0, t)));
        assert(entries.drop_first()[k - 1] == entries[k]);
        lemma_get_update(entries.drop_first(), k - 1, t, d);
    }
}

/// Lookup after inserting a fresh capability at its sorted position.
proof fn lemma_get_insert(
    entries: Seq<(Capability, CapabilityType)>,
    k: int,
    c: Capability,
    t: CapabilityType,
    d: Capability,
)
    requires
        0 <= k <= entries.len(),
        forall|i: int| 0 <= i < entries.len() ==> entries[i].0 != c,
    ensures
        spec_get(entries.insert(k, (c, t)), d) == if d == c {
            Some(t)
        } else {
            spec_get(entries, d)
        },
    decreases k,
{
    let ins = entries.insert(k, (c, t));
    if k == 0 {
        if d == c {
            assert(ins[0] == (c, t));
        } else {
            assert(ins[0] == (c, t));
            assert(ins.drop_first() =~= entries);
        }
    } else {
        assert(ins[0] == entries[0]);
        assert(ins.drop_first() =~= entries.drop_first().insert(k - 1, (c, t)));
        assert forall|i: int| 0 <= i < entries.drop_first().len() implies entries.drop_first()[i].0
            != c by {
            assert(entries.drop_first()[i] == entries[i + 1]);
        }
        lemma_get_insert(entries.drop_first(), k - 1, c, t, d);
        if d == entries[0].0 {
        }
    }
}

/// A present capability sits at some index of the entry sequence.
pub proof fn lemma_get_some_index(entries: Seq<(Capability, CapabilityType)>, c: Capability)
    requires
        spec_get(entries, c) is Some,
    ensures
        exists|i: int| 0 <= i < entries.len() && entries[i].0 == c,
    decreases entries.len(),
{
    if entries.len() > 0 && entries[0].0 != c {
        lemma_get_some_index(entries.drop_first(), c);
        let i = choose|i: int|
            0 <= i < entries.drop_first().len() && entries.drop_first()[i].0 == c;
        assert(entries[i + 1].0 == c);
    }
}

/// A map from capability to capability type, kept sorted by capability code,
/// holding at most one entry per capability. Inserting an already-present
/// capability keeps the more severe of the two types.
pub struct CapMap {
    entries: Vec<(Capability, CapabilityType)>,
}

impl View for CapMap {
    type V = Seq<(Capability, CapabilityType)>;

    closed spec fn view(&self) -> Seq<(Capability, CapabilityType)> {
        self.entries@
    }
}

impl Clone for CapMap {
    fn clone(&self) -> (r: Self)
        ensures
            r@ == self@,
    {
        let mut entries: Vec<(Capability, CapabilityType)> = Vec::new();
        let mut i: usize = 0;
        while i < self.entries.len()
            invariant
                i <= self.entries@.len(),
                entries@ == self.entries@.take(i as int),
            decreases self.entries@.len() - i,
        {
            entries.push(self.entries[i]);
            proof {
                assert(entries@ =~= self.entries@.take(i as int + 1));
            }
            i += 1;
        }
        proof {
            assert(entries@ =~= self.entries@);
        }
        CapMap { entries }
    }
}

impl CapMap {
    /// The entries are strictly sorted by capability code.
    pub open spec fn wf(&self) -> bool {
        spec_sorted(self@)
    }

    /// The empty map.
    pub fn new() -> (r: CapMap)
        ensures
            r@ == Seq::<(Capability, CapabilityType)>::empty(),
            r.wf(),
    {
        CapMap { entries: Vec::new() }
    }

    /// The number of entries.
    pub fn len(&self) -> (r: usize)
        ensures
            r == self@.len(),
    {
        self.entries.len()
    }

    /// The entry at position `i`, in capability-code order.
    pub fn entry_at(&self, i: usize) -> (r: (Capability, CapabilityType))
        requires
            i < self@.len(),
        ensures
            r == self@[i as int],
    {
        let p = &self.entries[i];
        (p.0, p.1)
    }

    /// The type recorded for `c`, if present.
    pub fn get(&self, c: Capability) -> (r: Option<CapabilityType>)
        ensures
            r == spec_get(self@, c),
    {
        let mut i: usize = 0;
        while i < self.entries.len()
            invariant
                i <= self@.len(),
                forall|j: int| 0 <= j < i ==> self@[j].0 != c,
            decreases self@.len() - i,
        {
            if self.entries[i].0.code() == c.code() {
                proof {
                    lemma_cap_code_injective(self@[i as int].0, c);
                    lemma_get_found(self@, c, i as int);
                }
                return Some(self.entries[i].1);
            }
            proof {
                lemma_cap_code_injective(self@[i as int].0, c);
            }
            i += 1;
        }
        proof {
            lemma_get_absent(self@, c);
        }
        None
    }

    /// Insert `c` with type `t`; when `c` is already present the recorded
    /// type becomes the more severe of the old and new types.
    pub fn insert_max(&mut self, c: Capability, t: CapabilityType)
        requires
            old(self).wf(),
        ensures
            final(self).wf(),
            spec_get(final(self)@, c) == Some(
                match spec_get(old(self)@, c) {
                    Some(t0) => spec_cap_type_max(t0, t),
                    None => t,
                },
            ),
            forall|d: Capability| d != c ==> spec_get(final(self)@, d) == spec_get(old(self)@, d),
            final(self)@.len() == if spec_get(old(self)@, c) is Some {
                old(self)@.len()
            } else {
                old(self)@.len() + 1
            },
    {
        let code = c.code();
        let mut i: usize = 0;
        while i < self.entries.len() && self.entries[i].0.code() < code
            invariant
                i <= self@.len(),
                *self == *old(self),
                code == spec_cap_code(c),
                forall|j: int| 0 <= j < i ==> spec_cap_code(self@[j].0) < spec_cap_code(c),
            decreases self@.len() - i,
        {
            i += 1;
        }
        if i < self.entries.len() && self.entries[i].0.code() == code {
            proof {
                lemma_cap_code_injective(self@[i as int].0, c);
                lemma_sorted_get_at(self@, i as int);
            }
            let t0 = self.entries[i].1;
            let merged = t0.max(t);
            self.entries[i] = (c, merged);
            proof {
                assert(final(self)@ =~= old(self)@.update(i as int, (c, merged)));
                assert forall|d: Capability| true implies spec_get(final(self)@, d) == (if d == c {
                    Some(merged)
                } else {
                    spec_get(old(self)@, d)
                }) by {
                    lemma_get_update(old(self)@, i as int, merged, d);
                }
            }
        } else {
            proof {
                assert forall|j: int| 0 <= j < self@.len() implies self@[j].0 != c by {
                    if j < i {
                        lemma_cap_code_injective(self@[j].0, c);
                    } else if j == i {
                        lemma_cap_code_injective(self@[j].0, c);
                    } else {
                        assert(spec_cap_code(self@[i as int].0) < spec_cap_code(self@[j].0));
                        lemma_cap_code_injective(self@[j].0, c);
                    }
                }
                lemma_get_absent(old(self)@, c);
            }
            self.entries.insert(i, (c, t));
            proof {
                assert forall|d: Capability| true implies spec_get(final(self)@, d) == (if d == c {
                    Some(t)
                } else {
                    spec_get(old(self)@, d)
                }) by {
                    lemma_get_insert(old(self)@, i as int, c, t, d);
                }
                assert forall|x: int, y: int|
                    0 <= x < y < final(self)@.len() implies spec_cap_code(final(self)@[x].0)
                    < spec_cap_code(final(self)@[y].0) by {
                    let o = old(self)@;
                    if y < i {
                    } else if x >= i + 1 {
                        assert(final(self)@[x] == o[x - 1]);
                        assert(final(self)@[y] == o[y - 1]);
                    } else if y == i {
                        assert(final(self)@[x] == o[x]);
                    } else if x == i {
                        assert(final(self)@[y] == o[y - 1]);
                        assert(spec_cap_code(o[i as int].0) != spec_cap_code(c)) by {
                            lemma_cap_code_injective(o[i as int].0, c);
                        }
                        if y - 1 > i {
                            assert(spec_cap_code(o[i as int].0) < spec_cap_code(o[y - 1].0));
                        }
                    } else {
                        assert(final(self)@[x] == o[x]);
                        assert(final(self)@[y] == o[y - 1]);
                        if y - 1 > x {
                        }
                    }
                }
            }
        }
    }
}

/// In any capability sequence, a first match at `k` is what lookup returns.
proof fn lemma_get_found(entries: Seq<(Capability, CapabilityType)>, c: Capability, k: int)
    requires
        0 <= k < entries.len(),
        entries[k].0 == c,
        forall|i: int| 0 <= i < k ==> entries[i].0 != c,
    ensures
        spec_get(entries, c) == Some(entries[k].1),
    decreases k,
{
    if k > 0 {
        assert forall|i: int| 0 <= i < k - 1 implies entries.drop_first()[i].0 != c by {
            assert(entries.drop_first()[i] == entries[i + 1]);
        }
        assert(entries.drop_first()[k - 1] == entries[k]);
        lemma_get_found(entries.drop_first(), c, k - 1);
    }
}

/// Membership in a capability sequence, by key.
pub open spec fn spec_set_contains(s: Seq<Capability>, c: Capability) -> bool {
    exists|i: int| 0 <= i < s.len() && s[i] == c
}

/// A set of capabilities kept sorted by capability code.
pub struct CapSet {
    items: Vec<Capability>,
}

impl View for CapSet {
    type V = Seq<Capability>;

    closed spec fn view(&self) -> Seq<Capability> {
        self.items@
    }
}

impl Clone for CapSet {
    fn clone(&self) -> (r: Self)
        ensures
            r@ == self@,
    {
        let mut items: Vec<Capability> = Vec::new();
        let mut i: usize = 0;
        while i < self.items.len()
            invariant
                i <= self.items@.len(),
                items@ == self.items@.take(i as int),
            decreases self.items@.len() - i,
        {
            items.push(self.items[i]);
            proof {
                assert(items@ =~= self.items@.take(i as int + 1));
            }
            i += 1;
        }
        proof {
            assert(items@ =~= self.items@);
        }
        CapSet { items }
    }
}

impl CapSet {
    /// The items are strictly sorted by capability code.
    pub open spec fn wf(&self) -> bool {
        forall|i: int, j: int|
            0 <= i < j < self@.len() ==> spec_cap_code(self@[i]) < spec_cap_code(self@[j])
    }

    /// The empty set.
    pub fn new() -> (r: CapSet)
        ensures
            r@ == Seq::<Capability>::empty(),
            r.wf(),
    {
        CapSet { items: Vec::new() }
    }

    /// The number of capabilities held.
    pub fn len(&self) -> (r: usize)
        ensures
            r == self@.len(),
    {
        self.items.len()
    }

    /// The capability at position `i`, in code order.
    pub fn item_at(&self, i: usize) -> (r: Capability)
        requires
            i < self@.len(),
        ensures
            r == self@[i as int],
    {
        self.items[i]
    }

    /// Whether `c` is in the set.
    pub fn contains(&self, c: Capability) -> (r: bool)
        ensures
            r == spec_set_contains(self@, c),
    {
        let mut i: usize = 0;
        while i < self.items.len()
            invariant
                i <= self@.len(),
                forall|j: int| 0 <= j < i ==> self@[j] != c,
            decreases self@.len() - i,
        {
            if self.items[i].code() == c.code() {
                proof {
                    lemma_cap_code_injective(self@[i as int], c);
                }
                return true;
            }
            proof {
                lemma_cap_code_injective(self@[i as int], c);
            }
            i += 1;
        }
        false
    }

    /// Whether every capability of this set is in `other`.
    pub fn is_subset_of(&self, other: &CapSet) -> (r: bool)
        ensures
            r == (forall|c: Capability|
                spec_set_contains(self@, c) ==> spec_set_contains(other@, c)),
    {
        let mut i: usize = 0;
        while i < self.items.len()
            invariant
                i <= self@.len(),
                forall|j: int| 0 <= j < i ==> spec_set_contains(other@, self@[j]),
            decreases self@.len() - i,
        {
            if !other.contains(self.items[i]) {
                proof {
                    assert(spec_set_contains(self@, self@[i as int]));
                }
                return false;
            }
            i += 1;
        }
        proof {
            assert forall|c: Capability|
                spec_set_contains(self@, c) implies spec_set_contains(other@, c) by {
                let w = choose|w: int| 0 <= w < self@.len() && self@[w] == c;
                assert(spec_set_contains(other@, self@[w]));
            }
        }
        true
    }

    /// Insert `c`; the set is unchanged when `c` is already present.
    pub fn insert(&mut self, c: Capability)
        requires
            old(self).wf(),
        ensures
            final(self).wf(),
            spec_set_contains(final(self)@, c),
            forall|d: Capability| spec_set_contains(old(self)@, d) ==> spec_set_contains(
                final(self)@,
                d,
            ),
            forall|d: Capability|
                spec_set_contains(final(self)@, d) ==> d == c || spec_set_contains(old(self)@, d),
    {
        let code = c.code();
        let mut i: usize = 0;
        while i < self.items.len() && self.items[i].code() < code
            invariant
                i <= self@.len(),
                *self == *old(self),
                code == spec_cap_code(c),
                forall|j: int| 0 <= j < i ==> spec_cap_code(self@[j]) < spec_cap_code(c),
            decreases self@.len() - i,
        {
            i += 1;
        }
        if i < self.items.len() && self.items[i].code() == code {
            proof {
                lemma_cap_code_injective(self@[i as int], c);
                assert(spec_set_contains(self@, c));
            }
            return ;
        }
        self.items.insert(i, c);
        proof {
            let o = old(self)@;
            assert(final(self)@[i as int] == c);
            assert forall|d: Capability| spec_set_contains(o, d) implies spec_set_contains(
                final(self)@,
                d,
            ) by {
                let w = choose|w: int| 0 <= w < o.len() && o[w] == d;
                if w < i {
                    assert(final(self)@[w] == d);
                } else {
                    assert(final(self)@[w + 1] == d);
                }
            }
            assert forall|d: Capability| spec_set_contains(final(self)@, d) implies d == c
                || spec_set_contains(o, d) by {
                let w = choose|w: int| 0 <= w < final(self)@.len() && final(self)@[w] == d;
                if w < i {
                    assert(o[w] == d);
                } else if w > i {
                    assert(o[w - 1] == d);
                }
            }
            assert forall|x: int, y: int|
                0 <= x < y < final(self)@.len() implies spec_cap_code(final(self)@[x])
                < spec_cap_code(final(self)@[y]) by {
                if y < i {
                } else if x >= i + 1 {
                    assert(final(self)@[x] == o[x - 1]);
                    assert(final(self)@[y] == o[y - 1]);
                } else if y == i {
                    assert(final(self)@[x] == o[x]);
                } else if x == i {
                    assert(final(self)@[y] == o[y - 1]);
                    assert(spec_cap_code(o[i as int]) != spec_cap_code(c)) by {
                        lemma_cap_code_injective(o[i as int], c);
                    }
                    if y - 1 > i {
                        assert(spec_cap_code(o[i as int]) < spec_cap_code(o[y - 1]));
                    }
                } else {
                    assert(final(self)@[x] == o[x]);
                    assert(final(self)@[y] == o[y - 1]);
                }
            }
        }
    }
}

} // verus!
