//! Advisory correlation: an index from function display name to the
//! advisories whose ecosystem-specific metadata names that function. Each
//! function's advisories are kept distinct and sorted by advisory id, then
//! package.
use vstd::prelude::*;

use crate::text::{
    lemma_str_lt_trans, lemma_str_lt_trichotomy, spec_str_lt, str_eq, str_lt,
};

verus! {

/// One advisory affecting a function: its id and the package it is about.
#[derive(Debug)]
pub struct Affected {
    pub id: String,
    pub package: String,
}

impl Clone for Affected {
    fn clone(&self) -> (r: Self)
        ensures
            r == *self,
    {
        Affected { id: self.id.clone(), package: self.package.clone() }
    }
}

/// The order advisories are kept in: by id, then by package.
pub open spec fn spec_aff_lt(a: Affected, b: Affected) -> bool {
    spec_str_lt(a.id@, b.id@) || (a.id@ == b.id@ && spec_str_lt(a.package@, b.package@))
}

/// Two records naming the same advisory and package.
pub open spec fn spec_aff_same(a: Affected, b: Affected) -> bool {
    a.id@ == b.id@ && a.package@ == b.package@
}

/// Membership in an advisory list, by id and package.
pub open spec fn spec_affs_contain(l: Seq<Affected>, id: Seq<char>, package: Seq<char>) -> bool {
    exists|i: int| 0 <= i < l.len() && (#[trigger] l[i]).id@ == id && l[i].package@ == package
}

/// An advisory list sorted strictly by (id, package), hence duplicate-free.
pub open spec fn spec_affs_sorted(l: Seq<Affected>) -> bool {
    forall|i: int, j: int| 0 <= i < j < l.len() ==> spec_aff_lt(#[trigger] l[i], #[trigger] l[j])
}

/// Exactly one of `a < b`, `b < a`, same-key holds.
proof fn lemma_aff_trichotomy(a: Affected, b: Affected)
    ensures
        spec_aff_lt(a, b) || spec_aff_lt(b, a) || spec_aff_same(a, b),
        spec_aff_lt(a, b) ==> !spec_aff_lt(b, a) && !spec_aff_same(a, b),
        spec_aff_lt(b, a) ==> !spec_aff_lt(a, b) && !spec_aff_same(a, b),
{
    lemma_str_lt_trichotomy(a.id@, b.id@);
    lemma_str_lt_trichotomy(a.package@, b.package@);
}

/// The advisory order is transitive.
proof fn lemma_aff_trans(a: Affected, b: Affected, c: Affected)
    requires
        spec_aff_lt(a, b),
        spec_aff_lt(b, c),
    ensures
        spec_aff_lt(a, c),
{
    lemma_str_lt_trichotomy(a.id@, b.id@);
    lemma_str_lt_trichotomy(b.id@, c.id@);
    if spec_str_lt(a.id@, b.id@) && spec_str_lt(b.id@, c.id@) {
        lemma_str_lt_trans(a.id@, b.id@, c.id@);
    } else if a.id@ == b.id@ && b.id@ == c.id@ {
        lemma_str_lt_trans(a.package@, b.package@, c.package@);
    }
}

/// Runtime comparison in the advisory order.
fn aff_lt(x: &Affected, y: &Affected) -> (r: bool)
    ensures
        r == spec_aff_lt(*x, *y),
{
    str_lt(x.id.as_str(), y.id.as_str()) || (str_eq(x.id.as_str(), y.id.as_str()) && str_lt(
        x.package.as_str(),
        y.package.as_str(),
    ))
}

/// Insert an advisory into a sorted list, keeping it sorted and distinct;
/// a record with the same id and package is already there and nothing
/// changes.
fn insert_affected(l: &mut Vec<Affected>, a: Affected)
    requires
        spec_affs_sorted(old(l)@),
    ensures
        spec_affs_sorted(final(l)@),
        spec_affs_contain(final(l)@, a.id@, a.package@),
        forall|id: Seq<char>, pk: Seq<char>|
            spec_affs_contain(old(l)@, id, pk) ==> spec_affs_contain(final(l)@, id, pk),
        forall|id: Seq<char>, pk: Seq<char>|
            spec_affs_contain(final(l)@, id, pk) ==> (id == a.id@ && pk == a.package@)
                || spec_affs_contain(old(l)@, id, pk),
{
    let mut i: usize = 0;
    while i < l.len() && aff_lt(&l[i], &a)
        invariant
            i <= l@.len(),
            *l == *old(l),
            spec_affs_sorted(old(l)@),
            forall|j: int| 0 <= j < i ==> spec_aff_lt(#[trigger] l@[j], a),
        decreases l@.len() - i,
    {
        i += 1;
    }
    if i < l.len() {
        if !aff_lt(&a, &l[i]) {
            proof {
                lemma_aff_trichotomy(l@[i as int], a);
                assert(spec_aff_same(l@[i as int], a));
                assert(spec_affs_contain(l@, a.id@, a.package@));
            }
            return ;
        }
    }
    l.insert(i, a);
    proof {
        let o = old(l)@;
        let n = l@;
        assert(n =~= o.insert(i as int, a));
        assert(n[i as int] == a);
        assert(spec_affs_contain(n, a.id@, a.package@));
        assert forall|id: Seq<char>, pk: Seq<char>|
            spec_affs_contain(o, id, pk) implies spec_affs_contain(n, id, pk) by {
            let w = choose|w: int| 0 <= w < o.len() && (#[trigger] o[w]).id@ == id && o[w].package@
                == pk;
            if w < i {
                assert(n[w] == o[w]);
            } else {
                assert(n[w + 1] == o[w]);
            }
        }
        assert forall|id: Seq<char>, pk: Seq<char>|
            spec_affs_contain(n, id, pk) implies (id == a.id@ && pk == a.package@)
            || spec_affs_contain(o, id, pk) by {
            let w = choose|w: int| 0 <= w < n.len() && (#[trigger] n[w]).id@ == id && n[w].package@
                == pk;
            if w < i {
                assert(o[w] == n[w]);
            } else if w > i {
                assert(o[w - 1] == n[w]);
            }
        }
        assert forall|x: int, y: int| 0 <= x < y < n.len() implies spec_aff_lt(
            #[trigger] n[x],
            #[trigger] n[y],
        ) by {
            if y < i {
            } else if x >= i + 1 {
                assert(n[x] == o[x - 1]);
                assert(n[y] == o[y - 1]);
            } else if y == i {
                assert(n[x] == o[x]);
            } else if x == i {
                assert(n[y] == o[y - 1]);
                if y - 1 > i {
                    lemma_aff_trans(a, o[i as int], o[y - 1]);
                }
            } else {
                assert(n[x] == o[x]);
                assert(n[y] == o[y - 1]);
            }
        }
    }
}

/// First-match lookup by function display name.
pub open spec fn spec_affected_lookup(
    recs: Seq<(Seq<char>, Seq<Affected>)>,
    name: Seq<char>,
) -> Option<Seq<Affected>>
    decreases recs.len(),
{
    if recs.len() == 0 {
        None
    } else if recs[0].0 == name {
        Some(recs[0].1)
    } else {
        spec_affected_lookup(recs.drop_first(), name)
    }
}

/// The index: function display name to the advisories affecting it, in
/// first-appearance order of the names.
pub struct Matcher {
    records: Vec<(String, Vec<Affected>)>,
}

impl Matcher {
    /// The records, in first-appearance order.
    pub closed spec fn records(&self) -> Seq<(Seq<char>, Seq<Affected>)> {
        Seq::new(self.records@.len(), |i: int| (self.records@[i].0@, self.records@[i].1@))
    }

    /// Keys are unique and every advisory list is sorted and distinct.
    pub open spec fn wf(&self) -> bool {
        &&& forall|i: int, j: int|
            0 <= i < j < self.records().len() ==> self.records()[i].0 != self.records()[j].0
        &&& forall|i: int|
            0 <= i < self.records().len() ==> spec_affs_sorted((#[trigger] self.records()[i]).1)
    }

    /// An empty index.
    pub fn new() -> (r: Matcher)
        ensures
            r.records() == Seq::<(Seq<char>, Seq<Affected>)>::empty(),
            r.wf(),
    {
        let records: Vec<(String, Vec<Affected>)> = Vec::new();
        let r = Matcher { records };
        proof {
            assert(r.records() =~= Seq::<(Seq<char>, Seq<Affected>)>::empty());
        }
        r
    }

    /// Record that the advisory `affected` names `function`: the function's
    /// sorted list gains the advisory (a duplicate id and package changes
    /// nothing), and every other function's list is untouched.
    pub fn add(&mut self, function: String, affected: Affected)
        requires
            old(self).wf(),
        ensures
            final(self).wf(),
            spec_affected_lookup(final(self).records(), function@) is Some,
            ({
                let l2 = spec_affected_lookup(final(self).records(), function@).unwrap();
                let l1 = match spec_affected_lookup(old(self).records(), function@) {
                    Some(l1) => l1,
                    None => Seq::<Affected>::empty(),
                };
                &&& spec_affs_contain(l2, affected.id@, affected.package@)
                &&& (forall|id: Seq<char>, pk: Seq<char>|
                    spec_affs_contain(l1, id, pk) ==> spec_affs_contain(l2, id, pk))
                &&& (forall|id: Seq<char>, pk: Seq<char>|
                    spec_affs_contain(l2, id, pk) ==> (id == affected.id@ && pk
                        == affected.package@) || spec_affs_contain(l1, id, pk))
            }),
            forall|d: Seq<char>|
                d != function@ ==> spec_affected_lookup(final(self).records(), d)
                    == spec_affected_lookup(old(self).records(), d),
    {
        let mut i: usize = 0;
        while i < self.records.len()
            invariant
                i <= self.records@.len(),
                self.records().len() == self.records@.len(),
                *self == *old(self),
                old(self).wf(),
                forall|j: int| 0 <= j < i ==> self.records()[j].0 != function@,
            decreases self.records@.len() - i,
        {
            proof {
                assert(self.records()[i as int].0 == self.records@[i as int].0@);
            }
            if str_eq(self.records[i].0.as_str(), function.as_str()) {
                proof {
                    assert(self.records()[i as int].1 == self.records@[i as int].1@);
                    assert(spec_affs_sorted(self.records@[i as int].1@));
                }
                let entry = &mut self.records[i];
                insert_affected(&mut entry.1, affected);
                proof {
                    let n = self.records();
                    let o = old(self).records();
                    assert(n.len() == o.len());
                    assert forall|k: int| 0 <= k < n.len() && k != i implies n[k] == o[k] by {}
                    assert(n[i as int].0 == o[i as int].0);
                    assert(n[i as int].1 == self.records@[i as int].1@);
                    lemma_affected_found(n, function@, i as int);
                    lemma_affected_found(o, function@, i as int);
                    assert forall|x: int, y: int| 0 <= x < y < n.len() implies n[x].0
                        != n[y].0 by {
                        assert(n[x].0 == o[x].0);
                        assert(n[y].0 == o[y].0);
                    }
                    assert forall|k: int| 0 <= k < n.len() implies spec_affs_sorted(
                        (#[trigger] n[k]).1,
                    ) by {
                        if k != i {
                            assert(n[k] == o[k]);
                        }
                    }
                    assert forall|d: Seq<char>| d != function@ implies spec_affected_lookup(n, d)
                        == spec_affected_lookup(o, d) by {
                        lemma_affected_update_other(o, i as int, n[i as int].1, d);
                        assert(n =~= o.update(i as int, (o[i as int].0, n[i as int].1)));
                    }
                }
                return ;
            }
            i += 1;
        }
        let mut l: Vec<Affected> = Vec::new();
        l.push(affected);
        self.records.push((function, l));
        proof {
            let n = self.records();
            let o = old(self).records();
            assert(n.len() == o.len() + 1);
            assert forall|k: int| 0 <= k < o.len() implies n[k] == o[k] by {}
            assert(n[o.len() as int].1.len() == 1);
            assert(spec_affs_contain(
                n[o.len() as int].1,
                n[o.len() as int].1[0].id@,
                n[o.len() as int].1[0].package@,
            ));
            assert forall|id: Seq<char>, pk: Seq<char>|
                spec_affs_contain(n[o.len() as int].1, id, pk) implies (id == n[
                o.len() as int
            ].1[0].id@ && pk == n[o.len() as int].1[0].package@) by {
                let w = choose|w: int|
                    0 <= w < n[o.len() as int].1.len() && (#[trigger] n[o.len() as int].1[w]).id@
                        == id && n[o.len() as int].1[w].package@ == pk;
            }
            lemma_affected_found(n, n[o.len() as int].0, o.len() as int);
            lemma_affected_absent(o, n[o.len() as int].0);
            assert forall|x: int, y: int| 0 <= x < y < n.len() implies n[x].0 != n[y].0 by {
                if y < o.len() {
                    assert(n[x].0 == o[x].0);
                    assert(n[y].0 == o[y].0);
                } else {
                    assert(n[x].0 == o[x].0);
                }
            }
            assert forall|k: int| 0 <= k < n.len() implies spec_affs_sorted(
                (#[trigger] n[k]).1,
            ) by {
                if k < o.len() {
                    assert(n[k] == o[k]);
                }
            }
            assert forall|d: Seq<char>| d != function@ implies spec_affected_lookup(n, d)
                == spec_affected_lookup(o, d) by {
                lemma_affected_push_other(o, n[o.len() as int], d);
                assert(n =~= o.push(n[o.len() as int]));
            }
        }
    }

    /// The advisories recorded for `function`, if any: distinct, ascending
    /// by id then package when the index is well formed.
    pub fn iter_advisories_for_function(&self, function: &str) -> (r: Option<&Vec<Affected>>)
        ensures
            match r {
                Some(l) => spec_affected_lookup(self.records(), function@) == Some(l@) && (self.wf()
                    ==> spec_affs_sorted(l@)),
                None => spec_affected_lookup(self.records(), function@) is None,
            },
    {
        let mut i: usize = 0;
        while i < self.records.len()
            invariant
                i <= self.records@.len(),
                self.records().len() == self.records@.len(),
                forall|j: int| 0 <= j < i ==> self.records()[j].0 != function@,
            decreases self.records@.len() - i,
        {
            proof {
                assert(self.records()[i as int].0 == self.records@[i as int].0@);
            }
            if str_eq(self.records[i].0.as_str(), function) {
                proof {
                    lemma_affected_found(self.records(), function@, i as int);
                    assert(self.records()[i as int].1 == self.records@[i as int].1@);
                }
                return Some(&self.records[i].1);
            }
            i += 1;
        }
        proof {
            lemma_affected_absent(self.records(), function@);
        }
        None
    }
}

/// A first match at `k` is what lookup finds.
proof fn lemma_affected_found(recs: Seq<(Seq<char>, Seq<Affected>)>, name: Seq<char>, k: int)
    requires
        0 <= k < recs.len(),
        recs[k].0 == name,
        forall|j: int| 0 <= j < k ==> recs[j].0 != name,
    ensures
        spec_affected_lookup(recs, name) == Some(recs[k].1),
    decreases k,
{
    if k > 0 {
        assert forall|j: int| 0 <= j < k - 1 implies recs.drop_first()[j].0 != name by {
            assert(recs.drop_first()[j] == recs[j + 1]);
        }
        assert(recs.drop_first()[k - 1] == recs[k]);
        lemma_affected_found(recs.drop_first(), name, k - 1);
    }
}

/// A name out of every record is absent.
proof fn lemma_affected_absent(recs: Seq<(Seq<char>, Seq<Affected>)>, name: Seq<char>)
    requires
        forall|j: int| 0 <= j < recs.len() ==> recs[j].0 != name,
    ensures
        spec_affected_lookup(recs, name) is None,
    decreases recs.len(),
{
    if recs.len() > 0 {
        assert forall|j: int| 0 <= j < recs.drop_first().len() implies recs.drop_first()[j].0
            != name by {
            assert(recs.drop_first()[j] == recs[j + 1]);
        }
        lemma_affected_absent(recs.drop_first(), name);
    }
}

/// Updating record `k`'s list leaves other names' lookups alone.
proof fn lemma_affected_update_other(
    recs: Seq<(Seq<char>, Seq<Affected>)>,
    k: int,
    l: Seq<Affected>,
    d: Seq<char>,
)
    requires
        0 <= k < recs.len(),
        d != recs[k].0,
    ensures
        spec_affected_lookup(recs.update(k, (recs[k].0, l)), d) == spec_affected_lookup(recs, d),
    decreases k,
{
    let upd = recs.update(k, (recs[k].0, l));
    if k == 0 {
        assert(upd.drop_first() =~= recs.drop_first());
    } else {
        assert(upd[0] == recs[0]);
        assert(upd.drop_first() =~= recs.drop_first().update(k - 1, (recs[k].0, l)));
        assert(recs.drop_first()[k - 1] == recs[k]);
        lemma_affected_update_other(recs.drop_first(), k - 1, l, d);
    }
}

/// Appending a record leaves other names' lookups alone.
proof fn lemma_affected_push_other(
    recs: Seq<(Seq<char>, Seq<Affected>)>,
    rec: (Seq<char>, Seq<Affected>),
    d: Seq<char>,
)
    requires
        d != rec.0,
    ensures
        spec_affected_lookup(recs.push(rec), d) == spec_affected_lookup(recs, d),
    decreases recs.len(),
{
    let n = recs.push(rec);
    if recs.len() == 0 {
        assert(n[0] == rec);
        assert(n.drop_first() =~= Seq::<(Seq<char>, Seq<Affected>)>::empty());
        lemma_affected_absent(n.drop_first(), d);
    } else {
        assert(n[0] == recs[0]);
        assert(n.drop_first() =~= recs.drop_first().push(rec));
        lemma_affected_push_other(recs.drop_first(), rec, d);
    }
}

} // verus!
