//! The function-capability dictionary: a table from display name to the
//! capabilities (and syscalls) known to be exercised by that function,
//! supplied out-of-band and used to seed direct capabilities.
use vstd::prelude::*;

use crate::capmap::CapSet;
use crate::strset::StrSet;
use crate::text::str_eq;

verus! {

/// What the dictionary knows about one function: the capabilities it
/// exercises and the syscalls it issues.
pub struct Function {
    pub caps: CapSet,
    pub syscalls: StrSet,
}

impl Function {
    /// Both ordered containers are well formed.
    pub open spec fn wf(&self) -> bool {
        self.caps.wf() && self.syscalls.wf()
    }
}

/// First-match lookup by display name.
pub open spec fn spec_dict_lookup(recs: Seq<(Seq<char>, Function)>, name: Seq<char>) -> Option<
    Function,
>
    decreases recs.len(),
{
    if recs.len() == 0 {
        None
    } else if recs[0].0 == name {
        Some(recs[0].1)
    } else {
        spec_dict_lookup(recs.drop_first(), name)
    }
}

/// The dictionary: display name to `Function`, unique keys.
pub struct FunctionCaps {
    records: Vec<(String, Function)>,
}

impl FunctionCaps {
    /// The records, in insertion order.
    pub closed spec fn records(&self) -> Seq<(Seq<char>, Function)> {
        Seq::new(self.records@.len(), |i: int| (self.records@[i].0@, self.records@[i].1))
    }

    /// Keys are unique and every entry is well formed.
    pub open spec fn wf(&self) -> bool {
        &&& forall|i: int, j: int|
            0 <= i < j < self.records().len() ==> self.records()[i].0 != self.records()[j].0
        &&& forall|i: int| 0 <= i < self.records().len() ==> (#[trigger] self.records()[i].1).wf()
    }

    /// An empty dictionary.
    pub fn new() -> (r: FunctionCaps)
        ensures
            r.records() == Seq::<(Seq<char>, Function)>::empty(),
            r.wf(),
    {
        let records: Vec<(String, Function)> = Vec::new();
        let r = FunctionCaps { records };
        proof {
            assert(r.records() =~= Seq::<(Seq<char>, Function)>::empty());
        }
        r
    }

    /// Record `entry` under `name`; an existing record for `name` is
    /// overwritten in place.
    pub fn insert(&mut self, name: String, entry: Function)
        requires
            old(self).wf(),
            entry.wf(),
        ensures
            final(self).wf(),
            spec_dict_lookup(final(self).records(), name@) == Some(entry),
            forall|d: Seq<char>|
                d != name@ ==> spec_dict_lookup(final(self).records(), d) == spec_dict_lookup(
                    old(self).records(),
                    d,
                ),
    {
        let mut i: usize = 0;
        while i < self.records.len()
            invariant
                i <= self.records().len(),
                self.records().len() == self.records@.len(),
                *self == *old(self),
                old(self).wf(),
                entry.wf(),
                forall|j: int| 0 <= j < i ==> self.records()[j].0 != name@,
            decreases self.records@.len() - i,
        {
            proof {
                assert(self.records()[i as int].0 == self.records@[i as int].0@);
            }
            if str_eq(self.records[i].0.as_str(), name.as_str()) {
                self.records[i] = (name, entry);
                proof {
                    let o = old(self).records();
                    let n = self.records();
                    assert(n =~= o.update(i as int, (o[i as int].0, entry)));
                    lemma_dict_found(o.update(i as int, (o[i as int].0, entry)), o[i as int].0, i as int);
                    assert forall|d: Seq<char>| d != o[i as int].0 implies spec_dict_lookup(n, d)
                        == spec_dict_lookup(o, d) by {
                        lemma_dict_update_other(o, i as int, entry, d);
                    }
                    assert forall|x: int, y: int| 0 <= x < y < n.len() implies n[x].0 != n[y].0 by {
                        assert(n[x].0 == o[x].0);
                        assert(n[y].0 == o[y].0);
                    }
                    assert forall|x: int| 0 <= x < n.len() implies (#[trigger] n[x].1).wf() by {
                        if x != i {
                            assert(n[x] == o[x]);
                        } else {
                            assert(n[x].1 == entry);
                        }
                    }
                }
                return ;
            }
            i += 1;
        }
        self.records.push((name, entry));
        proof {
            let o = old(self).records();
            let n = self.records();
            assert(n =~= o.push((name@, entry)));
            lemma_dict_found(n, name@, o.len() as int);
            assert forall|d: Seq<char>| d != name@ implies spec_dict_lookup(n, d)
                == spec_dict_lookup(o, d) by {
                lemma_dict_push_other(o, (name@, entry), d);
            }
            assert forall|x: int, y: int| 0 <= x < y < n.len() implies n[x].0 != n[y].0 by {
                if y < n.len() - 1 {
                    assert(n[x] == o[x]);
                    assert(n[y] == o[y]);
                } else {
                    assert(n[y].0 == name@);
                    assert(n[x] == o[x]);
                }
            }
            assert forall|x: int| 0 <= x < n.len() implies (#[trigger] n[x].1).wf() by {
                if x < n.len() - 1 {
                    assert(n[x] == o[x]);
                } else {
                    assert(n[x].1 == entry);
                }
            }
        }
    }

    /// The dictionary entry for `name`, if any.
    pub fn get(&self, name: &str) -> (r: Option<&Function>)
        ensures
            match r {
                Some(f) => spec_dict_lookup(self.records(), name@) == Some(*f) && (self.wf()
                    ==> f.wf()),
                None => spec_dict_lookup(self.records(), name@) is None,
            },
    {
        let mut i: usize = 0;
        while i < self.records.len()
            invariant
                i <= self.records().len(),
                self.records().len() == self.records@.len(),
                forall|j: int| 0 <= j < i ==> self.records()[j].0 != name@,
            decreases self.records@.len() - i,
        {
            proof {
                assert(self.records()[i as int].0 == self.records@[i as int].0@);
            }
            if str_eq(self.records[i].0.as_str(), name) {
                proof {
                    lemma_dict_found(self.records(), name@, i as int);
                }
                return Some(&self.records[i].1);
            }
            i += 1;
        }
        proof {
            lemma_dict_absent(self.records(), name@);
        }
        None
    }
}

/// A first match at `k` is what lookup finds.
proof fn lemma_dict_found(recs: Seq<(Seq<char>, Function)>, name: Seq<char>, k: int)
    requires
        0 <= k < recs.len(),
        recs[k].0 == name,
        forall|j: int| 0 <= j < k ==> recs[j].0 != name,
    ensures
        spec_dict_lookup(recs, name) == Some(recs[k].1),
    decreases k,
{
    if k > 0 {
        assert forall|j: int| 0 <= j < k - 1 implies recs.drop_first()[j].0 != name by {
            assert(recs.drop_first()[j] == recs[j + 1]);
        }
        assert(recs.drop_first()[k - 1] == recs[k]);
        lemma_dict_found(recs.drop_first(), name, k - 1);
    }
}

/// A name out of every record is absent.
proof fn lemma_dict_absent(recs: Seq<(Seq<char>, Function)>, name: Seq<char>)
    requires
        forall|j: int| 0 <= j < recs.len() ==> recs[j].0 != name,
    ensures
        spec_dict_lookup(recs, name) is None,
    decreases recs.len(),
{
    if recs.len() > 0 {
        assert forall|j: int| 0 <= j < recs.drop_first().len() implies recs.drop_first()[j].0
            != name by {
            assert(recs.drop_first()[j] == recs[j + 1]);
        }
        lemma_dict_absent(recs.drop_first(), name);
    }
}

/// Updating record `k`'s value leaves other names' lookups unchanged.
proof fn lemma_dict_update_other(
    recs: Seq<(Seq<char>, Function)>,
    k: int,
    entry: Function,
    d: Seq<char>,
)
    requires
        0 <= k < recs.len(),
        d != recs[k].0,
    ensures
        spec_dict_lookup(recs.update(k, (recs[k].0, entry)), d) == spec_dict_lookup(recs, d),
    decreases k,
{
    let upd = recs.update(k, (recs[k].0, entry));
    if k == 0 {
        assert(upd.drop_first() =~= recs.drop_first());
    } else {
        assert(upd[0] == recs[0]);
        assert(upd.drop_first() =~= recs.drop_first().update(k - 1, (recs[k].0, entry)));
        assert(recs.drop_first()[k - 1] == recs[k]);
        lemma_dict_update_other(recs.drop_first(), k - 1, entry, d);
    }
}

/// Appending a record leaves other names' lookups unchanged.
proof fn lemma_dict_push_other(
    recs: Seq<(Seq<char>, Function)>,
    rec: (Seq<char>, Function),
    d: Seq<char>,
)
    requires
        d != rec.0,
    ensures
        spec_dict_lookup(recs.push(rec), d) == spec_dict_lookup(recs, d),
    decreases recs.len(),
{
    let n = recs.push(rec);
    if recs.len() == 0 {
        assert(n[0] == rec);
        assert(n.drop_first() =~= Seq::<(Seq<char>, Function)>::empty());
        lemma_dict_absent(n.drop_first(), d);
        assert(spec_dict_lookup(n, d) is None);
        assert(spec_dict_lookup(recs, d) is None);
    } else {
        assert(n[0] == recs[0]);
        assert(n.drop_first() =~= recs.drop_first().push(rec));
        lemma_dict_push_other(recs.drop_first(), rec, d);
    }
}

} // verus!
