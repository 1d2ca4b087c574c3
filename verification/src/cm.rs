//! The capability-map (`cm`) text format: a line-oriented table mapping a
//! key to one or more capabilities. Records are whitespace-separated fields;
//! blank lines and lines whose first non-whitespace character is `#` are
//! skipped; a duplicate key overwrites the earlier record's values while
//! keeping its position.
use vstd::prelude::*;

use crate::caps::{spec_cap_parse, Capability};
use crate::text::{
    first_idx, is_ws, lemma_first_idx_props, lemma_first_idx_unique, spec_fields, spec_lines,
    split_lines, split_ws_fields, str_eq, ws_char,
};

verus! {

/// A parse failure, with its 1-based line number.
#[derive(Debug, Clone, PartialEq, Eq)]
pub enum Error {
    /// The record has fewer than two fields (a key plus at least one value).
    InsufficientFields { line: usize },
    /// A value field is not a recognized capability name; `value` holds the
    /// offending text and `field` its 1-based position after the key.
    Value { value: String, field: usize, line: usize },
}

/// The mathematical form of a parse failure.
pub enum SpecError {
    InsufficientFields { line: int },
    Value { value: Seq<char>, field: int, line: int },
}

impl View for Error {
    type V = SpecError;

    open spec fn view(&self) -> SpecError {
        match self {
            Error::InsufficientFields { line } => SpecError::InsufficientFields {
                line: *line as int,
            },
            Error::Value { value, field, line } => SpecError::Value {
                value: value@,
                field: *field as int,
                line: *line as int,
            },
        }
    }
}

/// A line is skipped when it is all whitespace or its first non-whitespace
/// character is `#`.
pub open spec fn line_skippable(l: Seq<char>) -> bool {
    let j = first_idx(l, |c: char| !is_ws(c));
    j == l.len() || l[j as int] == '#'
}

/// Parse the value fields of one record, 1-based from `field0`, failing on
/// the first field that is not a capability name.
pub open spec fn spec_parse_values(fields: Seq<Seq<char>>, line: int, field0: int) -> Result<
    Seq<Capability>,
    SpecError,
>
    decreases fields.len(),
{
    if fields.len() == 0 {
        Ok(Seq::empty())
    } else {
        match spec_cap_parse(fields[0]) {
            None => Err(SpecError::Value { value: fields[0], field: field0, line }),
            Some(c) => match spec_parse_values(fields.drop_first(), line, field0 + 1) {
                Ok(rest) => Ok(seq![c] + rest),
                Err(e) => Err(e),
            },
        }
    }
}

/// Insert `(key, vals)`: a record with the same key is overwritten in place,
/// otherwise the record is appended.
pub open spec fn spec_upsert(
    recs: Seq<(Seq<char>, Seq<Capability>)>,
    key: Seq<char>,
    vals: Seq<Capability>,
) -> Seq<(Seq<char>, Seq<Capability>)>
    decreases recs.len(),
{
    if recs.len() == 0 {
        seq![(key, vals)]
    } else if recs[0].0 == key {
        seq![(key, vals)] + recs.drop_first()
    } else {
        seq![recs[0]] + spec_upsert(recs.drop_first(), key, vals)
    }
}

/// The values of the record keyed `key`, if one exists.
pub open spec fn spec_lookup(recs: Seq<(Seq<char>, Seq<Capability>)>, key: Seq<char>) -> Option<
    Seq<Capability>,
>
    decreases recs.len(),
{
    if recs.len() == 0 {
        None
    } else if recs[0].0 == key {
        Some(recs[0].1)
    } else {
        spec_lookup(recs.drop_first(), key)
    }
}

/// Parse lines starting at 1-based number `lineno`, accumulating into `acc`.
pub open spec fn spec_parse_doc(
    lines: Seq<Seq<char>>,
    lineno: int,
    acc: Seq<(Seq<char>, Seq<Capability>)>,
) -> Result<Seq<(Seq<char>, Seq<Capability>)>, SpecError>
    decreases lines.len(),
{
    if lines.len() == 0 {
        Ok(acc)
    } else {
        let l = lines[0];
        if line_skippable(l) {
            spec_parse_doc(lines.drop_first(), lineno + 1, acc)
        } else {
            let fields = spec_fields(l);
            if fields.len() < 2 {
                Err(SpecError::InsufficientFields { line: lineno })
            } else {
                match spec_parse_values(fields.drop_first(), lineno, 1) {
                    Err(e) => Err(e),
                    Ok(vals) => spec_parse_doc(
                        lines.drop_first(),
                        lineno + 1,
                        spec_upsert(acc, fields[0], vals),
                    ),
                }
            }
        }
    }
}

/// The document a `cm` text parses to, or its first error.
pub open spec fn spec_parse_document(input: Seq<char>) -> Result<
    Seq<(Seq<char>, Seq<Capability>)>,
    SpecError,
> {
    spec_parse_doc(spec_lines(input), 1, Seq::empty())
}

/// An ordered list of `(key, capabilities)` records with unique keys,
/// preserving first-appearance order.
#[derive(Debug)]
pub struct Document {
    records: Vec<(String, Vec<Capability>)>,
}

impl View for Document {
    type V = Seq<(Seq<char>, Seq<Capability>)>;

    closed spec fn view(&self) -> Seq<(Seq<char>, Seq<Capability>)> {
        self.records.deep_view()
    }
}

impl Document {
    /// Parse a whole `cm` text. The result is exactly what
    /// `spec_parse_document` describes: records in first-appearance order,
    /// duplicates overwritten, or the first error with its 1-based line.
    /// A parsed document is always well formed.
    pub fn from_reader(input: &str) -> (r: Result<Document, Error>)
        ensures
            match r {
                Ok(d) => spec_parse_document(input@) == Ok::<_, SpecError>(d@) && spec_doc_wf(d@),
                Err(e) => spec_parse_document(input@) == Err::<Seq<(Seq<char>, Seq<Capability>)>, _>(
                    e@,
                ),
            },
    {
        proof {
            lemma_parsed_doc_wf(input@);
        }
        let lines = split_lines(input);
        let mut records: Vec<(String, Vec<Capability>)> = Vec::new();
        let mut idx: usize = 0;
        proof {
            assert(records.deep_view() =~= Seq::<(Seq<char>, Seq<Capability>)>::empty());
            assert(lines.deep_view().skip(0) =~= lines.deep_view());
        }
        while idx < lines.len()
            invariant
                idx <= lines.len(),
                lines.deep_view() == spec_lines(input@),
                lines.deep_view().len() == lines@.len(),
                spec_parse_document(input@) == spec_parse_doc(
                    lines.deep_view().skip(idx as int),
                    idx + 1,
                    records.deep_view(),
                ),
            decreases lines.len() - idx,
        {
            let line: &String = &lines[idx];
            proof {
                assert(lines.deep_view()[idx as int] == line@);
                assert(lines.deep_view().skip(idx as int)[0] == line@);
                assert(lines.deep_view().skip(idx as int).drop_first() =~= lines.deep_view().skip(
                    idx as int + 1,
                ));
            }
            if line_is_skippable(line.as_str()) {
                idx += 1;
                continue;
            }
            let fields = split_ws_fields(line.as_str());
            proof {
                assert(fields.deep_view().len() == fields@.len());
            }
            if fields.len() < 2 {
                return Err(Error::InsufficientFields { line: idx + 1 });
            }
            let vals = match parse_values(&fields, idx + 1) {
                Ok(vals) => vals,
                Err(e) => {
                    return Err(e);
                },
            };
            let key = fields[0].clone();
            upsert_record(&mut records, key, vals);
            idx += 1;
        }
        proof {
            assert(lines.deep_view().skip(idx as int) =~= Seq::<Seq<char>>::empty());
        }
        Ok(Document { records })
    }

    /// The number of records.
    pub fn len(&self) -> (r: usize)
        ensures
            r == self@.len(),
    {
        self.records.len()
    }

    /// The record at position `i`, in first-appearance order.
    pub fn record_at(&self, i: usize) -> (r: &(String, Vec<Capability>))
        requires
            i < self@.len(),
        ensures
            r.deep_view() == self@[i as int],
    {
        &self.records[i]
    }

    /// Indexed lookup: the values of the record keyed `key`, if any.
    pub fn get(&self, key: &str) -> (r: Option<&Vec<Capability>>)
        ensures
            match r {
                Some(vals) => spec_lookup(self@, key@) == Some(vals@),
                None => spec_lookup(self@, key@) is None,
            },
    {
        let mut i: usize = 0;
        while i < self.records.len()
            invariant
                i <= self.records.len(),
                forall|j: int| 0 <= j < i ==> self@[j].0 != key@,
            decreases self.records.len() - i,
        {
            if str_eq(self.records[i].0.as_str(), key) {
                proof {
                    lemma_lookup_found(self@, key@, i as int);
                }
                return Some(&self.records[i].1);
            }
            i += 1;
        }
        proof {
            lemma_lookup_absent(self@, key@);
        }
        None
    }
}

/// The rendering of a record's values: one leading space before each
/// capability's canonical name.
pub open spec fn spec_render_vals(vals: Seq<Capability>) -> Seq<char>
    decreases vals.len(),
{
    if vals.len() == 0 {
        Seq::empty()
    } else {
        " "@ + crate::caps::spec_cap_name(vals[0]) + spec_render_vals(vals.drop_first())
    }
}

/// The rendering of one record: its key, its values, and a newline.
pub open spec fn spec_render_record(rec: (Seq<char>, Seq<Capability>)) -> Seq<char> {
    rec.0 + spec_render_vals(rec.1) + "\n"@
}

/// The rendering of a document: its records' lines in order.
pub open spec fn spec_render(records: Seq<(Seq<char>, Seq<Capability>)>) -> Seq<char>
    decreases records.len(),
{
    if records.len() == 0 {
        Seq::empty()
    } else {
        spec_render_record(records[0]) + spec_render(records.drop_first())
    }
}

/// A well-formed document: every key is non-empty, free of whitespace, and
/// does not open a comment; every record has at least one value; and keys
/// are unique.
pub open spec fn spec_doc_wf(records: Seq<(Seq<char>, Seq<Capability>)>) -> bool {
    &&& forall|k: int|
        0 <= k < records.len() ==> {
            let key = (#[trigger] records[k]).0;
            &&& key.len() > 0
            &&& (forall|i: int| 0 <= i < key.len() ==> !is_ws(#[trigger] key[i]))
            &&& key[0] != '#'
            &&& records[k].1.len() >= 1
        }
    &&& forall|i: int, j: int| 0 <= i < j < records.len() ==> records[i].0 != records[j].0
}

/// A well-formed field: non-empty and free of whitespace.
pub open spec fn spec_field_wf(f: Seq<char>) -> bool {
    f.len() > 0 && forall|i: int| 0 <= i < f.len() ==> !is_ws(#[trigger] f[i])
}

/// Every whitespace-separated field is non-empty and free of whitespace.
proof fn lemma_fields_props(s: Seq<char>)
    ensures
        forall|k: int| 0 <= k < spec_fields(s).len() ==> spec_field_wf(#[trigger] spec_fields(s)[k]),
    decreases s.len(),
{
    if s.len() == 0 {
    } else if is_ws(s[0]) {
        lemma_fields_props(s.drop_first());
        assert forall|k: int|
            0 <= k < spec_fields(s).len() implies spec_field_wf(#[trigger] spec_fields(s)[k]) by {
            assert(spec_fields(s)[k] == spec_fields(s.drop_first())[k]);
        }
    } else {
        let j = first_idx(s, |c: char| is_ws(c));
        lemma_first_idx_props(s, |c: char| is_ws(c));
        lemma_fields_props(s.skip(j as int));
        assert(spec_field_wf(s.take(j as int))) by {
            assert forall|i: int| 0 <= i < j implies !is_ws(s.take(j as int)[i]) by {
                assert(s.take(j as int)[i] == s[i]);
            }
        }
        assert forall|k: int|
            0 <= k < spec_fields(s).len() implies spec_field_wf(#[trigger] spec_fields(s)[k]) by {
            if k > 0 {
                assert(spec_fields(s)[k] == spec_fields(s.skip(j as int))[k - 1]);
            }
        }
    }
}

/// A line that is not skipped puts its first non-whitespace character at
/// the head of its first field.
proof fn lemma_first_field_head(s: Seq<char>)
    requires
        first_idx(s, |c: char| !is_ws(c)) < s.len(),
    ensures
        spec_fields(s).len() > 0,
        spec_fields(s)[0].len() > 0,
        spec_fields(s)[0][0] == s[first_idx(s, |c: char| !is_ws(c)) as int],
    decreases s.len(),
{
    let p = |c: char| !is_ws(c);
    if is_ws(s[0]) {
        assert(first_idx(s, p) == 1 + first_idx(s.drop_first(), p));
        lemma_first_field_head(s.drop_first());
        assert(s.drop_first()[first_idx(s.drop_first(), p) as int] == s[first_idx(s, p) as int]);
    } else {
        assert(first_idx(s, p) == 0);
        let j = first_idx(s, |c: char| is_ws(c));
        lemma_first_idx_props(s, |c: char| is_ws(c));
        assert(spec_fields(s)[0] == s.take(j as int));
        assert(s.take(j as int)[0] == s[0]);
    }
}

/// A successful value parse yields one capability per field.
proof fn lemma_parse_values_len(fields: Seq<Seq<char>>, line: int, field0: int)
    ensures
        spec_parse_values(fields, line, field0) matches Ok(vals) ==> vals.len() == fields.len(),
    decreases fields.len(),
{
    if fields.len() > 0 {
        lemma_parse_values_len(fields.drop_first(), line, field0 + 1);
    }
}

/// Upserting a well-formed record into a well-formed document keeps it
/// well formed.
proof fn lemma_upsert_wf(
    recs: Seq<(Seq<char>, Seq<Capability>)>,
    key: Seq<char>,
    vals: Seq<Capability>,
)
    requires
        spec_doc_wf(recs),
        spec_field_wf(key),
        key[0] != '#',
        vals.len() >= 1,
    ensures
        spec_doc_wf(spec_upsert(recs, key, vals)),
        forall|x: int|
            0 <= x < spec_upsert(recs, key, vals).len() ==> (#[trigger] spec_upsert(
                recs,
                key,
                vals,
            )[x]).0 == key || exists|y: int|
                0 <= y < recs.len() && (#[trigger] recs[y]).0 == spec_upsert(recs, key, vals)[x].0,
    decreases recs.len(),
{
    let u = spec_upsert(recs, key, vals);
    if recs.len() == 0 {
        assert(u =~= seq![(key, vals)]);
        assert(spec_doc_wf(u));
    } else if recs[0].0 == key {
        assert(u =~= seq![(key, vals)] + recs.drop_first());
        assert forall|k: int| 0 <= k < u.len() implies {
            let k2 = (#[trigger] u[k]).0;
            &&& k2.len() > 0
            &&& (forall|i: int| 0 <= i < k2.len() ==> !is_ws(#[trigger] k2[i]))
            &&& k2[0] != '#'
            &&& u[k].1.len() >= 1
        } by {
            if k > 0 {
                assert(u[k] == recs[k]);
            }
        }
        assert forall|i: int, j: int| 0 <= i < j < u.len() implies u[i].0 != u[j].0 by {
            if i > 0 {
                assert(u[i] == recs[i]);
                assert(u[j] == recs[j]);
            } else {
                assert(u[j] == recs[j]);
            }
        }
    } else {
        assert forall|k: int| 0 <= k < recs.drop_first().len() implies {
            let k2 = (#[trigger] recs.drop_first()[k]).0;
            &&& k2.len() > 0
            &&& (forall|i: int| 0 <= i < k2.len() ==> !is_ws(#[trigger] k2[i]))
            &&& k2[0] != '#'
            &&& recs.drop_first()[k].1.len() >= 1
        } by {
            assert(recs.drop_first()[k] == recs[k + 1]);
        }
        assert forall|i: int, j: int|
            0 <= i < j < recs.drop_first().len() implies recs.drop_first()[i].0
            != recs.drop_first()[j].0 by {
            assert(recs.drop_first()[i] == recs[i + 1]);
            assert(recs.drop_first()[j] == recs[j + 1]);
        }
        lemma_upsert_wf(recs.drop_first(), key, vals);
        let ur = spec_upsert(recs.drop_first(), key, vals);
        assert(u =~= seq![recs[0]] + ur);
        assert forall|k: int| 0 <= k < u.len() implies {
            let k2 = (#[trigger] u[k]).0;
            &&& k2.len() > 0
            &&& (forall|i: int| 0 <= i < k2.len() ==> !is_ws(#[trigger] k2[i]))
            &&& k2[0] != '#'
            &&& u[k].1.len() >= 1
        } by {
            if k > 0 {
                assert(u[k] == ur[k - 1]);
            }
        }
        assert forall|i: int, j: int| 0 <= i < j < u.len() implies u[i].0 != u[j].0 by {
            if i == 0 {
                assert(u[j] == ur[j - 1]);
                if ur[j - 1].0 == key {
                } else {
                    let y = choose|y: int|
                        0 <= y < recs.drop_first().len() && (#[trigger] recs.drop_first()[y]).0
                            == ur[j - 1].0;
                    assert(recs.drop_first()[y] == recs[y + 1]);
                }
            } else {
                assert(u[i] == ur[i - 1]);
                assert(u[j] == ur[j - 1]);
            }
        }
        assert forall|x: int| 0 <= x < u.len() implies (#[trigger] u[x]).0 == key || exists|y: int|
            0 <= y < recs.len() && (#[trigger] recs[y]).0 == u[x].0 by {
            if x == 0 {
                assert(recs[0].0 == u[0].0);
            } else {
                assert(u[x] == ur[x - 1]);
                if ur[x - 1].0 != key {
                    let y = choose|y: int|
                        0 <= y < recs.drop_first().len() && (#[trigger] recs.drop_first()[y]).0
                            == ur[x - 1].0;
                    assert(recs[y + 1].0 == u[x].0);
                }
            }
        }
    }
}

/// Whatever a parse accumulates from a well-formed accumulator stays well
/// formed: keys are fields of unskipped lines, so they are non-empty,
/// whitespace-free, and never open a comment.
proof fn lemma_parse_doc_wf(lines: Seq<Seq<char>>, lineno: int, acc: Seq<(Seq<char>, Seq<
    Capability,
>)>)
    requires
        spec_doc_wf(acc),
    ensures
        spec_parse_doc(lines, lineno, acc) matches Ok(d) ==> spec_doc_wf(d),
    decreases lines.len(),
{
    if lines.len() > 0 {
        let l = lines[0];
        if line_skippable(l) {
            lemma_parse_doc_wf(lines.drop_first(), lineno + 1, acc);
        } else {
            let fields = spec_fields(l);
            if fields.len() >= 2 {
                match spec_parse_values(fields.drop_first(), lineno, 1) {
                    Err(_) => {
                    },
                    Ok(vals) => {
                        lemma_fields_props(l);
                        assert(spec_field_wf(fields[0]));
                        lemma_first_idx_props(l, |c: char| !is_ws(c));
                        lemma_first_field_head(l);
                        assert(fields[0][0] != '#');
                        lemma_parse_values_len(fields.drop_first(), lineno, 1);
                        assert(vals.len() >= 1);
                        lemma_upsert_wf(acc, fields[0], vals);
                        lemma_parse_doc_wf(
                            lines.drop_first(),
                            lineno + 1,
                            spec_upsert(acc, fields[0], vals),
                        );
                    },
                }
            }
        }
    }
}

/// Any successfully parsed document is well formed.
pub proof fn lemma_parsed_doc_wf(input: Seq<char>)
    ensures
        spec_parse_document(input) matches Ok(d) ==> spec_doc_wf(d),
{
    lemma_parse_doc_wf(spec_lines(input), 1, Seq::empty());
}

/// Rendering one more value appends a space and its name.
proof fn lemma_render_vals_snoc(vals: Seq<Capability>, c: Capability)
    ensures
        spec_render_vals(vals.push(c)) == spec_render_vals(vals) + " "@ + crate::caps::spec_cap_name(
            c,
        ),
    decreases vals.len(),
{
    let n = vals.push(c);
    if vals.len() == 0 {
        assert(n[0] == c);
        assert(n.drop_first() =~= vals);
        assert(spec_render_vals(vals) == Seq::<char>::empty());
        assert(spec_render_vals(n) == " "@ + crate::caps::spec_cap_name(c) + spec_render_vals(
            vals,
        ));
        assert(spec_render_vals(n) =~= spec_render_vals(vals) + " "@
            + crate::caps::spec_cap_name(c));
    } else {
        assert(n[0] == vals[0]);
        assert(n.drop_first() =~= vals.drop_first().push(c));
        lemma_render_vals_snoc(vals.drop_first(), c);
        assert(spec_render_vals(n) == " "@ + crate::caps::spec_cap_name(n[0]) + spec_render_vals(
            n.drop_first(),
        ));
        assert(spec_render_vals(n.drop_first()) == spec_render_vals(vals.drop_first()) + " "@
            + crate::caps::spec_cap_name(c));
        assert(spec_render_vals(vals) == " "@ + crate::caps::spec_cap_name(vals[0])
            + spec_render_vals(vals.drop_first()));
        let p = " "@ + crate::caps::spec_cap_name(vals[0]);
        let q = spec_render_vals(vals.drop_first());
        let w = crate::caps::spec_cap_name(c);
        assert(p + (q + " "@ + w) =~= ((p + q) + " "@) + w);
        assert(spec_render_vals(n) == p + (q + " "@ + w));
        assert(spec_render_vals(vals) + " "@ + crate::caps::spec_cap_name(c) == ((p + q) + " "@)
            + w);
    }
}

/// Rendering one more record appends its line.
proof fn lemma_render_snoc(records: Seq<(Seq<char>, Seq<Capability>)>, rec: (Seq<char>, Seq<
    Capability,
>))
    ensures
        spec_render(records.push(rec)) == spec_render(records) + spec_render_record(rec),
    decreases records.len(),
{
    let n = records.push(rec);
    if records.len() == 0 {
        assert(n[0] == rec);
        assert(n.drop_first() =~= records);
        assert(spec_render(records) == Seq::<char>::empty());
        assert(spec_render(n) == spec_render_record(rec) + spec_render(records));
        assert(spec_render(n) =~= spec_render(records) + spec_render_record(rec));
    } else {
        assert(n[0] == records[0]);
        assert(n.drop_first() =~= records.drop_first().push(rec));
        lemma_render_snoc(records.drop_first(), rec);
        assert(spec_render(n) == spec_render_record(n[0]) + spec_render(n.drop_first()));
        assert(spec_render(n.drop_first()) == spec_render(records.drop_first())
            + spec_render_record(rec));
        assert(spec_render(records) == spec_render_record(records[0]) + spec_render(
            records.drop_first(),
        ));
        let a = spec_render_record(records[0]);
        let b = spec_render(records.drop_first());
        let c2 = spec_render_record(rec);
        assert(a + (b + c2) =~= (a + b) + c2);
        assert(spec_render(n) == a + (b + c2));
        assert(spec_render(records) + spec_render_record(rec) == (a + b) + c2);
    }
}

impl Document {
    /// Render the document back to `cm` text: one line per record, fields
    /// separated by single spaces.
    pub fn render(&self) -> (r: String)
        ensures
            r@ == spec_render(self@),
    {
        let mut r = String::new();
        let n = self.records.len();
        let mut i: usize = 0;
        proof {
            assert(self@.take(0) =~= Seq::<(Seq<char>, Seq<Capability>)>::empty());
            assert(r@ =~= spec_render(self@.take(0)));
            assert(self@.len() == self.records@.len());
        }
        while i < n
            invariant
                i <= n,
                n == self.records@.len(),
                self@.len() == n,
                r@ == spec_render(self@.take(i as int)),
            decreases n - i,
        {
            proof {
                assert(self@[i as int] == (self.records@[i as int].0@, self.records@[
                    i as int
                ].1.deep_view()));
            }
            let rec = &self.records[i];
            r.append(rec.0.as_str());
            let ghost key = self@[i as int].0;
            let ghost vals = self@[i as int].1;
            proof {
                assert(rec.1.deep_view() =~= rec.1@);
                assert(vals == rec.1@);
                assert(vals.take(0) =~= Seq::<Capability>::empty());
                assert(r@ =~= spec_render(self@.take(i as int)) + key + spec_render_vals(
                    vals.take(0),
                ));
            }
            let m = rec.1.len();
            let mut j: usize = 0;
            while j < m
                invariant
                    j <= m,
                    m == rec.1@.len(),
                    vals == rec.1@,
                    key == self@[i as int].0,
                    i < n,
                    n == self.records@.len(),
                    self@.len() == n,
                    rec == &self.records@[i as int],
                    r@ == spec_render(self@.take(i as int)) + key + spec_render_vals(
                        vals.take(j as int),
                    ),
                decreases m - j,
            {
                r.append(" ");
                r.append(rec.1[j].name());
                proof {
                    lemma_render_vals_snoc(vals.take(j as int), vals[j as int]);
                    assert(vals.take(j as int).push(vals[j as int]) =~= vals.take(j as int + 1));
                }
                j += 1;
            }
            r.append("\n");
            proof {
                assert(vals.take(m as int) =~= vals);
                lemma_render_snoc(self@.take(i as int), self@[i as int]);
                assert(self@.take(i as int).push(self@[i as int]) =~= self@.take(i as int + 1));
                assert(r@ =~= spec_render(self@.take(i as int + 1)));
            }
            i += 1;
        }
        proof {
            assert(self@.take(n as int) =~= self@);
        }
        r
    }
}

/// Canonical capability names are non-empty and free of whitespace.
proof fn lemma_cap_name_wf(c: Capability)
    ensures
        crate::caps::spec_cap_name(c).len() > 0,
        forall|i: int|
            0 <= i < crate::caps::spec_cap_name(c).len() ==> !is_ws(
                #[trigger] crate::caps::spec_cap_name(c)[i],
            ),
{
    reveal_strlit("CAPABILITY_UNSPECIFIED");
    reveal_strlit("CAPABILITY_SAFE");
    reveal_strlit("CAPABILITY_FILES");
    reveal_strlit("CAPABILITY_NETWORK");
    reveal_strlit("CAPABILITY_RUNTIME");
    reveal_strlit("CAPABILITY_READ_SYSTEM_STATE");
    reveal_strlit("CAPABILITY_MODIFY_SYSTEM_STATE");
    reveal_strlit("CAPABILITY_OPERATING_SYSTEM");
    reveal_strlit("CAPABILITY_SYSTEM_CALLS");
    reveal_strlit("CAPABILITY_ARBITRARY_EXECUTION");
    reveal_strlit("CAPABILITY_CGO");
    reveal_strlit("CAPABILITY_UNANALYZED");
    reveal_strlit("CAPABILITY_UNSAFE_POINTER");
    reveal_strlit("CAPABILITY_REFLECT");
    reveal_strlit("CAPABILITY_EXEC");
    reveal_strlit("CAPABILITY_DYNAMIC_LOADING");
    reveal_strlit("CAPABILITY_INSTRUMENTATION");
    reveal_strlit("CAPABILITY_NATIVE_CODE");
}

/// The characters of rendered values are spaces and name characters: never
/// a newline, and the last one is never whitespace.
proof fn lemma_render_vals_chars(vals: Seq<Capability>)
    ensures
        forall|i: int|
            0 <= i < spec_render_vals(vals).len() ==> (#[trigger] spec_render_vals(vals)[i]) == ' '
                || !is_ws(spec_render_vals(vals)[i]),
        vals.len() > 0 ==> spec_render_vals(vals).len() > 0 && !is_ws(
            spec_render_vals(vals).last(),
        ),
    decreases vals.len(),
{
    reveal_strlit(" ");
    if vals.len() > 0 {
        lemma_cap_name_wf(vals[0]);
        lemma_render_vals_chars(vals.drop_first());
        let n0 = crate::caps::spec_cap_name(vals[0]);
        let rest = spec_render_vals(vals.drop_first());
        let rv = spec_render_vals(vals);
        assert(rv == " "@ + n0 + rest);
        assert forall|i: int| 0 <= i < rv.len() implies (#[trigger] rv[i]) == ' ' || !is_ws(
            rv[i],
        ) by {
            if i == 0 {
                assert(rv[0] == " "@[0]);
            } else if i < 1 + n0.len() {
                assert(rv[i] == n0[i - 1]);
            } else {
                assert(rv[i] == rest[i - 1 - n0.len()]);
            }
        }
        if vals.drop_first().len() > 0 {
            assert(rv.last() == rest.last());
        } else {
            assert(rest =~= Seq::<char>::empty());
            assert(rv.last() == n0.last());
        }
    }
}

/// Splitting one rendered line off the front of remaining text.
proof fn lemma_lines_prepend(l: Seq<char>, tail: Seq<char>)
    requires
        forall|i: int| 0 <= i < l.len() ==> (#[trigger] l[i]) != '\n',
        l.len() == 0 || l.last() != '\r',
    ensures
        spec_lines(l + "\n"@ + tail) == seq![l] + spec_lines(tail),
{
    reveal_strlit("\n");
    let s = l + "\n"@ + tail;
    assert(s.len() == l.len() + 1 + tail.len());
    assert forall|i: int| 0 <= i < l.len() implies s[i] == l[i] by {}
    assert(s[l.len() as int] == '\n');
    lemma_first_idx_unique(s, |c: char| c == '\n', l.len() as int);
    assert(s.take(l.len() as int) =~= l);
    assert(crate::text::strip_cr(s.take(l.len() as int)) == l);
    assert(s.skip(l.len() as int + 1) =~= tail);
    assert(spec_lines(s) == seq![l] + spec_lines(tail)) by {
        assert(spec_lines(s) =~= seq![l] + spec_lines(tail));
    }
}

/// The fields of rendered values are exactly the capability names.
proof fn lemma_fields_render_vals(vals: Seq<Capability>)
    ensures
        spec_fields(spec_render_vals(vals)) == vals.map_values(
            |c: Capability| crate::caps::spec_cap_name(c),
        ),
    decreases vals.len(),
{
    reveal_strlit(" ");
    let f = |c: Capability| crate::caps::spec_cap_name(c);
    if vals.len() == 0 {
        assert(spec_fields(spec_render_vals(vals)) =~= vals.map_values(f));
    } else {
        lemma_cap_name_wf(vals[0]);
        lemma_render_vals_chars(vals.drop_first());
        let n0 = crate::caps::spec_cap_name(vals[0]);
        let rest = spec_render_vals(vals.drop_first());
        let rv = spec_render_vals(vals);
        assert(rv == " "@ + n0 + rest);
        assert(rv.len() > 0);
        assert(rv[0] == " "@[0]);
        assert(is_ws(rv[0]));
        crate::text::lemma_fields_skip_ws(rv);
        let t = n0 + rest;
        assert(rv.drop_first() =~= t);
        assert forall|i: int| 0 <= i < n0.len() implies !is_ws(t[i]) by {
            assert(t[i] == n0[i]);
        }
        if vals.drop_first().len() > 0 {
            assert(rest == " "@ + crate::caps::spec_cap_name(vals.drop_first()[0])
                + spec_render_vals(vals.drop_first().drop_first()));
            assert(t[n0.len() as int] == rest[0]);
            assert(rest[0] == ' ');
            assert(is_ws(t[n0.len() as int]));
        } else {
            assert(rest =~= Seq::<char>::empty());
            assert(t.len() == n0.len());
        }
        crate::text::lemma_fields_take_run(t, n0.len() as int);
        assert(t.take(n0.len() as int) =~= n0);
        assert(t.skip(n0.len() as int) =~= rest);
        lemma_fields_render_vals(vals.drop_first());
        assert(spec_fields(rv) == seq![n0] + vals.drop_first().map_values(f));
        assert(vals.map_values(f) =~= seq![n0] + vals.drop_first().map_values(f)) by {
            assert(vals.map_values(f).len() == vals.len());
            assert forall|i: int| 0 <= i < vals.len() implies vals.map_values(f)[i] == (seq![n0]
                + vals.drop_first().map_values(f))[i] by {
                if i > 0 {
                    assert(vals.drop_first().map_values(f)[i - 1] == f(vals.drop_first()[i - 1]));
                    assert(vals.drop_first()[i - 1] == vals[i]);
                }
            }
        }
    }
}

/// The fields of a rendered line are its key and the capability names.
proof fn lemma_fields_line(key: Seq<char>, vals: Seq<Capability>)
    requires
        key.len() > 0,
        forall|i: int| 0 <= i < key.len() ==> !is_ws(#[trigger] key[i]),
        vals.len() >= 1,
    ensures
        spec_fields(key + spec_render_vals(vals)) == seq![key] + vals.map_values(
            |c: Capability| crate::caps::spec_cap_name(c),
        ),
{
    reveal_strlit(" ");
    let rv = spec_render_vals(vals);
    let t = key + rv;
    assert(rv == " "@ + crate::caps::spec_cap_name(vals[0]) + spec_render_vals(vals.drop_first()));
    assert(rv[0] == ' ');
    assert forall|i: int| 0 <= i < key.len() implies !is_ws(t[i]) by {
        assert(t[i] == key[i]);
    }
    assert(t[key.len() as int] == rv[0]);
    assert(is_ws(t[key.len() as int]));
    crate::text::lemma_fields_take_run(t, key.len() as int);
    assert(t.take(key.len() as int) =~= key);
    assert(t.skip(key.len() as int) =~= rv);
    lemma_fields_render_vals(vals);
}

/// Parsing rendered capability names gives back the capabilities.
proof fn lemma_parse_names(vals: Seq<Capability>, lineno: int, field0: int)
    ensures
        spec_parse_values(
            vals.map_values(|c: Capability| crate::caps::spec_cap_name(c)),
            lineno,
            field0,
        ) == Ok::<_, SpecError>(vals),
    decreases vals.len(),
{
    let f = |c: Capability| crate::caps::spec_cap_name(c);
    let m = vals.map_values(f);
    if vals.len() == 0 {
        assert(m.len() == 0);
        assert(spec_parse_values(m, lineno, field0) == Ok::<_, SpecError>(Seq::<
            Capability,
        >::empty()));
        assert(vals =~= Seq::<Capability>::empty());
    } else {
        crate::caps::lemma_cap_name_round_trip(vals[0]);
        assert(m[0] == crate::caps::spec_cap_name(vals[0]));
        assert(spec_cap_parse(m[0]) == Some(vals[0]));
        assert(m.drop_first() =~= vals.drop_first().map_values(f)) by {
            assert forall|i: int|
                0 <= i < m.drop_first().len() implies m.drop_first()[i] == vals.drop_first().map_values(
                f,
            )[i] by {
                assert(m.drop_first()[i] == m[i + 1]);
                assert(vals.drop_first().map_values(f)[i] == f(vals.drop_first()[i]));
                assert(vals.drop_first()[i] == vals[i + 1]);
            }
        }
        lemma_parse_names(vals.drop_first(), lineno, field0 + 1);
        assert(seq![vals[0]] + vals.drop_first() =~= vals);
    }
}

/// Parsing the rendering of well-formed records, line by line, appends
/// them to the accumulator.
proof fn lemma_parse_render_acc(
    records: Seq<(Seq<char>, Seq<Capability>)>,
    acc: Seq<(Seq<char>, Seq<Capability>)>,
    lineno: int,
)
    requires
        spec_doc_wf(records),
        forall|k: int, a: int|
            0 <= k < records.len() && 0 <= a < acc.len() ==> (#[trigger] acc[a]).0 != (
            #[trigger] records[k]).0,
    ensures
        spec_parse_doc(spec_lines(spec_render(records)), lineno, acc) == Ok::<_, SpecError>(
            acc + records,
        ),
    decreases records.len(),
{
    if records.len() == 0 {
        assert(spec_render(records) =~= Seq::<char>::empty());
        assert(spec_lines(spec_render(records)) =~= Seq::<Seq<char>>::empty());
        assert(acc + records =~= acc);
    } else {
        let r0 = records[0];
        let key = r0.0;
        let vals = r0.1;
        let rv = spec_render_vals(vals);
        let l = key + rv;
        let tail = spec_render(records.drop_first());
        lemma_render_vals_chars(vals);
        lemma_cap_name_wf(vals[0]);
        // The rendering decomposes into the first line and the rest.
        assert(spec_render(records) == spec_render_record(r0) + tail);
        assert(spec_render_record(r0) == key + rv + "\n"@);
        assert(spec_render(records) =~= l + "\n"@ + tail);
        // The first line has no newline and no trailing carriage return.
        assert forall|i: int| 0 <= i < l.len() implies (#[trigger] l[i]) != '\n' by {
            if i < key.len() {
                assert(l[i] == key[i]);
                assert(!is_ws(key[i]));
            } else {
                assert(l[i] == rv[i - key.len()]);
            }
        }
        assert(vals.len() >= 1);
        assert(rv.len() > 0 && !is_ws(rv.last()));
        assert(l.last() == rv.last());
        lemma_lines_prepend(l, tail);
        assert(spec_lines(spec_render(records)) == seq![l] + spec_lines(tail));
        // The line is a record, not a comment or blank.
        assert(l[0] == key[0]);
        assert(!is_ws(l[0]));
        lemma_first_idx_unique(l, |c: char| !is_ws(c), 0);
        assert(!line_skippable(l));
        // Its fields are the key and the capability names.
        lemma_fields_line(key, vals);
        let f = |c: Capability| crate::caps::spec_cap_name(c);
        let fields = spec_fields(l);
        assert(fields == seq![key] + vals.map_values(f));
        assert(fields.len() == 1 + vals.len());
        assert(fields[0] == key);
        assert(fields.drop_first() =~= vals.map_values(f));
        lemma_parse_names(vals, lineno, 1);
        // The upsert appends, since the key is fresh.
        assert forall|a: int| 0 <= a < acc.len() implies (#[trigger] acc[a]).0 != key by {}
        lemma_upsert_absent(acc, key, vals);
        assert((key, vals) == r0);
        // The rest parses by induction.
        assert(spec_doc_wf(records.drop_first())) by {
            assert forall|k: int|
                0 <= k < records.drop_first().len() implies {
                let k2 = (#[trigger] records.drop_first()[k]).0;
                &&& k2.len() > 0
                &&& (forall|i: int| 0 <= i < k2.len() ==> !is_ws(#[trigger] k2[i]))
                &&& k2[0] != '#'
                &&& records.drop_first()[k].1.len() >= 1
            } by {
                assert(records.drop_first()[k] == records[k + 1]);
            }
            assert forall|i: int, j: int|
                0 <= i < j < records.drop_first().len() implies records.drop_first()[i].0
                != records.drop_first()[j].0 by {
                assert(records.drop_first()[i] == records[i + 1]);
                assert(records.drop_first()[j] == records[j + 1]);
            }
        }
        assert forall|k: int, a: int|
            0 <= k < records.drop_first().len() && 0 <= a < acc.push(r0).len() implies (
        #[trigger] acc.push(r0)[a]).0 != (#[trigger] records.drop_first()[k]).0 by {
            assert(records.drop_first()[k] == records[k + 1]);
            if a < acc.len() {
                assert(acc.push(r0)[a] == acc[a]);
            } else {
                assert(acc.push(r0)[a] == r0);
            }
        }
        lemma_parse_render_acc(records.drop_first(), acc.push(r0), lineno + 1);
        // Put the pieces together.
        let lines = spec_lines(spec_render(records));
        assert(lines[0] == l);
        assert(lines.drop_first() =~= spec_lines(tail));
        assert(acc.push(r0) + records.drop_first() =~= acc + records);
    }
}

/// Round trip: rendering a well-formed document and parsing the text back
/// yields exactly the same records, in the same order.
pub proof fn lemma_cm_round_trip(records: Seq<(Seq<char>, Seq<Capability>)>)
    requires
        spec_doc_wf(records),
    ensures
        spec_parse_document(spec_render(records)) == Ok::<_, SpecError>(records),
{
    lemma_parse_render_acc(records, Seq::empty(), 1);
    assert(Seq::empty() + records =~= records);
}

/// Runtime test of `line_skippable`.
fn line_is_skippable(l: &str) -> (r: bool)
    ensures
        r == line_skippable(l@),
{
    let len = l.unicode_len();
    let mut i: usize = 0;
    while i < len && ws_char(l.get_char(i))
        invariant
            i <= len,
            len == l@.len(),
            forall|k: int| 0 <= k < i ==> is_ws(l@[k]),
        decreases len - i,
    {
        i += 1;
    }
    proof {
        lemma_first_idx_unique(l@, |c: char| !is_ws(c), i as int);
    }
    if i == len {
        true
    } else {
        l.get_char(i) == '#'
    }
}

/// Parse `fields[1..]` as capability names, 1-based field numbering.
fn parse_values(fields: &Vec<String>, line: usize) -> (r: Result<Vec<Capability>, Error>)
    requires
        fields@.len() >= 1,
        line >= 1,
    ensures
        match r {
            Ok(vals) => spec_parse_values(fields.deep_view().drop_first(), line as int, 1) == Ok::<
                _,
                SpecError,
            >(vals@),
            Err(e) => spec_parse_values(fields.deep_view().drop_first(), line as int, 1) == Err::<
                Seq<Capability>,
                _,
            >(e@),
        },
{
    let mut vals: Vec<Capability> = Vec::new();
    let mut j: usize = 1;
    proof {
        assert(fields.deep_view().len() == fields@.len());
    }
    while j < fields.len()
        invariant
            1 <= j <= fields@.len(),
            line >= 1,
            fields.deep_view().len() == fields@.len(),
            vals@.len() == j - 1,
            spec_parse_values(fields.deep_view().drop_first(), line as int, 1) == match
                spec_parse_values(fields.deep_view().skip(j as int), line as int, j as int) {
                Ok(rest) => Ok::<_, SpecError>(vals@ + rest),
                Err(e) => Err::<Seq<Capability>, _>(e),
            },
        decreases fields@.len() - j,
    {
        proof {
            assert(fields.deep_view().skip(j as int)[0] == fields@[j as int]@);
            assert(fields.deep_view().skip(j as int).drop_first() =~= fields.deep_view().skip(
                j as int + 1,
            ));
        }
        match Capability::parse(fields[j].as_str()) {
            Ok(c) => {
                let ghost old_vals = vals@;
                vals.push(c);
                proof {
                    assert(vals@ =~= old_vals + seq![c]);
                    assert forall|rest: Seq<Capability>|
                        (old_vals + (seq![c] + rest)) =~= (vals@ + rest) by {}
                }
            },
            Err(_) => {
                return Err(Error::Value { value: fields[j].clone(), field: j, line });
            },
        }
        j += 1;
    }
    proof {
        assert(fields.deep_view().skip(fields@.len() as int) =~= Seq::<Seq<char>>::empty());
        assert(vals@ + Seq::<Capability>::empty() =~= vals@);
    }
    Ok(vals)
}

/// Insert or overwrite in place, as `spec_upsert` describes.
fn upsert_record(records: &mut Vec<(String, Vec<Capability>)>, key: String, vals: Vec<Capability>)
    ensures
        final(records).deep_view() == spec_upsert(old(records).deep_view(), key@, vals@),
{
    let mut i: usize = 0;
    while i < records.len()
        invariant
            i <= records.len(),
            *records == *old(records),
            forall|j: int| 0 <= j < i ==> old(records).deep_view()[j].0 != key@,
        decreases records.len() - i,
    {
        if str_eq(records[i].0.as_str(), key.as_str()) {
            proof {
                lemma_upsert_found(records.deep_view(), key@, vals@, i as int);
            }
            records[i] = (key, vals);
            proof {
                assert(records.deep_view() =~~= old(records).deep_view().update(
                    i as int,
                    (key@, vals@),
                ));
            }
            return ;
        }
        i += 1;
    }
    proof {
        lemma_upsert_absent(records.deep_view(), key@, vals@);
    }
    let ghost old_dv = records.deep_view();
    records.push((key, vals));
    proof {
        assert(records.deep_view() =~~= old_dv.push((key@, vals@)));
    }
}

/// When `key` first occurs at `k`, upsert overwrites position `k`.
proof fn lemma_upsert_found(
    recs: Seq<(Seq<char>, Seq<Capability>)>,
    key: Seq<char>,
    vals: Seq<Capability>,
    k: int,
)
    requires
        0 <= k < recs.len(),
        recs[k].0 == key,
        forall|j: int| 0 <= j < k ==> recs[j].0 != key,
    ensures
        spec_upsert(recs, key, vals) == recs.update(k, (key, vals)),
    decreases recs.len(),
{
    if k == 0 {
        assert(spec_upsert(recs, key, vals) =~= recs.update(0, (key, vals)));
    } else {
        assert forall|j: int| 0 <= j < k - 1 implies recs.drop_first()[j].0 != key by {
            assert(recs.drop_first()[j] == recs[j + 1]);
        }
        lemma_upsert_found(recs.drop_first(), key, vals, k - 1);
        assert(spec_upsert(recs, key, vals) =~= recs.update(k, (key, vals)));
    }
}

/// When `key` does not occur, upsert appends.
proof fn lemma_upsert_absent(
    recs: Seq<(Seq<char>, Seq<Capability>)>,
    key: Seq<char>,
    vals: Seq<Capability>,
)
    requires
        forall|j: int| 0 <= j < recs.len() ==> recs[j].0 != key,
    ensures
        spec_upsert(recs, key, vals) == recs.push((key, vals)),
    decreases recs.len(),
{
    if recs.len() == 0 {
        assert(spec_upsert(recs, key, vals) =~= recs.push((key, vals)));
    } else {
        assert forall|j: int| 0 <= j < recs.drop_first().len() implies recs.drop_first()[j].0
            != key by {
            assert(recs.drop_first()[j] == recs[j + 1]);
        }
        lemma_upsert_absent(recs.drop_first(), key, vals);
        assert(spec_upsert(recs, key, vals) =~= recs.push((key, vals)));
    }
}

/// When `key` first occurs at `k`, lookup finds that record's values.
proof fn lemma_lookup_found(recs: Seq<(Seq<char>, Seq<Capability>)>, key: Seq<char>, k: int)
    requires
        0 <= k < recs.len(),
        recs[k].0 == key,
        forall|j: int| 0 <= j < k ==> recs[j].0 != key,
    ensures
        spec_lookup(recs, key) == Some(recs[k].1),
    decreases recs.len(),
{
    if k > 0 {
        assert forall|j: int| 0 <= j < k - 1 implies recs.drop_first()[j].0 != key by {
            assert(recs.drop_first()[j] == recs[j + 1]);
        }
        lemma_lookup_found(recs.drop_first(), key, k - 1);
    }
}

/// When `key` does not occur, lookup fails.
proof fn lemma_lookup_absent(recs: Seq<(Seq<char>, Seq<Capability>)>, key: Seq<char>)
    requires
        forall|j: int| 0 <= j < recs.len() ==> recs[j].0 != key,
    ensures
        spec_lookup(recs, key) is None,
    decreases recs.len(),
{
    if recs.len() > 0 {
        assert forall|j: int| 0 <= j < recs.drop_first().len() implies recs.drop_first()[j].0
            != key by {
            assert(recs.drop_first()[j] == recs[j + 1]);
        }
        lemma_lookup_absent(recs.drop_first(), key);
    }
}

} // verus!
