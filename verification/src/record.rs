//! The record data model: a multi-valued attribute map with insertion order,
//! and one annotation record with its eight scalar fields.

use vstd::prelude::*;
use crate::errors::GffError;
use crate::strings::{
    copy_strings, lemma_vec_deep_view_index, lemma_vec_deep_view_len, dot_string, parse_u64,
    parse_u64_spec,
};

verus! {

broadcast use lemma_vec_deep_view_index, lemma_vec_deep_view_len;

/// The view of one attribute entry: the key and its values, in order.
pub type AttrEntryV = (Seq<char>, Seq<Seq<char>>);

/// The view of an attribute map: entries in insertion order.
pub type AttrsV = Seq<AttrEntryV>;

/// One attribute key together with its values, in insertion order.
#[derive(Debug, PartialEq, Eq)]
pub struct AttrEntry {
    pub key: String,
    pub values: Vec<String>,
}

impl View for AttrEntry {
    type V = AttrEntryV;

    open spec fn view(&self) -> AttrEntryV {
        (self.key@, self.values.deep_view())
    }
}

impl DeepView for AttrEntry {
    type V = AttrEntryV;

    open spec fn deep_view(&self) -> AttrEntryV {
        self.view()
    }
}

/// A multi-valued attribute map.  Keys are unique; the values under a key
/// keep their insertion order; an entry always holds at least one value.
#[derive(Debug, PartialEq, Eq)]
pub struct Attrs {
    pub entries: Vec<AttrEntry>,
}

impl View for Attrs {
    type V = AttrsV;

    open spec fn view(&self) -> AttrsV {
        self.entries.deep_view()
    }
}

/// Well-formedness of an attribute map: unique keys, no empty value list.
pub open spec fn attrs_wf(a: AttrsV) -> bool {
    &&& forall|i: int, j: int| 0 <= i < j < a.len() ==> (#[trigger] a[i]).0 != (#[trigger] a[j]).0
    &&& forall|i: int| 0 <= i < a.len() ==> (#[trigger] a[i]).1.len() > 0
}

/// Whether the map has an entry for `k`.
pub open spec fn attr_has_key(a: AttrsV, k: Seq<char>) -> bool {
    exists|i: int| 0 <= i < a.len() && (#[trigger] a[i]).0 == k
}

/// The index of the entry for `k` (meaningful when `attr_has_key`).
pub open spec fn attr_key_idx(a: AttrsV, k: Seq<char>) -> int {
    choose|i: int| 0 <= i < a.len() && (#[trigger] a[i]).0 == k
}

/// The values under `k`, empty when the key is absent.
pub open spec fn attr_values(a: AttrsV, k: Seq<char>) -> Seq<Seq<char>> {
    if attr_has_key(a, k) {
        a[attr_key_idx(a, k)].1
    } else {
        Seq::empty()
    }
}

/// The values under `k` as a set: attribute comparison is set comparison.
pub open spec fn attr_vset(a: AttrsV, k: Seq<char>) -> Set<Seq<char>> {
    attr_values(a, k).to_set()
}

/// Whether the map holds value `v` under key `k`.
pub open spec fn attr_has_pair(a: AttrsV, k: Seq<char>, v: Seq<char>) -> bool {
    attr_values(a, k).contains(v)
}

/// The first value under `k`, if any: what a single-valued lookup returns.
pub open spec fn attr_first(a: AttrsV, k: Seq<char>) -> Option<Seq<char>> {
    if attr_has_key(a, k) && attr_values(a, k).len() > 0 {
        Some(attr_values(a, k)[0])
    } else {
        None
    }
}

/// The map after inserting `v` under `k`: appended to the entry for `k` if
/// present, else a new entry at the end.
pub open spec fn attr_insert(a: AttrsV, k: Seq<char>, v: Seq<char>) -> AttrsV {
    if attr_has_key(a, k) {
        let i = attr_key_idx(a, k);
        a.update(i, (k, a[i].1.push(v)))
    } else {
        a.push((k, seq![v]))
    }
}

/// The index of the first occurrence of `v` in `vs` (meaningful when
/// `vs.contains(v)`).
pub open spec fn first_idx_of(vs: Seq<Seq<char>>, v: Seq<char>) -> int
    decreases vs.len(),
{
    if vs.len() == 0 {
        0
    } else if vs[0] == v {
        0
    } else {
        1 + first_idx_of(vs.drop_first(), v)
    }
}

/// `first_idx_of` finds the first occurrence.
pub proof fn lemma_first_idx_of(vs: Seq<Seq<char>>, v: Seq<char>)
    requires
        vs.contains(v),
    ensures
        0 <= first_idx_of(vs, v) < vs.len(),
        vs[first_idx_of(vs, v)] == v,
        forall|x: int| 0 <= x < first_idx_of(vs, v) ==> vs[x] != v,
    decreases vs.len(),
{
    if vs[0] == v {
    } else {
        assert(vs.drop_first().contains(v)) by {
            let w = choose|i: int| 0 <= i < vs.len() && vs[i] == v;
            assert(vs.drop_first()[w - 1] == v);
        }
        lemma_first_idx_of(vs.drop_first(), v);
        let f = first_idx_of(vs, v);
        assert(vs[f] == vs.drop_first()[f - 1]);
        assert forall|x: int| 0 <= x < f implies vs[x] != v by {
            if x > 0 {
                assert(vs[x] == vs.drop_first()[x - 1]);
            }
        }
    }
}

/// The map after removing one occurrence of `v` under `k` (the first one);
/// the entry disappears when its last value goes.  No-op if the pair is
/// absent.
pub open spec fn attr_remove_one(a: AttrsV, k: Seq<char>, v: Seq<char>) -> AttrsV {
    if attr_has_pair(a, k, v) {
        let i = attr_key_idx(a, k);
        let vs = a[i].1;
        let j = first_idx_of(vs, v);
        if vs.len() == 1 {
            a.remove(i)
        } else {
            a.update(i, (k, vs.remove(j)))
        }
    } else {
        a
    }
}

/// Under well-formedness, the entry index for a present key is unique.
pub proof fn lemma_key_idx(a: AttrsV, k: Seq<char>, i: int)
    requires
        attrs_wf(a),
        0 <= i < a.len(),
        a[i].0 == k,
    ensures
        attr_has_key(a, k),
        attr_key_idx(a, k) == i,
{
    assert(attr_has_key(a, k));
    let w = attr_key_idx(a, k);
    assert(0 <= w < a.len() && a[w].0 == k);
    if w < i {
        assert(a[w].0 != a[i].0);
    } else if i < w {
        assert(a[i].0 != a[w].0);
    }
}

impl Attrs {
    /// An empty attribute map.
    pub fn new() -> (r: Attrs)
        ensures
            r@ =~= Seq::<AttrEntryV>::empty(),
            attrs_wf(r@),
    {
        Attrs { entries: Vec::new() }
    }

    /// The index of the first entry whose key is `k`.
    pub fn find_key(&self, k: &String) -> (r: Option<usize>)
        ensures
            match r {
                Some(i) => i < self@.len() && self@[i as int].0 == k@ && forall|j: int|
                    0 <= j < i ==> (#[trigger] self@[j]).0 != k@,
                None => !attr_has_key(self@, k@),
            },
    {
        let mut i: usize = 0;
        while i < self.entries.len()
            invariant
                0 <= i <= self.entries.len(),
                forall|j: int| 0 <= j < i ==> (#[trigger] self@[j]).0 != k@,
            decreases self.entries.len() - i,
        {
            if self.entries[i].key.eq(k) {
                return Some(i);
            }
            i = i + 1;
        }
        None
    }

    /// Whether the map has an entry for `k`.
    pub fn has_key(&self, k: &String) -> (r: bool)
        ensures
            r == attr_has_key(self@, k@),
    {
        match self.find_key(k) {
            Some(_) => true,
            None => false,
        }
    }

    /// The values under `k`, if the key is present.
    pub fn get_vec(&self, k: &String) -> (r: Option<&Vec<String>>)
        requires
            attrs_wf(self@),
        ensures
            match r {
                Some(vs) => attr_has_key(self@, k@) && vs.deep_view() == attr_values(self@, k@),
                None => !attr_has_key(self@, k@),
            },
    {
        match self.find_key(k) {
            Some(i) => {
                proof {
                    lemma_key_idx(self@, k@, i as int);
                }
                Some(&self.entries[i].values)
            },
            None => None,
        }
    }

    /// The first value under `k`, if any: single-valued attribute lookup.
    pub fn get_first(&self, k: &String) -> (r: Option<&String>)
        requires
            attrs_wf(self@),
        ensures
            match r {
                Some(v) => attr_first(self@, k@) == Some(v@),
                None => attr_first(self@, k@) is None,
            },
    {
        match self.get_vec(k) {
            Some(vs) => {
                if vs.len() > 0 {
                    Some(&vs[0])
                } else {
                    None
                }
            },
            None => None,
        }
    }

    /// Inserts `v` under `k`, appending to the entry if the key is present.
    pub fn insert(&mut self, k: String, v: String)
        requires
            attrs_wf(old(self)@),
        ensures
            final(self)@ == attr_insert(old(self)@, k@, v@),
            attrs_wf(final(self)@),
    {
        let idx = self.find_key(&k);
        match idx {
            Some(i) => {
                proof {
                    lemma_key_idx(self@, k@, i as int);
                }
                let ghost pre = self@;
                let e = &mut self.entries[i];
                e.values.push(v);
                proof {
                    assert(self@ =~= pre.update(i as int, (k@, pre[i as int].1.push(v@)))) by {
                        assert(self.entries@[i as int]@ == (k@, pre[i as int].1.push(v@))) by {
                            assert(self.entries@[i as int].values.deep_view() =~= pre[i as int].1
                                .push(v@));
                        }
                    }
                    assert forall|x: int, y: int|
                        0 <= x < y < self@.len() implies (#[trigger] self@[x]).0 != (
                    #[trigger] self@[y]).0 by {
                        assert(self@[x].0 == pre[x].0 && self@[y].0 == pre[y].0);
                    }
                    assert forall|x: int| 0 <= x < self@.len() implies (#[trigger] self@[x]).1.len()
                        > 0 by {
                        if x != i {
                            assert(self@[x] == pre[x]);
                        }
                    }
                }
            },
            None => {
                let ghost pre = self@;
                let mut vs: Vec<String> = Vec::new();
                vs.push(v);
                self.entries.push(AttrEntry { key: k, values: vs });
                proof {
                    assert(self@ =~= pre.push((k@, seq![v@]))) by {
                        assert(self.entries@[pre.len() as int]@ == (k@, seq![v@])) by {
                            assert(self.entries@[pre.len() as int].values.deep_view() =~= seq![v@]);
                        }
                        assert(forall|x: int|
                            0 <= x < pre.len() ==> #[trigger] self@[x] == pre[x]);
                    }
                    assert forall|x: int, y: int|
                        0 <= x < y < self@.len() implies (#[trigger] self@[x]).0 != (
                    #[trigger] self@[y]).0 by {
                        if y < pre.len() {
                        } else {
                            assert(self@[y].0 == k@);
                            assert(!attr_has_key(pre, k@));
                            assert(pre[x].0 != k@);
                        }
                    }
                }
            },
        }
    }

    /// Removes one occurrence (the first) of `v` under `k`; reports whether
    /// the pair was present.  The entry disappears with its last value.
    pub fn remove_value(&mut self, k: &String, v: &String) -> (ok: bool)
        requires
            attrs_wf(old(self)@),
        ensures
            ok == attr_has_pair(old(self)@, k@, v@),
            final(self)@ == attr_remove_one(old(self)@, k@, v@),
            attrs_wf(final(self)@),
    {
        let idx = match self.find_key(k) {
            Some(i) => i,
            None => {
                return false;
            },
        };
        proof {
            lemma_key_idx(self@, k@, idx as int);
        }
        let ghost pre = self@;
        let n = self.entries[idx].values.len();
        let mut j: usize = 0;
        let mut found = false;
        while j < n && !found
            invariant
                0 <= j <= n,
                n == pre[idx as int].1.len(),
                self@ == pre,
                idx < self@.len(),
                !found ==> forall|x: int| 0 <= x < j ==> #[trigger] pre[idx as int].1[x] != v@,
                found ==> j < n && pre[idx as int].1[j as int] == v@ && forall|x: int|
                    0 <= x < j ==> #[trigger] pre[idx as int].1[x] != v@,
            decreases n - j, (if found {
                0int
            } else {
                1int
            }),
        {
            if self.entries[idx].values[j].eq(v) {
                found = true;
            } else {
                j = j + 1;
            }
        }
        if !found {
            proof {
                assert(j == n);
                assert(attr_values(pre, k@) == pre[idx as int].1);
                assert(!attr_has_pair(pre, k@, v@)) by {
                    assert(forall|x: int|
                        0 <= x < pre[idx as int].1.len() ==> #[trigger] pre[idx as int].1[x] != v@);
                }
            }
            return false;
        }
        proof {
            assert(attr_values(pre, k@).contains(v@)) by {
                assert(attr_values(pre, k@)[j as int] == v@);
            }
            lemma_first_idx_of(pre[idx as int].1, v@);
            let f = first_idx_of(pre[idx as int].1, v@);
            assert(f == j as int) by {
                if f < j {
                    assert(pre[idx as int].1[f] != v@);
                } else if j < f {
                    assert(pre[idx as int].1[j as int] != v@);
                }
            }
        }
        if n == 1 {
            self.entries.remove(idx);
            proof {
                assert(final(self)@ =~= pre.remove(idx as int)) by {
                    assert(forall|x: int|
                        0 <= x < idx ==> #[trigger] self.entries@[x]@ == pre[x]);
                    assert(forall|x: int|
                        idx <= x < self.entries@.len() ==> #[trigger] self.entries@[x]@ == pre[x
                            + 1]);
                }
                assert(attrs_wf(self@)) by {
                    assert(forall|x: int|
                        0 <= x < self@.len() ==> #[trigger] self@[x] == pre.remove(idx as int)[x]);
                }
            }
        } else {
            let e = &mut self.entries[idx];
            e.values.remove(j);
            proof {
                let vs2 = pre[idx as int].1.remove(j as int);
                assert(self@ =~= pre.update(idx as int, (k@, vs2))) by {
                    assert(self.entries@[idx as int]@ == (k@, vs2)) by {
                        assert(self.entries@[idx as int].values.deep_view() =~= vs2);
                    }
                }
                assert forall|x: int, y: int|
                    0 <= x < y < self@.len() implies (#[trigger] self@[x]).0 != (
                #[trigger] self@[y]).0 by {
                    assert(self@[x].0 == pre[x].0 && self@[y].0 == pre[y].0);
                }
                assert forall|x: int| 0 <= x < self@.len() implies (#[trigger] self@[x]).1.len()
                    > 0 by {
                    if x != idx {
                        assert(self@[x] == pre[x]);
                    }
                }
            }
        }
        true
    }

    /// A deep copy.
    pub fn duplicate(&self) -> (r: Attrs)
        ensures
            r@ == self@,
    {
        let mut out: Vec<AttrEntry> = Vec::new();
        let mut i: usize = 0;
        while i < self.entries.len()
            invariant
                0 <= i <= self.entries.len(),
                out.len() == i,
                forall|k: int| 0 <= k < i ==> #[trigger] out.deep_view()[k] == self@[k],
            decreases self.entries.len() - i,
        {
            let ghost pv = out@;
            let ghost pdv = out.deep_view();
            let e = &self.entries[i];
            out.push(AttrEntry { key: e.key.clone(), values: copy_strings(&e.values) });
            proof {
                assert forall|k: int| 0 <= k < i + 1 implies #[trigger] out.deep_view()[k]
                    == self@[k] by {
                    assert(out.deep_view()[k] == out@[k].deep_view());
                    if k < i {
                        assert(out@[k] == pv[k]);
                        assert(pdv[k] == pv[k].deep_view());
                    } else {
                        assert(out@[k]@ == self@[i as int]);
                    }
                }
            }
            i = i + 1;
        }
        let r = Attrs { entries: out };
        proof {
            assert(r@ =~= self@);
        }
        r
    }
}

/// The view of one record.
pub ghost struct RecordV {
    pub seqname: Seq<char>,
    pub source: Seq<char>,
    pub feature_type: Seq<char>,
    pub start: u64,
    pub end: u64,
    pub score: Seq<char>,
    pub strand: Seq<char>,
    pub frame: Seq<char>,
    pub attrs: AttrsV,
}

/// One annotation record: eight scalar fields and an attribute map.
#[derive(Debug, PartialEq, Eq)]
pub struct Record {
    pub seqname: String,
    pub source: String,
    pub feature_type: String,
    pub start: u64,
    pub end: u64,
    pub score: String,
    pub strand: String,
    pub frame: String,
    pub attributes: Attrs,
}

impl View for Record {
    type V = RecordV;

    open spec fn view(&self) -> RecordV {
        RecordV {
            seqname: self.seqname@,
            source: self.source@,
            feature_type: self.feature_type@,
            start: self.start,
            end: self.end,
            score: self.score@,
            strand: self.strand@,
            frame: self.frame@,
            attrs: self.attributes@,
        }
    }
}

impl DeepView for Record {
    type V = RecordV;

    open spec fn deep_view(&self) -> RecordV {
        self.view()
    }
}

/// Well-formedness of a record: its attribute map is well-formed.
pub open spec fn record_wf(r: RecordV) -> bool {
    attrs_wf(r.attrs)
}

/// The view of a freshly constructed record: empty names, zero coordinates,
/// `.` for score, strand and frame, no attributes.
pub open spec fn default_record_v() -> RecordV {
    RecordV {
        seqname: Seq::empty(),
        source: Seq::empty(),
        feature_type: Seq::empty(),
        start: 0,
        end: 0,
        score: seq!['.'],
        strand: seq!['.'],
        frame: seq!['.'],
        attrs: Seq::empty(),
    }
}

impl Record {
    /// A fresh record with default fields.
    pub fn new() -> (r: Record)
        ensures
            r@ =~= default_record_v(),
            record_wf(r@),
    {
        Record {
            seqname: String::new(),
            source: String::new(),
            feature_type: String::new(),
            start: 0,
            end: 0,
            score: dot_string(),
            strand: dot_string(),
            frame: dot_string(),
            attributes: Attrs::new(),
        }
    }

    /// A deep copy.
    pub fn duplicate(&self) -> (r: Record)
        ensures
            r@ == self@,
    {
        Record {
            seqname: self.seqname.clone(),
            source: self.source.clone(),
            feature_type: self.feature_type.clone(),
            start: self.start,
            end: self.end,
            score: self.score.clone(),
            strand: self.strand.clone(),
            frame: self.frame.clone(),
            attributes: self.attributes.duplicate(),
        }
    }

    /// Sets the scalar field named `k` to `v`, parsing `start` and `end` as
    /// unsigned integers.  The record is untouched on error.
    pub fn set_field(&mut self, k: &String, v: &String) -> (res: Result<(), GffError>)
        ensures
            match set_field_spec(old(self)@, k@, v@) {
                Ok(r2) => res is Ok && final(self)@ == r2,
                Err(e) => res == Err::<(), GffError>(e) && final(self)@ == old(self)@,
            },
    {
        if k.eq(&String::from_str("seqname")) {
            self.seqname = v.clone();
            Ok(())
        } else if k.eq(&String::from_str("source")) {
            self.source = v.clone();
            Ok(())
        } else if k.eq(&String::from_str("feature_type")) {
            self.feature_type = v.clone();
            Ok(())
        } else if k.eq(&String::from_str("start")) {
            match parse_u64(v.as_str()) {
                Some(n) => {
                    self.start = n;
                    Ok(())
                },
                None => Err(GffError::MalformedNumericField),
            }
        } else if k.eq(&String::from_str("end")) {
            match parse_u64(v.as_str()) {
                Some(n) => {
                    self.end = n;
                    Ok(())
                },
                None => Err(GffError::MalformedNumericField),
            }
        } else if k.eq(&String::from_str("score")) {
            self.score = v.clone();
            Ok(())
        } else if k.eq(&String::from_str("strand")) {
            self.strand = v.clone();
            Ok(())
        } else if k.eq(&String::from_str("frame")) {
            self.frame = v.clone();
            Ok(())
        } else {
            Err(GffError::MissingField)
        }
    }
}

/// The eight scalar fields of a record.
#[derive(Clone, Copy, PartialEq, Eq, Structural, Debug)]
pub enum FieldKey {
    Seqname,
    Source,
    FeatureType,
    Start,
    End,
    Score,
    Strand,
    Frame,
}

/// The wire name of a scalar field.
pub open spec fn field_name(f: FieldKey) -> Seq<char> {
    match f {
        FieldKey::Seqname => "seqname"@,
        FieldKey::Source => "source"@,
        FieldKey::FeatureType => "feature_type"@,
        FieldKey::Start => "start"@,
        FieldKey::End => "end"@,
        FieldKey::Score => "score"@,
        FieldKey::Strand => "strand"@,
        FieldKey::Frame => "frame"@,
    }
}

/// The wire name of a scalar field, as a string.
pub fn field_name_string(f: &FieldKey) -> (r: String)
    ensures
        r@ == field_name(*f),
{
    match f {
        FieldKey::Seqname => String::from_str("seqname"),
        FieldKey::Source => String::from_str("source"),
        FieldKey::FeatureType => String::from_str("feature_type"),
        FieldKey::Start => String::from_str("start"),
        FieldKey::End => String::from_str("end"),
        FieldKey::Score => String::from_str("score"),
        FieldKey::Strand => String::from_str("strand"),
        FieldKey::Frame => String::from_str("frame"),
    }
}

/// What `Record::set_field` does: the record with the named field replaced,
/// or the error that refuses the update.
pub open spec fn set_field_spec(r: RecordV, k: Seq<char>, v: Seq<char>) -> Result<
    RecordV,
    GffError,
> {
    if k == "seqname"@ {
        Ok(RecordV { seqname: v, ..r })
    } else if k == "source"@ {
        Ok(RecordV { source: v, ..r })
    } else if k == "feature_type"@ {
        Ok(RecordV { feature_type: v, ..r })
    } else if k == "start"@ {
        match parse_u64_spec(v) {
            Some(n) => Ok(RecordV { start: n, ..r }),
            None => Err(GffError::MalformedNumericField),
        }
    } else if k == "end"@ {
        match parse_u64_spec(v) {
            Some(n) => Ok(RecordV { end: n, ..r }),
            None => Err(GffError::MalformedNumericField),
        }
    } else if k == "score"@ {
        Ok(RecordV { score: v, ..r })
    } else if k == "strand"@ {
        Ok(RecordV { strand: v, ..r })
    } else if k == "frame"@ {
        Ok(RecordV { frame: v, ..r })
    } else {
        Err(GffError::MissingField)
    }
}

} // verus!
