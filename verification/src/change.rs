//! Change sets: the typed changes a diff produces, and the raw (wire-shaped)
//! changes that patch application consumes.

use vstd::prelude::*;
use crate::record::{Record, RecordV, Attrs, AttrsV, FieldKey, field_name, field_name_string};
use crate::strings::{dec_seq, u64_to_string, lemma_vec_deep_view_index, lemma_vec_deep_view_len};

verus! {

broadcast use lemma_vec_deep_view_index, lemma_vec_deep_view_len;

/// The view of one change.
pub ghost enum ChangeV {
    RowRemoved { id: Seq<char>, snapshot: RecordV },
    RowAdded { id: Seq<char>, snapshot: RecordV },
    RowFieldUpdated { id: Seq<char>, field: FieldKey, value: Seq<char> },
    AttributeAdded { id: Seq<char>, key: Seq<char>, value: Seq<char> },
    AttributeRemoved { id: Seq<char>, key: Seq<char>, value: Seq<char> },
}

/// One change between two stores.  A row addition or removal carries the
/// full record snapshot; attribute changes are only ever expressed as
/// independent add/remove pairs, never as an update.
#[derive(Debug, PartialEq, Eq)]
pub enum Change {
    RowRemoved { id: String, snapshot: Record },
    RowAdded { id: String, snapshot: Record },
    RowFieldUpdated { id: String, field: FieldKey, value: String },
    AttributeAdded { id: String, key: String, value: String },
    AttributeRemoved { id: String, key: String, value: String },
}

impl View for Change {
    type V = ChangeV;

    open spec fn view(&self) -> ChangeV {
        match self {
            Change::RowRemoved { id, snapshot } => ChangeV::RowRemoved {
                id: id@,
                snapshot: snapshot@,
            },
            Change::RowAdded { id, snapshot } => ChangeV::RowAdded {
                id: id@,
                snapshot: snapshot@,
            },
            Change::RowFieldUpdated { id, field, value } => ChangeV::RowFieldUpdated {
                id: id@,
                field: *field,
                value: value@,
            },
            Change::AttributeAdded { id, key, value } => ChangeV::AttributeAdded {
                id: id@,
                key: key@,
                value: value@,
            },
            Change::AttributeRemoved { id, key, value } => ChangeV::AttributeRemoved {
                id: id@,
                key: key@,
                value: value@,
            },
        }
    }
}

impl DeepView for Change {
    type V = ChangeV;

    open spec fn deep_view(&self) -> ChangeV {
        self.view()
    }
}

impl Change {
    /// A deep copy.
    pub fn duplicate(&self) -> (r: Change)
        ensures
            r@ == self@,
    {
        match self {
            Change::RowRemoved { id, snapshot } => Change::RowRemoved {
                id: id.clone(),
                snapshot: snapshot.duplicate(),
            },
            Change::RowAdded { id, snapshot } => Change::RowAdded {
                id: id.clone(),
                snapshot: snapshot.duplicate(),
            },
            Change::RowFieldUpdated { id, field, value } => Change::RowFieldUpdated {
                id: id.clone(),
                field: *field,
                value: value.clone(),
            },
            Change::AttributeAdded { id, key, value } => Change::AttributeAdded {
                id: id.clone(),
                key: key.clone(),
                value: value.clone(),
            },
            Change::AttributeRemoved { id, key, value } => Change::AttributeRemoved {
                id: id.clone(),
                key: key.clone(),
                value: value.clone(),
            },
        }
    }
}

/// The output of a diff: the changes, in no significant order, and the
/// issue log when issue recording was enabled.
#[derive(Debug, PartialEq, Eq)]
pub struct ChangeSet {
    pub changes: Vec<Change>,
    pub issues: Option<Vec<String>>,
}

/// The view of a change set.
pub ghost struct ChangeSetV {
    pub changes: Seq<ChangeV>,
    pub issues: Option<Seq<Seq<char>>>,
}

impl View for ChangeSet {
    type V = ChangeSetV;

    open spec fn view(&self) -> ChangeSetV {
        ChangeSetV { changes: self.changes.deep_view(), issues: self.issues.deep_view() }
    }
}

/// The view of a raw record snapshot.
pub ghost struct RawSnapshotV {
    pub seqname: Option<Seq<char>>,
    pub source: Option<Seq<char>>,
    pub feature_type: Option<Seq<char>>,
    pub start: Option<Seq<char>>,
    pub end: Option<Seq<char>>,
    pub score: Option<Seq<char>>,
    pub strand: Option<Seq<char>>,
    pub frame: Option<Seq<char>>,
    pub attributes: AttrsV,
}

/// A record snapshot in wire shape: each scalar field an optional string,
/// the attributes a key to value-list map.
#[derive(Debug, PartialEq, Eq)]
pub struct RawSnapshot {
    pub seqname: Option<String>,
    pub source: Option<String>,
    pub feature_type: Option<String>,
    pub start: Option<String>,
    pub end: Option<String>,
    pub score: Option<String>,
    pub strand: Option<String>,
    pub frame: Option<String>,
    pub attributes: Attrs,
}

impl View for RawSnapshot {
    type V = RawSnapshotV;

    open spec fn view(&self) -> RawSnapshotV {
        RawSnapshotV {
            seqname: self.seqname.deep_view(),
            source: self.source.deep_view(),
            feature_type: self.feature_type.deep_view(),
            start: self.start.deep_view(),
            end: self.end.deep_view(),
            score: self.score.deep_view(),
            strand: self.strand.deep_view(),
            frame: self.frame.deep_view(),
            attributes: self.attributes@,
        }
    }
}

impl DeepView for RawSnapshot {
    type V = RawSnapshotV;

    open spec fn deep_view(&self) -> RawSnapshotV {
        self.view()
    }
}

/// The view of a raw change.
pub ghost struct RawChangeV {
    pub what: Option<Seq<char>>,
    pub action: Option<Seq<char>>,
    pub id: Option<Seq<char>>,
    pub key: Option<Seq<char>>,
    pub value: Option<Seq<char>>,
    pub snapshot: Option<RawSnapshotV>,
}

/// One change in wire shape: every part optional, as a decoded change
/// object presents it.  Patch application reads these.
#[derive(Debug, PartialEq, Eq)]
pub struct RawChange {
    pub what: Option<String>,
    pub action: Option<String>,
    pub id: Option<String>,
    pub key: Option<String>,
    pub value: Option<String>,
    pub snapshot: Option<RawSnapshot>,
}

impl View for RawChange {
    type V = RawChangeV;

    open spec fn view(&self) -> RawChangeV {
        RawChangeV {
            what: self.what.deep_view(),
            action: self.action.deep_view(),
            id: self.id.deep_view(),
            key: self.key.deep_view(),
            value: self.value.deep_view(),
            snapshot: self.snapshot.deep_view(),
        }
    }
}

impl DeepView for RawChange {
    type V = RawChangeV;

    open spec fn deep_view(&self) -> RawChangeV {
        self.view()
    }
}

/// The wire shape of a record snapshot: every field present, coordinates
/// rendered in decimal, attributes carried over.
pub open spec fn raw_snapshot_of(r: RecordV) -> RawSnapshotV {
    RawSnapshotV {
        seqname: Some(r.seqname),
        source: Some(r.source),
        feature_type: Some(r.feature_type),
        start: Some(dec_seq(r.start as nat)),
        end: Some(dec_seq(r.end as nat)),
        score: Some(r.score),
        strand: Some(r.strand),
        frame: Some(r.frame),
        attributes: r.attrs,
    }
}

/// The wire shape of one typed change.
pub open spec fn raw_of_change(c: ChangeV) -> RawChangeV {
    match c {
        ChangeV::RowRemoved { id, snapshot } => RawChangeV {
            what: Some("row"@),
            action: Some("remove"@),
            id: Some(id),
            key: None,
            value: None,
            snapshot: Some(raw_snapshot_of(snapshot)),
        },
        ChangeV::RowAdded { id, snapshot } => RawChangeV {
            what: Some("row"@),
            action: Some("add"@),
            id: Some(id),
            key: None,
            value: None,
            snapshot: Some(raw_snapshot_of(snapshot)),
        },
        ChangeV::RowFieldUpdated { id, field, value } => RawChangeV {
            what: Some("row"@),
            action: Some("update"@),
            id: Some(id),
            key: Some(field_name(field)),
            value: Some(value),
            snapshot: None,
        },
        ChangeV::AttributeAdded { id, key, value } => RawChangeV {
            what: Some("attribute"@),
            action: Some("add"@),
            id: Some(id),
            key: Some(key),
            value: Some(value),
            snapshot: None,
        },
        ChangeV::AttributeRemoved { id, key, value } => RawChangeV {
            what: Some("attribute"@),
            action: Some("remove"@),
            id: Some(id),
            key: Some(key),
            value: Some(value),
            snapshot: None,
        },
    }
}

/// The wire shape of a whole change sequence.
pub open spec fn raw_seq_of(cs: Seq<ChangeV>) -> Seq<RawChangeV> {
    cs.map_values(|c: ChangeV| raw_of_change(c))
}

/// Renders a record as a wire-shaped snapshot.
pub fn snapshot_of_record(r: &Record) -> (s: RawSnapshot)
    ensures
        s@ == raw_snapshot_of(r@),
{
    RawSnapshot {
        seqname: Some(r.seqname.clone()),
        source: Some(r.source.clone()),
        feature_type: Some(r.feature_type.clone()),
        start: Some(u64_to_string(r.start)),
        end: Some(u64_to_string(r.end)),
        score: Some(r.score.clone()),
        strand: Some(r.strand.clone()),
        frame: Some(r.frame.clone()),
        attributes: r.attributes.duplicate(),
    }
}

/// Renders one typed change in wire shape.
pub fn change_to_raw(c: &Change) -> (r: RawChange)
    ensures
        r@ == raw_of_change(c@),
{
    match c {
        Change::RowRemoved { id, snapshot } => RawChange {
            what: Some(String::from_str("row")),
            action: Some(String::from_str("remove")),
            id: Some(id.clone()),
            key: None,
            value: None,
            snapshot: Some(snapshot_of_record(snapshot)),
        },
        Change::RowAdded { id, snapshot } => RawChange {
            what: Some(String::from_str("row")),
            action: Some(String::from_str("add")),
            id: Some(id.clone()),
            key: None,
            value: None,
            snapshot: Some(snapshot_of_record(snapshot)),
        },
        Change::RowFieldUpdated { id, field, value } => RawChange {
            what: Some(String::from_str("row")),
            action: Some(String::from_str("update")),
            id: Some(id.clone()),
            key: Some(field_name_string(field)),
            value: Some(value.clone()),
            snapshot: None,
        },
        Change::AttributeAdded { id, key, value } => RawChange {
            what: Some(String::from_str("attribute")),
            action: Some(String::from_str("add")),
            id: Some(id.clone()),
            key: Some(key.clone()),
            value: Some(value.clone()),
            snapshot: None,
        },
        Change::AttributeRemoved { id, key, value } => RawChange {
            what: Some(String::from_str("attribute")),
            action: Some(String::from_str("remove")),
            id: Some(id.clone()),
            key: Some(key.clone()),
            value: Some(value.clone()),
            snapshot: None,
        },
    }
}

/// Renders a whole change sequence in wire shape.
pub fn changes_to_raw(cs: &Vec<Change>) -> (r: Vec<RawChange>)
    ensures
        r.deep_view() == raw_seq_of(cs.deep_view()),
{
    let mut out: Vec<RawChange> = Vec::new();
    let mut i: usize = 0;
    while i < cs.len()
        invariant
            0 <= i <= cs@.len(),
            out.len() == i,
            forall|k: int| 0 <= k < i ==> #[trigger] out.deep_view()[k] == raw_of_change(
                cs.deep_view()[k],
            ),
        decreases cs.len() - i,
    {
        let ghost pv = out@;
        let ghost pdv = out.deep_view();
        out.push(change_to_raw(&cs[i]));
        proof {
            assert forall|k: int| 0 <= k < i + 1 implies #[trigger] out.deep_view()[k]
                == raw_of_change(cs.deep_view()[k]) by {
                assert(out.deep_view()[k] == out@[k].deep_view());
                if k < i {
                    assert(out@[k] == pv[k]);
                    assert(pdv[k] == pv[k].deep_view());
                } else {
                    assert(out@[k]@ == raw_of_change(cs.deep_view()[i as int]));
                }
            }
        }
        i = i + 1;
    }
    proof {
        assert(out.deep_view() =~= raw_seq_of(cs.deep_view()));
    }
    out
}

} // verus!
