//! The diff engine: walks two record stores and produces the change
//! sequence describing field-level and attribute-level differences, plus
//! whole-row additions and removals.

use vstd::prelude::*;
use crate::change::{Change, ChangeV};
use crate::record::{
    Record, RecordV, Attrs, AttrsV, FieldKey, attr_has_key, attr_values, attrs_wf, record_wf,
};
use crate::store::{RecordStore, StoreV, store_has_id, store_rec, store_wf, lemma_store_idx};
use crate::strings::{
    dec_seq, norm_strand, seq_contains_str, strand_eq, strand_norm, u64_to_string,
    vec_contains_string, lemma_vec_deep_view_index, lemma_vec_deep_view_len,
};

verus! {

broadcast use lemma_vec_deep_view_index, lemma_vec_deep_view_len;

/// The direction of a comparison pass.
#[derive(Clone, Copy, PartialEq, Eq, Structural, Debug)]
pub enum CompareMode {
    Forward,
    Reverse,
}

/// Appends one change, relating the deep view to the old one.
pub fn push_change(out: &mut Vec<Change>, c: Change)
    ensures
        final(out).deep_view() == old(out).deep_view().push(c@),
{
    let ghost pv = out@;
    let ghost pdv = out.deep_view();
    out.push(c);
    proof {
        assert forall|k: int| 0 <= k < out@.len() implies #[trigger] out.deep_view()[k]
            == pdv.push(out@[pv.len() as int]@)[k] by {
            assert(out.deep_view()[k] == out@[k].deep_view());
            if k < pv.len() {
                assert(out@[k] == pv[k]);
                assert(pdv[k] == pv[k].deep_view());
            }
        }
        assert(out.deep_view() =~= pdv.push(c@));
    }
}

/// Whether the two records differ in the given scalar field.  Strands are
/// compared by the symbol they denote.
pub open spec fn field_differs(r1: RecordV, r2: RecordV, f: FieldKey) -> bool {
    match f {
        FieldKey::Seqname => r1.seqname != r2.seqname,
        FieldKey::Source => r1.source != r2.source,
        FieldKey::FeatureType => r1.feature_type != r2.feature_type,
        FieldKey::Start => r1.start != r2.start,
        FieldKey::End => r1.end != r2.end,
        FieldKey::Score => r1.score != r2.score,
        FieldKey::Strand => norm_strand(r1.strand) != norm_strand(r2.strand),
        FieldKey::Frame => r1.frame != r2.frame,
    }
}

/// The value a field update carries: the new side's value, coordinates in
/// decimal, strands as their normalized symbol.
pub open spec fn updated_value(r2: RecordV, f: FieldKey) -> Seq<char> {
    match f {
        FieldKey::Seqname => r2.seqname,
        FieldKey::Source => r2.source,
        FieldKey::FeatureType => r2.feature_type,
        FieldKey::Start => dec_seq(r2.start as nat),
        FieldKey::End => dec_seq(r2.end as nat),
        FieldKey::Score => r2.score,
        FieldKey::Strand => norm_strand(r2.strand),
        FieldKey::Frame => r2.frame,
    }
}

/// The update emitted for one field when the records differ there.
pub open spec fn field_change_one(id: Seq<char>, f: FieldKey, r1: RecordV, r2: RecordV) -> Seq<
    ChangeV,
> {
    if field_differs(r1, r2, f) {
        seq![ChangeV::RowFieldUpdated { id: id, field: f, value: updated_value(r2, f) }]
    } else {
        Seq::empty()
    }
}

/// The scalar field comparison table: one potential update per field, in
/// fixed order.
pub open spec fn field_changes(id: Seq<char>, r1: RecordV, r2: RecordV) -> Seq<ChangeV> {
    field_change_one(id, FieldKey::Seqname, r1, r2) + field_change_one(id, FieldKey::Source, r1, r2)
        + field_change_one(id, FieldKey::FeatureType, r1, r2) + field_change_one(
        id,
        FieldKey::Start,
        r1,
        r2,
    ) + field_change_one(id, FieldKey::End, r1, r2) + field_change_one(id, FieldKey::Score, r1, r2)
        + field_change_one(id, FieldKey::Strand, r1, r2) + field_change_one(
        id,
        FieldKey::Frame,
        r1,
        r2,
    )
}

/// An attribute add or remove change.
pub open spec fn mk_attr_change(id: Seq<char>, k: Seq<char>, v: Seq<char>, add: bool) -> ChangeV {
    if add {
        ChangeV::AttributeAdded { id: id, key: k, value: v }
    } else {
        ChangeV::AttributeRemoved { id: id, key: k, value: v }
    }
}

/// One change per value, in order: what a key the other side entirely
/// lacks emits.
pub open spec fn all_value_changes(
    id: Seq<char>,
    k: Seq<char>,
    values: Seq<Seq<char>>,
    add: bool,
) -> Seq<ChangeV>
    decreases values.len(),
{
    if values.len() == 0 {
        Seq::empty()
    } else {
        all_value_changes(id, k, values.drop_last(), add).push(
            mk_attr_change(id, k, values.last(), add),
        )
    }
}

/// One change per value of `from` absent from `against`, in order.
pub open spec fn sift_changes(
    id: Seq<char>,
    k: Seq<char>,
    from: Seq<Seq<char>>,
    against: Seq<Seq<char>>,
    add: bool,
) -> Seq<ChangeV>
    decreases from.len(),
{
    if from.len() == 0 {
        Seq::empty()
    } else {
        let rest = sift_changes(id, k, from.drop_last(), against, add);
        if !seq_contains_str(against, from.last()) {
            rest.push(mk_attr_change(id, k, from.last(), add))
        } else {
            rest
        }
    }
}

/// What comparing one key's values against the other side's attributes
/// emits.  `forward` is the direction: a key the other side lacks is a
/// removal read forward, an addition read backward; for a shared key the
/// other side's extra values are additions read forward, removals read
/// backward, and only the backward direction additionally emits an
/// addition for every value of the primary side absent from the other.
pub open spec fn attr_cmp_one(
    id: Seq<char>,
    k: Seq<char>,
    values: Seq<Seq<char>>,
    other: AttrsV,
    forward: bool,
) -> Seq<ChangeV> {
    if !attr_has_key(other, k) {
        all_value_changes(id, k, values, !forward)
    } else {
        let values2 = attr_values(other, k);
        let main = sift_changes(id, k, values2, values, forward);
        if forward {
            main
        } else {
            main + sift_changes(id, k, values, values2, true)
        }
    }
}

/// The attribute comparison of one side's entries against the other side,
/// entry by entry in order.
pub open spec fn attrs_walk(
    id: Seq<char>,
    a: AttrsV,
    other: AttrsV,
    forward: bool,
) -> Seq<ChangeV>
    decreases a.len(),
{
    if a.len() == 0 {
        Seq::empty()
    } else {
        attrs_walk(id, a.drop_last(), other, forward) + attr_cmp_one(
            id,
            a.last().0,
            a.last().1,
            other,
            forward,
        )
    }
}

/// Everything emitted for an id present in both stores: the scalar field
/// table, then both directions of the attribute comparison.
pub open spec fn entry_changes(id: Seq<char>, r1: RecordV, r2: RecordV) -> Seq<ChangeV> {
    field_changes(id, r1, r2) + attrs_walk(id, r1.attrs, r2.attrs, true) + attrs_walk(
        id,
        r2.attrs,
        r1.attrs,
        false,
    )
}

/// The forward pass over the first store's entries: shared ids are fully
/// compared, ids only here become row removals with their snapshot.
pub open spec fn forward_pass_spec(entries: StoreV, other: StoreV) -> Seq<ChangeV>
    decreases entries.len(),
{
    if entries.len() == 0 {
        Seq::empty()
    } else {
        let rest = forward_pass_spec(entries.drop_last(), other);
        let id = entries.last().0;
        let r1 = entries.last().1;
        if store_has_id(other, id) {
            rest + entry_changes(id, r1, store_rec(other, id))
        } else {
            rest.push(ChangeV::RowRemoved { id: id, snapshot: r1 })
        }
    }
}

/// The reverse pass over the second store's entries: ids absent from the
/// first store become row additions with their snapshot; shared ids were
/// handled by the forward pass.
pub open spec fn reverse_pass_spec(entries: StoreV, other: StoreV) -> Seq<ChangeV>
    decreases entries.len(),
{
    if entries.len() == 0 {
        Seq::empty()
    } else {
        let rest = reverse_pass_spec(entries.drop_last(), other);
        let id = entries.last().0;
        let r2 = entries.last().1;
        if store_has_id(other, id) {
            rest
        } else {
            rest.push(ChangeV::RowAdded { id: id, snapshot: r2 })
        }
    }
}

/// The whole diff: forward pass over the first store, then reverse pass
/// over the second.
pub open spec fn diff_spec(s1: StoreV, s2: StoreV) -> Seq<ChangeV> {
    forward_pass_spec(s1, s2) + reverse_pass_spec(s2, s1)
}

/// Compares the values under one key against the other side's attributes
/// and appends the emitted changes.
pub fn compare_attributes(
    id: &String,
    key: &String,
    values: &Vec<String>,
    attrs: &Attrs,
    mode: CompareMode,
    result: &mut Vec<Change>,
)
    requires
        attrs_wf(attrs@),
    ensures
        final(result).deep_view() == old(result).deep_view() + attr_cmp_one(
            id@,
            key@,
            values.deep_view(),
            attrs@,
            mode is Forward,
        ),
{
    let ghost base = result.deep_view();
    let ghost fwd = mode is Forward;
    let forward = match mode {
        CompareMode::Forward => true,
        CompareMode::Reverse => false,
    };
    match attrs.get_vec(key) {
        None => {
            let mut j: usize = 0;
            while j < values.len()
                invariant
                    0 <= j <= values@.len(),
                    result.deep_view() =~= base + all_value_changes(
                        id@,
                        key@,
                        values.deep_view().take(j as int),
                        !fwd,
                    ),
                    forward == fwd,
                decreases values.len() - j,
            {
                let c = if forward {
                    Change::AttributeRemoved {
                        id: id.clone(),
                        key: key.clone(),
                        value: values[j].clone(),
                    }
                } else {
                    Change::AttributeAdded {
                        id: id.clone(),
                        key: key.clone(),
                        value: values[j].clone(),
                    }
                };
                push_change(result, c);
                proof {
                    let vs = values.deep_view();
                    assert(vs.take(j + 1).drop_last() =~= vs.take(j as int));
                    assert(vs.take(j + 1).last() == vs[j as int]);
                }
                j = j + 1;
            }
            proof {
                assert(values.deep_view().take(values@.len() as int) =~= values.deep_view());
            }
        },
        Some(values2) => {
            let mut j: usize = 0;
            while j < values2.len()
                invariant
                    0 <= j <= values2@.len(),
                    attr_has_key(attrs@, key@),
                    values2.deep_view() == attr_values(attrs@, key@),
                    result.deep_view() =~= base + sift_changes(
                        id@,
                        key@,
                        values2.deep_view().take(j as int),
                        values.deep_view(),
                        fwd,
                    ),
                    forward == fwd,
                decreases values2.len() - j,
            {
                proof {
                    let vs = values2.deep_view();
                    assert(vs.take(j + 1).drop_last() =~= vs.take(j as int));
                    assert(vs.take(j + 1).last() == vs[j as int]);
                }
                if !vec_contains_string(values, &values2[j]) {
                    let c = if forward {
                        Change::AttributeAdded {
                            id: id.clone(),
                            key: key.clone(),
                            value: values2[j].clone(),
                        }
                    } else {
                        Change::AttributeRemoved {
                            id: id.clone(),
                            key: key.clone(),
                            value: values2[j].clone(),
                        }
                    };
                    push_change(result, c);
                }
                j = j + 1;
            }
            proof {
                assert(values2.deep_view().take(values2@.len() as int) =~= values2.deep_view());
            }
            if !forward {
                let ghost base2 = result.deep_view();
                let mut j: usize = 0;
                while j < values.len()
                    invariant
                        0 <= j <= values@.len(),
                        attr_has_key(attrs@, key@),
                        values2.deep_view() == attr_values(attrs@, key@),
                        result.deep_view() =~= base2 + sift_changes(
                            id@,
                            key@,
                            values.deep_view().take(j as int),
                            values2.deep_view(),
                            true,
                        ),
                    decreases values.len() - j,
                {
                    proof {
                        let vs = values.deep_view();
                        assert(vs.take(j + 1).drop_last() =~= vs.take(j as int));
                        assert(vs.take(j + 1).last() == vs[j as int]);
                    }
                    if !vec_contains_string(values2, &values[j]) {
                        push_change(
                            result,
                            Change::AttributeAdded {
                                id: id.clone(),
                                key: key.clone(),
                                value: values[j].clone(),
                            },
                        );
                    }
                    j = j + 1;
                }
                proof {
                    assert(values.deep_view().take(values@.len() as int) =~= values.deep_view());
                }
            }
        },
    }
}

/// Compares the eight scalar fields of two records sharing an id; one
/// update per differing field, values taken from the second record.
#[verifier::rlimit(50)]
pub fn compare_basics(r1: &Record, r2: &Record, id: &String) -> (out: Vec<Change>)
    ensures
        out.deep_view() == field_changes(id@, r1@, r2@),
{
    let mut out: Vec<Change> = Vec::new();
    let ghost t0 = Seq::<ChangeV>::empty();
    if !r1.seqname.eq(&r2.seqname) {
        push_change(
            &mut out,
            Change::RowFieldUpdated {
                id: id.clone(),
                field: FieldKey::Seqname,
                value: r2.seqname.clone(),
            },
        );
    }
    proof {
        assert(out.deep_view() =~= field_change_one(id@, FieldKey::Seqname, r1@, r2@));
    }
    let ghost t1 = out.deep_view();
    if !r1.source.eq(&r2.source) {
        push_change(
            &mut out,
            Change::RowFieldUpdated {
                id: id.clone(),
                field: FieldKey::Source,
                value: r2.source.clone(),
            },
        );
    }
    proof {
        assert(out.deep_view() =~= t1 + field_change_one(id@, FieldKey::Source, r1@, r2@));
    }
    let ghost t2 = out.deep_view();
    if !r1.feature_type.eq(&r2.feature_type) {
        push_change(
            &mut out,
            Change::RowFieldUpdated {
                id: id.clone(),
                field: FieldKey::FeatureType,
                value: r2.feature_type.clone(),
            },
        );
    }
    proof {
        assert(out.deep_view() =~= t2 + field_change_one(id@, FieldKey::FeatureType, r1@, r2@));
    }
    let ghost t3 = out.deep_view();
    if r1.start != r2.start {
        push_change(
            &mut out,
            Change::RowFieldUpdated {
                id: id.clone(),
                field: FieldKey::Start,
                value: u64_to_string(r2.start),
            },
        );
    }
    proof {
        assert(out.deep_view() =~= t3 + field_change_one(id@, FieldKey::Start, r1@, r2@));
    }
    let ghost t4 = out.deep_view();
    if r1.end != r2.end {
        push_change(
            &mut out,
            Change::RowFieldUpdated {
                id: id.clone(),
                field: FieldKey::End,
                value: u64_to_string(r2.end),
            },
        );
    }
    proof {
        assert(out.deep_view() =~= t4 + field_change_one(id@, FieldKey::End, r1@, r2@));
    }
    let ghost t5 = out.deep_view();
    if !r1.score.eq(&r2.score) {
        push_change(
            &mut out,
            Change::RowFieldUpdated {
                id: id.clone(),
                field: FieldKey::Score,
                value: r2.score.clone(),
            },
        );
    }
    proof {
        assert(out.deep_view() =~= t5 + field_change_one(id@, FieldKey::Score, r1@, r2@));
    }
    let ghost t6 = out.deep_view();
    if !strand_eq(&r1.strand, &r2.strand) {
        push_change(
            &mut out,
            Change::RowFieldUpdated {
                id: id.clone(),
                field: FieldKey::Strand,
                value: strand_norm(&r2.strand),
            },
        );
    }
    proof {
        assert(out.deep_view() =~= t6 + field_change_one(id@, FieldKey::Strand, r1@, r2@));
    }
    let ghost t7 = out.deep_view();
    if !r1.frame.eq(&r2.frame) {
        push_change(
            &mut out,
            Change::RowFieldUpdated {
                id: id.clone(),
                field: FieldKey::Frame,
                value: r2.frame.clone(),
            },
        );
    }
    proof {
        assert(out.deep_view() =~= t7 + field_change_one(id@, FieldKey::Frame, r1@, r2@));
        assert(out.deep_view() =~= field_changes(id@, r1@, r2@));
    }
    out
}

/// Appends both directions of the attribute comparison for a shared id.
fn compare_entry_attrs(id: &String, r1: &Record, r2: &Record, result: &mut Vec<Change>)
    requires
        attrs_wf(r1@.attrs),
        attrs_wf(r2@.attrs),
    ensures
        final(result).deep_view() == old(result).deep_view() + attrs_walk(
            id@,
            r1@.attrs,
            r2@.attrs,
            true,
        ) + attrs_walk(id@, r2@.attrs, r1@.attrs, false),
{
    let ghost base = result.deep_view();
    let mut j: usize = 0;
    while j < r1.attributes.entries.len()
        invariant
            0 <= j <= r1.attributes.entries@.len(),
            attrs_wf(r1@.attrs),
            attrs_wf(r2@.attrs),
            result.deep_view() =~= base + attrs_walk(
                id@,
                r1@.attrs.take(j as int),
                r2@.attrs,
                true,
            ),
        decreases r1.attributes.entries.len() - j,
    {
        proof {
            let a = r1@.attrs;
            assert(a.take(j + 1).drop_last() =~= a.take(j as int));
            assert(a.take(j + 1).last() == a[j as int]);
            assert(r1.attributes.entries@[j as int]@ == a[j as int]);
        }
        let e = &r1.attributes.entries[j];
        compare_attributes(id, &e.key, &e.values, &r2.attributes, CompareMode::Forward, result);
        j = j + 1;
    }
    proof {
        assert(r1@.attrs.take(r1.attributes.entries@.len() as int) =~= r1@.attrs);
    }
    let ghost base2 = result.deep_view();
    let mut j: usize = 0;
    while j < r2.attributes.entries.len()
        invariant
            0 <= j <= r2.attributes.entries@.len(),
            attrs_wf(r1@.attrs),
            attrs_wf(r2@.attrs),
            result.deep_view() =~= base2 + attrs_walk(
                id@,
                r2@.attrs.take(j as int),
                r1@.attrs,
                false,
            ),
        decreases r2.attributes.entries.len() - j,
    {
        proof {
            let a = r2@.attrs;
            assert(a.take(j + 1).drop_last() =~= a.take(j as int));
            assert(a.take(j + 1).last() == a[j as int]);
            assert(r2.attributes.entries@[j as int]@ == a[j as int]);
        }
        let e = &r2.attributes.entries[j];
        compare_attributes(id, &e.key, &e.values, &r1.attributes, CompareMode::Reverse, result);
        j = j + 1;
    }
    proof {
        assert(r2@.attrs.take(r2.attributes.entries@.len() as int) =~= r2@.attrs);
        assert(result.deep_view() =~= base + attrs_walk(id@, r1@.attrs, r2@.attrs, true)
            + attrs_walk(id@, r2@.attrs, r1@.attrs, false));
    }
}

/// The forward pass: compares every record of `d1` against `d2`, appending
/// field and attribute changes for shared ids and a row removal for ids
/// only in `d1`.
pub fn forward_pass(d1: &RecordStore, d2: &RecordStore, result: &mut Vec<Change>)
    requires
        store_wf(d1@),
        store_wf(d2@),
    ensures
        final(result).deep_view() == old(result).deep_view() + forward_pass_spec(d1@, d2@),
{
    let ghost base = result.deep_view();
    let mut i: usize = 0;
    while i < d1.entries.len()
        invariant
            0 <= i <= d1.entries@.len(),
            store_wf(d1@),
            store_wf(d2@),
            result.deep_view() =~= base + forward_pass_spec(d1@.take(i as int), d2@),
        decreases d1.entries.len() - i,
    {
        proof {
            assert(d1@.take(i + 1).drop_last() =~= d1@.take(i as int));
            assert(d1@.take(i + 1).last() == d1@[i as int]);
            assert(d1.entries@[i as int]@ == d1@[i as int]);
        }
        let e = &d1.entries[i];
        let id = &e.id;
        let r1 = &e.rec;
        match d2.get(id) {
            Some(r2) => {
                proof {
                    assert(record_wf(r1@));
                    assert(record_wf(r2@));
                }
                let ghost before = result.deep_view();
                let mut basics = compare_basics(r1, r2, id);
                let ghost bdv = basics.deep_view();
                let ghost rpv = result@;
                result.append(&mut basics);
                proof {
                    assert forall|k: int| 0 <= k < result@.len() implies #[trigger] result
                        .deep_view()[k] == (before + bdv)[k] by {
                        assert(result.deep_view()[k] == result@[k].deep_view());
                        if k < rpv.len() {
                            assert(result@[k] == rpv[k]);
                        } else {
                            assert(result@[k].deep_view() == bdv[k - rpv.len()]);
                        }
                    }
                    assert(result.deep_view() =~= before + bdv);
                }
                compare_entry_attrs(id, r1, r2, result);
                proof {
                    assert(result.deep_view() =~= before + entry_changes(id@, r1@, r2@));
                }
            },
            None => {
                push_change(
                    result,
                    Change::RowRemoved { id: id.clone(), snapshot: r1.duplicate() },
                );
            },
        }
        i = i + 1;
    }
    proof {
        assert(d1@.take(d1.entries@.len() as int) =~= d1@);
    }
}

/// The reverse pass: a row addition, with its snapshot, for every id of
/// `d2` absent from `d1`.
pub fn reverse_pass(d2: &RecordStore, d1: &RecordStore, result: &mut Vec<Change>)
    requires
        store_wf(d2@),
        store_wf(d1@),
    ensures
        final(result).deep_view() == old(result).deep_view() + reverse_pass_spec(d2@, d1@),
{
    let ghost base = result.deep_view();
    let mut i: usize = 0;
    while i < d2.entries.len()
        invariant
            0 <= i <= d2.entries@.len(),
            store_wf(d2@),
            store_wf(d1@),
            result.deep_view() =~= base + reverse_pass_spec(d2@.take(i as int), d1@),
        decreases d2.entries.len() - i,
    {
        proof {
            assert(d2@.take(i + 1).drop_last() =~= d2@.take(i as int));
            assert(d2@.take(i + 1).last() == d2@[i as int]);
            assert(d2.entries@[i as int]@ == d2@[i as int]);
        }
        let e = &d2.entries[i];
        if !d1.contains(&e.id) {
            push_change(
                result,
                Change::RowAdded { id: e.id.clone(), snapshot: e.rec.duplicate() },
            );
        }
        i = i + 1;
    }
    proof {
        assert(d2@.take(d2.entries@.len() as int) =~= d2@);
    }
}

/// The whole diff of two stores.
pub fn diff_stores(d1: &RecordStore, d2: &RecordStore) -> (out: Vec<Change>)
    requires
        store_wf(d1@),
        store_wf(d2@),
    ensures
        out.deep_view() == diff_spec(d1@, d2@),
{
    let mut out: Vec<Change> = Vec::new();
    proof {
        assert(out.deep_view() =~= Seq::<ChangeV>::empty());
    }
    forward_pass(d1, d2, &mut out);
    reverse_pass(d2, d1, &mut out);
    proof {
        assert(out.deep_view() =~= diff_spec(d1@, d2@));
    }
    out
}

} // verus!
