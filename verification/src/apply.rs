//! Patch application: consumes wire-shaped changes and mutates a target
//! store in six fixed stages (row removals, row additions, row updates,
//! attribute removals, attribute additions, attribute updates).  The
//! operation is not transactional: a failure aborts at the first refused
//! change, leaving earlier mutations in place.

use vstd::prelude::*;
use crate::change::{RawChange, RawChangeV, RawSnapshotV};
use crate::errors::GffError;
use crate::record::{
    Record, RecordV, AttrsV, attr_has_pair, attr_insert, attr_remove_one, attrs_wf, record_wf,
    default_record_v, set_field_spec,
};
use crate::store::{
    RecordStore, StoreV, store_has_id, store_rec, store_remove, store_update, store_wf,
    lemma_store_idx,
};
use crate::strings::{
    parse_u64, parse_u64_spec, lemma_vec_deep_view_index, lemma_vec_deep_view_len,
};

verus! {

broadcast use lemma_vec_deep_view_index, lemma_vec_deep_view_len;

/// Whether a change belongs to the stage for `(what, act)`.
pub open spec fn matches_stage(c: RawChangeV, what: Seq<char>, act: Seq<char>) -> bool {
    c.what == Some(what) && c.action == Some(act)
}

/// The attribute map built by inserting every value of `vs` under `k`, in
/// order.
pub open spec fn insert_all_values(a: AttrsV, k: Seq<char>, vs: Seq<Seq<char>>) -> AttrsV
    decreases vs.len(),
{
    if vs.len() == 0 {
        a
    } else {
        attr_insert(insert_all_values(a, k, vs.drop_last()), k, vs.last())
    }
}

/// The attribute map built by inserting every entry of `entries`, in order.
pub open spec fn insert_all_entries(a: AttrsV, entries: AttrsV) -> AttrsV
    decreases entries.len(),
{
    if entries.len() == 0 {
        a
    } else {
        insert_all_values(
            insert_all_entries(a, entries.drop_last()),
            entries.last().0,
            entries.last().1,
        )
    }
}

/// A scalar taken from a snapshot, or its default when absent.
pub open spec fn snapshot_scalar(o: Option<Seq<char>>, dflt: Seq<char>) -> Seq<char> {
    match o {
        Some(v) => v,
        None => dflt,
    }
}

/// A coordinate taken from a snapshot: absent means zero, an unparseable
/// value is a fatal parse failure.
pub open spec fn snapshot_coord(o: Option<Seq<char>>) -> Option<u64> {
    match o {
        Some(v) => parse_u64_spec(v),
        None => Some(0u64),
    }
}

/// The record a wire-shaped snapshot reconstructs: missing fields keep
/// their defaults, attributes are inserted pair by pair in order.
pub open spec fn snapshot_rec_spec(o: Option<RawSnapshotV>) -> Result<RecordV, GffError> {
    match o {
        None => Ok(default_record_v()),
        Some(sn) => {
            if snapshot_coord(sn.start) is None || snapshot_coord(sn.end) is None {
                Err(GffError::MalformedNumericField)
            } else {
                Ok(
                    RecordV {
                        seqname: snapshot_scalar(sn.seqname, Seq::empty()),
                        source: snapshot_scalar(sn.source, Seq::empty()),
                        feature_type: snapshot_scalar(sn.feature_type, Seq::empty()),
                        start: snapshot_coord(sn.start).unwrap(),
                        end: snapshot_coord(sn.end).unwrap(),
                        score: snapshot_scalar(sn.score, seq!['.']),
                        strand: snapshot_scalar(sn.strand, seq!['.']),
                        frame: snapshot_scalar(sn.frame, seq!['.']),
                        attrs: insert_all_entries(Seq::empty(), sn.attributes),
                    },
                )
            }
        },
    }
}

/// What a row removal does: drop the id if present, never an error beyond
/// a missing id.
pub open spec fn row_remove_spec(c: RawChangeV, s: StoreV) -> Result<StoreV, GffError> {
    match c.id {
        None => Err(GffError::MissingField),
        Some(id) => Ok(store_remove(s, id)),
    }
}

/// What a row addition does: reconstruct the snapshot, then insert it only
/// if the id is not already present.
pub open spec fn row_add_spec(c: RawChangeV, s: StoreV) -> Result<StoreV, GffError> {
    match c.id {
        None => Err(GffError::MissingField),
        Some(id) => match snapshot_rec_spec(c.snapshot) {
            Err(e) => Err(e),
            Ok(rec) => if store_has_id(s, id) {
                Ok(s)
            } else {
                Ok(s.push((id, rec)))
            },
        },
    }
}

/// What a row update does: the id must be present, the named scalar field
/// is set, coordinates parse or fail fatally.
pub open spec fn row_update_spec(c: RawChangeV, s: StoreV) -> Result<StoreV, GffError> {
    match c.id {
        None => Err(GffError::MissingField),
        Some(id) => if !store_has_id(s, id) {
            Err(GffError::UnknownId)
        } else {
            match c.value {
                None => Err(GffError::MissingField),
                Some(v) => match c.key {
                    None => Err(GffError::MissingField),
                    Some(k) => match set_field_spec(store_rec(s, id), k, v) {
                        Ok(r2) => Ok(store_update(s, id, r2)),
                        Err(e) => Err(e),
                    },
                },
            }
        },
    }
}

/// What an attribute-stage change does: additions insert the pair
/// (duplicates permitted), removals drop exactly one matching value and
/// refuse an absent pair, and any other action is refused.
pub open spec fn attr_apply_spec(c: RawChangeV, s: StoreV, act: Seq<char>) -> Result<
    StoreV,
    GffError,
> {
    match c.id {
        None => Err(GffError::MissingField),
        Some(id) => if !store_has_id(s, id) {
            Err(GffError::UnknownId)
        } else {
            match c.key {
                None => Err(GffError::MissingField),
                Some(k) => match c.value {
                    None => Err(GffError::MissingField),
                    Some(v) => {
                        let rec = store_rec(s, id);
                        if act == "add"@ {
                            Ok(
                                store_update(
                                    s,
                                    id,
                                    RecordV { attrs: attr_insert(rec.attrs, k, v), ..rec },
                                ),
                            )
                        } else if act == "remove"@ {
                            if attr_has_pair(rec.attrs, k, v) {
                                Ok(
                                    store_update(
                                        s,
                                        id,
                                        RecordV { attrs: attr_remove_one(rec.attrs, k, v), ..rec },
                                    ),
                                )
                            } else {
                                Err(GffError::MissingAttribute)
                            }
                        } else {
                            Err(GffError::UnrecognizedAction)
                        }
                    },
                },
            }
        },
    }
}

/// What one matched change does to the store.
pub open spec fn apply_one_spec(c: RawChangeV, s: StoreV, what: Seq<char>, act: Seq<char>) -> Result<
    StoreV,
    GffError,
> {
    if what == "row"@ {
        if act == "remove"@ {
            row_remove_spec(c, s)
        } else if act == "add"@ {
            row_add_spec(c, s)
        } else {
            row_update_spec(c, s)
        }
    } else {
        attr_apply_spec(c, s, act)
    }
}

/// One stage: the changes matching `(what, act)`, applied in order; the
/// first refusal stops the stage with the store as mutated so far.
pub open spec fn run_stage_spec(
    cs: Seq<RawChangeV>,
    s: StoreV,
    what: Seq<char>,
    act: Seq<char>,
) -> (StoreV, Option<GffError>)
    decreases cs.len(),
{
    if cs.len() == 0 {
        (s, None)
    } else {
        let c = cs[0];
        if matches_stage(c, what, act) {
            match apply_one_spec(c, s, what, act) {
                Ok(s2) => run_stage_spec(cs.drop_first(), s2, what, act),
                Err(e) => (s, Some(e)),
            }
        } else {
            run_stage_spec(cs.drop_first(), s, what, act)
        }
    }
}

/// The whole application: six fixed stages, aborting at the first failure
/// and keeping earlier stages' mutations.
pub open spec fn apply_spec(cs: Seq<RawChangeV>, s: StoreV) -> (StoreV, Option<GffError>) {
    let st1 = run_stage_spec(cs, s, "row"@, "remove"@);
    if st1.1 is Some {
        st1
    } else {
        let st2 = run_stage_spec(cs, st1.0, "row"@, "add"@);
        if st2.1 is Some {
            st2
        } else {
            let st3 = run_stage_spec(cs, st2.0, "row"@, "update"@);
            if st3.1 is Some {
                st3
            } else {
                let st4 = run_stage_spec(cs, st3.0, "attribute"@, "remove"@);
                if st4.1 is Some {
                    st4
                } else {
                    let st5 = run_stage_spec(cs, st4.0, "attribute"@, "add"@);
                    if st5.1 is Some {
                        st5
                    } else {
                        run_stage_spec(cs, st5.0, "attribute"@, "update"@)
                    }
                }
            }
        }
    }
}

/// Reconstructs a record from a wire-shaped snapshot.
pub fn record_from_snapshot(snap: &Option<crate::change::RawSnapshot>) -> (r: Result<
    Record,
    GffError,
>)
    ensures
        match snapshot_rec_spec(snap.deep_view()) {
            Ok(rv) => r is Ok && r.unwrap()@ == rv && record_wf(rv),
            Err(e) => r == Err::<Record, GffError>(e),
        },
{
    let mut rec = Record::new();
    let sn = match snap {
        None => {
            return Ok(rec);
        },
        Some(sn) => sn,
    };
    match &sn.seqname {
        Some(v) => {
            rec.seqname = v.clone();
        },
        None => {},
    }
    match &sn.source {
        Some(v) => {
            rec.source = v.clone();
        },
        None => {},
    }
    match &sn.feature_type {
        Some(v) => {
            rec.feature_type = v.clone();
        },
        None => {},
    }
    match &sn.start {
        Some(v) => {
            match parse_u64(v.as_str()) {
                Some(n) => {
                    rec.start = n;
                },
                None => {
                    return Err(GffError::MalformedNumericField);
                },
            }
        },
        None => {},
    }
    match &sn.end {
        Some(v) => {
            match parse_u64(v.as_str()) {
                Some(n) => {
                    rec.end = n;
                },
                None => {
                    return Err(GffError::MalformedNumericField);
                },
            }
        },
        None => {},
    }
    match &sn.score {
        Some(v) => {
            rec.score = v.clone();
        },
        None => {},
    }
    match &sn.strand {
        Some(v) => {
            rec.strand = v.clone();
        },
        None => {},
    }
    match &sn.frame {
        Some(v) => {
            rec.frame = v.clone();
        },
        None => {},
    }
    let mut built = crate::record::Attrs::new();
    let mut i: usize = 0;
    while i < sn.attributes.entries.len()
        invariant
            0 <= i <= sn.attributes.entries@.len(),
            built@ == insert_all_entries(Seq::empty(), sn.attributes@.take(i as int)),
            attrs_wf(built@),
        decreases sn.attributes.entries.len() - i,
    {
        proof {
            let a = sn.attributes@;
            assert(a.take(i + 1).drop_last() =~= a.take(i as int));
            assert(a.take(i + 1).last() == a[i as int]);
            assert(sn.attributes.entries@[i as int]@ == a[i as int]);
        }
        let e = &sn.attributes.entries[i];
        let ghost abase = built@;
        let mut j: usize = 0;
        while j < e.values.len()
            invariant
                0 <= j <= e.values@.len(),
                attrs_wf(built@),
                built@ == insert_all_values(abase, e.key@, e.values.deep_view().take(j as int)),
            decreases e.values.len() - j,
        {
            proof {
                let vs = e.values.deep_view();
                assert(vs.take(j + 1).drop_last() =~= vs.take(j as int));
                assert(vs.take(j + 1).last() == vs[j as int]);
            }
            built.insert(e.key.clone(), e.values[j].clone());
            j = j + 1;
        }
        proof {
            assert(e.values.deep_view().take(e.values@.len() as int) =~= e.values.deep_view());
        }
        i = i + 1;
    }
    proof {
        assert(sn.attributes@.take(sn.attributes.entries@.len() as int) =~= sn.attributes@);
    }
    rec.attributes = built;
    Ok(rec)
}

/// Applies one matched change to the store; the store is untouched when
/// the change is refused.
fn apply_one_change(c: &RawChange, store: &mut RecordStore, what: &String, act: &String) -> (r:
    Result<(), GffError>)
    requires
        store_wf(old(store)@),
        matches_stage(c@, what@, act@),
    ensures
        match apply_one_spec(c@, old(store)@, what@, act@) {
            Ok(s2) => r is Ok && final(store)@ == s2,
            Err(e) => r == Err::<(), GffError>(e) && final(store)@ == old(store)@,
        },
        store_wf(final(store)@),
{
    let row_lit = String::from_str("row");
    let remove_lit = String::from_str("remove");
    let add_lit = String::from_str("add");
    if what.eq(&row_lit) {
        if act.eq(&remove_lit) {
            match &c.id {
                None => Err(GffError::MissingField),
                Some(id) => {
                    store.remove_id(id);
                    Ok(())
                },
            }
        } else if act.eq(&add_lit) {
            match &c.id {
                None => Err(GffError::MissingField),
                Some(id) => {
                    let rec = match record_from_snapshot(&c.snapshot) {
                        Ok(rec) => rec,
                        Err(e) => {
                            return Err(e);
                        },
                    };
                    if !store.contains(id) {
                        store.insert_absent(id.clone(), rec);
                    }
                    Ok(())
                },
            }
        } else {
            match &c.id {
                None => Err(GffError::MissingField),
                Some(id) => {
                    let i = match store.find(id) {
                        None => {
                            return Err(GffError::UnknownId);
                        },
                        Some(i) => i,
                    };
                    proof {
                        lemma_store_idx(store@, id@, i as int);
                    }
                    let v = match &c.value {
                        None => {
                            return Err(GffError::MissingField);
                        },
                        Some(v) => v,
                    };
                    let k = match &c.key {
                        None => {
                            return Err(GffError::MissingField);
                        },
                        Some(k) => k,
                    };
                    let ghost pre = store@;
                    let e = &mut store.entries[i];
                    let res = e.rec.set_field(k, v);
                    proof {
                        match set_field_spec(pre[i as int].1, k@, v@) {
                            Ok(r2) => {
                                assert(store@ =~= store_update(pre, id@, r2)) by {
                                    assert(store.entries@[i as int]@ == (id@, r2));
                                    assert(forall|x: int|
                                        0 <= x < pre.len() && x != i
                                            ==> #[trigger] store.entries@[x]@ == pre[x]);
                                }
                                assert(store_wf(store@)) by {
                                    assert(forall|x: int|
                                        0 <= x < store@.len() && x != i ==> #[trigger] store@[x]
                                            == pre[x]);
                                    assert(store@[i as int].0 == id@);
                                    assert(record_wf(store@[i as int].1));
                                }
                            },
                            Err(_) => {
                                assert(store@ =~= pre) by {
                                    assert(forall|x: int|
                                        0 <= x < pre.len() ==> #[trigger] store.entries@[x]@
                                            == pre[x]);
                                }
                            },
                        }
                    }
                    res
                },
            }
        }
    } else {
        match &c.id {
            None => Err(GffError::MissingField),
            Some(id) => {
                let i = match store.find(id) {
                    None => {
                        return Err(GffError::UnknownId);
                    },
                    Some(i) => i,
                };
                proof {
                    lemma_store_idx(store@, id@, i as int);
                }
                let k = match &c.key {
                    None => {
                        return Err(GffError::MissingField);
                    },
                    Some(k) => k,
                };
                let v = match &c.value {
                    None => {
                        return Err(GffError::MissingField);
                    },
                    Some(v) => v,
                };
                let ghost pre = store@;
                if act.eq(&add_lit) {
                    let e = &mut store.entries[i];
                    e.rec.attributes.insert(k.clone(), v.clone());
                    proof {
                        let r2 = RecordV {
                            attrs: attr_insert(pre[i as int].1.attrs, k@, v@),
                            ..pre[i as int].1
                        };
                        assert(store@ =~= store_update(pre, id@, r2)) by {
                            assert(store.entries@[i as int]@ == (id@, r2));
                            assert(forall|x: int|
                                0 <= x < pre.len() && x != i ==> #[trigger] store.entries@[x]@
                                    == pre[x]);
                        }
                        assert(store_wf(store@)) by {
                            assert(forall|x: int|
                                0 <= x < store@.len() && x != i ==> #[trigger] store@[x] == pre[
                                x]);
                            assert(store@[i as int].0 == id@);
                            assert(record_wf(store@[i as int].1));
                        }
                    }
                    Ok(())
                } else if act.eq(&remove_lit) {
                    let e = &mut store.entries[i];
                    let ok = e.rec.attributes.remove_value(k, v);
                    proof {
                        let r2 = RecordV {
                            attrs: attr_remove_one(pre[i as int].1.attrs, k@, v@),
                            ..pre[i as int].1
                        };
                        if attr_has_pair(pre[i as int].1.attrs, k@, v@) {
                            assert(store@ =~= store_update(pre, id@, r2)) by {
                                assert(store.entries@[i as int]@ == (id@, r2));
                                assert(forall|x: int|
                                    0 <= x < pre.len() && x != i ==> #[trigger] store.entries@[x]@
                                        == pre[x]);
                            }
                        } else {
                            assert(store@ =~= pre) by {
                                assert(forall|x: int|
                                    0 <= x < pre.len() ==> #[trigger] store.entries@[x]@ == pre[
                                    x]);
                            }
                        }
                        assert(store_wf(store@)) by {
                            assert(forall|x: int|
                                0 <= x < store@.len() && x != i ==> #[trigger] store@[x] == pre[
                                x]);
                            assert(record_wf(store@[i as int].1));
                        }
                    }
                    if ok {
                        Ok(())
                    } else {
                        Err(GffError::MissingAttribute)
                    }
                } else {
                    Err(GffError::UnrecognizedAction)
                }
            },
        }
    }
}

/// Runs one stage over the whole change list.
fn apply_stage(changes: &Vec<RawChange>, store: &mut RecordStore, what: &String, act: &String) -> (r:
    Result<(), GffError>)
    requires
        store_wf(old(store)@),
    ensures
        ({
            let st = run_stage_spec(changes.deep_view(), old(store)@, what@, act@);
            final(store)@ == st.0 && (match r {
                Ok(_) => st.1 is None,
                Err(e) => st.1 == Some(e),
            })
        }),
        store_wf(final(store)@),
{
    let ghost cs = changes.deep_view();
    let ghost s0 = store@;
    proof {
        assert(cs.skip(0) =~= cs);
    }
    let mut i: usize = 0;
    while i < changes.len()
        invariant
            0 <= i <= cs.len(),
            cs == changes.deep_view(),
            cs.len() == changes@.len(),
            s0 == old(store)@,
            store_wf(store@),
            run_stage_spec(cs, s0, what@, act@) == run_stage_spec(
                cs.skip(i as int),
                store@,
                what@,
                act@,
            ),
        decreases changes.len() - i,
    {
        proof {
            assert(cs.skip(i as int).len() > 0);
            assert(cs.skip(i as int)[0] == cs[i as int]);
            assert(cs.skip(i as int).drop_first() =~= cs.skip(i + 1));
            assert(changes@[i as int].deep_view() == cs[i as int]);
        }
        let c = &changes[i];
        let matched = (match &c.what {
            Some(w) => w.eq(what),
            None => false,
        }) && (match &c.action {
            Some(a) => a.eq(act),
            None => false,
        });
        if matched {
            proof {
                assert(matches_stage(cs[i as int], what@, act@));
            }
            let ghost pre = store@;
            match apply_one_change(c, store, what, act) {
                Ok(_) => {
                    proof {
                        assert(run_stage_spec(cs.skip(i as int), pre, what@, act@)
                            == run_stage_spec(cs.skip(i + 1), store@, what@, act@));
                    }
                },
                Err(e) => {
                    proof {
                        assert(run_stage_spec(cs.skip(i as int), pre, what@, act@) == (
                        pre,
                        Some(e),
                        ));
                    }
                    return Err(e);
                },
            }
        } else {
            proof {
                assert(!matches_stage(cs[i as int], what@, act@));
            }
        }
        i = i + 1;
    }
    proof {
        assert(cs.skip(cs.len() as int).len() == 0);
    }
    Ok(())
}

/// Applies a whole change list to the store, in the six-stage order.
pub fn apply_changes(changes: &Vec<RawChange>, store: &mut RecordStore) -> (r: Result<
    (),
    GffError,
>)
    requires
        store_wf(old(store)@),
    ensures
        ({
            let st = apply_spec(changes.deep_view(), old(store)@);
            final(store)@ == st.0 && (match r {
                Ok(_) => st.1 is None,
                Err(e) => st.1 == Some(e),
            })
        }),
        store_wf(final(store)@),
{
    let row_lit = String::from_str("row");
    let attr_lit = String::from_str("attribute");
    let remove_lit = String::from_str("remove");
    let add_lit = String::from_str("add");
    let update_lit = String::from_str("update");
    apply_stage(changes, store, &row_lit, &remove_lit)?;
    apply_stage(changes, store, &row_lit, &add_lit)?;
    apply_stage(changes, store, &row_lit, &update_lit)?;
    apply_stage(changes, store, &attr_lit, &remove_lit)?;
    apply_stage(changes, store, &attr_lit, &add_lit)?;
    apply_stage(changes, store, &attr_lit, &update_lit)?;
    Ok(())
}

} // verus!
