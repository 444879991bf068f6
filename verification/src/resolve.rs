//! Identity reconciliation: maps a record of a modified store back to its
//! identifier in an original store, through the `orig_id` hint or through
//! root-parent lineage and feature type; and the reconciliation diff built
//! on it.

use vstd::prelude::*;
use crate::change::{Change, ChangeV, ChangeSet};
use crate::diff::{compare_basics, field_changes};
use crate::record::{
    Record, RecordV, FieldKey, attr_first, attrs_wf, record_wf,
};
use crate::store::{RecordStore, StoreV, store_has_id, store_rec, store_wf};
use crate::strings::{
    seq_contains_str, vec_contains_string, lemma_vec_deep_view_index, lemma_vec_deep_view_len,
};

verus! {

broadcast use lemma_vec_deep_view_index, lemma_vec_deep_view_len;

/// A list of distinct ids all present in a store is no longer than the
/// store.
proof fn lemma_distinct_ids_bound(s: StoreV, seen: Seq<Seq<char>>)
    requires
        seen.no_duplicates(),
        forall|i: int| 0 <= i < seen.len() ==> store_has_id(s, #[trigger] seen[i]),
    ensures
        seen.len() <= s.len(),
{
    let ids = s.map_values(|e: (Seq<char>, RecordV)| e.0);
    assert(seen.to_set().subset_of(ids.to_set())) by {
        assert forall|x: Seq<char>| seen.to_set().contains(x) implies ids.to_set().contains(x) by {
            let i = choose|i: int| 0 <= i < seen.len() && seen[i] == x;
            assert(store_has_id(s, x));
            let j = choose|j: int| 0 <= j < s.len() && s[j].0 == x;
            assert(ids[j] == x);
            assert(ids.contains(x));
        }
    }
    seen.unique_seq_to_set();
    ids.lemma_cardinality_of_set();
    vstd::set_lib::lemma_len_subset(seen.to_set(), ids.to_set());
}

/// The root of the `Parent` chain from `id`: follow `Parent` links until a
/// record has none; a missing id or a revisited id (a cycle) gives `None`.
/// `seen` holds the ids already visited.
pub open spec fn root_chase(s: StoreV, id: Seq<char>, seen: Seq<Seq<char>>) -> Option<Seq<char>>
    decreases s.len() + 1 - seen.len(),
        when seen.no_duplicates() && (forall|i: int|
            0 <= i < seen.len() ==> store_has_id(s, #[trigger] seen[i]))
        via root_chase_decreases
{
    if seen.contains(id) {
        None
    } else if !store_has_id(s, id) {
        None
    } else {
        match attr_first(store_rec(s, id).attrs, "Parent"@) {
            None => Some(id),
            Some(p) => root_chase(s, p, seen.push(id)),
        }
    }
}

#[via_fn]
proof fn root_chase_decreases(s: StoreV, id: Seq<char>, seen: Seq<Seq<char>>) {
    if !seen.contains(id) && store_has_id(s, id) {
        let seen2 = seen.push(id);
        assert(seen2.no_duplicates()) by {
            assert(forall|i: int| 0 <= i < seen.len() ==> seen2[i] == #[trigger] seen[i]);
            assert(seen2[seen.len() as int] == id);
        }
        assert(forall|i: int| 0 <= i < seen2.len() ==> store_has_id(s, #[trigger] seen2[i])) by {
            assert(forall|i: int| 0 <= i < seen.len() ==> seen2[i] == #[trigger] seen[i]);
        }
        lemma_distinct_ids_bound(s, seen2);
    }
}

/// Follows the `Parent` chain from `id` to its root, with an explicit
/// visited set; cycles and dangling links give `None` instead of running
/// unboundedly.
pub fn root_parent_of(store: &RecordStore, id: &String) -> (r: Option<String>)
    requires
        store_wf(store@),
    ensures
        match r {
            Some(x) => root_chase(store@, id@, Seq::empty()) == Some(x@),
            None => root_chase(store@, id@, Seq::empty()) is None,
        },
{
    let parent_lit = String::from_str("Parent");
    let mut cur: String = id.clone();
    let mut seen: Vec<String> = Vec::new();
    proof {
        assert(seen.deep_view() =~= Seq::<Seq<char>>::empty());
    }
    loop
        invariant
            store_wf(store@),
            parent_lit@ == "Parent"@,
            seen.deep_view().no_duplicates(),
            forall|i: int|
                0 <= i < seen.deep_view().len() ==> store_has_id(
                    store@,
                    #[trigger] seen.deep_view()[i],
                ),
            root_chase(store@, id@, Seq::empty()) == root_chase(store@, cur@, seen.deep_view()),
        decreases store@.len() + 1 - seen@.len(),
    {
        proof {
            lemma_distinct_ids_bound(store@, seen.deep_view());
        }
        if vec_contains_string(&seen, &cur) {
            proof {
                assert(seen.deep_view().contains(cur@));
            }
            return None;
        }
        proof {
            assert(!seen.deep_view().contains(cur@)) by {
                assert(!seq_contains_str(seen.deep_view(), cur@));
            }
        }
        let rec = match store.get(&cur) {
            None => {
                return None;
            },
            Some(rec) => rec,
        };
        proof {
            assert(record_wf(rec@));
        }
        match rec.attributes.get_first(&parent_lit) {
            None => {
                return Some(cur);
            },
            Some(p) => {
                let next = p.clone();
                let ghost sv = seen.deep_view();
                let ghost pv = seen@;
                seen.push(cur);
                proof {
                    assert forall|k: int| 0 <= k < seen@.len() implies #[trigger] seen.deep_view()[
                    k] == sv.push(cur@)[k] by {
                        assert(seen.deep_view()[k] == seen@[k]@);
                        if k < pv.len() {
                            assert(seen@[k] == pv[k]);
                            assert(sv[k] == pv[k]@);
                        }
                    }
                    assert(seen.deep_view() =~= sv.push(cur@));
                    assert(seen.deep_view().no_duplicates()) by {
                        assert(forall|i: int| 0 <= i < sv.len() ==> seen.deep_view()[i] == #[trigger] sv[i]);
                        assert(seen.deep_view()[sv.len() as int] == cur@);
                    }
                }
                cur = next;
            },
        }
    }
}

/// The first original root parent a scan of the modified store yields: the
/// records are visited in store order; one whose own root parent is
/// `mroot` and whose `orig_id` names a record of the original store
/// contributes that record's root parent, if it has one.
pub open spec fn scan_orig_root(
    o: StoreV,
    m: StoreV,
    rest: StoreV,
    mroot: Seq<char>,
) -> Option<Seq<char>>
    decreases rest.len(),
{
    if rest.len() == 0 {
        None
    } else {
        let eid = rest[0].0;
        let erec = rest[0].1;
        let hit = root_chase(m, eid, Seq::empty()) == Some(mroot) && (match attr_first(
            erec.attrs,
            "orig_id"@,
        ) {
            Some(oid) => store_has_id(o, oid) && root_chase(o, oid, Seq::empty()) is Some,
            None => false,
        });
        if hit {
            root_chase(o, attr_first(erec.attrs, "orig_id"@).unwrap(), Seq::empty())
        } else {
            scan_orig_root(o, m, rest.drop_first(), mroot)
        }
    }
}

/// The ids of the original store's candidate records among `entries`, in
/// store order: same seqname as the modified record, root parent `oroot`
/// in the full store `o`, same feature type.
pub open spec fn candidate_ids(
    o: StoreV,
    entries: StoreV,
    rec: RecordV,
    oroot: Seq<char>,
) -> Seq<Seq<char>>
    decreases entries.len(),
{
    if entries.len() == 0 {
        Seq::empty()
    } else {
        let rest = candidate_ids(o, entries.drop_last(), rec, oroot);
        let e = entries.last();
        if e.1.seqname == rec.seqname && root_chase(o, e.0, Seq::empty()) == Some(oroot)
            && e.1.feature_type == rec.feature_type {
            rest.push(e.0)
        } else {
            rest
        }
    }
}

/// What identity resolution returns for one modified record: the explicit
/// `orig_id` hint when it names a record of the original store, else the
/// single candidate matched through root-parent lineage and feature type;
/// `None` when the hint dangles, no lineage is available, or the match is
/// missing or ambiguous.
pub open spec fn resolve_spec(o: StoreV, m: StoreV, rec: RecordV) -> Option<Seq<char>> {
    match attr_first(rec.attrs, "orig_id"@) {
        Some(orig) => if store_has_id(o, orig) {
            Some(orig)
        } else {
            None
        },
        None => match attr_first(rec.attrs, "ID"@) {
            None => None,
            Some(mid) => match root_chase(m, mid, Seq::empty()) {
                None => None,
                Some(mroot) => match scan_orig_root(o, m, m, mroot) {
                    None => None,
                    Some(oroot) => {
                        let cands = candidate_ids(o, o, rec, oroot);
                        if cands.len() == 1 {
                            Some(cands[0])
                        } else {
                            None
                        }
                    },
                },
            },
        },
    }
}

/// A candidate id names a record of the store the entries came from.
pub proof fn lemma_candidate_in_store(
    o: StoreV,
    entries: StoreV,
    rec: RecordV,
    oroot: Seq<char>,
    i: int,
)
    requires
        forall|k: int| 0 <= k < entries.len() ==> o.contains(#[trigger] entries[k]),
        0 <= i < candidate_ids(o, entries, rec, oroot).len(),
    ensures
        store_has_id(o, candidate_ids(o, entries, rec, oroot)[i]),
    decreases entries.len(),
{
    if entries.len() > 0 {
        let rest = candidate_ids(o, entries.drop_last(), rec, oroot);
        if i < rest.len() {
            assert(forall|k: int|
                0 <= k < entries.len() - 1 ==> entries.drop_last()[k] == #[trigger] entries[k]);
            lemma_candidate_in_store(o, entries.drop_last(), rec, oroot, i);
        } else {
            assert(candidate_ids(o, entries, rec, oroot)[i] == entries.last().0);
            assert(o.contains(entries[entries.len() - 1]));
            let j = choose|j: int| 0 <= j < o.len() && o[j] == entries[entries.len() - 1];
            assert(o[j].0 == entries.last().0);
        }
    }
}

/// Resolves the original-store id corresponding to a modified record.  On
/// failure exactly one diagnostic is appended to `issues` and `None` comes
/// back.
pub fn resolve_original_id(
    data1: &RecordStore,
    data2: &RecordStore,
    rec: &Record,
    issues: &mut Vec<String>,
) -> (r: Option<String>)
    requires
        store_wf(data1@),
        store_wf(data2@),
        record_wf(rec@),
    ensures
        match resolve_spec(data1@, data2@, rec@) {
            Some(oid) => r is Some && r.unwrap()@ == oid && final(issues)@ == old(issues)@
                && store_has_id(data1@, oid),
            None => r is None && final(issues)@.len() == old(issues)@.len() + 1 && old(
                issues,
            ).deep_view().is_prefix_of(final(issues).deep_view()),
        },
{
    let orig_lit = String::from_str("orig_id");
    match rec.attributes.get_first(&orig_lit) {
        Some(orig) => {
            if data1.contains(orig) {
                return Some(orig.clone());
            } else {
                let mut msg = String::from_str("orig_id not found in original set: ");
                msg.append(orig.as_str());
                push_issue(issues, msg);
                return None;
            }
        },
        None => {},
    }
    let id_lit = String::from_str("ID");
    let mid = match rec.attributes.get_first(&id_lit) {
        None => {
            push_issue(issues, String::from_str("record has no ID attribute"));
            return None;
        },
        Some(mid) => mid.clone(),
    };
    let mroot = match root_parent_of(data2, &mid) {
        None => {
            let mut msg = String::from_str("no root parent found for ");
            msg.append(mid.as_str());
            push_issue(issues, msg);
            return None;
        },
        Some(mroot) => mroot,
    };
    let ghost ov = data1@;
    let ghost mv = data2@;
    let mut found: Option<String> = None;
    let mut i: usize = 0;
    proof {
        assert(mv.skip(0) =~= mv);
    }
    while i < data2.entries.len() && found.is_none()
        invariant
            store_wf(ov),
            store_wf(mv),
            ov == data1@,
            mv == data2@,
            orig_lit@ == "orig_id"@,
            0 <= i <= mv.len(),
            match found {
                Some(x) => scan_orig_root(ov, mv, mv, mroot@) == Some(x@),
                None => scan_orig_root(ov, mv, mv, mroot@) == scan_orig_root(
                    ov,
                    mv,
                    mv.skip(i as int),
                    mroot@,
                ),
            },
        decreases mv.len() - i, (if found.is_none() {
            1int
        } else {
            0int
        }),
    {
        proof {
            assert(mv.skip(i as int).len() > 0);
            assert(mv.skip(i as int)[0] == mv[i as int]);
            assert(mv.skip(i as int).drop_first() =~= mv.skip(i + 1));
            assert(data2.entries@[i as int]@ == mv[i as int]);
        }
        let e = &data2.entries[i];
        proof {
            assert(record_wf(e.rec@));
        }
        let ghost c0 = mv[i as int];
        let ghost hit = root_chase(mv, c0.0, Seq::empty()) == Some(mroot@) && (match attr_first(
            c0.1.attrs,
            "orig_id"@,
        ) {
            Some(oid) => store_has_id(ov, oid) && root_chase(ov, oid, Seq::empty()) is Some,
            None => false,
        });
        let same_root = match root_parent_of(data2, &e.id) {
            Some(x) => x.eq(&mroot),
            None => false,
        };
        proof {
            assert(same_root == (root_chase(mv, c0.0, Seq::empty()) == Some(mroot@)));
        }
        if same_root {
            match e.rec.attributes.get_first(&orig_lit) {
                Some(oid) => {
                    if data1.contains(oid) {
                        match root_parent_of(data1, oid) {
                            Some(oroot) => {
                                proof {
                                    assert(hit);
                                    assert(attr_first(c0.1.attrs, "orig_id"@).unwrap() == oid@);
                                    assert(scan_orig_root(ov, mv, mv.skip(i as int), mroot@)
                                        == Some(oroot@));
                                }
                                found = Some(oroot);
                            },
                            None => {
                                proof {
                                    assert(!hit);
                                }
                            },
                        }
                    } else {
                        proof {
                            assert(!hit);
                        }
                    }
                },
                None => {
                    proof {
                        assert(!hit);
                    }
                },
            }
        } else {
            proof {
                assert(!hit);
            }
        }
        proof {
            if found is None {
                assert(scan_orig_root(ov, mv, mv.skip(i as int), mroot@) == scan_orig_root(
                    ov,
                    mv,
                    mv.skip(i + 1),
                    mroot@,
                ));
            }
        }
        i = i + 1;
    }
    let oroot = match found {
        None => {
            let mut msg = String::from_str("no original root parent found for ");
            msg.append(mid.as_str());
            push_issue(issues, msg);
            return None;
        },
        Some(oroot) => oroot,
    };
    let mut count: usize = 0;
    let mut the_id: Option<String> = None;
    let mut j: usize = 0;
    while j < data1.entries.len()
        invariant
            store_wf(ov),
            store_wf(mv),
            ov == data1@,
            mv == data2@,
            record_wf(rec@),
            0 <= j <= ov.len(),
            count <= j,
            count == candidate_ids(ov, ov.take(j as int), rec@, oroot@).len(),
            match the_id {
                Some(x) => count > 0 && candidate_ids(ov, ov.take(j as int), rec@, oroot@)[0]
                    == x@,
                None => count == 0,
            },
        decreases ov.len() - j,
    {
        proof {
            assert(ov.take(j + 1).drop_last() =~= ov.take(j as int));
            assert(ov.take(j + 1).last() == ov[j as int]);
            assert(data1.entries@[j as int]@ == ov[j as int]);
        }
        let e = &data1.entries[j];
        let same_root = match root_parent_of(data1, &e.id) {
            Some(x) => x.eq(&oroot),
            None => false,
        };
        proof {
            assert(same_root == (root_chase(ov, ov[j as int].0, Seq::empty()) == Some(oroot@)));
        }
        if e.rec.seqname.eq(&rec.seqname) && same_root && e.rec.feature_type.eq(&rec.feature_type) {
            if count == 0 {
                the_id = Some(e.id.clone());
            }
            count = count + 1;
        }
        j = j + 1;
    }
    proof {
        assert(ov.take(ov.len() as int) =~= ov);
    }
    if count == 1 {
        match the_id {
            Some(x) => {
                proof {
                    assert(forall|k: int| 0 <= k < ov.len() ==> ov.contains(#[trigger] ov[k]));
                    lemma_candidate_in_store(ov, ov, rec@, oroot@, 0);
                }
                Some(x)
            },
            None => {
                proof {
                    assert(false);
                }
                None
            },
        }
    } else {
        let mut msg = String::from_str("ambiguous or unmatched record for original root ");
        msg.append(oroot.as_str());
        push_issue(issues, msg);
        None
    }
}

/// Whether a reconciliation change is kept: a `source` update whose new
/// value is `.` is the curation tool routinely blanking that field, not a
/// meaningful edit, and is discarded.
pub open spec fn keep_change(c: ChangeV) -> bool {
    match c {
        ChangeV::RowFieldUpdated { id, field, value } => !(field == FieldKey::Source && value
            == seq!['.']),
        _ => true,
    }
}

/// The kept changes, in order.
pub open spec fn filter_keep(s: Seq<ChangeV>) -> Seq<ChangeV>
    decreases s.len(),
{
    if s.len() == 0 {
        s
    } else {
        let rest = filter_keep(s.drop_last());
        if keep_change(s.last()) {
            rest.push(s.last())
        } else {
            rest
        }
    }
}

/// What one modified record contributes to the reconciliation diff: on
/// resolution, the scalar field comparison against the resolved original
/// record, with blanked-source updates discarded; nothing on failure.
pub open spec fn apollo_entry_spec(o: StoreV, m: StoreV, mrec: RecordV) -> Seq<ChangeV> {
    match resolve_spec(o, m, mrec) {
        None => Seq::empty(),
        Some(oid) => filter_keep(field_changes(oid, store_rec(o, oid), mrec)),
    }
}

/// The reconciliation diff over the modified store's entries, in order.
pub open spec fn apollo_changes_spec(o: StoreV, m: StoreV, entries: StoreV) -> Seq<ChangeV>
    decreases entries.len(),
{
    if entries.len() == 0 {
        Seq::empty()
    } else {
        apollo_changes_spec(o, m, entries.drop_last()) + apollo_entry_spec(o, m, entries.last().1)
    }
}

/// How many modified records fail to resolve: each contributes exactly one
/// issue entry.
pub open spec fn apollo_fail_count(o: StoreV, m: StoreV, entries: StoreV) -> int
    decreases entries.len(),
{
    if entries.len() == 0 {
        0
    } else {
        apollo_fail_count(o, m, entries.drop_last()) + (if resolve_spec(
            o,
            m,
            entries.last().1,
        ) is None {
            1int
        } else {
            0int
        })
    }
}

/// The reconciliation diff: `data1` is the original store, `data2` the
/// modified one.  Every modified record is resolved to an original id; on
/// failure an issue is logged and the record skipped.  The issue log is
/// included only when issue recording is on.
pub fn apollo_diff(data1: &RecordStore, data2: &RecordStore, record_issues: bool) -> (cs: ChangeSet)
    requires
        store_wf(data1@),
        store_wf(data2@),
    ensures
        cs@.changes == apollo_changes_spec(data1@, data2@, data2@),
        match cs@.issues {
            Some(iss) => record_issues && iss.len() == apollo_fail_count(data1@, data2@, data2@),
            None => !record_issues,
        },
{
    let mut changes: Vec<Change> = Vec::new();
    let mut issues: Vec<String> = Vec::new();
    let parent_lit = String::from_str("Parent");
    let dot = crate::strings::dot_string();
    let ghost ov = data1@;
    let ghost mv = data2@;
    proof {
        assert(changes.deep_view() =~= apollo_changes_spec(ov, mv, mv.take(0)));
    }
    let mut i: usize = 0;
    while i < data2.entries.len()
        invariant
            store_wf(ov),
            store_wf(mv),
            ov == data1@,
            mv == data2@,
            parent_lit@ == "Parent"@,
            dot@ == seq!['.'],
            0 <= i <= mv.len(),
            changes.deep_view() == apollo_changes_spec(ov, mv, mv.take(i as int)),
            issues@.len() == apollo_fail_count(ov, mv, mv.take(i as int)),
        decreases data2.entries.len() - i,
    {
        proof {
            assert(mv.take(i + 1).drop_last() =~= mv.take(i as int));
            assert(mv.take(i + 1).last() == mv[i as int]);
            assert(data2.entries@[i as int]@ == mv[i as int]);
        }
        let e = &data2.entries[i];
        proof {
            assert(record_wf(e.rec@));
        }
        match resolve_original_id(data1, data2, &e.rec, &mut issues) {
            None => {},
            Some(oid) => {
                let o_rec = data1.get(&oid).unwrap();
                // Parent-divergence detection as designed: both operands are
                // read from the resolved original record's own `Parent`
                // attribute, so they are always equal and this check can
                // never report a divergence; it is preserved rather than
                // silently repaired.
                let pa = o_rec.attributes.get_first(&parent_lit);
                let pb = o_rec.attributes.get_first(&parent_lit);
                match (pa, pb) {
                    (Some(apollo_pid), Some(original_pid)) => {
                        if !apollo_pid.eq(original_pid) {
                            proof {
                                assert(false);
                            }
                        }
                    },
                    (None, None) => {},
                    _ => {
                        proof {
                            assert(false);
                        }
                    },
                }
                let basics = compare_basics(o_rec, &e.rec, &oid);
                let ghost cbase = changes.deep_view();
                let ghost bdv = basics.deep_view();
                let mut k: usize = 0;
                while k < basics.len()
                    invariant
                        0 <= k <= bdv.len(),
                        bdv == basics.deep_view(),
                        bdv.len() == basics@.len(),
                        dot@ == seq!['.'],
                        changes.deep_view() == cbase + filter_keep(bdv.take(k as int)),
                    decreases basics.len() - k,
                {
                    proof {
                        assert(bdv.take(k + 1).drop_last() =~= bdv.take(k as int));
                        assert(bdv.take(k + 1).last() == bdv[k as int]);
                        assert(basics@[k as int].deep_view() == bdv[k as int]);
                    }
                    let keep = match &basics[k] {
                        Change::RowFieldUpdated { id, field, value } => !(*field
                            == FieldKey::Source && value.eq(&dot)),
                        _ => true,
                    };
                    if keep {
                        crate::diff::push_change(&mut changes, basics[k].duplicate());
                    }
                    k = k + 1;
                }
                proof {
                    assert(bdv.take(bdv.len() as int) =~= bdv);
                    assert(changes.deep_view() =~= cbase + apollo_entry_spec(
                        ov,
                        mv,
                        mv[i as int].1,
                    ));
                }
            },
        }
        i = i + 1;
    }
    proof {
        assert(mv.take(mv.len() as int) =~= mv);
    }
    if record_issues {
        ChangeSet { changes, issues: Some(issues) }
    } else {
        ChangeSet { changes, issues: None }
    }
}

/// Appends one diagnostic string.
fn push_issue(issues: &mut Vec<String>, msg: String)
    ensures
        final(issues)@.len() == old(issues)@.len() + 1,
        old(issues).deep_view().is_prefix_of(final(issues).deep_view()),
{
    let ghost pv = issues@;
    let ghost pdv = issues.deep_view();
    issues.push(msg);
    proof {
        assert forall|k: int| 0 <= k < pdv.len() implies #[trigger] pdv[k] == issues.deep_view()[
        k] by {
            assert(issues.deep_view()[k] == issues@[k]@);
            assert(issues@[k] == pv[k]);
            assert(pdv[k] == pv[k]@);
        }
        assert(pdv.is_prefix_of(issues.deep_view()));
    }
}

} // verus!
