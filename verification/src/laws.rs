//! The library-wide laws, stated and proved over the same spec functions
//! the executable contracts use: cycle safety of lineage tracing, the
//! diff/apply round trip, and diff symmetry.

use vstd::prelude::*;
use crate::apply::{
    apply_spec, run_stage_spec, apply_one_spec, matches_stage, insert_all_entries,
    insert_all_values, snapshot_rec_spec, snapshot_coord, row_remove_spec, row_add_spec,
    row_update_spec, attr_apply_spec,
};
use crate::change::{ChangeV, RawChangeV, raw_of_change, raw_seq_of, raw_snapshot_of};
use crate::diff::{
    diff_spec, forward_pass_spec, reverse_pass_spec, entry_changes, field_changes,
    field_change_one, field_differs, updated_value, attrs_walk, attr_cmp_one, all_value_changes,
    sift_changes, mk_attr_change,
};
use crate::record::{
    RecordV, AttrsV, FieldKey, attr_first, attr_has_key, attr_has_pair, attr_insert, attr_key_idx,
    attr_remove_one, attr_values, attr_vset, attrs_wf, record_wf, first_idx_of, lemma_first_idx_of,
    lemma_key_idx, set_field_spec,
};
use crate::store::{
    StoreV, store_has_id, store_idx, store_rec, store_remove, store_update, store_wf,
    lemma_store_idx,
};
use crate::strings::{lemma_u64_dec_round_trip, norm_strand, seq_contains_str};
use crate::resolve::root_chase;

verus! {

/// Lineage tracing is cycle-safe: on a store where two records name each
/// other as parents, tracing from either returns nothing instead of
/// running unboundedly.
pub proof fn lemma_cycle_safety(s: StoreV, a: Seq<char>, b: Seq<char>)
    requires
        a != b,
        store_has_id(s, a),
        store_has_id(s, b),
        attr_first(store_rec(s, a).attrs, "Parent"@) == Some(b),
        attr_first(store_rec(s, b).attrs, "Parent"@) == Some(a),
    ensures
        root_chase(s, a, Seq::empty()) is None,
{
    let e0 = Seq::<Seq<char>>::empty();
    let s1 = e0.push(a);
    let s2 = s1.push(b);
    assert(!e0.contains(a));
    assert(s1.no_duplicates());
    assert(forall|i: int| 0 <= i < s1.len() ==> store_has_id(s, #[trigger] s1[i]));
    assert(root_chase(s, a, e0) == root_chase(s, b, s1));
    assert(!s1.contains(b)) by {
        assert(s1[0] == a);
    }
    assert(s2.no_duplicates()) by {
        assert(s2[0] == a && s2[1] == b);
    }
    assert(forall|i: int| 0 <= i < s2.len() ==> store_has_id(s, #[trigger] s2[i])) by {
        assert(s2[0] == a && s2[1] == b);
    }
    assert(root_chase(s, b, s1) == root_chase(s, a, s2));
    assert(s2.contains(a)) by {
        assert(s2[0] == a);
    }
    assert(root_chase(s, a, s2) is None);
}

/// Scalar-field equivalence: equal fields, with strands compared by the
/// symbol they denote.
pub open spec fn fields_equiv(x: RecordV, y: RecordV) -> bool {
    &&& x.seqname == y.seqname
    &&& x.source == y.source
    &&& x.feature_type == y.feature_type
    &&& x.start == y.start
    &&& x.end == y.end
    &&& x.score == y.score
    &&& norm_strand(x.strand) == norm_strand(y.strand)
    &&& x.frame == y.frame
}

/// Attribute equivalence: under every key, the same set of values (order
/// within a value list and duplicate occurrences are not significant).
pub open spec fn attrs_equiv(x: AttrsV, y: AttrsV) -> bool {
    forall|k: Seq<char>| #[trigger] attr_vset(x, k) == attr_vset(y, k)
}

/// Store equivalence: the same ids, and for each id an equivalent record.
pub open spec fn store_equiv(x: StoreV, y: StoreV) -> bool {
    &&& forall|id: Seq<char>| store_has_id(x, id) <==> store_has_id(y, id)
    &&& forall|id: Seq<char>|
        #[trigger] store_has_id(x, id) ==> fields_equiv(store_rec(x, id), store_rec(y, id))
            && attrs_equiv(store_rec(x, id).attrs, store_rec(y, id).attrs)
}

/// Inserting a whole value list under a fresh key appends one entry.
proof fn lemma_insert_values_fresh(base: AttrsV, k: Seq<char>, vs: Seq<Seq<char>>)
    requires
        !attr_has_key(base, k),
        vs.len() > 0,
    ensures
        insert_all_values(base, k, vs) == base.push((k, vs)),
    decreases vs.len(),
{
    if vs.len() == 1 {
        assert(insert_all_values(base, k, vs.drop_last()) == base);
        assert(attr_insert(base, k, vs.last()) =~= base.push((k, seq![vs.last()])));
        assert(seq![vs.last()] =~= vs);
        assert(insert_all_values(base, k, vs) =~= base.push((k, vs)));
    } else {
        lemma_insert_values_fresh(base, k, vs.drop_last());
        let mid = base.push((k, vs.drop_last()));
        assert(insert_all_values(base, k, vs) == attr_insert(mid, k, vs.last()));
        assert(attr_has_key(mid, k)) by {
            assert(mid[base.len() as int].0 == k);
        }
        assert(attr_key_idx(mid, k) == base.len()) by {
            let w = attr_key_idx(mid, k);
            assert(0 <= w < mid.len() && mid[w].0 == k);
            if w < base.len() {
                assert(base[w].0 == k);
                assert(attr_has_key(base, k));
            }
        }
        assert(attr_insert(mid, k, vs.last()) =~= base.push((k, vs.drop_last().push(vs.last()))));
        assert(vs.drop_last().push(vs.last()) =~= vs);
        assert(insert_all_values(base, k, vs) =~= base.push((k, vs)));
    }
}

/// Re-inserting a well-formed attribute map entry by entry reconstructs it
/// exactly.
proof fn lemma_insert_all_entries_id(a: AttrsV)
    requires
        attrs_wf(a),
    ensures
        insert_all_entries(Seq::empty(), a) == a,
    decreases a.len(),
{
    if a.len() > 0 {
        let p = a.drop_last();
        assert(attrs_wf(p)) by {
            assert(forall|i: int| 0 <= i < p.len() ==> p[i] == #[trigger] a[i]);
        }
        lemma_insert_all_entries_id(p);
        assert(!attr_has_key(p, a.last().0)) by {
            if attr_has_key(p, a.last().0) {
                let w = choose|i: int| 0 <= i < p.len() && (#[trigger] p[i]).0 == a.last().0;
                assert(a[w].0 == a[a.len() - 1].0);
            }
        }
        assert(a.last().1.len() > 0);
        lemma_insert_values_fresh(p, a.last().0, a.last().1);
        assert(p.push((a.last().0, a.last().1)) =~= a);
    }
}

/// A snapshot taken from a well-formed record reconstructs that record
/// exactly.
pub proof fn lemma_snapshot_round_trip(r: RecordV)
    requires
        record_wf(r),
    ensures
        snapshot_rec_spec(Some(raw_snapshot_of(r))) == Ok::<RecordV, crate::errors::GffError>(r),
{
    let sn = raw_snapshot_of(r);
    lemma_u64_dec_round_trip(r.start);
    lemma_u64_dec_round_trip(r.end);
    assert(snapshot_coord(sn.start) == Some(r.start));
    assert(snapshot_coord(sn.end) == Some(r.end));
    lemma_insert_all_entries_id(r.attrs);
    match snapshot_rec_spec(Some(sn)) {
        Ok(r2) => {
            assert(r2 == r);
        },
        Err(_) => {
            assert(false);
        },
    }
}

/// The stage literals are pairwise distinct where it matters.
proof fn lemma_stage_literals()
    ensures
        "row"@ != "attribute"@,
        "add"@ != "remove"@,
        "add"@ != "update"@,
        "remove"@ != "update"@,
{
    reveal_strlit("row");
    reveal_strlit("attribute");
    reveal_strlit("add");
    reveal_strlit("remove");
    reveal_strlit("update");
    assert("row"@.len() == 3 && "attribute"@.len() == 9);
    assert("add"@.len() == 3 && "remove"@.len() == 6 && "update"@.len() == 6);
    assert("remove"@[0] == 'r' && "update"@[0] == 'u');
}

/// Running a stage over a concatenation: the first part runs, and unless
/// it fails the second part continues from its result.
proof fn lemma_run_stage_concat(s1: Seq<RawChangeV>, s2: Seq<RawChangeV>, st: StoreV, w: Seq<char>, a: Seq<char>)
    ensures
        run_stage_spec(s1 + s2, st, w, a) == ({
            let r1 = run_stage_spec(s1, st, w, a);
            if r1.1 is Some {
                r1
            } else {
                run_stage_spec(s2, r1.0, w, a)
            }
        }),
    decreases s1.len(),
{
    if s1.len() == 0 {
        assert(s1 + s2 =~= s2);
    } else {
        assert((s1 + s2)[0] == s1[0]);
        assert((s1 + s2).drop_first() =~= s1.drop_first() + s2);
        let c = s1[0];
        if matches_stage(c, w, a) {
            match apply_one_spec(c, st, w, a) {
                Ok(st2) => {
                    lemma_run_stage_concat(s1.drop_first(), s2, st2, w, a);
                },
                Err(_) => {},
            }
        } else {
            lemma_run_stage_concat(s1.drop_first(), s2, st, w, a);
        }
    }
}

/// A stage over changes none of which belong to it does nothing.
proof fn lemma_run_stage_skip(cs: Seq<RawChangeV>, st: StoreV, w: Seq<char>, a: Seq<char>)
    requires
        forall|i: int| 0 <= i < cs.len() ==> !matches_stage(#[trigger] cs[i], w, a),
    ensures
        run_stage_spec(cs, st, w, a) == (st, None::<crate::errors::GffError>),
    decreases cs.len(),
{
    if cs.len() > 0 {
        assert(forall|i: int|
            0 <= i < cs.len() - 1 ==> cs.drop_first()[i] == #[trigger] cs[i + 1]);
        assert(forall|i: int|
            0 <= i < cs.len() - 1 ==> !matches_stage(#[trigger] cs.drop_first()[i], w, a));
        lemma_run_stage_skip(cs.drop_first(), st, w, a);
    }
}

/// A stage over one matching change that succeeds.
proof fn lemma_run_stage_one(c: RawChangeV, st: StoreV, st2: StoreV, w: Seq<char>, a: Seq<char>)
    requires
        matches_stage(c, w, a),
        apply_one_spec(c, st, w, a) == Ok::<StoreV, crate::errors::GffError>(st2),
    ensures
        run_stage_spec(seq![c], st, w, a) == (st2, None::<crate::errors::GffError>),
{
    assert(seq![c][0] == c);
    assert(seq![c].drop_first() =~= Seq::<RawChangeV>::empty());
    assert(run_stage_spec(seq![c].drop_first(), st2, w, a) == (
        st2,
        None::<crate::errors::GffError>,
    ));
}

/// Mapping to wire shape distributes over concatenation.
proof fn lemma_raw_seq_add(s1: Seq<ChangeV>, s2: Seq<ChangeV>)
    ensures
        raw_seq_of(s1 + s2) == raw_seq_of(s1) + raw_seq_of(s2),
{
    assert(raw_seq_of(s1 + s2) =~= raw_seq_of(s1) + raw_seq_of(s2));
}

/// Mapping to wire shape distributes over push.
proof fn lemma_raw_seq_push(s: Seq<ChangeV>, c: ChangeV)
    ensures
        raw_seq_of(s.push(c)) == raw_seq_of(s) + seq![raw_of_change(c)],
{
    assert(raw_seq_of(s.push(c)) =~= raw_seq_of(s) + seq![raw_of_change(c)]);
}

/// Effect of removing an id on presence and records.
proof fn lemma_store_remove_props(s: StoreV, id: Seq<char>)
    requires
        store_wf(s),
        store_has_id(s, id),
    ensures
        store_wf(store_remove(s, id)),
        !store_has_id(store_remove(s, id), id),
        forall|x: Seq<char>|
            x != id ==> (#[trigger] store_has_id(store_remove(s, id), x) == store_has_id(s, x)),
        forall|x: Seq<char>|
            x != id && store_has_id(s, x) ==> #[trigger] store_rec(store_remove(s, id), x)
                == store_rec(s, x),
{
    let i = store_idx(s, id);
    assert(0 <= i < s.len() && s[i].0 == id);
    let t = s.remove(i);
    assert(store_remove(s, id) == t);
    assert(forall|x: int| 0 <= x < i ==> t[x] == #[trigger] s[x]);
    assert(forall|x: int| i <= x < t.len() ==> t[x] == #[trigger] s[x + 1]);
    assert(store_wf(t));
    assert forall|x: Seq<char>| x != id implies (#[trigger] store_has_id(t, x) == store_has_id(
        s,
        x,
    )) by {
        if store_has_id(s, x) {
            let j = choose|j: int| 0 <= j < s.len() && (#[trigger] s[j]).0 == x;
            assert(j != i);
            if j < i {
                assert(t[j].0 == x);
            } else {
                assert(t[j - 1].0 == x);
            }
        }
        if store_has_id(t, x) {
            let j = choose|j: int| 0 <= j < t.len() && (#[trigger] t[j]).0 == x;
            if j < i {
                assert(s[j].0 == x);
            } else {
                assert(s[j + 1].0 == x);
            }
        }
    }
    assert(!store_has_id(t, id)) by {
        if store_has_id(t, id) {
            let j = choose|j: int| 0 <= j < t.len() && (#[trigger] t[j]).0 == id;
            if j < i {
                assert(s[j].0 == id && s[i].0 == id);
            } else {
                assert(s[j + 1].0 == id && s[i].0 == id);
            }
        }
    }
    assert forall|x: Seq<char>| x != id && store_has_id(s, x) implies #[trigger] store_rec(t, x)
        == store_rec(s, x) by {
        let j = store_idx(s, x);
        assert(0 <= j < s.len() && s[j].0 == x);
        assert(j != i);
        if j < i {
            lemma_store_idx(t, x, j);
        } else {
            lemma_store_idx(t, x, j - 1);
        }
    }
}

/// Effect of appending a fresh entry on presence and records.
proof fn lemma_store_push_props(s: StoreV, id: Seq<char>, r: RecordV)
    requires
        store_wf(s),
        !store_has_id(s, id),
        record_wf(r),
    ensures
        store_wf(s.push((id, r))),
        store_has_id(s.push((id, r)), id),
        store_rec(s.push((id, r)), id) == r,
        forall|x: Seq<char>|
            x != id ==> (#[trigger] store_has_id(s.push((id, r)), x) == store_has_id(s, x)),
        forall|x: Seq<char>|
            x != id && store_has_id(s, x) ==> #[trigger] store_rec(s.push((id, r)), x) == store_rec(
                s,
                x,
            ),
{
    let t = s.push((id, r));
    assert(t[s.len() as int] == (id, r));
    assert(forall|x: int| 0 <= x < s.len() ==> t[x] == #[trigger] s[x]);
    assert(store_wf(t)) by {
        assert forall|x: int, y: int|
            0 <= x < y < t.len() implies (#[trigger] t[x]).0 != (#[trigger] t[y]).0 by {
            if y == s.len() {
                assert(s[x].0 != id);
            }
        }
    }
    lemma_store_idx(t, id, s.len() as int);
    assert forall|x: Seq<char>| x != id implies (#[trigger] store_has_id(t, x) == store_has_id(
        s,
        x,
    )) by {
        if store_has_id(t, x) {
            let j = choose|j: int| 0 <= j < t.len() && (#[trigger] t[j]).0 == x;
            assert(j != s.len());
            assert(s[j].0 == x);
        }
    }
    assert forall|x: Seq<char>| x != id && store_has_id(s, x) implies #[trigger] store_rec(t, x)
        == store_rec(s, x) by {
        let j = store_idx(s, x);
        assert(0 <= j < s.len() && s[j].0 == x);
        lemma_store_idx(t, x, j);
    }
}

/// Effect of replacing the record under an id on presence and records.
proof fn lemma_store_update_props(s: StoreV, id: Seq<char>, r: RecordV)
    requires
        store_wf(s),
        store_has_id(s, id),
        record_wf(r),
    ensures
        store_wf(store_update(s, id, r)),
        store_has_id(store_update(s, id, r), id),
        store_rec(store_update(s, id, r), id) == r,
        forall|x: Seq<char>|
            #[trigger] store_has_id(store_update(s, id, r), x) == store_has_id(s, x),
        forall|x: Seq<char>|
            x != id && store_has_id(s, x) ==> #[trigger] store_rec(store_update(s, id, r), x)
                == store_rec(s, x),
{
    let i = store_idx(s, id);
    assert(0 <= i < s.len() && s[i].0 == id);
    let t = s.update(i, (id, r));
    assert(t[i] == (id, r));
    assert(forall|x: int| 0 <= x < s.len() && x != i ==> t[x] == #[trigger] s[x]);
    assert(store_wf(t)) by {
        assert forall|x: int, y: int|
            0 <= x < y < t.len() implies (#[trigger] t[x]).0 != (#[trigger] t[y]).0 by {
            assert(t[x].0 == s[x].0 && t[y].0 == s[y].0);
        }
    }
    lemma_store_idx(t, id, i);
    assert forall|x: Seq<char>| #[trigger] store_has_id(t, x) == store_has_id(s, x) by {
        if store_has_id(s, x) {
            let j = choose|j: int| 0 <= j < s.len() && (#[trigger] s[j]).0 == x;
            assert(t[j].0 == x);
        }
        if store_has_id(t, x) {
            let j = choose|j: int| 0 <= j < t.len() && (#[trigger] t[j]).0 == x;
            assert(s[j].0 == x);
        }
    }
    assert forall|x: Seq<char>| x != id && store_has_id(s, x) implies #[trigger] store_rec(t, x)
        == store_rec(s, x) by {
        let j = store_idx(s, x);
        assert(0 <= j < s.len() && s[j].0 == x);
        assert(j != i);
        lemma_store_idx(t, x, j);
    }
}

/// Which stage each change kind belongs to.
proof fn lemma_change_stage(c: ChangeV)
    ensures
        matches_stage(raw_of_change(c), "row"@, "remove"@) == (c is RowRemoved),
        matches_stage(raw_of_change(c), "row"@, "add"@) == (c is RowAdded),
        matches_stage(raw_of_change(c), "row"@, "update"@) == (c is RowFieldUpdated),
        matches_stage(raw_of_change(c), "attribute"@, "remove"@) == (c is AttributeRemoved),
        matches_stage(raw_of_change(c), "attribute"@, "add"@) == (c is AttributeAdded),
        !matches_stage(raw_of_change(c), "attribute"@, "update"@),
{
    lemma_stage_literals();
}

/// Whether a change is an attribute-level one.
spec fn attrish(c: ChangeV) -> bool {
    c is AttributeAdded || c is AttributeRemoved
}

proof fn lemma_sift_kinds(
    id: Seq<char>,
    k: Seq<char>,
    from: Seq<Seq<char>>,
    against: Seq<Seq<char>>,
    add: bool,
)
    ensures
        forall|i: int|
            0 <= i < sift_changes(id, k, from, against, add).len() ==> attrish(
                #[trigger] sift_changes(id, k, from, against, add)[i],
            ),
    decreases from.len(),
{
    if from.len() > 0 {
        lemma_sift_kinds(id, k, from.drop_last(), against, add);
        let rest = sift_changes(id, k, from.drop_last(), against, add);
        let s = sift_changes(id, k, from, against, add);
        assert forall|i: int| 0 <= i < s.len() implies attrish(#[trigger] s[i]) by {
            if i < rest.len() {
                assert(s[i] == rest[i]);
            } else {
                assert(s[i] == mk_attr_change(id, k, from.last(), add));
            }
        }
    }
}

proof fn lemma_all_value_kinds(id: Seq<char>, k: Seq<char>, values: Seq<Seq<char>>, add: bool)
    ensures
        forall|i: int|
            0 <= i < all_value_changes(id, k, values, add).len() ==> attrish(
                #[trigger] all_value_changes(id, k, values, add)[i],
            ),
    decreases values.len(),
{
    if values.len() > 0 {
        lemma_all_value_kinds(id, k, values.drop_last(), add);
        let rest = all_value_changes(id, k, values.drop_last(), add);
        let s = all_value_changes(id, k, values, add);
        assert forall|i: int| 0 <= i < s.len() implies attrish(#[trigger] s[i]) by {
            if i < rest.len() {
                assert(s[i] == rest[i]);
            } else {
                assert(s[i] == mk_attr_change(id, k, values.last(), add));
            }
        }
    }
}

proof fn lemma_attr_cmp_kinds(
    id: Seq<char>,
    k: Seq<char>,
    values: Seq<Seq<char>>,
    other: AttrsV,
    forward: bool,
)
    ensures
        forall|i: int|
            0 <= i < attr_cmp_one(id, k, values, other, forward).len() ==> attrish(
                #[trigger] attr_cmp_one(id, k, values, other, forward)[i],
            ),
{
    lemma_all_value_kinds(id, k, values, !forward);
    lemma_sift_kinds(id, k, attr_values(other, k), values, forward);
    lemma_sift_kinds(id, k, values, attr_values(other, k), true);
}

proof fn lemma_attrs_walk_kinds(id: Seq<char>, a: AttrsV, other: AttrsV, forward: bool)
    ensures
        forall|i: int|
            0 <= i < attrs_walk(id, a, other, forward).len() ==> attrish(
                #[trigger] attrs_walk(id, a, other, forward)[i],
            ),
    decreases a.len(),
{
    if a.len() > 0 {
        lemma_attrs_walk_kinds(id, a.drop_last(), other, forward);
        lemma_attr_cmp_kinds(id, a.last().0, a.last().1, other, forward);
        let rest = attrs_walk(id, a.drop_last(), other, forward);
        let blk = attr_cmp_one(id, a.last().0, a.last().1, other, forward);
        let s = attrs_walk(id, a, other, forward);
        assert forall|i: int| 0 <= i < s.len() implies attrish(#[trigger] s[i]) by {
            if i < rest.len() {
                assert(s[i] == rest[i]);
            } else {
                assert(s[i] == blk[i - rest.len()]);
            }
        }
    }
}

proof fn lemma_entry_kinds(id: Seq<char>, r1: RecordV, r2: RecordV)
    ensures
        forall|i: int|
            0 <= i < entry_changes(id, r1, r2).len() ==> ((#[trigger] entry_changes(id, r1, r2)[i])
                is RowFieldUpdated || attrish(entry_changes(id, r1, r2)[i])),
{
    lemma_attrs_walk_kinds(id, r1.attrs, r2.attrs, true);
    lemma_attrs_walk_kinds(id, r2.attrs, r1.attrs, false);
    assert forall|i: int| 0 <= i < entry_changes(id, r1, r2).len() implies ((
    #[trigger] entry_changes(id, r1, r2)[i]) is RowFieldUpdated || attrish(
        entry_changes(id, r1, r2)[i],
    )) by {
        let fc = field_changes(id, r1, r2);
        let w1 = attrs_walk(id, r1.attrs, r2.attrs, true);
        let w2 = attrs_walk(id, r2.attrs, r1.attrs, false);
        if i < fc.len() {
            assert(entry_changes(id, r1, r2)[i] == fc[i]);
            assert(fc[i] is RowFieldUpdated);
        } else if i < fc.len() + w1.len() {
            assert(entry_changes(id, r1, r2)[i] == w1[i - fc.len()]);
        } else {
            assert(entry_changes(id, r1, r2)[i] == w2[i - fc.len() - w1.len()]);
        }
    }
}

/// Every element of the field comparison table is a field update.
proof fn lemma_field_changes_kinds(id: Seq<char>, r1: RecordV, r2: RecordV)
    ensures
        forall|i: int|
            0 <= i < field_changes(id, r1, r2).len() ==> (#[trigger] field_changes(id, r1, r2)[i])
                is RowFieldUpdated,
{
}

/// The forward pass emits no row addition.
proof fn lemma_fwd_kinds(entries: StoreV, b: StoreV)
    ensures
        forall|i: int|
            0 <= i < forward_pass_spec(entries, b).len() ==> !((#[trigger] forward_pass_spec(
                entries,
                b,
            )[i]) is RowAdded),
    decreases entries.len(),
{
    if entries.len() > 0 {
        lemma_fwd_kinds(entries.drop_last(), b);
        let id = entries.last().0;
        let r1 = entries.last().1;
        if store_has_id(b, id) {
            lemma_entry_kinds(id, r1, store_rec(b, id));
        }
    }
}

/// The reverse pass emits only row additions.
proof fn lemma_rev_kinds(entries: StoreV, other: StoreV)
    ensures
        forall|i: int|
            0 <= i < reverse_pass_spec(entries, other).len() ==> (#[trigger] reverse_pass_spec(
                entries,
                other,
            )[i]) is RowAdded,
    decreases entries.len(),
{
    if entries.len() > 0 {
        lemma_rev_kinds(entries.drop_last(), other);
    }
}

/// The store after the row-removal stage has processed the forward pass
/// over `entries`: every id of `entries` absent from `b` is removed.
spec fn stage1_result(st: StoreV, entries: StoreV, b: StoreV) -> StoreV
    decreases entries.len(),
{
    if entries.len() == 0 {
        st
    } else {
        let p = stage1_result(st, entries.drop_last(), b);
        if store_has_id(b, entries.last().0) {
            p
        } else {
            store_remove(p, entries.last().0)
        }
    }
}

/// Running the row-removal stage over the forward pass.
proof fn lemma_stage1_run(st: StoreV, entries: StoreV, b: StoreV)
    ensures
        run_stage_spec(raw_seq_of(forward_pass_spec(entries, b)), st, "row"@, "remove"@) == (
            stage1_result(st, entries, b),
            None::<crate::errors::GffError>,
        ),
    decreases entries.len(),
{
    let w = "row"@;
    let act = "remove"@;
    if entries.len() == 0 {
        assert(raw_seq_of(forward_pass_spec(entries, b)) =~= Seq::<RawChangeV>::empty());
    } else {
        lemma_stage1_run(st, entries.drop_last(), b);
        let p = stage1_result(st, entries.drop_last(), b);
        let rest = forward_pass_spec(entries.drop_last(), b);
        let id = entries.last().0;
        let r1 = entries.last().1;
        if store_has_id(b, id) {
            let blk = entry_changes(id, r1, store_rec(b, id));
            lemma_raw_seq_add(rest, blk);
            lemma_run_stage_concat(raw_seq_of(rest), raw_seq_of(blk), st, w, act);
            lemma_entry_kinds(id, r1, store_rec(b, id));
            assert forall|i: int|
                0 <= i < raw_seq_of(blk).len() implies !matches_stage(
                #[trigger] raw_seq_of(blk)[i],
                w,
                act,
            ) by {
                assert(raw_seq_of(blk)[i] == raw_of_change(blk[i]));
                lemma_change_stage(blk[i]);
            }
            lemma_run_stage_skip(raw_seq_of(blk), p, w, act);
        } else {
            let c = ChangeV::RowRemoved { id: id, snapshot: r1 };
            lemma_raw_seq_push(rest, c);
            lemma_run_stage_concat(raw_seq_of(rest), seq![raw_of_change(c)], st, w, act);
            lemma_change_stage(c);
            assert(row_remove_spec(raw_of_change(c), p) == Ok::<StoreV, crate::errors::GffError>(
                store_remove(p, id),
            ));
            lemma_run_stage_one(raw_of_change(c), p, store_remove(p, id), w, act);
        }
    }
}

/// What the row-removal stage leaves: exactly the ids of `st` that are
/// not dropped, with their records untouched.
proof fn lemma_stage1_props(st: StoreV, entries: StoreV, b: StoreV)
    requires
        store_wf(st),
    ensures
        store_wf(stage1_result(st, entries, b)),
        forall|x: Seq<char>|
            #[trigger] store_has_id(stage1_result(st, entries, b), x) == (store_has_id(st, x) && (
            store_has_id(entries, x) ==> store_has_id(b, x))),
        forall|x: Seq<char>|
            store_has_id(stage1_result(st, entries, b), x) ==> #[trigger] store_rec(
                stage1_result(st, entries, b),
                x,
            ) == store_rec(st, x),
    decreases entries.len(),
{
    if entries.len() > 0 {
        lemma_stage1_props(st, entries.drop_last(), b);
        let p = stage1_result(st, entries.drop_last(), b);
        let id = entries.last().0;
        let res = stage1_result(st, entries, b);
        assert forall|x: Seq<char>|
            #[trigger] store_has_id(entries.drop_last(), x) || x == id <==> store_has_id(
            entries,
            x,
        ) by {
            if store_has_id(entries, x) {
                let j = choose|j: int| 0 <= j < entries.len() && (#[trigger] entries[j]).0 == x;
                if j < entries.len() - 1 {
                    assert(entries.drop_last()[j].0 == x);
                }
            }
            if store_has_id(entries.drop_last(), x) {
                let j = choose|j: int|
                    0 <= j < entries.drop_last().len() && (#[trigger] entries.drop_last()[j]).0
                        == x;
                assert(entries[j].0 == x);
            }
            assert(entries[entries.len() - 1].0 == id);
        }
        if store_has_id(b, id) {
        } else {
            if store_has_id(p, id) {
                lemma_store_remove_props(p, id);
            } else {
                assert(res == p);
            }
        }
    }
}

/// The store after the row-addition stage has processed the reverse pass
/// over `entries`: every entry whose id is absent from `other` and not yet
/// present is appended with its snapshot.
spec fn stage2_result(st: StoreV, entries: StoreV, other: StoreV) -> StoreV
    decreases entries.len(),
{
    if entries.len() == 0 {
        st
    } else {
        let p = stage2_result(st, entries.drop_last(), other);
        let id = entries.last().0;
        let r = entries.last().1;
        if store_has_id(other, id) {
            p
        } else if store_has_id(p, id) {
            p
        } else {
            p.push((id, r))
        }
    }
}

/// Running the row-addition stage over the reverse pass.
proof fn lemma_stage2_run(st: StoreV, entries: StoreV, other: StoreV)
    requires
        forall|i: int| 0 <= i < entries.len() ==> record_wf((#[trigger] entries[i]).1),
    ensures
        run_stage_spec(raw_seq_of(reverse_pass_spec(entries, other)), st, "row"@, "add"@) == (
            stage2_result(st, entries, other),
            None::<crate::errors::GffError>,
        ),
    decreases entries.len(),
{
    let w = "row"@;
    let act = "add"@;
    if entries.len() == 0 {
        assert(raw_seq_of(reverse_pass_spec(entries, other)) =~= Seq::<RawChangeV>::empty());
    } else {
        assert(forall|i: int|
            0 <= i < entries.len() - 1 ==> entries.drop_last()[i] == #[trigger] entries[i]);
        lemma_stage2_run(st, entries.drop_last(), other);
        let p = stage2_result(st, entries.drop_last(), other);
        let rest = reverse_pass_spec(entries.drop_last(), other);
        let id = entries.last().0;
        let r = entries.last().1;
        if store_has_id(other, id) {
        } else {
            let c = ChangeV::RowAdded { id: id, snapshot: r };
            lemma_raw_seq_push(rest, c);
            lemma_run_stage_concat(raw_seq_of(rest), seq![raw_of_change(c)], st, w, act);
            lemma_change_stage(c);
            assert(record_wf(r)) by {
                assert(entries[entries.len() - 1].1 == r);
            }
            lemma_snapshot_round_trip(r);
            let nxt = if store_has_id(p, id) {
                p
            } else {
                p.push((id, r))
            };
            assert(row_add_spec(raw_of_change(c), p) == Ok::<StoreV, crate::errors::GffError>(nxt));
            lemma_run_stage_one(raw_of_change(c), p, nxt, w, act);
        }
    }
}

/// What the row-addition stage adds: the snapshots of the new ids; what
/// was present is untouched.
proof fn lemma_stage2_props(st: StoreV, entries: StoreV, other: StoreV)
    requires
        store_wf(st),
        store_wf(entries),
    ensures
        store_wf(stage2_result(st, entries, other)),
        forall|x: Seq<char>|
            #[trigger] store_has_id(stage2_result(st, entries, other), x) == (store_has_id(st, x)
                || (store_has_id(entries, x) && !store_has_id(other, x))),
        forall|x: Seq<char>|
            store_has_id(st, x) ==> #[trigger] store_rec(stage2_result(st, entries, other), x)
                == store_rec(st, x),
        forall|x: Seq<char>|
            !store_has_id(st, x) && store_has_id(stage2_result(st, entries, other), x)
                ==> #[trigger] store_rec(stage2_result(st, entries, other), x) == store_rec(
                entries,
                x,
            ),
    decreases entries.len(),
{
    if entries.len() > 0 {
        assert(store_wf(entries.drop_last())) by {
            assert(forall|i: int|
                0 <= i < entries.len() - 1 ==> entries.drop_last()[i] == #[trigger] entries[i]);
        }
        lemma_stage2_props(st, entries.drop_last(), other);
        let p = stage2_result(st, entries.drop_last(), other);
        let id = entries.last().0;
        let r = entries.last().1;
        let res = stage2_result(st, entries, other);
        assert(entries[entries.len() - 1] == (id, r));
        lemma_store_idx(entries, id, entries.len() - 1);
        assert(store_rec(entries, id) == r);
        assert forall|x: Seq<char>|
            #[trigger] store_has_id(entries.drop_last(), x) || x == id <==> store_has_id(
            entries,
            x,
        ) by {
            if store_has_id(entries, x) {
                let j = choose|j: int| 0 <= j < entries.len() && (#[trigger] entries[j]).0 == x;
                if j < entries.len() - 1 {
                    assert(entries.drop_last()[j].0 == x);
                }
            }
            if store_has_id(entries.drop_last(), x) {
                let j = choose|j: int|
                    0 <= j < entries.drop_last().len() && (#[trigger] entries.drop_last()[j]).0
                        == x;
                assert(entries[j].0 == x);
            }
        }
        assert forall|x: Seq<char>|
            x != id && store_has_id(entries.drop_last(), x) implies #[trigger] store_rec(
            entries.drop_last(),
            x,
        ) == store_rec(entries, x) by {
            let j = store_idx(entries.drop_last(), x);
            assert(entries.drop_last()[j].0 == x);
            assert(store_wf(entries.drop_last()));
            assert(entries[j] == entries.drop_last()[j]);
            lemma_store_idx(entries, x, j);
        }
        if store_has_id(other, id) {
        } else if store_has_id(p, id) {
        } else {
            lemma_store_push_props(p, id, r);
        }
    }
}

/// The field names are pairwise distinct where the update dispatch needs
/// it.
proof fn lemma_field_literals()
    ensures
        "seqname"@ != "source"@,
        "seqname"@ != "feature_type"@,
        "seqname"@ != "start"@,
        "seqname"@ != "end"@,
        "seqname"@ != "score"@,
        "seqname"@ != "strand"@,
        "seqname"@ != "frame"@,
        "source"@ != "feature_type"@,
        "source"@ != "start"@,
        "source"@ != "end"@,
        "source"@ != "score"@,
        "source"@ != "strand"@,
        "source"@ != "frame"@,
        "feature_type"@ != "start"@,
        "feature_type"@ != "end"@,
        "feature_type"@ != "score"@,
        "feature_type"@ != "strand"@,
        "feature_type"@ != "frame"@,
        "start"@ != "end"@,
        "start"@ != "score"@,
        "start"@ != "strand"@,
        "start"@ != "frame"@,
        "end"@ != "score"@,
        "end"@ != "strand"@,
        "end"@ != "frame"@,
        "score"@ != "strand"@,
        "score"@ != "frame"@,
        "strand"@ != "frame"@,
{
    reveal_strlit("seqname");
    reveal_strlit("source");
    reveal_strlit("feature_type");
    reveal_strlit("start");
    reveal_strlit("end");
    reveal_strlit("score");
    reveal_strlit("strand");
    reveal_strlit("frame");
    assert("seqname"@.len() == 7 && "source"@.len() == 6 && "feature_type"@.len() == 12);
    assert("start"@.len() == 5 && "end"@.len() == 3 && "score"@.len() == 5);
    assert("strand"@.len() == 6 && "frame"@.len() == 5);
    assert("start"@[1] == 't' && "score"@[1] == 'c');
    assert("source"@[1] == 'o' && "strand"@[1] == 't');
    assert("frame"@[0] == 'f' && "start"@[0] == 's' && "score"@[0] == 's');
}

/// One field of the current record replaced by the update the comparison
/// table emits for it.
spec fn apply_field(cur: RecordV, f: FieldKey, r1: RecordV, r2: RecordV) -> RecordV {
    if field_differs(r1, r2, f) {
        match f {
            FieldKey::Seqname => RecordV { seqname: r2.seqname, ..cur },
            FieldKey::Source => RecordV { source: r2.source, ..cur },
            FieldKey::FeatureType => RecordV { feature_type: r2.feature_type, ..cur },
            FieldKey::Start => RecordV { start: r2.start, ..cur },
            FieldKey::End => RecordV { end: r2.end, ..cur },
            FieldKey::Score => RecordV { score: r2.score, ..cur },
            FieldKey::Strand => RecordV { strand: norm_strand(r2.strand), ..cur },
            FieldKey::Frame => RecordV { frame: r2.frame, ..cur },
        }
    } else {
        cur
    }
}

/// A record after the whole field comparison table is applied: every field
/// carries the new side's value, the strand its normalized symbol when it
/// differed; the attributes are untouched.
pub open spec fn patched(r1: RecordV, r2: RecordV) -> RecordV {
    RecordV {
        seqname: r2.seqname,
        source: r2.source,
        feature_type: r2.feature_type,
        start: r2.start,
        end: r2.end,
        score: r2.score,
        strand: if norm_strand(r1.strand) != norm_strand(r2.strand) {
            norm_strand(r2.strand)
        } else {
            r1.strand
        },
        frame: r2.frame,
        attrs: r1.attrs,
    }
}

/// Running the row-update stage over one field's potential update.
proof fn lemma_field_one_run(
    st: StoreV,
    id: Seq<char>,
    f: FieldKey,
    cur: RecordV,
    r1: RecordV,
    r2: RecordV,
)
    requires
        store_wf(st),
        store_has_id(st, id),
        store_rec(st, id) == cur,
        record_wf(cur),
    ensures
        run_stage_spec(raw_seq_of(field_change_one(id, f, r1, r2)), st, "row"@, "update"@) == (
            store_update(st, id, apply_field(cur, f, r1, r2)),
            None::<crate::errors::GffError>,
        ),
        record_wf(apply_field(cur, f, r1, r2)),
{
    lemma_field_literals();
    let i = store_idx(st, id);
    assert(st[i] == (id, cur));
    if !field_differs(r1, r2, f) {
        assert(raw_seq_of(field_change_one(id, f, r1, r2)) =~= Seq::<RawChangeV>::empty());
        assert(store_update(st, id, cur) =~= st);
    } else {
        let c = ChangeV::RowFieldUpdated { id: id, field: f, value: updated_value(r2, f) };
        assert(field_change_one(id, f, r1, r2) == seq![c]);
        assert(raw_seq_of(seq![c]) =~= seq![raw_of_change(c)]);
        lemma_change_stage(c);
        if f == FieldKey::Start {
            lemma_u64_dec_round_trip(r2.start);
        }
        if f == FieldKey::End {
            lemma_u64_dec_round_trip(r2.end);
        }
        assert(set_field_spec(cur, crate::record::field_name(f), updated_value(r2, f))
            == Ok::<RecordV, crate::errors::GffError>(apply_field(cur, f, r1, r2)));
        assert(row_update_spec(raw_of_change(c), st) == Ok::<StoreV, crate::errors::GffError>(
            store_update(st, id, apply_field(cur, f, r1, r2)),
        ));
        lemma_run_stage_one(
            raw_of_change(c),
            st,
            store_update(st, id, apply_field(cur, f, r1, r2)),
            "row"@,
            "update"@,
        );
    }
}

/// Running the row-update stage over a whole field comparison table
/// patches the record in place.
proof fn lemma_stage3_block(st: StoreV, id: Seq<char>, r1: RecordV, r2: RecordV)
    requires
        store_wf(st),
        store_has_id(st, id),
        store_rec(st, id) == r1,
        record_wf(r1),
    ensures
        run_stage_spec(raw_seq_of(field_changes(id, r1, r2)), st, "row"@, "update"@) == (
            store_update(st, id, patched(r1, r2)),
            None::<crate::errors::GffError>,
        ),
        record_wf(patched(r1, r2)),
{
    let w = "row"@;
    let act = "update"@;
    let t1 = field_change_one(id, FieldKey::Seqname, r1, r2);
    let t2 = field_change_one(id, FieldKey::Source, r1, r2);
    let t3 = field_change_one(id, FieldKey::FeatureType, r1, r2);
    let t4 = field_change_one(id, FieldKey::Start, r1, r2);
    let t5 = field_change_one(id, FieldKey::End, r1, r2);
    let t6 = field_change_one(id, FieldKey::Score, r1, r2);
    let t7 = field_change_one(id, FieldKey::Strand, r1, r2);
    let t8 = field_change_one(id, FieldKey::Frame, r1, r2);
    let c1 = apply_field(r1, FieldKey::Seqname, r1, r2);
    let c2 = apply_field(c1, FieldKey::Source, r1, r2);
    let c3 = apply_field(c2, FieldKey::FeatureType, r1, r2);
    let c4 = apply_field(c3, FieldKey::Start, r1, r2);
    let c5 = apply_field(c4, FieldKey::End, r1, r2);
    let c6 = apply_field(c5, FieldKey::Score, r1, r2);
    let c7 = apply_field(c6, FieldKey::Strand, r1, r2);
    let c8 = apply_field(c7, FieldKey::Frame, r1, r2);
    let s0 = st;
    lemma_field_one_run(s0, id, FieldKey::Seqname, r1, r1, r2);
    let s1 = store_update(s0, id, c1);
    lemma_store_update_props(s0, id, c1);
    lemma_raw_seq_add(t1, t2);
    lemma_run_stage_concat(raw_seq_of(t1), raw_seq_of(t2), s0, w, act);
    lemma_field_one_run(s1, id, FieldKey::Source, c1, r1, r2);
    let s2 = store_update(s1, id, c2);
    lemma_store_update_props(s1, id, c2);
    lemma_raw_seq_add(t1 + t2, t3);
    lemma_run_stage_concat(raw_seq_of(t1 + t2), raw_seq_of(t3), s0, w, act);
    lemma_field_one_run(s2, id, FieldKey::FeatureType, c2, r1, r2);
    let s3 = store_update(s2, id, c3);
    lemma_store_update_props(s2, id, c3);
    lemma_raw_seq_add(t1 + t2 + t3, t4);
    lemma_run_stage_concat(raw_seq_of(t1 + t2 + t3), raw_seq_of(t4), s0, w, act);
    lemma_field_one_run(s3, id, FieldKey::Start, c3, r1, r2);
    let s4 = store_update(s3, id, c4);
    lemma_store_update_props(s3, id, c4);
    lemma_raw_seq_add(t1 + t2 + t3 + t4, t5);
    lemma_run_stage_concat(raw_seq_of(t1 + t2 + t3 + t4), raw_seq_of(t5), s0, w, act);
    lemma_field_one_run(s4, id, FieldKey::End, c4, r1, r2);
    let s5 = store_update(s4, id, c5);
    lemma_store_update_props(s4, id, c5);
    lemma_raw_seq_add(t1 + t2 + t3 + t4 + t5, t6);
    lemma_run_stage_concat(raw_seq_of(t1 + t2 + t3 + t4 + t5), raw_seq_of(t6), s0, w, act);
    lemma_field_one_run(s5, id, FieldKey::Score, c5, r1, r2);
    let s6 = store_update(s5, id, c6);
    lemma_store_update_props(s5, id, c6);
    lemma_raw_seq_add(t1 + t2 + t3 + t4 + t5 + t6, t7);
    lemma_run_stage_concat(raw_seq_of(t1 + t2 + t3 + t4 + t5 + t6), raw_seq_of(t7), s0, w, act);
    lemma_field_one_run(s6, id, FieldKey::Strand, c6, r1, r2);
    let s7 = store_update(s6, id, c7);
    lemma_store_update_props(s6, id, c7);
    lemma_raw_seq_add(t1 + t2 + t3 + t4 + t5 + t6 + t7, t8);
    lemma_run_stage_concat(
        raw_seq_of(t1 + t2 + t3 + t4 + t5 + t6 + t7),
        raw_seq_of(t8),
        s0,
        w,
        act,
    );
    lemma_field_one_run(s7, id, FieldKey::Frame, c7, r1, r2);
    let s8 = store_update(s7, id, c8);
    lemma_store_update_props(s7, id, c8);
    assert(c8 == patched(r1, r2));
    assert(s8 == store_update(st, id, patched(r1, r2))) by {
        let i = store_idx(st, id);
        lemma_store_idx(st, id, i);
        lemma_store_idx(s1, id, i);
        lemma_store_idx(s2, id, i);
        lemma_store_idx(s3, id, i);
        lemma_store_idx(s4, id, i);
        lemma_store_idx(s5, id, i);
        lemma_store_idx(s6, id, i);
        lemma_store_idx(s7, id, i);
        assert(s8 =~= st.update(i, (id, c8)));
    }
}

/// A stage skips a block none of whose typed changes belong to it.
proof fn lemma_skip_raw(cs: Seq<ChangeV>, st: StoreV, w: Seq<char>, a: Seq<char>)
    requires
        forall|i: int|
            0 <= i < cs.len() ==> !matches_stage(raw_of_change(#[trigger] cs[i]), w, a),
    ensures
        run_stage_spec(raw_seq_of(cs), st, w, a) == (st, None::<crate::errors::GffError>),
{
    assert forall|i: int|
        0 <= i < raw_seq_of(cs).len() implies !matches_stage(
        #[trigger] raw_seq_of(cs)[i],
        w,
        a,
    ) by {
        assert(raw_seq_of(cs)[i] == raw_of_change(cs[i]));
    }
    lemma_run_stage_skip(raw_seq_of(cs), st, w, a);
}

/// The store after the row-update stage has processed the forward pass
/// over `entries`: every shared record is patched in place.
spec fn stage3_result(st: StoreV, entries: StoreV, b: StoreV) -> StoreV
    decreases entries.len(),
{
    if entries.len() == 0 {
        st
    } else {
        let p = stage3_result(st, entries.drop_last(), b);
        let id = entries.last().0;
        let r1 = entries.last().1;
        if store_has_id(b, id) {
            store_update(p, id, patched(r1, store_rec(b, id)))
        } else {
            p
        }
    }
}

/// Running the row-update stage over the forward pass, and what it leaves.
proof fn lemma_stage3_run(st: StoreV, entries: StoreV, b: StoreV)
    requires
        store_wf(st),
        store_wf(entries),
        forall|i: int|
            0 <= i < entries.len() && store_has_id(b, (#[trigger] entries[i]).0) ==> store_has_id(
                st,
                entries[i].0,
            ) && store_rec(st, entries[i].0) == entries[i].1 && record_wf(entries[i].1),
    ensures
        run_stage_spec(raw_seq_of(forward_pass_spec(entries, b)), st, "row"@, "update"@) == (
            stage3_result(st, entries, b),
            None::<crate::errors::GffError>,
        ),
        store_wf(stage3_result(st, entries, b)),
        forall|x: Seq<char>|
            #[trigger] store_has_id(stage3_result(st, entries, b), x) == store_has_id(st, x),
        forall|x: Seq<char>|
            store_has_id(st, x) && !(store_has_id(entries, x) && store_has_id(b, x))
                ==> #[trigger] store_rec(stage3_result(st, entries, b), x) == store_rec(st, x),
        forall|x: Seq<char>|
            store_has_id(entries, x) && store_has_id(b, x) ==> store_has_id(st, x)
                && #[trigger] store_rec(stage3_result(st, entries, b), x) == patched(
                store_rec(entries, x),
                store_rec(b, x),
            ),
    decreases entries.len(),
{
    let w = "row"@;
    let act = "update"@;
    if entries.len() == 0 {
        assert(raw_seq_of(forward_pass_spec(entries, b)) =~= Seq::<RawChangeV>::empty());
    } else {
        assert(store_wf(entries.drop_last())) by {
            assert(forall|i: int|
                0 <= i < entries.len() - 1 ==> entries.drop_last()[i] == #[trigger] entries[i]);
        }
        assert(forall|i: int|
            0 <= i < entries.len() - 1 ==> entries.drop_last()[i] == #[trigger] entries[i]);
        lemma_stage3_run(st, entries.drop_last(), b);
        let p = stage3_result(st, entries.drop_last(), b);
        let rest = forward_pass_spec(entries.drop_last(), b);
        let id = entries.last().0;
        let r1 = entries.last().1;
        let res = stage3_result(st, entries, b);
        assert(entries[entries.len() - 1] == (id, r1));
        lemma_store_idx(entries, id, entries.len() - 1);
        assert(store_rec(entries, id) == r1);
        assert(!store_has_id(entries.drop_last(), id)) by {
            if store_has_id(entries.drop_last(), id) {
                let j = choose|j: int|
                    0 <= j < entries.drop_last().len() && (#[trigger] entries.drop_last()[j]).0
                        == id;
                assert(entries[j].0 == id);
            }
        }
        assert forall|x: Seq<char>|
            #[trigger] store_has_id(entries.drop_last(), x) || x == id <==> store_has_id(
            entries,
            x,
        ) by {
            if store_has_id(entries, x) {
                let j = choose|j: int| 0 <= j < entries.len() && (#[trigger] entries[j]).0 == x;
                if j < entries.len() - 1 {
                    assert(entries.drop_last()[j].0 == x);
                }
            }
            if store_has_id(entries.drop_last(), x) {
                let j = choose|j: int|
                    0 <= j < entries.drop_last().len() && (#[trigger] entries.drop_last()[j]).0
                        == x;
                assert(entries[j].0 == x);
            }
        }
        assert forall|x: Seq<char>|
            x != id && store_has_id(entries.drop_last(), x) implies #[trigger] store_rec(
            entries.drop_last(),
            x,
        ) == store_rec(entries, x) by {
            let j = store_idx(entries.drop_last(), x);
            assert(entries.drop_last()[j].0 == x);
            assert(entries[j] == entries.drop_last()[j]);
            lemma_store_idx(entries, x, j);
        }
        if store_has_id(b, id) {
            let r2 = store_rec(b, id);
            let blk = entry_changes(id, r1, r2);
            lemma_raw_seq_add(rest, blk);
            lemma_run_stage_concat(raw_seq_of(rest), raw_seq_of(blk), st, w, act);
            // the field updates patch, the attribute changes are skipped
            let fc = field_changes(id, r1, r2);
            let w1 = attrs_walk(id, r1.attrs, r2.attrs, true);
            let w2 = attrs_walk(id, r2.attrs, r1.attrs, false);
            lemma_raw_seq_add(fc + w1, w2);
            lemma_raw_seq_add(fc, w1);
            lemma_run_stage_concat(raw_seq_of(fc + w1), raw_seq_of(w2), p, w, act);
            lemma_run_stage_concat(raw_seq_of(fc), raw_seq_of(w1), p, w, act);
            assert(store_has_id(p, id) && store_rec(p, id) == r1 && record_wf(r1)) by {
                assert(entries[entries.len() - 1] == (id, r1));
            }
            lemma_stage3_block(p, id, r1, r2);
            let p2 = store_update(p, id, patched(r1, r2));
            lemma_store_update_props(p, id, patched(r1, r2));
            lemma_attrs_walk_kinds(id, r1.attrs, r2.attrs, true);
            lemma_attrs_walk_kinds(id, r2.attrs, r1.attrs, false);
            assert forall|i: int|
                0 <= i < w1.len() implies !matches_stage(
                raw_of_change(#[trigger] w1[i]),
                w,
                act,
            ) by {
                lemma_change_stage(w1[i]);
            }
            assert forall|i: int|
                0 <= i < w2.len() implies !matches_stage(
                raw_of_change(#[trigger] w2[i]),
                w,
                act,
            ) by {
                lemma_change_stage(w2[i]);
            }
            lemma_skip_raw(w1, p2, w, act);
            lemma_skip_raw(w2, p2, w, act);
        } else {
            let c = ChangeV::RowRemoved { id: id, snapshot: r1 };
            lemma_raw_seq_push(rest, c);
            lemma_run_stage_concat(raw_seq_of(rest), seq![raw_of_change(c)], st, w, act);
            lemma_change_stage(c);
            lemma_run_stage_skip(seq![raw_of_change(c)], p, w, act);
        }
    }
}

/// The attribute-update stage never finds a matching change in a diff.
proof fn lemma_stage6_run(cs: Seq<ChangeV>, st: StoreV)
    ensures
        run_stage_spec(raw_seq_of(cs), st, "attribute"@, "update"@) == (
            st,
            None::<crate::errors::GffError>,
        ),
{
    assert forall|i: int|
        0 <= i < cs.len() implies !matches_stage(
        raw_of_change(#[trigger] cs[i]),
        "attribute"@,
        "update"@,
    ) by {
        lemma_change_stage(cs[i]);
    }
    lemma_skip_raw(cs, st, "attribute"@, "update"@);
}

/// An attribute map with the entry for a present key `k` replaced by the
/// values `vs2`, or dropped when `vs2` is empty.
spec fn attrs_with_values(a: AttrsV, k: Seq<char>, vs2: Seq<Seq<char>>) -> AttrsV {
    if vs2.len() == 0 {
        a.remove(attr_key_idx(a, k))
    } else {
        a.update(attr_key_idx(a, k), (k, vs2))
    }
}

/// What replacing one entry's values does to the map.
proof fn lemma_attrs_with_values(a: AttrsV, k: Seq<char>, vs2: Seq<Seq<char>>)
    requires
        attrs_wf(a),
        attr_has_key(a, k),
    ensures
        attrs_wf(attrs_with_values(a, k, vs2)),
        vs2.len() > 0 ==> attr_has_key(attrs_with_values(a, k, vs2), k) && attr_values(
            attrs_with_values(a, k, vs2),
            k,
        ) == vs2,
        vs2.len() == 0 ==> !attr_has_key(attrs_with_values(a, k, vs2), k),
        forall|k2: Seq<char>|
            k2 != k ==> #[trigger] attr_has_key(attrs_with_values(a, k, vs2), k2) == attr_has_key(
                a,
                k2,
            ),
        forall|k2: Seq<char>|
            k2 != k && attr_has_key(a, k2) ==> #[trigger] attr_values(
                attrs_with_values(a, k, vs2),
                k2,
            ) == attr_values(a, k2),
{
    let i = attr_key_idx(a, k);
    assert(0 <= i < a.len() && a[i].0 == k);
    let t = attrs_with_values(a, k, vs2);
    if vs2.len() == 0 {
        assert(forall|x: int| 0 <= x < i ==> t[x] == #[trigger] a[x]);
        assert(forall|x: int| i <= x < t.len() ==> t[x] == #[trigger] a[x + 1]);
        assert(attrs_wf(t));
        assert(!attr_has_key(t, k)) by {
            if attr_has_key(t, k) {
                let j = choose|j: int| 0 <= j < t.len() && (#[trigger] t[j]).0 == k;
                if j < i {
                    assert(a[j].0 == k && a[i].0 == k);
                } else {
                    assert(a[j + 1].0 == k && a[i].0 == k);
                }
            }
        }
        assert forall|k2: Seq<char>| k2 != k implies #[trigger] attr_has_key(t, k2)
            == attr_has_key(a, k2) by {
            if attr_has_key(a, k2) {
                let j = choose|j: int| 0 <= j < a.len() && (#[trigger] a[j]).0 == k2;
                assert(j != i);
                if j < i {
                    assert(t[j].0 == k2);
                } else {
                    assert(t[j - 1].0 == k2);
                }
            }
            if attr_has_key(t, k2) {
                let j = choose|j: int| 0 <= j < t.len() && (#[trigger] t[j]).0 == k2;
                if j < i {
                    assert(a[j].0 == k2);
                } else {
                    assert(a[j + 1].0 == k2);
                }
            }
        }
        assert forall|k2: Seq<char>| k2 != k && attr_has_key(a, k2) implies #[trigger] attr_values(
            t,
            k2,
        ) == attr_values(a, k2) by {
            let j = attr_key_idx(a, k2);
            assert(0 <= j < a.len() && a[j].0 == k2);
            assert(j != i);
            if j < i {
                lemma_key_idx(t, k2, j);
            } else {
                lemma_key_idx(t, k2, j - 1);
            }
        }
    } else {
        assert(t[i] == (k, vs2));
        assert(forall|x: int| 0 <= x < a.len() && x != i ==> t[x] == #[trigger] a[x]);
        assert(attrs_wf(t)) by {
            assert forall|x: int, y: int|
                0 <= x < y < t.len() implies (#[trigger] t[x]).0 != (#[trigger] t[y]).0 by {
                assert(t[x].0 == a[x].0 && t[y].0 == a[y].0);
            }
        }
        lemma_key_idx(t, k, i);
        assert forall|k2: Seq<char>| k2 != k implies #[trigger] attr_has_key(t, k2)
            == attr_has_key(a, k2) by {
            if attr_has_key(a, k2) {
                let j = choose|j: int| 0 <= j < a.len() && (#[trigger] a[j]).0 == k2;
                assert(t[j].0 == k2);
            }
            if attr_has_key(t, k2) {
                let j = choose|j: int| 0 <= j < t.len() && (#[trigger] t[j]).0 == k2;
                assert(a[j].0 == k2);
            }
        }
        assert forall|k2: Seq<char>| k2 != k && attr_has_key(a, k2) implies #[trigger] attr_values(
            t,
            k2,
        ) == attr_values(a, k2) by {
            let j = attr_key_idx(a, k2);
            assert(0 <= j < a.len() && a[j].0 == k2);
            assert(j != i);
            lemma_key_idx(t, k2, j);
        }
    }
}

/// Replacing an entry's values twice keeps only the second replacement.
proof fn lemma_attrs_with_values_twice(
    a: AttrsV,
    k: Seq<char>,
    u: Seq<Seq<char>>,
    v: Seq<Seq<char>>,
)
    requires
        attrs_wf(a),
        attr_has_key(a, k),
        u.len() > 0,
    ensures
        attrs_with_values(attrs_with_values(a, k, u), k, v) == attrs_with_values(a, k, v),
{
    let i = attr_key_idx(a, k);
    assert(0 <= i < a.len() && a[i].0 == k);
    lemma_attrs_with_values(a, k, u);
    let t = attrs_with_values(a, k, u);
    assert(t == a.update(i, (k, u)));
    lemma_key_idx(t, k, i);
    if v.len() == 0 {
        assert(t.remove(i) =~= a.remove(i));
    } else {
        assert(t.update(i, (k, v)) =~= a.update(i, (k, v)));
    }
}

/// Replacing an entry's values with the values it already has changes
/// nothing.
proof fn lemma_attrs_with_values_same(a: AttrsV, k: Seq<char>)
    requires
        attrs_wf(a),
        attr_has_key(a, k),
    ensures
        attrs_with_values(a, k, attr_values(a, k)) == a,
{
    let i = attr_key_idx(a, k);
    assert(0 <= i < a.len() && a[i].0 == k);
    assert(a[i].1.len() > 0);
    assert(a.update(i, (k, a[i].1)) =~= a);
}

/// The values of `vs` that `against` also holds, in order.
spec fn vals_kept(vs: Seq<Seq<char>>, against: Seq<Seq<char>>) -> Seq<Seq<char>>
    decreases vs.len(),
{
    if vs.len() == 0 {
        vs
    } else {
        let rest = vals_kept(vs.drop_last(), against);
        if seq_contains_str(against, vs.last()) {
            rest.push(vs.last())
        } else {
            rest
        }
    }
}

/// Membership in the kept values.
proof fn lemma_vals_kept_mem(vs: Seq<Seq<char>>, against: Seq<Seq<char>>, x: Seq<char>)
    ensures
        seq_contains_str(vals_kept(vs, against), x) == (seq_contains_str(vs, x)
            && seq_contains_str(against, x)),
    decreases vs.len(),
{
    if vs.len() > 0 {
        lemma_vals_kept_mem(vs.drop_last(), against, x);
        let rest = vals_kept(vs.drop_last(), against);
        let s = vals_kept(vs, against);
        assert(seq_contains_str(vs.drop_last(), x) || vs.last() == x <==> seq_contains_str(
            vs,
            x,
        )) by {
            if seq_contains_str(vs, x) {
                let j = choose|j: int| 0 <= j < vs.len() && vs[j] == x;
                if j < vs.len() - 1 {
                    assert(vs.drop_last()[j] == x);
                }
            }
            if seq_contains_str(vs.drop_last(), x) {
                let j = choose|j: int| 0 <= j < vs.len() - 1 && vs.drop_last()[j] == x;
                assert(vs[j] == x);
            }
        }
        if seq_contains_str(against, vs.last()) {
            assert(s == rest.push(vs.last()));
            assert(seq_contains_str(s, x) <==> (seq_contains_str(rest, x) || vs.last() == x)) by {
                if seq_contains_str(rest, x) {
                    let j = choose|j: int| 0 <= j < rest.len() && rest[j] == x;
                    assert(s[j] == x);
                }
                if seq_contains_str(s, x) {
                    let j = choose|j: int| 0 <= j < s.len() && s[j] == x;
                    if j < rest.len() {
                        assert(rest[j] == x);
                    }
                }
                assert(s[rest.len() as int] == vs.last());
            }
        }
    }
}

/// All value changes are the sifted changes against an empty list.
proof fn lemma_all_is_sift(id: Seq<char>, k: Seq<char>, values: Seq<Seq<char>>, add: bool)
    ensures
        all_value_changes(id, k, values, add) == sift_changes(
            id,
            k,
            values,
            Seq::empty(),
            add,
        ),
    decreases values.len(),
{
    if values.len() > 0 {
        lemma_all_is_sift(id, k, values.drop_last(), add);
    }
}

/// Running the attribute-removal stage over the sifted removals of one
/// key: the doomed occurrences disappear one by one, in order.
proof fn lemma_sift_removals_run(
    st: StoreV,
    id: Seq<char>,
    k: Seq<char>,
    vs: Seq<Seq<char>>,
    against: Seq<Seq<char>>,
    m: int,
)
    requires
        store_wf(st),
        store_has_id(st, id),
        attr_has_key(store_rec(st, id).attrs, k),
        attr_values(store_rec(st, id).attrs, k) == vs,
        0 <= m <= vs.len(),
    ensures
        run_stage_spec(
            raw_seq_of(sift_changes(id, k, vs.take(m), against, false)),
            st,
            "attribute"@,
            "remove"@,
        ) == (
            store_update(
                st,
                id,
                RecordV {
                    attrs: attrs_with_values(
                        store_rec(st, id).attrs,
                        k,
                        vals_kept(vs.take(m), against) + vs.skip(m),
                    ),
                    ..store_rec(st, id)
                },
            ),
            None::<crate::errors::GffError>,
        ),
    decreases m,
{
    lemma_stage_literals();
    let a = store_rec(st, id).attrs;
    let rec0 = store_rec(st, id);
    let i = store_idx(st, id);
    assert(st[i] == (id, rec0));
    assert(record_wf(rec0));
    let ik = attr_key_idx(a, k);
    assert(0 <= ik < a.len() && a[ik].0 == k);
    if m == 0 {
        assert(vs.take(0).len() == 0);
        assert(raw_seq_of(sift_changes(id, k, vs.take(0), against, false)) =~= Seq::<
            RawChangeV,
        >::empty());
        assert(vals_kept(vs.take(0), against) + vs.skip(0) =~= vs);
        lemma_attrs_with_values_same(a, k);
        assert(RecordV { attrs: a, ..rec0 } == rec0);
        assert(store_update(st, id, rec0) =~= st);
    } else {
        lemma_sift_removals_run(st, id, k, vs, against, m - 1);
        assert(vs.take(m).drop_last() =~= vs.take(m - 1));
        assert(vs.take(m).last() == vs[m - 1]);
        let v = vs[m - 1];
        let kprev = vals_kept(vs.take(m - 1), against);
        let vprev = kprev + vs.skip(m - 1);
        let vcur = vals_kept(vs.take(m), against) + vs.skip(m);
        assert(vs.skip(m - 1).len() >= 1);
        assert(vs.skip(m - 1)[0] == v);
        assert(vprev[kprev.len() as int] == v);
        assert(vprev.len() > 0);
        lemma_attrs_with_values(a, k, vprev);
        let aprev = attrs_with_values(a, k, vprev);
        let rprev = RecordV { attrs: aprev, ..rec0 };
        assert(record_wf(rprev));
        lemma_store_update_props(st, id, rprev);
        let sprev = store_update(st, id, rprev);
        if seq_contains_str(against, v) {
            assert(sift_changes(id, k, vs.take(m), against, false) == sift_changes(
                id,
                k,
                vs.take(m - 1),
                against,
                false,
            ));
            assert(vals_kept(vs.take(m), against) == kprev.push(v));
            assert(vcur =~= vprev);
        } else {
            let c = mk_attr_change(id, k, v, false);
            assert(sift_changes(id, k, vs.take(m), against, false) == sift_changes(
                id,
                k,
                vs.take(m - 1),
                against,
                false,
            ).push(c));
            lemma_raw_seq_push(sift_changes(id, k, vs.take(m - 1), against, false), c);
            lemma_run_stage_concat(
                raw_seq_of(sift_changes(id, k, vs.take(m - 1), against, false)),
                seq![raw_of_change(c)],
                st,
                "attribute"@,
                "remove"@,
            );
            lemma_change_stage(c);
            // every kept value is in `against`, so none equals `v`
            assert forall|j: int| 0 <= j < kprev.len() implies vprev[j] != v by {
                assert(vprev[j] == kprev[j]);
                assert(seq_contains_str(kprev, kprev[j]));
                lemma_vals_kept_mem(vs.take(m - 1), against, kprev[j]);
            }
            assert(attr_values(aprev, k) == vprev);
            assert(attr_has_pair(aprev, k, v)) by {
                assert(vprev[kprev.len() as int] == v);
            }
            lemma_first_idx_of(vprev, v);
            let f = first_idx_of(vprev, v);
            assert(f == kprev.len()) by {
                if f < kprev.len() {
                    assert(vprev[f] != v);
                } else if f > kprev.len() {
                    assert(vprev[kprev.len() as int] != v);
                }
            }
            lemma_key_idx(aprev, k, ik);
            let anext = attr_remove_one(aprev, k, v);
            assert(vals_kept(vs.take(m), against) == kprev);
            if vprev.len() == 1 {
                assert(kprev.len() == 0 && vs.skip(m - 1).len() == 1);
                assert(m == vs.len());
                assert(vs.skip(m).len() == 0);
                assert(vcur =~= Seq::<Seq<char>>::empty());
                assert(anext == aprev.remove(ik));
                assert(aprev.remove(ik) =~= a.remove(ik));
                assert(anext == attrs_with_values(a, k, vcur));
            } else {
                assert(anext == aprev.update(ik, (k, vprev.remove(f))));
                assert(vprev.remove(f) =~= vcur) by {
                    assert(vs.skip(m - 1).drop_first() =~= vs.skip(m));
                }
                assert(aprev.update(ik, (k, vcur)) =~= a.update(ik, (k, vcur)));
                assert(vcur.len() > 0);
                assert(anext == attrs_with_values(a, k, vcur));
            }
            let rnext = RecordV { attrs: anext, ..rec0 };
            assert(attr_apply_spec(raw_of_change(c), sprev, "remove"@) == Ok::<
                StoreV,
                crate::errors::GffError,
            >(store_update(sprev, id, rnext))) by {
                assert(store_rec(sprev, id) == rprev);
                assert(RecordV { attrs: anext, ..rprev } == rnext);
            }
            lemma_run_stage_one(
                raw_of_change(c),
                sprev,
                store_update(sprev, id, rnext),
                "attribute"@,
                "remove"@,
            );
            assert(store_update(sprev, id, rnext) == store_update(st, id, rnext)) by {
                lemma_store_idx(sprev, id, i);
                assert(store_update(sprev, id, rnext) =~= st.update(i, (id, rnext)));
            }
        }
    }
}

/// Nothing survives sifting against an empty list.
proof fn lemma_vals_kept_empty(vs: Seq<Seq<char>>)
    ensures
        vals_kept(vs, Seq::empty()).len() == 0,
    decreases vs.len(),
{
    if vs.len() > 0 {
        lemma_vals_kept_empty(vs.drop_last());
    }
}

/// The exact kind of each sifted change.
proof fn lemma_sift_exact(
    id: Seq<char>,
    k: Seq<char>,
    from: Seq<Seq<char>>,
    against: Seq<Seq<char>>,
    add: bool,
)
    ensures
        forall|i: int|
            0 <= i < sift_changes(id, k, from, against, add).len() ==> (if add {
                (#[trigger] sift_changes(id, k, from, against, add)[i]) is AttributeAdded
            } else {
                (#[trigger] sift_changes(id, k, from, against, add)[i]) is AttributeRemoved
            }),
    decreases from.len(),
{
    if from.len() > 0 {
        lemma_sift_exact(id, k, from.drop_last(), against, add);
        let rest = sift_changes(id, k, from.drop_last(), against, add);
        let s = sift_changes(id, k, from, against, add);
        assert forall|i: int|
            0 <= i < s.len() implies (if add {
            (#[trigger] s[i]) is AttributeAdded
        } else {
            (#[trigger] s[i]) is AttributeRemoved
        }) by {
            if i < rest.len() {
                assert(s[i] == rest[i]);
            } else {
                assert(s[i] == mk_attr_change(id, k, from.last(), add));
            }
        }
    }
}

/// What inserting one value does to the map.
proof fn lemma_attr_insert_props(a: AttrsV, k: Seq<char>, v: Seq<char>)
    requires
        attrs_wf(a),
    ensures
        attrs_wf(attr_insert(a, k, v)),
        attr_has_key(attr_insert(a, k, v), k),
        forall|x: Seq<char>|
            seq_contains_str(attr_values(attr_insert(a, k, v), k), x) == (seq_contains_str(
                attr_values(a, k),
                x,
            ) || x == v),
        forall|k2: Seq<char>|
            k2 != k ==> #[trigger] attr_has_key(attr_insert(a, k, v), k2) == attr_has_key(a, k2),
        forall|k2: Seq<char>|
            k2 != k && attr_has_key(a, k2) ==> #[trigger] attr_values(attr_insert(a, k, v), k2)
                == attr_values(a, k2),
{
    let t = attr_insert(a, k, v);
    if attr_has_key(a, k) {
        let i = attr_key_idx(a, k);
        assert(0 <= i < a.len() && a[i].0 == k);
        assert(t == a.update(i, (k, a[i].1.push(v))));
        assert(t[i] == (k, a[i].1.push(v)));
        assert(forall|x: int| 0 <= x < a.len() && x != i ==> t[x] == #[trigger] a[x]);
        assert(attrs_wf(t)) by {
            assert forall|x: int, y: int|
                0 <= x < y < t.len() implies (#[trigger] t[x]).0 != (#[trigger] t[y]).0 by {
                assert(t[x].0 == a[x].0 && t[y].0 == a[y].0);
            }
        }
        lemma_key_idx(t, k, i);
        assert(attr_values(t, k) == a[i].1.push(v));
        assert(attr_values(a, k) == a[i].1);
        assert forall|x: Seq<char>|
            seq_contains_str(attr_values(t, k), x) == (seq_contains_str(attr_values(a, k), x) || x
                == v) by {
            let vv = a[i].1;
            if seq_contains_str(vv.push(v), x) {
                let j = choose|j: int| 0 <= j < vv.push(v).len() && vv.push(v)[j] == x;
                if j < vv.len() {
                    assert(vv[j] == x);
                }
            }
            if seq_contains_str(vv, x) {
                let j = choose|j: int| 0 <= j < vv.len() && vv[j] == x;
                assert(vv.push(v)[j] == x);
            }
            assert(vv.push(v)[vv.len() as int] == v);
        }
        assert forall|k2: Seq<char>| k2 != k implies #[trigger] attr_has_key(t, k2)
            == attr_has_key(a, k2) by {
            if attr_has_key(a, k2) {
                let j = choose|j: int| 0 <= j < a.len() && (#[trigger] a[j]).0 == k2;
                assert(t[j].0 == k2);
            }
            if attr_has_key(t, k2) {
                let j = choose|j: int| 0 <= j < t.len() && (#[trigger] t[j]).0 == k2;
                assert(a[j].0 == k2);
            }
        }
        assert forall|k2: Seq<char>|
            k2 != k && attr_has_key(a, k2) implies #[trigger] attr_values(t, k2) == attr_values(
            a,
            k2,
        ) by {
            let j = attr_key_idx(a, k2);
            assert(0 <= j < a.len() && a[j].0 == k2);
            assert(j != i);
            lemma_key_idx(t, k2, j);
        }
    } else {
        assert(t == a.push((k, seq![v])));
        assert(t[a.len() as int] == (k, seq![v]));
        assert(forall|x: int| 0 <= x < a.len() ==> t[x] == #[trigger] a[x]);
        assert(attrs_wf(t)) by {
            assert forall|x: int, y: int|
                0 <= x < y < t.len() implies (#[trigger] t[x]).0 != (#[trigger] t[y]).0 by {
                if y == a.len() {
                    assert(a[x].0 != k);
                }
            }
        }
        lemma_key_idx(t, k, a.len() as int);
        assert(attr_values(t, k) == seq![v]);
        assert(attr_values(a, k) == Seq::<Seq<char>>::empty());
        assert forall|x: Seq<char>|
            seq_contains_str(attr_values(t, k), x) == (seq_contains_str(attr_values(a, k), x) || x
                == v) by {
            assert(seq![v][0] == v);
            if seq_contains_str(seq![v], x) {
                let j = choose|j: int| 0 <= j < seq![v].len() && seq![v][j] == x;
                assert(j == 0);
            }
        }
        assert forall|k2: Seq<char>| k2 != k implies #[trigger] attr_has_key(t, k2)
            == attr_has_key(a, k2) by {
            if attr_has_key(a, k2) {
                let j = choose|j: int| 0 <= j < a.len() && (#[trigger] a[j]).0 == k2;
                assert(t[j].0 == k2);
            }
            if attr_has_key(t, k2) {
                let j = choose|j: int| 0 <= j < t.len() && (#[trigger] t[j]).0 == k2;
                assert(j != a.len());
                assert(a[j].0 == k2);
            }
        }
        assert forall|k2: Seq<char>|
            k2 != k && attr_has_key(a, k2) implies #[trigger] attr_values(t, k2) == attr_values(
            a,
            k2,
        ) by {
            let j = attr_key_idx(a, k2);
            assert(0 <= j < a.len() && a[j].0 == k2);
            lemma_key_idx(t, k2, j);
        }
    }
}

/// The map after inserting, under `k`, every value of `from` absent from
/// `against`, in order.
spec fn insert_sifted(
    a: AttrsV,
    k: Seq<char>,
    from: Seq<Seq<char>>,
    against: Seq<Seq<char>>,
) -> AttrsV
    decreases from.len(),
{
    if from.len() == 0 {
        a
    } else {
        let p = insert_sifted(a, k, from.drop_last(), against);
        if !seq_contains_str(against, from.last()) {
            attr_insert(p, k, from.last())
        } else {
            p
        }
    }
}

/// What the sifted insertion leaves: well-formedness and other keys.
proof fn lemma_insert_sifted_props(
    a: AttrsV,
    k: Seq<char>,
    from: Seq<Seq<char>>,
    against: Seq<Seq<char>>,
)
    requires
        attrs_wf(a),
    ensures
        attrs_wf(insert_sifted(a, k, from, against)),
        forall|k2: Seq<char>|
            k2 != k ==> #[trigger] attr_has_key(insert_sifted(a, k, from, against), k2)
                == attr_has_key(a, k2),
        forall|k2: Seq<char>|
            k2 != k && attr_has_key(a, k2) ==> #[trigger] attr_values(
                insert_sifted(a, k, from, against),
                k2,
            ) == attr_values(a, k2),
    decreases from.len(),
{
    if from.len() > 0 {
        lemma_insert_sifted_props(a, k, from.drop_last(), against);
        let p = insert_sifted(a, k, from.drop_last(), against);
        let v = from.last();
        if !seq_contains_str(against, v) {
            lemma_attr_insert_props(p, k, v);
        }
    }
}

/// Membership in the values after a sifted insertion.
proof fn lemma_insert_sifted_mem(
    a: AttrsV,
    k: Seq<char>,
    from: Seq<Seq<char>>,
    against: Seq<Seq<char>>,
    x: Seq<char>,
)
    requires
        attrs_wf(a),
    ensures
        seq_contains_str(attr_values(insert_sifted(a, k, from, against), k), x) == (
        seq_contains_str(attr_values(a, k), x) || (seq_contains_str(from, x) && !seq_contains_str(
            against,
            x,
        ))),
    decreases from.len(),
{
    if from.len() > 0 {
        lemma_insert_sifted_mem(a, k, from.drop_last(), against, x);
        lemma_insert_sifted_props(a, k, from.drop_last(), against);
        let p = insert_sifted(a, k, from.drop_last(), against);
        let v = from.last();
        assert(seq_contains_str(from.drop_last(), x) || (x == v) <==> seq_contains_str(
            from,
            x,
        )) by {
            if seq_contains_str(from, x) {
                let j = choose|j: int| 0 <= j < from.len() && from[j] == x;
                if j < from.len() - 1 {
                    assert(from.drop_last()[j] == x);
                }
            }
            if seq_contains_str(from.drop_last(), x) {
                let j = choose|j: int| 0 <= j < from.len() - 1 && from.drop_last()[j] == x;
                assert(from[j] == x);
            }
            assert(from[from.len() - 1] == v);
        }
        if !seq_contains_str(against, v) {
            lemma_attr_insert_props(p, k, v);
            assert(seq_contains_str(attr_values(attr_insert(p, k, v), k), x) == (
            seq_contains_str(attr_values(p, k), x) || x == v));
        }
    }
}

/// Running the attribute-addition stage over the sifted additions of one
/// key.
proof fn lemma_sift_adds_run(
    st: StoreV,
    id: Seq<char>,
    k: Seq<char>,
    from: Seq<Seq<char>>,
    against: Seq<Seq<char>>,
    m: int,
)
    requires
        store_wf(st),
        store_has_id(st, id),
        0 <= m <= from.len(),
    ensures
        run_stage_spec(
            raw_seq_of(sift_changes(id, k, from.take(m), against, true)),
            st,
            "attribute"@,
            "add"@,
        ) == (
            store_update(
                st,
                id,
                RecordV {
                    attrs: insert_sifted(store_rec(st, id).attrs, k, from.take(m), against),
                    ..store_rec(st, id)
                },
            ),
            None::<crate::errors::GffError>,
        ),
    decreases m,
{
    lemma_stage_literals();
    let a = store_rec(st, id).attrs;
    let rec0 = store_rec(st, id);
    let i = store_idx(st, id);
    assert(st[i] == (id, rec0));
    assert(record_wf(rec0));
    if m == 0 {
        assert(from.take(0).len() == 0);
        assert(raw_seq_of(sift_changes(id, k, from.take(0), against, true)) =~= Seq::<
            RawChangeV,
        >::empty());
        assert(insert_sifted(a, k, from.take(0), against) == a);
        assert(RecordV { attrs: a, ..rec0 } == rec0);
        assert(store_update(st, id, rec0) =~= st);
    } else {
        lemma_sift_adds_run(st, id, k, from, against, m - 1);
        assert(from.take(m).drop_last() =~= from.take(m - 1));
        assert(from.take(m).last() == from[m - 1]);
        let v = from[m - 1];
        let aprev = insert_sifted(a, k, from.take(m - 1), against);
        lemma_insert_sifted_props(a, k, from.take(m - 1), against);
        let rprev = RecordV { attrs: aprev, ..rec0 };
        assert(record_wf(rprev));
        lemma_store_update_props(st, id, rprev);
        let sprev = store_update(st, id, rprev);
        if seq_contains_str(against, v) {
            assert(sift_changes(id, k, from.take(m), against, true) == sift_changes(
                id,
                k,
                from.take(m - 1),
                against,
                true,
            ));
            assert(insert_sifted(a, k, from.take(m), against) == aprev);
        } else {
            let c = mk_attr_change(id, k, v, true);
            assert(sift_changes(id, k, from.take(m), against, true) == sift_changes(
                id,
                k,
                from.take(m - 1),
                against,
                true,
            ).push(c));
            lemma_raw_seq_push(sift_changes(id, k, from.take(m - 1), against, true), c);
            lemma_run_stage_concat(
                raw_seq_of(sift_changes(id, k, from.take(m - 1), against, true)),
                seq![raw_of_change(c)],
                st,
                "attribute"@,
                "add"@,
            );
            lemma_change_stage(c);
            let anext = attr_insert(aprev, k, v);
            assert(anext == insert_sifted(a, k, from.take(m), against));
            let rnext = RecordV { attrs: anext, ..rec0 };
            assert(attr_apply_spec(raw_of_change(c), sprev, "add"@) == Ok::<
                StoreV,
                crate::errors::GffError,
            >(store_update(sprev, id, rnext))) by {
                assert(store_rec(sprev, id) == rprev);
                assert(RecordV { attrs: anext, ..rprev } == rnext);
            }
            lemma_run_stage_one(
                raw_of_change(c),
                sprev,
                store_update(sprev, id, rnext),
                "attribute"@,
                "add"@,
            );
            assert(store_update(sprev, id, rnext) == store_update(st, id, rnext)) by {
                lemma_store_idx(sprev, id, i);
                assert(store_update(sprev, id, rnext) =~= st.update(i, (id, rnext)));
            }
        }
    }
}

/// The attribute map after the removal stage has processed the forward
/// attribute walk: keys the other side lacks entirely are drained.
spec fn stage4_w1(cur: AttrsV, entries: AttrsV, a2: AttrsV) -> AttrsV
    decreases entries.len(),
{
    if entries.len() == 0 {
        cur
    } else {
        let p = stage4_w1(cur, entries.drop_last(), a2);
        let k = entries.last().0;
        if attr_has_key(a2, k) {
            p
        } else {
            attrs_with_values(p, k, Seq::empty())
        }
    }
}

/// The attribute map after the removal stage has processed the reverse
/// attribute walk: under every shared key, only the values the other side
/// also holds survive.
spec fn stage4_w2(cur: AttrsV, entries: AttrsV, a1: AttrsV) -> AttrsV
    decreases entries.len(),
{
    if entries.len() == 0 {
        cur
    } else {
        let p = stage4_w2(cur, entries.drop_last(), a1);
        let k = entries.last().0;
        let vs2 = entries.last().1;
        if attr_has_key(a1, k) {
            attrs_with_values(p, k, vals_kept(attr_values(a1, k), vs2))
        } else {
            p
        }
    }
}

/// Splitting an attribute key list at its last entry.
proof fn lemma_attr_entries_split(entries: AttrsV)
    requires
        entries.len() > 0,
    ensures
        forall|k2: Seq<char>|
            #[trigger] attr_has_key(entries, k2) == (attr_has_key(entries.drop_last(), k2) || k2
                == entries.last().0),
{
    assert forall|k2: Seq<char>|
        #[trigger] attr_has_key(entries, k2) == (attr_has_key(entries.drop_last(), k2) || k2
            == entries.last().0) by {
        if attr_has_key(entries, k2) {
            let j = choose|j: int| 0 <= j < entries.len() && (#[trigger] entries[j]).0 == k2;
            if j < entries.len() - 1 {
                assert(entries.drop_last()[j].0 == k2);
            }
        }
        if attr_has_key(entries.drop_last(), k2) {
            let j = choose|j: int|
                0 <= j < entries.drop_last().len() && (#[trigger] entries.drop_last()[j]).0 == k2;
            assert(entries[j].0 == k2);
        }
        assert(entries[entries.len() - 1].0 == entries.last().0);
    }
}

/// Running the attribute-removal stage over the forward attribute walk.
proof fn lemma_stage4_w1_run(st: StoreV, id: Seq<char>, entries: AttrsV, a2: AttrsV)
    requires
        store_wf(st),
        store_has_id(st, id),
        attrs_wf(entries),
        forall|i: int|
            0 <= i < entries.len() ==> attr_has_key(
                store_rec(st, id).attrs,
                (#[trigger] entries[i]).0,
            ) && attr_values(store_rec(st, id).attrs, entries[i].0) == entries[i].1,
    ensures
        run_stage_spec(
            raw_seq_of(attrs_walk(id, entries, a2, true)),
            st,
            "attribute"@,
            "remove"@,
        ) == (
            store_update(
                st,
                id,
                RecordV {
                    attrs: stage4_w1(store_rec(st, id).attrs, entries, a2),
                    ..store_rec(st, id)
                },
            ),
            None::<crate::errors::GffError>,
        ),
        attrs_wf(stage4_w1(store_rec(st, id).attrs, entries, a2)),
        forall|k2: Seq<char>|
            !attr_has_key(entries, k2) ==> #[trigger] attr_has_key(
                stage4_w1(store_rec(st, id).attrs, entries, a2),
                k2,
            ) == attr_has_key(store_rec(st, id).attrs, k2),
        forall|k2: Seq<char>|
            !attr_has_key(entries, k2) && attr_has_key(store_rec(st, id).attrs, k2)
                ==> #[trigger] attr_values(stage4_w1(store_rec(st, id).attrs, entries, a2), k2)
                == attr_values(store_rec(st, id).attrs, k2),
        forall|k2: Seq<char>|
            attr_has_key(entries, k2) && attr_has_key(a2, k2) ==> #[trigger] attr_has_key(
                stage4_w1(store_rec(st, id).attrs, entries, a2),
                k2,
            ) == attr_has_key(store_rec(st, id).attrs, k2) && attr_values(
                stage4_w1(store_rec(st, id).attrs, entries, a2),
                k2,
            ) == attr_values(store_rec(st, id).attrs, k2),
        forall|k2: Seq<char>|
            attr_has_key(entries, k2) && !attr_has_key(a2, k2) ==> !attr_has_key(
                stage4_w1(store_rec(st, id).attrs, entries, a2),
                k2,
            ),
    decreases entries.len(),
{
    let cur = store_rec(st, id).attrs;
    let rec0 = store_rec(st, id);
    let i = store_idx(st, id);
    assert(st[i] == (id, rec0));
    assert(record_wf(rec0));
    if entries.len() == 0 {
        assert(raw_seq_of(attrs_walk(id, entries, a2, true)) =~= Seq::<RawChangeV>::empty());
        assert(RecordV { attrs: cur, ..rec0 } == rec0);
        assert(store_update(st, id, rec0) =~= st);
    } else {
        assert(attrs_wf(entries.drop_last())) by {
            assert(forall|x: int|
                0 <= x < entries.len() - 1 ==> entries.drop_last()[x] == #[trigger] entries[x]);
        }
        assert(forall|x: int|
            0 <= x < entries.len() - 1 ==> entries.drop_last()[x] == #[trigger] entries[x]);
        lemma_stage4_w1_run(st, id, entries.drop_last(), a2);
        lemma_attr_entries_split(entries);
        let p = stage4_w1(cur, entries.drop_last(), a2);
        let k = entries.last().0;
        let vs = entries.last().1;
        assert(entries[entries.len() - 1] == (k, vs));
        assert(attr_has_key(cur, k) && attr_values(cur, k) == vs);
        assert(!attr_has_key(entries.drop_last(), k)) by {
            if attr_has_key(entries.drop_last(), k) {
                let j = choose|j: int|
                    0 <= j < entries.drop_last().len() && (#[trigger] entries.drop_last()[j]).0
                        == k;
                assert(entries[j].0 == k);
            }
        }
        assert(attr_has_key(p, k) && attr_values(p, k) == vs);
        let rp = RecordV { attrs: p, ..rec0 };
        assert(record_wf(rp));
        let sp = store_update(st, id, rp);
        lemma_store_update_props(st, id, rp);
        let rest = attrs_walk(id, entries.drop_last(), a2, true);
        let blk = attr_cmp_one(id, k, vs, a2, true);
        lemma_raw_seq_add(rest, blk);
        lemma_run_stage_concat(raw_seq_of(rest), raw_seq_of(blk), st, "attribute"@, "remove"@);
        if attr_has_key(a2, k) {
            let adds = sift_changes(id, k, attr_values(a2, k), vs, true);
            assert(blk == adds);
            lemma_sift_exact(id, k, attr_values(a2, k), vs, true);
            assert forall|x: int|
                0 <= x < adds.len() implies !matches_stage(
                raw_of_change(#[trigger] adds[x]),
                "attribute"@,
                "remove"@,
            ) by {
                lemma_change_stage(adds[x]);
            }
            lemma_skip_raw(adds, sp, "attribute"@, "remove"@);
        } else {
            lemma_all_is_sift(id, k, vs, false);
            assert(blk == sift_changes(id, k, vs, Seq::empty(), false));
            assert(store_rec(sp, id) == rp);
            assert(vs.take(vs.len() as int) =~= vs);
            lemma_sift_removals_run(sp, id, k, vs, Seq::empty(), vs.len() as int);
            lemma_vals_kept_empty(vs);
            assert(vals_kept(vs, Seq::empty()) + vs.skip(vs.len() as int) =~= Seq::<
                Seq<char>,
            >::empty());
            lemma_attrs_with_values(p, k, Seq::empty());
            let rnext = RecordV { attrs: attrs_with_values(p, k, Seq::empty()), ..rec0 };
            assert(RecordV { attrs: attrs_with_values(p, k, Seq::empty()), ..rp } == rnext);
            assert(store_update(sp, id, rnext) == store_update(st, id, rnext)) by {
                lemma_store_idx(sp, id, i);
                assert(store_update(sp, id, rnext) =~= st.update(i, (id, rnext)));
            }
        }
    }
}

/// Running the attribute-removal stage over the reverse attribute walk.
proof fn lemma_stage4_w2_run(st: StoreV, id: Seq<char>, entries: AttrsV, a1: AttrsV)
    requires
        store_wf(st),
        store_has_id(st, id),
        attrs_wf(entries),
        attrs_wf(a1),
        forall|i: int|
            0 <= i < entries.len() && attr_has_key(a1, (#[trigger] entries[i]).0)
                ==> attr_has_key(store_rec(st, id).attrs, entries[i].0) && attr_values(
                store_rec(st, id).attrs,
                entries[i].0,
            ) == attr_values(a1, entries[i].0),
    ensures
        run_stage_spec(
            raw_seq_of(attrs_walk(id, entries, a1, false)),
            st,
            "attribute"@,
            "remove"@,
        ) == (
            store_update(
                st,
                id,
                RecordV {
                    attrs: stage4_w2(store_rec(st, id).attrs, entries, a1),
                    ..store_rec(st, id)
                },
            ),
            None::<crate::errors::GffError>,
        ),
        attrs_wf(stage4_w2(store_rec(st, id).attrs, entries, a1)),
        forall|k2: Seq<char>|
            !attr_has_key(entries, k2) ==> #[trigger] attr_has_key(
                stage4_w2(store_rec(st, id).attrs, entries, a1),
                k2,
            ) == attr_has_key(store_rec(st, id).attrs, k2),
        forall|k2: Seq<char>|
            !attr_has_key(entries, k2) && attr_has_key(store_rec(st, id).attrs, k2)
                ==> #[trigger] attr_values(stage4_w2(store_rec(st, id).attrs, entries, a1), k2)
                == attr_values(store_rec(st, id).attrs, k2),
        forall|k2: Seq<char>|
            attr_has_key(entries, k2) && !attr_has_key(a1, k2) ==> #[trigger] attr_has_key(
                stage4_w2(store_rec(st, id).attrs, entries, a1),
                k2,
            ) == attr_has_key(store_rec(st, id).attrs, k2) && (attr_has_key(
                store_rec(st, id).attrs,
                k2,
            ) ==> attr_values(stage4_w2(store_rec(st, id).attrs, entries, a1), k2) == attr_values(
                store_rec(st, id).attrs,
                k2,
            )),
        forall|k2: Seq<char>|
            attr_has_key(entries, k2) && attr_has_key(a1, k2) ==> (#[trigger] attr_has_key(
                stage4_w2(store_rec(st, id).attrs, entries, a1),
                k2,
            ) == (vals_kept(attr_values(a1, k2), attr_values(entries, k2)).len() > 0)) && (
            vals_kept(attr_values(a1, k2), attr_values(entries, k2)).len() > 0 ==> attr_values(
                stage4_w2(store_rec(st, id).attrs, entries, a1),
                k2,
            ) == vals_kept(attr_values(a1, k2), attr_values(entries, k2))),
    decreases entries.len(),
{
    let cur = store_rec(st, id).attrs;
    let rec0 = store_rec(st, id);
    let i = store_idx(st, id);
    assert(st[i] == (id, rec0));
    assert(record_wf(rec0));
    if entries.len() == 0 {
        assert(raw_seq_of(attrs_walk(id, entries, a1, false)) =~= Seq::<RawChangeV>::empty());
        assert(RecordV { attrs: cur, ..rec0 } == rec0);
        assert(store_update(st, id, rec0) =~= st);
    } else {
        assert(attrs_wf(entries.drop_last())) by {
            assert(forall|x: int|
                0 <= x < entries.len() - 1 ==> entries.drop_last()[x] == #[trigger] entries[x]);
        }
        assert(forall|x: int|
            0 <= x < entries.len() - 1 ==> entries.drop_last()[x] == #[trigger] entries[x]);
        lemma_stage4_w2_run(st, id, entries.drop_last(), a1);
        lemma_attr_entries_split(entries);
        let p = stage4_w2(cur, entries.drop_last(), a1);
        let k = entries.last().0;
        let vs2 = entries.last().1;
        assert(entries[entries.len() - 1] == (k, vs2));
        lemma_key_idx(entries, k, entries.len() - 1);
        assert(attr_values(entries, k) == vs2);
        assert(!attr_has_key(entries.drop_last(), k)) by {
            if attr_has_key(entries.drop_last(), k) {
                let j = choose|j: int|
                    0 <= j < entries.drop_last().len() && (#[trigger] entries.drop_last()[j]).0
                        == k;
                assert(entries[j].0 == k);
            }
        }
        let rp = RecordV { attrs: p, ..rec0 };
        assert(record_wf(rp));
        let sp = store_update(st, id, rp);
        lemma_store_update_props(st, id, rp);
        let rest = attrs_walk(id, entries.drop_last(), a1, false);
        let blk = attr_cmp_one(id, k, vs2, a1, false);
        lemma_raw_seq_add(rest, blk);
        lemma_run_stage_concat(raw_seq_of(rest), raw_seq_of(blk), st, "attribute"@, "remove"@);
        if attr_has_key(a1, k) {
            let a1vals = attr_values(a1, k);
            assert(attr_has_key(cur, k) && attr_values(cur, k) == a1vals);
            assert(attr_has_key(p, k) && attr_values(p, k) == a1vals);
            let rems = sift_changes(id, k, a1vals, vs2, false);
            let adds = sift_changes(id, k, vs2, a1vals, true);
            assert(blk == rems + adds);
            lemma_raw_seq_add(rems, adds);
            lemma_run_stage_concat(raw_seq_of(rems), raw_seq_of(adds), sp, "attribute"@, "remove"@);
            assert(store_rec(sp, id) == rp);
            assert(a1vals.take(a1vals.len() as int) =~= a1vals);
            lemma_sift_removals_run(sp, id, k, a1vals, vs2, a1vals.len() as int);
            let kept = vals_kept(a1vals, vs2);
            assert(kept + a1vals.skip(a1vals.len() as int) =~= kept);
            lemma_attrs_with_values(p, k, kept);
            let rnext = RecordV { attrs: attrs_with_values(p, k, kept), ..rec0 };
            assert(RecordV { attrs: attrs_with_values(p, k, kept), ..rp } == rnext);
            let snext = store_update(sp, id, rnext);
            assert(snext == store_update(st, id, rnext)) by {
                lemma_store_idx(sp, id, i);
                assert(store_update(sp, id, rnext) =~= st.update(i, (id, rnext)));
            }
            lemma_store_update_props(st, id, rnext);
            lemma_sift_exact(id, k, vs2, a1vals, true);
            assert forall|x: int|
                0 <= x < adds.len() implies !matches_stage(
                raw_of_change(#[trigger] adds[x]),
                "attribute"@,
                "remove"@,
            ) by {
                lemma_change_stage(adds[x]);
            }
            lemma_skip_raw(adds, snext, "attribute"@, "remove"@);
        } else {
            let adds = all_value_changes(id, k, vs2, true);
            assert(blk == adds);
            lemma_all_is_sift(id, k, vs2, true);
            lemma_sift_exact(id, k, vs2, Seq::empty(), true);
            assert forall|x: int|
                0 <= x < adds.len() implies !matches_stage(
                raw_of_change(#[trigger] adds[x]),
                "attribute"@,
                "remove"@,
            ) by {
                lemma_change_stage(adds[x]);
            }
            lemma_skip_raw(adds, sp, "attribute"@, "remove"@);
        }
    }
}

/// The attribute map after the addition stage has processed the forward
/// attribute walk: under every shared key, the other side's extra values
/// are appended.
spec fn stage5_w1(cur: AttrsV, entries: AttrsV, a2: AttrsV) -> AttrsV
    decreases entries.len(),
{
    if entries.len() == 0 {
        cur
    } else {
        let p = stage5_w1(cur, entries.drop_last(), a2);
        let k = entries.last().0;
        let vs = entries.last().1;
        if attr_has_key(a2, k) {
            insert_sifted(p, k, attr_values(a2, k), vs)
        } else {
            p
        }
    }
}

/// The attribute map after the addition stage has processed the reverse
/// attribute walk: keys the other side lacks are fully inserted, shared
/// keys get the extra values once more.
spec fn stage5_w2(cur: AttrsV, entries: AttrsV, a1: AttrsV) -> AttrsV
    decreases entries.len(),
{
    if entries.len() == 0 {
        cur
    } else {
        let p = stage5_w2(cur, entries.drop_last(), a1);
        let k = entries.last().0;
        let vs2 = entries.last().1;
        if attr_has_key(a1, k) {
            insert_sifted(p, k, vs2, attr_values(a1, k))
        } else {
            insert_sifted(p, k, vs2, Seq::empty())
        }
    }
}

/// Running the attribute-addition stage over the forward attribute walk.
proof fn lemma_stage5_w1_run(st: StoreV, id: Seq<char>, entries: AttrsV, a2: AttrsV)
    requires
        store_wf(st),
        store_has_id(st, id),
        attrs_wf(entries),
    ensures
        run_stage_spec(raw_seq_of(attrs_walk(id, entries, a2, true)), st, "attribute"@, "add"@)
            == (
            store_update(
                st,
                id,
                RecordV {
                    attrs: stage5_w1(store_rec(st, id).attrs, entries, a2),
                    ..store_rec(st, id)
                },
            ),
            None::<crate::errors::GffError>,
        ),
        attrs_wf(stage5_w1(store_rec(st, id).attrs, entries, a2)),
        forall|k2: Seq<char>|
            !attr_has_key(entries, k2) ==> #[trigger] attr_has_key(
                stage5_w1(store_rec(st, id).attrs, entries, a2),
                k2,
            ) == attr_has_key(store_rec(st, id).attrs, k2),
        forall|k2: Seq<char>|
            !attr_has_key(entries, k2) && attr_has_key(store_rec(st, id).attrs, k2)
                ==> #[trigger] attr_values(stage5_w1(store_rec(st, id).attrs, entries, a2), k2)
                == attr_values(store_rec(st, id).attrs, k2),
    decreases entries.len(),
{
    let cur = store_rec(st, id).attrs;
    let rec0 = store_rec(st, id);
    let i = store_idx(st, id);
    assert(st[i] == (id, rec0));
    assert(record_wf(rec0));
    if entries.len() == 0 {
        assert(raw_seq_of(attrs_walk(id, entries, a2, true)) =~= Seq::<RawChangeV>::empty());
        assert(RecordV { attrs: cur, ..rec0 } == rec0);
        assert(store_update(st, id, rec0) =~= st);
    } else {
        assert(attrs_wf(entries.drop_last())) by {
            assert(forall|x: int|
                0 <= x < entries.len() - 1 ==> entries.drop_last()[x] == #[trigger] entries[x]);
        }
        lemma_stage5_w1_run(st, id, entries.drop_last(), a2);
        lemma_attr_entries_split(entries);
        let p = stage5_w1(cur, entries.drop_last(), a2);
        let k = entries.last().0;
        let vs = entries.last().1;
        let rp = RecordV { attrs: p, ..rec0 };
        assert(record_wf(rp));
        let sp = store_update(st, id, rp);
        lemma_store_update_props(st, id, rp);
        let rest = attrs_walk(id, entries.drop_last(), a2, true);
        let blk = attr_cmp_one(id, k, vs, a2, true);
        lemma_raw_seq_add(rest, blk);
        lemma_run_stage_concat(raw_seq_of(rest), raw_seq_of(blk), st, "attribute"@, "add"@);
        if attr_has_key(a2, k) {
            let a2vals = attr_values(a2, k);
            assert(blk == sift_changes(id, k, a2vals, vs, true));
            assert(store_rec(sp, id) == rp);
            assert(a2vals.take(a2vals.len() as int) =~= a2vals);
            lemma_sift_adds_run(sp, id, k, a2vals, vs, a2vals.len() as int);
            lemma_insert_sifted_props(p, k, a2vals, vs);
            let rnext = RecordV { attrs: insert_sifted(p, k, a2vals, vs), ..rec0 };
            assert(RecordV { attrs: insert_sifted(p, k, a2vals, vs), ..rp } == rnext);
            assert(store_update(sp, id, rnext) == store_update(st, id, rnext)) by {
                lemma_store_idx(sp, id, i);
                assert(store_update(sp, id, rnext) =~= st.update(i, (id, rnext)));
            }
        } else {
            let rems = all_value_changes(id, k, vs, false);
            assert(blk == rems);
            lemma_all_is_sift(id, k, vs, false);
            lemma_sift_exact(id, k, vs, Seq::empty(), false);
            assert forall|x: int|
                0 <= x < rems.len() implies !matches_stage(
                raw_of_change(#[trigger] rems[x]),
                "attribute"@,
                "add"@,
            ) by {
                lemma_change_stage(rems[x]);
            }
            lemma_skip_raw(rems, sp, "attribute"@, "add"@);
        }
    }
}

/// Running the attribute-addition stage over the reverse attribute walk.
proof fn lemma_stage5_w2_run(st: StoreV, id: Seq<char>, entries: AttrsV, a1: AttrsV)
    requires
        store_wf(st),
        store_has_id(st, id),
        attrs_wf(entries),
        attrs_wf(a1),
    ensures
        run_stage_spec(raw_seq_of(attrs_walk(id, entries, a1, false)), st, "attribute"@, "add"@)
            == (
            store_update(
                st,
                id,
                RecordV {
                    attrs: stage5_w2(store_rec(st, id).attrs, entries, a1),
                    ..store_rec(st, id)
                },
            ),
            None::<crate::errors::GffError>,
        ),
        attrs_wf(stage5_w2(store_rec(st, id).attrs, entries, a1)),
        forall|k2: Seq<char>|
            !attr_has_key(entries, k2) ==> #[trigger] attr_has_key(
                stage5_w2(store_rec(st, id).attrs, entries, a1),
                k2,
            ) == attr_has_key(store_rec(st, id).attrs, k2),
        forall|k2: Seq<char>|
            !attr_has_key(entries, k2) && attr_has_key(store_rec(st, id).attrs, k2)
                ==> #[trigger] attr_values(stage5_w2(store_rec(st, id).attrs, entries, a1), k2)
                == attr_values(store_rec(st, id).attrs, k2),
    decreases entries.len(),
{
    let cur = store_rec(st, id).attrs;
    let rec0 = store_rec(st, id);
    let i = store_idx(st, id);
    assert(st[i] == (id, rec0));
    assert(record_wf(rec0));
    if entries.len() == 0 {
        assert(raw_seq_of(attrs_walk(id, entries, a1, false)) =~= Seq::<RawChangeV>::empty());
        assert(RecordV { attrs: cur, ..rec0 } == rec0);
        assert(store_update(st, id, rec0) =~= st);
    } else {
        assert(attrs_wf(entries.drop_last())) by {
            assert(forall|x: int|
                0 <= x < entries.len() - 1 ==> entries.drop_last()[x] == #[trigger] entries[x]);
        }
        lemma_stage5_w2_run(st, id, entries.drop_last(), a1);
        lemma_attr_entries_split(entries);
        let p = stage5_w2(cur, entries.drop_last(), a1);
        let k = entries.last().0;
        let vs2 = entries.last().1;
        let rp = RecordV { attrs: p, ..rec0 };
        assert(record_wf(rp));
        let sp = store_update(st, id, rp);
        lemma_store_update_props(st, id, rp);
        let rest = attrs_walk(id, entries.drop_last(), a1, false);
        let blk = attr_cmp_one(id, k, vs2, a1, false);
        lemma_raw_seq_add(rest, blk);
        lemma_run_stage_concat(raw_seq_of(rest), raw_seq_of(blk), st, "attribute"@, "add"@);
        if attr_has_key(a1, k) {
            let a1vals = attr_values(a1, k);
            let rems = sift_changes(id, k, a1vals, vs2, false);
            let adds = sift_changes(id, k, vs2, a1vals, true);
            assert(blk == rems + adds);
            lemma_raw_seq_add(rems, adds);
            lemma_run_stage_concat(raw_seq_of(rems), raw_seq_of(adds), sp, "attribute"@, "add"@);
            lemma_sift_exact(id, k, a1vals, vs2, false);
            assert forall|x: int|
                0 <= x < rems.len() implies !matches_stage(
                raw_of_change(#[trigger] rems[x]),
                "attribute"@,
                "add"@,
            ) by {
                lemma_change_stage(rems[x]);
            }
            lemma_skip_raw(rems, sp, "attribute"@, "add"@);
            assert(store_rec(sp, id) == rp);
            assert(vs2.take(vs2.len() as int) =~= vs2);
            lemma_sift_adds_run(sp, id, k, vs2, a1vals, vs2.len() as int);
            lemma_insert_sifted_props(p, k, vs2, a1vals);
            let rnext = RecordV { attrs: insert_sifted(p, k, vs2, a1vals), ..rec0 };
            assert(RecordV { attrs: insert_sifted(p, k, vs2, a1vals), ..rp } == rnext);
            assert(store_update(sp, id, rnext) == store_update(st, id, rnext)) by {
                lemma_store_idx(sp, id, i);
                assert(store_update(sp, id, rnext) =~= st.update(i, (id, rnext)));
            }
        } else {
            let adds = all_value_changes(id, k, vs2, true);
            assert(blk == adds);
            lemma_all_is_sift(id, k, vs2, true);
            assert(store_rec(sp, id) == rp);
            assert(vs2.take(vs2.len() as int) =~= vs2);
            lemma_sift_adds_run(sp, id, k, vs2, Seq::empty(), vs2.len() as int);
            lemma_insert_sifted_props(p, k, vs2, Seq::empty());
            let rnext = RecordV { attrs: insert_sifted(p, k, vs2, Seq::empty()), ..rec0 };
            assert(RecordV { attrs: insert_sifted(p, k, vs2, Seq::empty()), ..rp } == rnext);
            assert(store_update(sp, id, rnext) == store_update(st, id, rnext)) by {
                lemma_store_idx(sp, id, i);
                assert(store_update(sp, id, rnext) =~= st.update(i, (id, rnext)));
            }
        }
    }
}

/// Within a well-formed key list, each key's values are its entry's.
proof fn lemma_entries_values(entries: AttrsV, k: Seq<char>)
    requires
        attrs_wf(entries),
        entries.len() > 0,
        entries.last().0 == k,
    ensures
        attr_has_key(entries, k),
        attr_values(entries, k) == entries.last().1,
        !attr_has_key(entries.drop_last(), k),
{
    lemma_key_idx(entries, k, entries.len() - 1);
    if attr_has_key(entries.drop_last(), k) {
        let j = choose|j: int|
            0 <= j < entries.drop_last().len() && (#[trigger] entries.drop_last()[j]).0 == k;
        assert(entries[j].0 == k);
    }
}

/// For a key other than the last entry's, values within the list prefix
/// agree with the whole list.
proof fn lemma_entries_values_other(entries: AttrsV, k: Seq<char>)
    requires
        attrs_wf(entries),
        entries.len() > 0,
        entries.last().0 != k,
    ensures
        attr_has_key(entries, k) == attr_has_key(entries.drop_last(), k),
        attr_has_key(entries, k) ==> attr_values(entries, k) == attr_values(
            entries.drop_last(),
            k,
        ),
{
    assert(forall|x: int|
        0 <= x < entries.len() - 1 ==> entries.drop_last()[x] == #[trigger] entries[x]);
    lemma_attr_entries_split(entries);
    if attr_has_key(entries, k) {
        let j = attr_key_idx(entries, k);
        assert(0 <= j < entries.len() && entries[j].0 == k);
        assert(j != entries.len() - 1);
        assert(attrs_wf(entries.drop_last()));
        lemma_key_idx(entries.drop_last(), k, j);
    }
}

/// Membership after the forward addition walk.
proof fn lemma_stage5_w1_mem(cur: AttrsV, entries: AttrsV, a2: AttrsV, k: Seq<char>, x: Seq<char>)
    requires
        attrs_wf(cur),
        attrs_wf(entries),
    ensures
        seq_contains_str(attr_values(stage5_w1(cur, entries, a2), k), x) == (seq_contains_str(
            attr_values(cur, k),
            x,
        ) || (attr_has_key(entries, k) && attr_has_key(a2, k) && seq_contains_str(
            attr_values(a2, k),
            x,
        ) && !seq_contains_str(attr_values(entries, k), x))),
        attrs_wf(stage5_w1(cur, entries, a2)),
    decreases entries.len(),
{
    if entries.len() == 0 {
        assert(!attr_has_key(entries, k));
    } else {
        assert(attrs_wf(entries.drop_last())) by {
            assert(forall|y: int|
                0 <= y < entries.len() - 1 ==> entries.drop_last()[y] == #[trigger] entries[y]);
        }
        lemma_stage5_w1_mem(cur, entries.drop_last(), a2, k, x);
        let p = stage5_w1(cur, entries.drop_last(), a2);
        let k0 = entries.last().0;
        let vs0 = entries.last().1;
        assert(entries[entries.len() - 1] == (k0, vs0));
        if k0 == k {
            lemma_entries_values(entries, k);
            if attr_has_key(a2, k) {
                lemma_insert_sifted_mem(p, k, attr_values(a2, k), vs0, x);
                lemma_insert_sifted_props(p, k, attr_values(a2, k), vs0);
            }
        } else {
            lemma_entries_values_other(entries, k);
            if attr_has_key(a2, k0) {
                lemma_insert_sifted_props(p, k0, attr_values(a2, k0), vs0);
            }
        }
    }
}

/// Membership after the reverse addition walk.
proof fn lemma_stage5_w2_mem(cur: AttrsV, entries: AttrsV, a1: AttrsV, k: Seq<char>, x: Seq<char>)
    requires
        attrs_wf(cur),
        attrs_wf(entries),
    ensures
        seq_contains_str(attr_values(stage5_w2(cur, entries, a1), k), x) == (seq_contains_str(
            attr_values(cur, k),
            x,
        ) || (attr_has_key(entries, k) && seq_contains_str(attr_values(entries, k), x) && (
        attr_has_key(a1, k) ==> !seq_contains_str(attr_values(a1, k), x)))),
        attrs_wf(stage5_w2(cur, entries, a1)),
    decreases entries.len(),
{
    if entries.len() == 0 {
        assert(!attr_has_key(entries, k));
    } else {
        assert(attrs_wf(entries.drop_last())) by {
            assert(forall|y: int|
                0 <= y < entries.len() - 1 ==> entries.drop_last()[y] == #[trigger] entries[y]);
        }
        lemma_stage5_w2_mem(cur, entries.drop_last(), a1, k, x);
        let p = stage5_w2(cur, entries.drop_last(), a1);
        let k0 = entries.last().0;
        let vs0 = entries.last().1;
        assert(entries[entries.len() - 1] == (k0, vs0));
        if k0 == k {
            lemma_entries_values(entries, k);
            if attr_has_key(a1, k) {
                lemma_insert_sifted_mem(p, k, vs0, attr_values(a1, k), x);
                lemma_insert_sifted_props(p, k, vs0, attr_values(a1, k));
            } else {
                lemma_insert_sifted_mem(p, k, vs0, Seq::empty(), x);
                lemma_insert_sifted_props(p, k, vs0, Seq::empty());
            }
        } else {
            lemma_entries_values_other(entries, k);
            if attr_has_key(a1, k0) {
                lemma_insert_sifted_props(p, k0, vs0, attr_values(a1, k0));
            } else {
                lemma_insert_sifted_props(p, k0, vs0, Seq::empty());
            }
        }
    }
}

/// The attribute map after the removal stage for one shared id.
spec fn stage4_attrs(a1: AttrsV, a2: AttrsV) -> AttrsV {
    stage4_w2(stage4_w1(a1, a1, a2), a2, a1)
}

/// The attribute map after both attribute stages for one shared id.
spec fn stage5_attrs(cur: AttrsV, a1: AttrsV, a2: AttrsV) -> AttrsV {
    stage5_w2(stage5_w1(cur, a1, a2), a2, a1)
}

/// Facts about the removal-stage walks, derived from a one-record store.
proof fn lemma_stage4_walks_pure(a1: AttrsV, a2: AttrsV)
    requires
        attrs_wf(a1),
        attrs_wf(a2),
    ensures
        attrs_wf(stage4_attrs(a1, a2)),
        forall|k: Seq<char>|
            attr_has_key(a1, k) && attr_has_key(a2, k) ==> (#[trigger] attr_has_key(
                stage4_attrs(a1, a2),
                k,
            ) == (vals_kept(attr_values(a1, k), attr_values(a2, k)).len() > 0)) && (vals_kept(
                attr_values(a1, k),
                attr_values(a2, k),
            ).len() > 0 ==> attr_values(stage4_attrs(a1, a2), k) == vals_kept(
                attr_values(a1, k),
                attr_values(a2, k),
            )),
        forall|k: Seq<char>|
            attr_has_key(a1, k) && !attr_has_key(a2, k) ==> !(#[trigger] attr_has_key(
                stage4_attrs(a1, a2),
                k,
            )),
        forall|k: Seq<char>|
            !attr_has_key(a1, k) ==> !(#[trigger] attr_has_key(stage4_attrs(a1, a2), k)),
{
    let id0 = Seq::<char>::empty();
    let rec0 = RecordV { attrs: a1, ..crate::record::default_record_v() };
    let st0: StoreV = seq![(id0, rec0)];
    assert(store_wf(st0)) by {
        assert(st0[0] == (id0, rec0));
    }
    assert(store_has_id(st0, id0)) by {
        assert(st0[0].0 == id0);
    }
    lemma_store_idx(st0, id0, 0);
    assert(store_rec(st0, id0) == rec0);
    assert(forall|i: int|
        0 <= i < a1.len() ==> attr_has_key(a1, (#[trigger] a1[i]).0) && attr_values(a1, a1[i].0)
            == a1[i].1) by {
        assert forall|i: int|
            0 <= i < a1.len() implies attr_has_key(a1, (#[trigger] a1[i]).0) && attr_values(
            a1,
            a1[i].0,
        ) == a1[i].1 by {
            lemma_key_idx(a1, a1[i].0, i);
        }
    }
    lemma_stage4_w1_run(st0, id0, a1, a2);
    let c1 = stage4_w1(a1, a1, a2);
    let rec1 = RecordV { attrs: c1, ..rec0 };
    let st1 = store_update(st0, id0, rec1);
    lemma_store_update_props(st0, id0, rec1);
    assert(store_rec(st1, id0) == rec1);
    assert(forall|i: int|
        0 <= i < a2.len() && attr_has_key(a1, (#[trigger] a2[i]).0) ==> attr_has_key(
            c1,
            a2[i].0,
        ) && attr_values(c1, a2[i].0) == attr_values(a1, a2[i].0)) by {
        assert forall|i: int|
            0 <= i < a2.len() && attr_has_key(a1, (#[trigger] a2[i]).0) implies attr_has_key(
            c1,
            a2[i].0,
        ) && attr_values(c1, a2[i].0) == attr_values(a1, a2[i].0) by {
            lemma_key_idx(a2, a2[i].0, i);
            assert(attr_has_key(a2, a2[i].0));
        }
    }
    lemma_stage4_w2_run(st1, id0, a2, a1);
    assert(stage4_w2(c1, a2, a1) == stage4_attrs(a1, a2));
    assert forall|k: Seq<char>|
        attr_has_key(a1, k) && attr_has_key(a2, k) implies (#[trigger] attr_has_key(
        stage4_attrs(a1, a2),
        k,
    ) == (vals_kept(attr_values(a1, k), attr_values(a2, k)).len() > 0)) && (vals_kept(
        attr_values(a1, k),
        attr_values(a2, k),
    ).len() > 0 ==> attr_values(stage4_attrs(a1, a2), k) == vals_kept(
        attr_values(a1, k),
        attr_values(a2, k),
    )) by {
        assert(attr_has_key(c1, k) == attr_has_key(a1, k) && (attr_has_key(a1, k)
            ==> attr_values(c1, k) == attr_values(a1, k)));
    }
    assert forall|k: Seq<char>|
        attr_has_key(a1, k) && !attr_has_key(a2, k) implies !(#[trigger] attr_has_key(
        stage4_attrs(a1, a2),
        k,
    )) by {
        assert(!attr_has_key(c1, k));
    }
    assert forall|k: Seq<char>|
        !attr_has_key(a1, k) implies !(#[trigger] attr_has_key(stage4_attrs(a1, a2), k)) by {
        if attr_has_key(a2, k) {
            assert(attr_has_key(c1, k) == attr_has_key(a1, k));
        } else {
            assert(attr_has_key(c1, k) == attr_has_key(a1, k));
        }
    }
}

/// After both attribute stages, each key holds exactly the new side's
/// value set.
proof fn lemma_pipeline_mem(a1: AttrsV, a2: AttrsV, k: Seq<char>, x: Seq<char>)
    requires
        attrs_wf(a1),
        attrs_wf(a2),
    ensures
        attrs_wf(stage5_attrs(stage4_attrs(a1, a2), a1, a2)),
        seq_contains_str(
            attr_values(stage5_attrs(stage4_attrs(a1, a2), a1, a2), k),
            x,
        ) == seq_contains_str(attr_values(a2, k), x),
{
    lemma_stage4_walks_pure(a1, a2);
    let c2 = stage4_attrs(a1, a2);
    lemma_stage5_w1_mem(c2, a1, a2, k, x);
    let c3 = stage5_w1(c2, a1, a2);
    lemma_stage5_w2_mem(c3, a2, a1, k, x);
    if attr_has_key(a1, k) && attr_has_key(a2, k) {
        lemma_vals_kept_mem(attr_values(a1, k), attr_values(a2, k), x);
        if vals_kept(attr_values(a1, k), attr_values(a2, k)).len() > 0 {
        } else {
            assert(!attr_has_key(c2, k));
            assert(attr_values(c2, k) == Seq::<Seq<char>>::empty());
            if seq_contains_str(attr_values(a1, k), x) && seq_contains_str(
                attr_values(a2, k),
                x,
            ) {
                assert(seq_contains_str(vals_kept(attr_values(a1, k), attr_values(a2, k)), x));
                let j = choose|j: int|
                    0 <= j < vals_kept(attr_values(a1, k), attr_values(a2, k)).len() && vals_kept(
                        attr_values(a1, k),
                        attr_values(a2, k),
                    )[j] == x;
                assert(false);
            }
        }
    } else if attr_has_key(a1, k) {
        assert(!attr_has_key(c2, k));
        assert(attr_values(a2, k) == Seq::<Seq<char>>::empty());
    } else {
        assert(!attr_has_key(c2, k));
        assert(attr_values(c2, k) == Seq::<Seq<char>>::empty());
        if !attr_has_key(a2, k) {
            assert(attr_values(a2, k) == Seq::<Seq<char>>::empty());
        }
    }
}

/// Running the attribute-removal stage over one shared id's block.
proof fn lemma_stage4_entry(st: StoreV, id: Seq<char>, r1: RecordV, r2: RecordV)
    requires
        store_wf(st),
        store_has_id(st, id),
        store_rec(st, id).attrs == r1.attrs,
        attrs_wf(r1.attrs),
        attrs_wf(r2.attrs),
    ensures
        run_stage_spec(raw_seq_of(entry_changes(id, r1, r2)), st, "attribute"@, "remove"@) == (
            store_update(
                st,
                id,
                RecordV { attrs: stage4_attrs(r1.attrs, r2.attrs), ..store_rec(st, id) },
            ),
            None::<crate::errors::GffError>,
        ),
{
    let w = "attribute"@;
    let act = "remove"@;
    let rec0 = store_rec(st, id);
    let i = store_idx(st, id);
    assert(st[i] == (id, rec0));
    let fc = field_changes(id, r1, r2);
    let wa = attrs_walk(id, r1.attrs, r2.attrs, true);
    let wb = attrs_walk(id, r2.attrs, r1.attrs, false);
    lemma_raw_seq_add(fc + wa, wb);
    lemma_raw_seq_add(fc, wa);
    lemma_run_stage_concat(raw_seq_of(fc + wa), raw_seq_of(wb), st, w, act);
    lemma_run_stage_concat(raw_seq_of(fc), raw_seq_of(wa), st, w, act);
    lemma_field_changes_kinds(id, r1, r2);
    assert forall|x: int|
        0 <= x < fc.len() implies !matches_stage(raw_of_change(#[trigger] fc[x]), w, act) by {
        lemma_change_stage(fc[x]);
    }
    lemma_skip_raw(fc, st, w, act);
    assert(forall|x: int|
        0 <= x < r1.attrs.len() ==> attr_has_key(r1.attrs, (#[trigger] r1.attrs[x]).0)
            && attr_values(r1.attrs, r1.attrs[x].0) == r1.attrs[x].1) by {
        assert forall|x: int|
            0 <= x < r1.attrs.len() implies attr_has_key(r1.attrs, (#[trigger] r1.attrs[x]).0)
                && attr_values(r1.attrs, r1.attrs[x].0) == r1.attrs[x].1 by {
            lemma_key_idx(r1.attrs, r1.attrs[x].0, x);
        }
    }
    lemma_stage4_w1_run(st, id, r1.attrs, r2.attrs);
    let c1 = stage4_w1(r1.attrs, r1.attrs, r2.attrs);
    let reca = RecordV { attrs: c1, ..rec0 };
    let sta = store_update(st, id, reca);
    lemma_store_update_props(st, id, reca);
    assert(store_rec(sta, id) == reca);
    assert(forall|x: int|
        0 <= x < r2.attrs.len() && attr_has_key(r1.attrs, (#[trigger] r2.attrs[x]).0)
            ==> attr_has_key(c1, r2.attrs[x].0) && attr_values(c1, r2.attrs[x].0) == attr_values(
            r1.attrs,
            r2.attrs[x].0,
        )) by {
        assert forall|x: int|
            0 <= x < r2.attrs.len() && attr_has_key(
                r1.attrs,
                (#[trigger] r2.attrs[x]).0,
            ) implies attr_has_key(c1, r2.attrs[x].0) && attr_values(c1, r2.attrs[x].0)
            == attr_values(r1.attrs, r2.attrs[x].0) by {
            lemma_key_idx(r2.attrs, r2.attrs[x].0, x);
            assert(attr_has_key(r2.attrs, r2.attrs[x].0));
        }
    }
    lemma_stage4_w2_run(sta, id, r2.attrs, r1.attrs);
    let c2 = stage4_w2(c1, r2.attrs, r1.attrs);
    let recb = RecordV { attrs: c2, ..rec0 };
    assert(RecordV { attrs: c2, ..reca } == recb);
    assert(store_update(sta, id, recb) == store_update(st, id, recb)) by {
        lemma_store_idx(sta, id, i);
        assert(store_update(sta, id, recb) =~= st.update(i, (id, recb)));
    }
}

/// Running the attribute-addition stage over one shared id's block.
proof fn lemma_stage5_entry(st: StoreV, id: Seq<char>, r1: RecordV, r2: RecordV)
    requires
        store_wf(st),
        store_has_id(st, id),
        attrs_wf(r1.attrs),
        attrs_wf(r2.attrs),
    ensures
        run_stage_spec(raw_seq_of(entry_changes(id, r1, r2)), st, "attribute"@, "add"@) == (
            store_update(
                st,
                id,
                RecordV {
                    attrs: stage5_attrs(store_rec(st, id).attrs, r1.attrs, r2.attrs),
                    ..store_rec(st, id)
                },
            ),
            None::<crate::errors::GffError>,
        ),
{
    let w = "attribute"@;
    let act = "add"@;
    let rec0 = store_rec(st, id);
    let i = store_idx(st, id);
    assert(st[i] == (id, rec0));
    let fc = field_changes(id, r1, r2);
    let wa = attrs_walk(id, r1.attrs, r2.attrs, true);
    let wb = attrs_walk(id, r2.attrs, r1.attrs, false);
    lemma_raw_seq_add(fc + wa, wb);
    lemma_raw_seq_add(fc, wa);
    lemma_run_stage_concat(raw_seq_of(fc + wa), raw_seq_of(wb), st, w, act);
    lemma_run_stage_concat(raw_seq_of(fc), raw_seq_of(wa), st, w, act);
    lemma_field_changes_kinds(id, r1, r2);
    assert forall|x: int|
        0 <= x < fc.len() implies !matches_stage(raw_of_change(#[trigger] fc[x]), w, act) by {
        lemma_change_stage(fc[x]);
    }
    lemma_skip_raw(fc, st, w, act);
    lemma_stage5_w1_run(st, id, r1.attrs, r2.attrs);
    let c1 = stage5_w1(rec0.attrs, r1.attrs, r2.attrs);
    let reca = RecordV { attrs: c1, ..rec0 };
    let sta = store_update(st, id, reca);
    lemma_store_update_props(st, id, reca);
    assert(store_rec(sta, id) == reca);
    lemma_stage5_w2_run(sta, id, r2.attrs, r1.attrs);
    let c2 = stage5_w2(c1, r2.attrs, r1.attrs);
    let recb = RecordV { attrs: c2, ..rec0 };
    assert(RecordV { attrs: c2, ..reca } == recb);
    assert(store_update(sta, id, recb) == store_update(st, id, recb)) by {
        lemma_store_idx(sta, id, i);
        assert(store_update(sta, id, recb) =~= st.update(i, (id, recb)));
    }
}

/// The store after the attribute-removal stage over the forward pass.
spec fn stage4_result(st: StoreV, entries: StoreV, b: StoreV) -> StoreV
    decreases entries.len(),
{
    if entries.len() == 0 {
        st
    } else {
        let p = stage4_result(st, entries.drop_last(), b);
        let id = entries.last().0;
        let r1 = entries.last().1;
        if store_has_id(b, id) {
            store_update(
                p,
                id,
                RecordV {
                    attrs: stage4_attrs(r1.attrs, store_rec(b, id).attrs),
                    ..store_rec(p, id)
                },
            )
        } else {
            p
        }
    }
}

/// The store after the attribute-addition stage over the forward pass.
spec fn stage5_result(st: StoreV, entries: StoreV, b: StoreV) -> StoreV
    decreases entries.len(),
{
    if entries.len() == 0 {
        st
    } else {
        let p = stage5_result(st, entries.drop_last(), b);
        let id = entries.last().0;
        let r1 = entries.last().1;
        if store_has_id(b, id) {
            store_update(
                p,
                id,
                RecordV {
                    attrs: stage5_attrs(store_rec(p, id).attrs, r1.attrs, store_rec(b, id).attrs),
                    ..store_rec(p, id)
                },
            )
        } else {
            p
        }
    }
}

/// Running the attribute-removal stage over the forward pass, store-wide.
proof fn lemma_stage4_store(st: StoreV, entries: StoreV, b: StoreV)
    requires
        store_wf(st),
        store_wf(entries),
        store_wf(b),
        forall|i: int|
            0 <= i < entries.len() && store_has_id(b, (#[trigger] entries[i]).0) ==> store_has_id(
                st,
                entries[i].0,
            ) && store_rec(st, entries[i].0).attrs == entries[i].1.attrs,
    ensures
        run_stage_spec(raw_seq_of(forward_pass_spec(entries, b)), st, "attribute"@, "remove"@)
            == (stage4_result(st, entries, b), None::<crate::errors::GffError>),
        store_wf(stage4_result(st, entries, b)),
        forall|x: Seq<char>|
            #[trigger] store_has_id(stage4_result(st, entries, b), x) == store_has_id(st, x),
        forall|x: Seq<char>|
            store_has_id(st, x) && !(store_has_id(entries, x) && store_has_id(b, x))
                ==> #[trigger] store_rec(stage4_result(st, entries, b), x) == store_rec(st, x),
        forall|x: Seq<char>|
            store_has_id(entries, x) && store_has_id(b, x) ==> (store_has_id(st, x)
                && #[trigger] store_rec(stage4_result(st, entries, b), x) == (RecordV {
                attrs: stage4_attrs(store_rec(entries, x).attrs, store_rec(b, x).attrs),
                ..store_rec(st, x)
            })),
    decreases entries.len(),
{
    let w = "attribute"@;
    let act = "remove"@;
    if entries.len() == 0 {
        assert(raw_seq_of(forward_pass_spec(entries, b)) =~= Seq::<RawChangeV>::empty());
    } else {
        assert(store_wf(entries.drop_last())) by {
            assert(forall|i: int|
                0 <= i < entries.len() - 1 ==> entries.drop_last()[i] == #[trigger] entries[i]);
        }
        assert(forall|i: int|
            0 <= i < entries.len() - 1 ==> entries.drop_last()[i] == #[trigger] entries[i]);
        lemma_stage4_store(st, entries.drop_last(), b);
        let p = stage4_result(st, entries.drop_last(), b);
        let rest = forward_pass_spec(entries.drop_last(), b);
        let id = entries.last().0;
        let r1 = entries.last().1;
        assert(entries[entries.len() - 1] == (id, r1));
        lemma_store_idx(entries, id, entries.len() - 1);
        assert(store_rec(entries, id) == r1);
        assert(!store_has_id(entries.drop_last(), id)) by {
            if store_has_id(entries.drop_last(), id) {
                let j = choose|j: int|
                    0 <= j < entries.drop_last().len() && (#[trigger] entries.drop_last()[j]).0
                        == id;
                assert(entries[j].0 == id);
            }
        }
        assert forall|x: Seq<char>|
            #[trigger] store_has_id(entries.drop_last(), x) || x == id <==> store_has_id(
            entries,
            x,
        ) by {
            if store_has_id(entries, x) {
                let j = choose|j: int| 0 <= j < entries.len() && (#[trigger] entries[j]).0 == x;
                if j < entries.len() - 1 {
                    assert(entries.drop_last()[j].0 == x);
                }
            }
            if store_has_id(entries.drop_last(), x) {
                let j = choose|j: int|
                    0 <= j < entries.drop_last().len() && (#[trigger] entries.drop_last()[j]).0
                        == x;
                assert(entries[j].0 == x);
            }
        }
        assert forall|x: Seq<char>|
            x != id && store_has_id(entries.drop_last(), x) implies #[trigger] store_rec(
            entries.drop_last(),
            x,
        ) == store_rec(entries, x) by {
            let j = store_idx(entries.drop_last(), x);
            assert(entries.drop_last()[j].0 == x);
            assert(entries[j] == entries.drop_last()[j]);
            lemma_store_idx(entries, x, j);
        }
        if store_has_id(b, id) {
            let r2 = store_rec(b, id);
            let blk = entry_changes(id, r1, r2);
            lemma_raw_seq_add(rest, blk);
            lemma_run_stage_concat(raw_seq_of(rest), raw_seq_of(blk), st, w, act);
            assert(store_has_id(p, id) && store_rec(p, id).attrs == r1.attrs) by {
                assert(store_rec(st, id).attrs == r1.attrs);
            }
            assert(attrs_wf(r1.attrs)) by {
                assert(record_wf(r1));
            }
            assert(attrs_wf(r2.attrs)) by {
                let j = store_idx(b, id);
                assert(record_wf(b[j].1));
            }
            lemma_stage4_entry(p, id, r1, r2);
            lemma_stage4_walks_pure(r1.attrs, r2.attrs);
            lemma_store_update_props(
                p,
                id,
                RecordV { attrs: stage4_attrs(r1.attrs, r2.attrs), ..store_rec(p, id) },
            );
        } else {
            let c = ChangeV::RowRemoved { id: id, snapshot: r1 };
            lemma_raw_seq_push(rest, c);
            lemma_run_stage_concat(raw_seq_of(rest), seq![raw_of_change(c)], st, w, act);
            lemma_change_stage(c);
            lemma_run_stage_skip(seq![raw_of_change(c)], p, w, act);
        }
    }
}

/// Running the attribute-addition stage over the forward pass, store-wide.
proof fn lemma_stage5_store(st: StoreV, entries: StoreV, b: StoreV)
    requires
        store_wf(st),
        store_wf(entries),
        store_wf(b),
        forall|i: int|
            0 <= i < entries.len() && store_has_id(b, (#[trigger] entries[i]).0) ==> store_has_id(
                st,
                entries[i].0,
            ),
    ensures
        run_stage_spec(raw_seq_of(forward_pass_spec(entries, b)), st, "attribute"@, "add"@) == (
            stage5_result(st, entries, b),
            None::<crate::errors::GffError>,
        ),
        store_wf(stage5_result(st, entries, b)),
        forall|x: Seq<char>|
            #[trigger] store_has_id(stage5_result(st, entries, b), x) == store_has_id(st, x),
        forall|x: Seq<char>|
            store_has_id(st, x) && !(store_has_id(entries, x) && store_has_id(b, x))
                ==> #[trigger] store_rec(stage5_result(st, entries, b), x) == store_rec(st, x),
        forall|x: Seq<char>|
            store_has_id(entries, x) && store_has_id(b, x) ==> (store_has_id(st, x)
                && #[trigger] store_rec(stage5_result(st, entries, b), x) == (RecordV {
                attrs: stage5_attrs(
                    store_rec(st, x).attrs,
                    store_rec(entries, x).attrs,
                    store_rec(b, x).attrs,
                ),
                ..store_rec(st, x)
            })),
    decreases entries.len(),
{
    let w = "attribute"@;
    let act = "add"@;
    if entries.len() == 0 {
        assert(raw_seq_of(forward_pass_spec(entries, b)) =~= Seq::<RawChangeV>::empty());
    } else {
        assert(store_wf(entries.drop_last())) by {
            assert(forall|i: int|
                0 <= i < entries.len() - 1 ==> entries.drop_last()[i] == #[trigger] entries[i]);
        }
        assert(forall|i: int|
            0 <= i < entries.len() - 1 ==> entries.drop_last()[i] == #[trigger] entries[i]);
        lemma_stage5_store(st, entries.drop_last(), b);
        let p = stage5_result(st, entries.drop_last(), b);
        let rest = forward_pass_spec(entries.drop_last(), b);
        let id = entries.last().0;
        let r1 = entries.last().1;
        assert(entries[entries.len() - 1] == (id, r1));
        lemma_store_idx(entries, id, entries.len() - 1);
        assert(store_rec(entries, id) == r1);
        assert(!store_has_id(entries.drop_last(), id)) by {
            if store_has_id(entries.drop_last(), id) {
                let j = choose|j: int|
                    0 <= j < entries.drop_last().len() && (#[trigger] entries.drop_last()[j]).0
                        == id;
                assert(entries[j].0 == id);
            }
        }
        assert forall|x: Seq<char>|
            #[trigger] store_has_id(entries.drop_last(), x) || x == id <==> store_has_id(
            entries,
            x,
        ) by {
            if store_has_id(entries, x) {
                let j = choose|j: int| 0 <= j < entries.len() && (#[trigger] entries[j]).0 == x;
                if j < entries.len() - 1 {
                    assert(entries.drop_last()[j].0 == x);
                }
            }
            if store_has_id(entries.drop_last(), x) {
                let j = choose|j: int|
                    0 <= j < entries.drop_last().len() && (#[trigger] entries.drop_last()[j]).0
                        == x;
                assert(entries[j].0 == x);
            }
        }
        assert forall|x: Seq<char>|
            x != id && store_has_id(entries.drop_last(), x) implies #[trigger] store_rec(
            entries.drop_last(),
            x,
        ) == store_rec(entries, x) by {
            let j = store_idx(entries.drop_last(), x);
            assert(entries.drop_last()[j].0 == x);
            assert(entries[j] == entries.drop_last()[j]);
            lemma_store_idx(entries, x, j);
        }
        if store_has_id(b, id) {
            let r2 = store_rec(b, id);
            let blk = entry_changes(id, r1, r2);
            lemma_raw_seq_add(rest, blk);
            lemma_run_stage_concat(raw_seq_of(rest), raw_seq_of(blk), st, w, act);
            assert(store_has_id(p, id));
            assert(attrs_wf(r1.attrs)) by {
                assert(record_wf(r1));
            }
            assert(attrs_wf(r2.attrs)) by {
                let j = store_idx(b, id);
                assert(record_wf(b[j].1));
            }
            lemma_stage5_entry(p, id, r1, r2);
            assert(attrs_wf(store_rec(p, id).attrs)) by {
                assert(record_wf(store_rec(p, id)));
            }
            lemma_stage4_walks_pure(r1.attrs, r2.attrs);
            lemma_stage5_w1_mem(store_rec(p, id).attrs, r1.attrs, r2.attrs, Seq::empty(), Seq::empty());
            lemma_stage5_w2_mem(
                stage5_w1(store_rec(p, id).attrs, r1.attrs, r2.attrs),
                r2.attrs,
                r1.attrs,
                Seq::empty(),
                Seq::empty(),
            );
            lemma_store_update_props(
                p,
                id,
                RecordV {
                    attrs: stage5_attrs(store_rec(p, id).attrs, r1.attrs, r2.attrs),
                    ..store_rec(p, id)
                },
            );
            assert(store_rec(p, id) == store_rec(st, id)) by {
                assert(store_has_id(st, id));
            }
        } else {
            let c = ChangeV::RowAdded { id: id, snapshot: r1 };
            assert(forward_pass_spec(entries, b) == rest.push(ChangeV::RowRemoved {
                id: id,
                snapshot: r1,
            }));
            let cr = ChangeV::RowRemoved { id: id, snapshot: r1 };
            lemma_raw_seq_push(rest, cr);
            lemma_run_stage_concat(raw_seq_of(rest), seq![raw_of_change(cr)], st, w, act);
            lemma_change_stage(cr);
            lemma_run_stage_skip(seq![raw_of_change(cr)], p, w, act);
        }
    }
}

/// Normalizing a strand symbol is idempotent.
proof fn lemma_norm_strand_idem(s: Seq<char>)
    ensures
        norm_strand(norm_strand(s)) == norm_strand(s),
{
    if s =~= seq!['+'] || s =~= seq!['-'] {
    } else {
        assert(!(seq!['.'] =~= seq!['+'])) by {
            assert(seq!['.'][0] == '.' && seq!['+'][0] == '+');
        }
        assert(!(seq!['.'] =~= seq!['-'])) by {
            assert(seq!['.'][0] == '.' && seq!['-'][0] == '-');
        }
    }
}

/// **Round trip**: applying the diff of two well-formed stores to the
/// first yields a store equal to the second, under field-and-attribute
/// equality (strands compared by symbol, attribute values as sets), and
/// the application reports no error.
pub proof fn lemma_round_trip(a: StoreV, b: StoreV)
    requires
        store_wf(a),
        store_wf(b),
    ensures
        apply_spec(raw_seq_of(diff_spec(a, b)), a).1 is None,
        store_equiv(apply_spec(raw_seq_of(diff_spec(a, b)), a).0, b),
{
    let fwd = forward_pass_spec(a, b);
    let rev = reverse_pass_spec(b, a);
    let cs = raw_seq_of(diff_spec(a, b));
    lemma_raw_seq_add(fwd, rev);
    assert(cs == raw_seq_of(fwd) + raw_seq_of(rev));
    lemma_rev_kinds(b, a);
    lemma_fwd_kinds(a, b);
    // stage 1: row removals
    lemma_run_stage_concat(raw_seq_of(fwd), raw_seq_of(rev), a, "row"@, "remove"@);
    lemma_stage1_run(a, a, b);
    lemma_stage1_props(a, a, b);
    let s1 = stage1_result(a, a, b);
    assert forall|i: int|
        0 <= i < rev.len() implies !matches_stage(
        raw_of_change(#[trigger] rev[i]),
        "row"@,
        "remove"@,
    ) by {
        lemma_change_stage(rev[i]);
    }
    lemma_skip_raw(rev, s1, "row"@, "remove"@);
    assert(run_stage_spec(cs, a, "row"@, "remove"@) == (s1, None::<crate::errors::GffError>));
    // stage 2: row additions
    lemma_run_stage_concat(raw_seq_of(fwd), raw_seq_of(rev), s1, "row"@, "add"@);
    assert forall|i: int|
        0 <= i < fwd.len() implies !matches_stage(
        raw_of_change(#[trigger] fwd[i]),
        "row"@,
        "add"@,
    ) by {
        lemma_change_stage(fwd[i]);
    }
    lemma_skip_raw(fwd, s1, "row"@, "add"@);
    assert(forall|i: int| 0 <= i < b.len() ==> record_wf((#[trigger] b[i]).1));
    lemma_stage2_run(s1, b, a);
    lemma_stage2_props(s1, b, a);
    let s2 = stage2_result(s1, b, a);
    assert(run_stage_spec(cs, s1, "row"@, "add"@) == (s2, None::<crate::errors::GffError>));
    // stage 3: row updates
    lemma_run_stage_concat(raw_seq_of(fwd), raw_seq_of(rev), s2, "row"@, "update"@);
    assert forall|i: int|
        0 <= i < a.len() && store_has_id(b, (#[trigger] a[i]).0) implies store_has_id(
        s2,
        a[i].0,
    ) && store_rec(s2, a[i].0) == a[i].1 && record_wf(a[i].1) by {
        assert(store_has_id(a, a[i].0));
        lemma_store_idx(a, a[i].0, i);
        assert(store_has_id(s1, a[i].0));
        assert(store_rec(s1, a[i].0) == store_rec(a, a[i].0));
        assert(store_rec(s2, a[i].0) == store_rec(s1, a[i].0));
    }
    lemma_stage3_run(s2, a, b);
    let s3 = stage3_result(s2, a, b);
    assert forall|i: int|
        0 <= i < rev.len() implies !matches_stage(
        raw_of_change(#[trigger] rev[i]),
        "row"@,
        "update"@,
    ) by {
        lemma_change_stage(rev[i]);
    }
    lemma_skip_raw(rev, s3, "row"@, "update"@);
    assert(run_stage_spec(cs, s2, "row"@, "update"@) == (s3, None::<crate::errors::GffError>));
    // stage 4: attribute removals
    lemma_run_stage_concat(raw_seq_of(fwd), raw_seq_of(rev), s3, "attribute"@, "remove"@);
    assert forall|i: int|
        0 <= i < a.len() && store_has_id(b, (#[trigger] a[i]).0) implies store_has_id(
        s3,
        a[i].0,
    ) && store_rec(s3, a[i].0).attrs == a[i].1.attrs by {
        assert(store_has_id(a, a[i].0));
        lemma_store_idx(a, a[i].0, i);
        assert(store_rec(s3, a[i].0) == patched(store_rec(a, a[i].0), store_rec(b, a[i].0)));
    }
    lemma_stage4_store(s3, a, b);
    let s4 = stage4_result(s3, a, b);
    assert forall|i: int|
        0 <= i < rev.len() implies !matches_stage(
        raw_of_change(#[trigger] rev[i]),
        "attribute"@,
        "remove"@,
    ) by {
        lemma_change_stage(rev[i]);
    }
    lemma_skip_raw(rev, s4, "attribute"@, "remove"@);
    assert(run_stage_spec(cs, s3, "attribute"@, "remove"@) == (
        s4,
        None::<crate::errors::GffError>,
    ));
    // stage 5: attribute additions
    lemma_run_stage_concat(raw_seq_of(fwd), raw_seq_of(rev), s4, "attribute"@, "add"@);
    assert forall|i: int|
        0 <= i < a.len() && store_has_id(b, (#[trigger] a[i]).0) implies store_has_id(
        s4,
        a[i].0,
    ) by {
        assert(store_has_id(a, a[i].0));
    }
    lemma_stage5_store(s4, a, b);
    let s5 = stage5_result(s4, a, b);
    assert forall|i: int|
        0 <= i < rev.len() implies !matches_stage(
        raw_of_change(#[trigger] rev[i]),
        "attribute"@,
        "add"@,
    ) by {
        lemma_change_stage(rev[i]);
    }
    lemma_skip_raw(rev, s5, "attribute"@, "add"@);
    assert(run_stage_spec(cs, s4, "attribute"@, "add"@) == (s5, None::<crate::errors::GffError>));
    // stage 6: attribute updates never occur
    lemma_stage6_run(diff_spec(a, b), s5);
    assert(apply_spec(cs, a) == (s5, None::<crate::errors::GffError>));
    // the result is equivalent to the second store
    assert forall|id: Seq<char>| store_has_id(s5, id) <==> store_has_id(b, id) by {
        assert(store_has_id(s5, id) == store_has_id(s2, id));
        assert(store_has_id(s2, id) == (store_has_id(s1, id) || (store_has_id(b, id)
            && !store_has_id(a, id))));
        assert(store_has_id(s1, id) == (store_has_id(a, id) && (store_has_id(a, id)
            ==> store_has_id(b, id))));
    }
    assert forall|id: Seq<char>|
        #[trigger] store_has_id(s5, id) implies fields_equiv(store_rec(s5, id), store_rec(b, id))
            && attrs_equiv(store_rec(s5, id).attrs, store_rec(b, id).attrs) by {
        assert(store_has_id(b, id));
        let r2 = store_rec(b, id);
        assert(record_wf(r2)) by {
            let j = store_idx(b, id);
            assert(b[j].1 == r2);
        }
        if store_has_id(a, id) {
            let r1 = store_rec(a, id);
            assert(record_wf(r1)) by {
                let j = store_idx(a, id);
                assert(a[j].1 == r1);
            }
            assert(store_has_id(s1, id) && store_rec(s1, id) == r1);
            assert(store_rec(s2, id) == r1);
            assert(store_rec(a, id) == r1);
            assert(store_rec(s3, id) == patched(r1, r2));
            assert(store_rec(s4, id) == (RecordV {
                attrs: stage4_attrs(r1.attrs, r2.attrs),
                ..store_rec(s3, id)
            }));
            assert(store_rec(s5, id) == (RecordV {
                attrs: stage5_attrs(store_rec(s4, id).attrs, r1.attrs, r2.attrs),
                ..store_rec(s4, id)
            }));
            assert(store_rec(s5, id).attrs == stage5_attrs(
                stage4_attrs(r1.attrs, r2.attrs),
                r1.attrs,
                r2.attrs,
            ));
            assert(fields_equiv(store_rec(s5, id), r2)) by {
                lemma_norm_strand_idem(r2.strand);
            }
            assert forall|k: Seq<char>| #[trigger] attr_vset(store_rec(s5, id).attrs, k)
                == attr_vset(r2.attrs, k) by {
                assert(attr_vset(store_rec(s5, id).attrs, k) =~= attr_vset(r2.attrs, k)) by {
                    assert forall|x: Seq<char>|
                        attr_vset(store_rec(s5, id).attrs, k).contains(x) == attr_vset(
                        r2.attrs,
                        k,
                    ).contains(x) by {
                        lemma_pipeline_mem(r1.attrs, r2.attrs, k, x);
                        assert(attr_values(store_rec(s5, id).attrs, k).contains(x)
                            == seq_contains_str(attr_values(store_rec(s5, id).attrs, k), x));
                        assert(attr_values(r2.attrs, k).contains(x) == seq_contains_str(
                            attr_values(r2.attrs, k),
                            x,
                        ));
                    }
                }
            }
        } else {
            assert(!store_has_id(s1, id));
            assert(store_has_id(s2, id));
            assert(store_rec(s2, id) == store_rec(b, id));
            assert(store_rec(s3, id) == store_rec(s2, id));
            assert(store_rec(s4, id) == store_rec(s3, id));
            assert(store_rec(s5, id) == store_rec(s4, id));
            assert(fields_equiv(r2, r2));
            assert(attrs_equiv(r2.attrs, r2.attrs)) by {
                assert(forall|k: Seq<char>| #[trigger] attr_vset(r2.attrs, k) == attr_vset(
                    r2.attrs,
                    k,
                ));
            }
        }
    }
}

/// Membership distributes over concatenation.
proof fn lemma_contains_add(s1: Seq<ChangeV>, s2: Seq<ChangeV>, c: ChangeV)
    ensures
        (s1 + s2).contains(c) == (s1.contains(c) || s2.contains(c)),
{
    if s1.contains(c) {
        let j = choose|j: int| 0 <= j < s1.len() && s1[j] == c;
        assert((s1 + s2)[j] == c);
    }
    if s2.contains(c) {
        let j = choose|j: int| 0 <= j < s2.len() && s2[j] == c;
        assert((s1 + s2)[s1.len() + j] == c);
    }
    if (s1 + s2).contains(c) {
        let j = choose|j: int| 0 <= j < (s1 + s2).len() && (s1 + s2)[j] == c;
        if j < s1.len() {
            assert(s1[j] == c);
        } else {
            assert(s2[j - s1.len()] == c);
        }
    }
}

/// Membership distributes over push.
proof fn lemma_contains_push(s: Seq<ChangeV>, x: ChangeV, c: ChangeV)
    ensures
        s.push(x).contains(c) == (s.contains(c) || c == x),
{
    if s.contains(c) {
        let j = choose|j: int| 0 <= j < s.len() && s[j] == c;
        assert(s.push(x)[j] == c);
    }
    assert(s.push(x)[s.len() as int] == x);
    if s.push(x).contains(c) {
        let j = choose|j: int| 0 <= j < s.push(x).len() && s.push(x)[j] == c;
        if j < s.len() {
            assert(s[j] == c);
        }
    }
}

/// Which attribute changes a sifted comparison holds.
proof fn lemma_sift_mem(
    id: Seq<char>,
    k: Seq<char>,
    from: Seq<Seq<char>>,
    against: Seq<Seq<char>>,
    add: bool,
    c: ChangeV,
)
    ensures
        sift_changes(id, k, from, against, add).contains(c) == (exists|v: Seq<char>|
            c == mk_attr_change(id, k, v, add) && #[trigger] seq_contains_str(from, v)
                && !seq_contains_str(against, v)),
    decreases from.len(),
{
    let s = sift_changes(id, k, from, against, add);
    if from.len() == 0 {
        assert(!s.contains(c));
        if exists|v: Seq<char>|
            c == mk_attr_change(id, k, v, add) && #[trigger] seq_contains_str(from, v)
                && !seq_contains_str(against, v) {
            let v = choose|v: Seq<char>|
                c == mk_attr_change(id, k, v, add) && #[trigger] seq_contains_str(from, v)
                    && !seq_contains_str(against, v);
            let j = choose|j: int| 0 <= j < from.len() && from[j] == v;
            assert(false);
        }
    } else {
        lemma_sift_mem(id, k, from.drop_last(), against, add, c);
        let rest = sift_changes(id, k, from.drop_last(), against, add);
        let w = from.last();
        assert(from[from.len() - 1] == w);
        assert forall|v: Seq<char>|
            #[trigger] seq_contains_str(from, v) == (seq_contains_str(from.drop_last(), v) || v
                == w) by {
            if seq_contains_str(from, v) {
                let j = choose|j: int| 0 <= j < from.len() && from[j] == v;
                if j < from.len() - 1 {
                    assert(from.drop_last()[j] == v);
                }
            }
            if seq_contains_str(from.drop_last(), v) {
                let j = choose|j: int| 0 <= j < from.len() - 1 && from.drop_last()[j] == v;
                assert(from[j] == v);
            }
        }
        if !seq_contains_str(against, w) {
            lemma_contains_push(rest, mk_attr_change(id, k, w, add), c);
        } else {
            assert(s == rest);
        }
        // forward direction
        if s.contains(c) {
            if rest.contains(c) {
                let v = choose|v: Seq<char>|
                    c == mk_attr_change(id, k, v, add) && #[trigger] seq_contains_str(
                        from.drop_last(),
                        v,
                    ) && !seq_contains_str(against, v);
                assert(seq_contains_str(from, v));
            } else {
                assert(!seq_contains_str(against, w) && c == mk_attr_change(id, k, w, add));
                assert(seq_contains_str(from, w));
            }
        }
        // backward direction
        if exists|v: Seq<char>|
            c == mk_attr_change(id, k, v, add) && #[trigger] seq_contains_str(from, v)
                && !seq_contains_str(against, v) {
            let v = choose|v: Seq<char>|
                c == mk_attr_change(id, k, v, add) && #[trigger] seq_contains_str(from, v)
                    && !seq_contains_str(against, v);
            if seq_contains_str(from.drop_last(), v) {
                assert(rest.contains(c));
            } else {
                assert(v == w);
                assert(!seq_contains_str(against, w));
            }
            assert(s.contains(c));
        }
    }
}

/// Which attribute changes one key's comparison holds, by kind.
proof fn lemma_cmp_one_mem(
    id: Seq<char>,
    k: Seq<char>,
    values: Seq<Seq<char>>,
    other: AttrsV,
    forward: bool,
    c: ChangeV,
)
    ensures
        attr_cmp_one(id, k, values, other, forward).contains(c) == (exists|v: Seq<char>|
            #![trigger mk_attr_change(id, k, v, true)]
            #![trigger mk_attr_change(id, k, v, false)]
            (c == mk_attr_change(id, k, v, true) && (if forward {
                seq_contains_str(attr_values(other, k), v) && !seq_contains_str(values, v)
            } else {
                seq_contains_str(values, v) && !seq_contains_str(attr_values(other, k), v)
            })) || (c == mk_attr_change(id, k, v, false) && (if forward {
                !attr_has_key(other, k) && seq_contains_str(values, v)
            } else {
                seq_contains_str(attr_values(other, k), v) && !seq_contains_str(values, v)
            }))),
{
    let blk = attr_cmp_one(id, k, values, other, forward);
    assert forall|v: Seq<char>| !(#[trigger] seq_contains_str(Seq::<Seq<char>>::empty(), v)) by {
        if seq_contains_str(Seq::<Seq<char>>::empty(), v) {
            let j = choose|j: int|
                0 <= j < Seq::<Seq<char>>::empty().len() && Seq::<Seq<char>>::empty()[j] == v;
        }
    }
    if !attr_has_key(other, k) {
        lemma_all_is_sift(id, k, values, !forward);
        lemma_sift_mem(id, k, values, Seq::empty(), !forward, c);
        assert(attr_values(other, k) == Seq::<Seq<char>>::empty());
        if blk.contains(c) {
            let v = choose|v: Seq<char>|
                c == mk_attr_change(id, k, v, !forward) && #[trigger] seq_contains_str(values, v)
                    && !seq_contains_str(Seq::empty(), v);
            if forward {
                assert(c == mk_attr_change(id, k, v, false) && !attr_has_key(other, k)
                    && seq_contains_str(values, v));
            } else {
                assert(c == mk_attr_change(id, k, v, true) && seq_contains_str(values, v)
                    && !seq_contains_str(attr_values(other, k), v));
            }
        } else {
            if exists|v: Seq<char>|
                #![trigger mk_attr_change(id, k, v, true)]
                #![trigger mk_attr_change(id, k, v, false)]
                (c == mk_attr_change(id, k, v, true) && (if forward {
                    seq_contains_str(attr_values(other, k), v) && !seq_contains_str(values, v)
                } else {
                    seq_contains_str(values, v) && !seq_contains_str(attr_values(other, k), v)
                })) || (c == mk_attr_change(id, k, v, false) && (if forward {
                    !attr_has_key(other, k) && seq_contains_str(values, v)
                } else {
                    seq_contains_str(attr_values(other, k), v) && !seq_contains_str(values, v)
                })) {
                let v = choose|v: Seq<char>|
                    #![trigger mk_attr_change(id, k, v, true)]
                    #![trigger mk_attr_change(id, k, v, false)]
                    (c == mk_attr_change(id, k, v, true) && (if forward {
                        seq_contains_str(attr_values(other, k), v) && !seq_contains_str(values, v)
                    } else {
                        seq_contains_str(values, v) && !seq_contains_str(
                            attr_values(other, k),
                            v,
                        )
                    })) || (c == mk_attr_change(id, k, v, false) && (if forward {
                        !attr_has_key(other, k) && seq_contains_str(values, v)
                    } else {
                        seq_contains_str(attr_values(other, k), v) && !seq_contains_str(
                            values,
                            v,
                        )
                    }));
                assert(c == mk_attr_change(id, k, v, !forward) && seq_contains_str(values, v)
                    && !seq_contains_str(Seq::empty(), v));
                assert(blk.contains(c));
            }
        }
    } else {
        let values2 = attr_values(other, k);
        let main = sift_changes(id, k, values2, values, forward);
        lemma_sift_mem(id, k, values2, values, forward, c);
        if forward {
            assert(blk == main);
            if blk.contains(c) {
                let v = choose|v: Seq<char>|
                    c == mk_attr_change(id, k, v, true) && #[trigger] seq_contains_str(values2, v)
                        && !seq_contains_str(values, v);
                assert(c == mk_attr_change(id, k, v, true) && seq_contains_str(
                    attr_values(other, k),
                    v,
                ) && !seq_contains_str(values, v));
            } else {
                if exists|v: Seq<char>|
                    #![trigger mk_attr_change(id, k, v, true)]
                    #![trigger mk_attr_change(id, k, v, false)]
                    (c == mk_attr_change(id, k, v, true) && (if forward {
                        seq_contains_str(attr_values(other, k), v) && !seq_contains_str(values, v)
                    } else {
                        seq_contains_str(values, v) && !seq_contains_str(
                            attr_values(other, k),
                            v,
                        )
                    })) || (c == mk_attr_change(id, k, v, false) && (if forward {
                        !attr_has_key(other, k) && seq_contains_str(values, v)
                    } else {
                        seq_contains_str(attr_values(other, k), v) && !seq_contains_str(
                            values,
                            v,
                        )
                    })) {
                    let v = choose|v: Seq<char>|
                        #![trigger mk_attr_change(id, k, v, true)]
                        #![trigger mk_attr_change(id, k, v, false)]
                        (c == mk_attr_change(id, k, v, true) && (if forward {
                            seq_contains_str(attr_values(other, k), v) && !seq_contains_str(
                                values,
                                v,
                            )
                        } else {
                            seq_contains_str(values, v) && !seq_contains_str(
                                attr_values(other, k),
                                v,
                            )
                        })) || (c == mk_attr_change(id, k, v, false) && (if forward {
                            !attr_has_key(other, k) && seq_contains_str(values, v)
                        } else {
                            seq_contains_str(attr_values(other, k), v) && !seq_contains_str(
                                values,
                                v,
                            )
                        }));
                    assert(c == mk_attr_change(id, k, v, true) && seq_contains_str(values2, v)
                        && !seq_contains_str(values, v));
                    assert(blk.contains(c));
                }
            }
        } else {
            let extra = sift_changes(id, k, values, values2, true);
            assert(blk == main + extra);
            lemma_contains_add(main, extra, c);
            lemma_sift_mem(id, k, values, values2, true, c);
            if blk.contains(c) {
                if main.contains(c) {
                    let v = choose|v: Seq<char>|
                        c == mk_attr_change(id, k, v, false) && #[trigger] seq_contains_str(
                            values2,
                            v,
                        ) && !seq_contains_str(values, v);
                    assert(c == mk_attr_change(id, k, v, false) && seq_contains_str(
                        attr_values(other, k),
                        v,
                    ) && !seq_contains_str(values, v));
                } else {
                    let v = choose|v: Seq<char>|
                        c == mk_attr_change(id, k, v, true) && #[trigger] seq_contains_str(
                            values,
                            v,
                        ) && !seq_contains_str(values2, v);
                    assert(c == mk_attr_change(id, k, v, true) && seq_contains_str(values, v)
                        && !seq_contains_str(attr_values(other, k), v));
                }
            } else {
                if exists|v: Seq<char>|
                    #![trigger mk_attr_change(id, k, v, true)]
                    #![trigger mk_attr_change(id, k, v, false)]
                    (c == mk_attr_change(id, k, v, true) && (if forward {
                        seq_contains_str(attr_values(other, k), v) && !seq_contains_str(values, v)
                    } else {
                        seq_contains_str(values, v) && !seq_contains_str(
                            attr_values(other, k),
                            v,
                        )
                    })) || (c == mk_attr_change(id, k, v, false) && (if forward {
                        !attr_has_key(other, k) && seq_contains_str(values, v)
                    } else {
                        seq_contains_str(attr_values(other, k), v) && !seq_contains_str(
                            values,
                            v,
                        )
                    })) {
                    let v = choose|v: Seq<char>|
                        #![trigger mk_attr_change(id, k, v, true)]
                        #![trigger mk_attr_change(id, k, v, false)]
                        (c == mk_attr_change(id, k, v, true) && (if forward {
                            seq_contains_str(attr_values(other, k), v) && !seq_contains_str(
                                values,
                                v,
                            )
                        } else {
                            seq_contains_str(values, v) && !seq_contains_str(
                                attr_values(other, k),
                                v,
                            )
                        })) || (c == mk_attr_change(id, k, v, false) && (if forward {
                            !attr_has_key(other, k) && seq_contains_str(values, v)
                        } else {
                            seq_contains_str(attr_values(other, k), v) && !seq_contains_str(
                                values,
                                v,
                            )
                        }));
                    if c == mk_attr_change(id, k, v, true) {
                        assert(extra.contains(c));
                    } else {
                        assert(main.contains(c));
                    }
                    assert(blk.contains(c));
                }
            }
        }
    }
}

/// Which attribute changes a whole attribute walk holds.
proof fn lemma_walk_mem(
    id: Seq<char>,
    a: AttrsV,
    other: AttrsV,
    forward: bool,
    c: ChangeV,
)
    requires
        attrs_wf(a),
    ensures
        attrs_walk(id, a, other, forward).contains(c) == (exists|k: Seq<char>, v: Seq<char>|
            #![trigger mk_attr_change(id, k, v, true)]
            #![trigger mk_attr_change(id, k, v, false)]
            attr_has_key(a, k) && ((c == mk_attr_change(id, k, v, true) && (if forward {
                seq_contains_str(attr_values(other, k), v) && !seq_contains_str(
                    attr_values(a, k),
                    v,
                )
            } else {
                seq_contains_str(attr_values(a, k), v) && !seq_contains_str(
                    attr_values(other, k),
                    v,
                )
            })) || (c == mk_attr_change(id, k, v, false) && (if forward {
                !attr_has_key(other, k) && seq_contains_str(attr_values(a, k), v)
            } else {
                seq_contains_str(attr_values(other, k), v) && !seq_contains_str(
                    attr_values(a, k),
                    v,
                )
            })))),
    decreases a.len(),
{
    if a.len() == 0 {
        assert(!attrs_walk(id, a, other, forward).contains(c));
        assert(forall|k: Seq<char>| !(#[trigger] attr_has_key(a, k)));
    } else {
        assert(attrs_wf(a.drop_last())) by {
            assert(forall|x: int| 0 <= x < a.len() - 1 ==> a.drop_last()[x] == #[trigger] a[x]);
        }
        lemma_walk_mem(id, a.drop_last(), other, forward, c);
        let k0 = a.last().0;
        let vs0 = a.last().1;
        assert(a[a.len() - 1] == (k0, vs0));
        lemma_entries_values(a, k0);
        lemma_contains_add(
            attrs_walk(id, a.drop_last(), other, forward),
            attr_cmp_one(id, k0, vs0, other, forward),
            c,
        );
        lemma_cmp_one_mem(id, k0, vs0, other, forward, c);
        assert forall|k: Seq<char>|
            k != k0 implies #[trigger] attr_has_key(a.drop_last(), k) == attr_has_key(a, k) && (
            attr_has_key(a, k) ==> attr_values(a.drop_last(), k) == attr_values(a, k)) by {
            lemma_entries_values_other(a, k);
        }
        assert(attr_values(a, k0) == vs0);
        assert(attr_has_key(a, k0));
    }
}

/// An attribute addition stands in the changes for a shared id exactly
/// when the new side holds the value under the key and the old side does
/// not; an attribute removal, exactly the other way around.
proof fn lemma_entry_attr_mem(id: Seq<char>, r1: RecordV, r2: RecordV, c: ChangeV)
    requires
        record_wf(r1),
        record_wf(r2),
    ensures
        entry_changes(id, r1, r2).contains(c) == (field_changes(id, r1, r2).contains(c) || (
        exists|k: Seq<char>, v: Seq<char>|
            #![trigger mk_attr_change(id, k, v, true)]
            #![trigger mk_attr_change(id, k, v, false)]
            (c == mk_attr_change(id, k, v, true) && seq_contains_str(
                attr_values(r2.attrs, k),
                v,
            ) && !seq_contains_str(attr_values(r1.attrs, k), v)) || (c == mk_attr_change(
                id,
                k,
                v,
                false,
            ) && seq_contains_str(attr_values(r1.attrs, k), v) && !seq_contains_str(
                attr_values(r2.attrs, k),
                v,
            )))),
{
    let fc = field_changes(id, r1, r2);
    let w1 = attrs_walk(id, r1.attrs, r2.attrs, true);
    let w2 = attrs_walk(id, r2.attrs, r1.attrs, false);
    lemma_contains_add(fc + w1, w2, c);
    lemma_contains_add(fc, w1, c);
    lemma_walk_mem(id, r1.attrs, r2.attrs, true, c);
    lemma_walk_mem(id, r2.attrs, r1.attrs, false, c);
    assert forall|k: Seq<char>, v: Seq<char>|
        #[trigger] seq_contains_str(attr_values(r2.attrs, k), v) implies attr_has_key(
        r2.attrs,
        k,
    ) by {
        if !attr_has_key(r2.attrs, k) {
            assert(attr_values(r2.attrs, k) == Seq::<Seq<char>>::empty());
            let j = choose|j: int|
                0 <= j < attr_values(r2.attrs, k).len() && attr_values(r2.attrs, k)[j] == v;
        }
    }
    assert forall|k: Seq<char>, v: Seq<char>|
        #[trigger] seq_contains_str(attr_values(r1.attrs, k), v) implies attr_has_key(
        r1.attrs,
        k,
    ) by {
        if !attr_has_key(r1.attrs, k) {
            assert(attr_values(r1.attrs, k) == Seq::<Seq<char>>::empty());
            let j = choose|j: int|
                0 <= j < attr_values(r1.attrs, k).len() && attr_values(r1.attrs, k)[j] == v;
        }
    }
}

/// Which changes the forward pass holds, for row-level and attribute-level
/// kinds.
proof fn lemma_fwd_mem(entries: StoreV, other: StoreV, c: ChangeV)
    requires
        store_wf(entries),
        store_wf(other),
    ensures
        (c is RowRemoved ==> forward_pass_spec(entries, other).contains(c) == (exists|i: int|
            0 <= i < entries.len() && !store_has_id(other, (#[trigger] entries[i]).0) && c == (
            ChangeV::RowRemoved { id: entries[i].0, snapshot: entries[i].1 }))),
        (c is AttributeAdded || c is AttributeRemoved ==> forward_pass_spec(
            entries,
            other,
        ).contains(c) == (exists|i: int|
            0 <= i < entries.len() && store_has_id(other, (#[trigger] entries[i]).0)
                && entry_changes(
                entries[i].0,
                entries[i].1,
                store_rec(other, entries[i].0),
            ).contains(c))),
    decreases entries.len(),
{
    if entries.len() == 0 {
        assert(!forward_pass_spec(entries, other).contains(c));
    } else {
        assert(store_wf(entries.drop_last())) by {
            assert(forall|x: int|
                0 <= x < entries.len() - 1 ==> entries.drop_last()[x] == #[trigger] entries[x]);
        }
        assert(forall|x: int|
            0 <= x < entries.len() - 1 ==> entries.drop_last()[x] == #[trigger] entries[x]);
        lemma_fwd_mem(entries.drop_last(), other, c);
        let rest = forward_pass_spec(entries.drop_last(), other);
        let id = entries.last().0;
        let r1 = entries.last().1;
        assert(entries[entries.len() - 1] == (id, r1));
        if store_has_id(other, id) {
            let blk = entry_changes(id, r1, store_rec(other, id));
            lemma_contains_add(rest, blk, c);
            lemma_entry_kinds(id, r1, store_rec(other, id));
            if c is RowRemoved {
                assert(!blk.contains(c)) by {
                    if blk.contains(c) {
                        let j = choose|j: int| 0 <= j < blk.len() && blk[j] == c;
                    }
                }
            }
        } else {
            let cr = ChangeV::RowRemoved { id: id, snapshot: r1 };
            lemma_contains_push(rest, cr, c);
        }
    }
}

/// Which row additions the reverse pass holds.
proof fn lemma_rev_mem(entries: StoreV, other: StoreV, c: ChangeV)
    ensures
        reverse_pass_spec(entries, other).contains(c) == (exists|i: int|
            0 <= i < entries.len() && !store_has_id(other, (#[trigger] entries[i]).0) && c == (
            ChangeV::RowAdded { id: entries[i].0, snapshot: entries[i].1 })),
    decreases entries.len(),
{
    if entries.len() == 0 {
        assert(!reverse_pass_spec(entries, other).contains(c));
    } else {
        assert(forall|x: int|
            0 <= x < entries.len() - 1 ==> entries.drop_last()[x] == #[trigger] entries[x]);
        lemma_rev_mem(entries.drop_last(), other, c);
        let rest = reverse_pass_spec(entries.drop_last(), other);
        let id = entries.last().0;
        let r2 = entries.last().1;
        assert(entries[entries.len() - 1] == (id, r2));
        if store_has_id(other, id) {
        } else {
            lemma_contains_push(rest, ChangeV::RowAdded { id: id, snapshot: r2 }, c);
        }
    }
}

/// An attribute change's membership in a whole diff, characterized.
proof fn lemma_diff_attr_mem(a: StoreV, b: StoreV, c: ChangeV)
    requires
        store_wf(a),
        store_wf(b),
        attrish(c),
    ensures
        diff_spec(a, b).contains(c) == (exists|i: int|
            0 <= i < a.len() && store_has_id(b, (#[trigger] a[i]).0) && entry_changes(
                a[i].0,
                a[i].1,
                store_rec(b, a[i].0),
            ).contains(c)),
{
    lemma_contains_add(forward_pass_spec(a, b), reverse_pass_spec(b, a), c);
    lemma_rev_kinds(b, a);
    assert(!reverse_pass_spec(b, a).contains(c)) by {
        if reverse_pass_spec(b, a).contains(c) {
            let j = choose|j: int|
                0 <= j < reverse_pass_spec(b, a).len() && reverse_pass_spec(b, a)[j] == c;
        }
    }
    lemma_fwd_mem(a, b, c);
}

/// **Symmetry**: the diffs of two stores taken in both orders are
/// inverses.  Every row addition in one is a row removal with the same
/// snapshot in the other, and every attribute addition in one is the same
/// attribute removal in the other.
pub proof fn lemma_diff_symmetry(a: StoreV, b: StoreV)
    requires
        store_wf(a),
        store_wf(b),
    ensures
        forall|id: Seq<char>, snap: RecordV|
            #[trigger] diff_spec(a, b).contains(ChangeV::RowAdded { id, snapshot: snap })
                <==> diff_spec(b, a).contains(ChangeV::RowRemoved { id, snapshot: snap }),
        forall|id: Seq<char>, k: Seq<char>, v: Seq<char>|
            #[trigger] diff_spec(a, b).contains(
                ChangeV::AttributeAdded { id, key: k, value: v },
            ) <==> diff_spec(b, a).contains(ChangeV::AttributeRemoved { id, key: k, value: v }),
{
    assert forall|id: Seq<char>, snap: RecordV|
        #[trigger] diff_spec(a, b).contains(ChangeV::RowAdded { id, snapshot: snap })
            <==> diff_spec(b, a).contains(ChangeV::RowRemoved { id, snapshot: snap }) by {
        let ca = ChangeV::RowAdded { id, snapshot: snap };
        let cr = ChangeV::RowRemoved { id, snapshot: snap };
        lemma_contains_add(forward_pass_spec(a, b), reverse_pass_spec(b, a), ca);
        lemma_fwd_kinds(a, b);
        assert(!forward_pass_spec(a, b).contains(ca)) by {
            if forward_pass_spec(a, b).contains(ca) {
                let j = choose|j: int|
                    0 <= j < forward_pass_spec(a, b).len() && forward_pass_spec(a, b)[j] == ca;
            }
        }
        lemma_rev_mem(b, a, ca);
        lemma_contains_add(forward_pass_spec(b, a), reverse_pass_spec(a, b), cr);
        lemma_rev_kinds(a, b);
        assert(!reverse_pass_spec(a, b).contains(cr)) by {
            if reverse_pass_spec(a, b).contains(cr) {
                let j = choose|j: int|
                    0 <= j < reverse_pass_spec(a, b).len() && reverse_pass_spec(a, b)[j] == cr;
            }
        }
        lemma_fwd_mem(b, a, cr);
    }
    assert forall|id: Seq<char>, k: Seq<char>, v: Seq<char>|
        #[trigger] diff_spec(a, b).contains(ChangeV::AttributeAdded { id, key: k, value: v })
            <==> diff_spec(b, a).contains(
            ChangeV::AttributeRemoved { id, key: k, value: v },
        ) by {
        let ca = ChangeV::AttributeAdded { id, key: k, value: v };
        let cr = ChangeV::AttributeRemoved { id, key: k, value: v };
        assert(ca == mk_attr_change(id, k, v, true));
        assert(cr == mk_attr_change(id, k, v, false));
        lemma_diff_attr_mem(a, b, ca);
        lemma_diff_attr_mem(b, a, cr);
        if diff_spec(a, b).contains(ca) {
            let i = choose|i: int|
                0 <= i < a.len() && store_has_id(b, (#[trigger] a[i]).0) && entry_changes(
                    a[i].0,
                    a[i].1,
                    store_rec(b, a[i].0),
                ).contains(ca);
            let r1 = a[i].1;
            let r2 = store_rec(b, a[i].0);
            assert(record_wf(r1) && record_wf(r2)) by {
                assert(record_wf(a[i].1));
                let j = store_idx(b, a[i].0);
                assert(record_wf(b[j].1));
            }
            lemma_entry_attr_mem(a[i].0, r1, r2, ca);
            lemma_field_changes_kinds(a[i].0, r1, r2);
            assert(!field_changes(a[i].0, r1, r2).contains(ca)) by {
                if field_changes(a[i].0, r1, r2).contains(ca) {
                    let j = choose|j: int|
                        0 <= j < field_changes(a[i].0, r1, r2).len() && field_changes(
                            a[i].0,
                            r1,
                            r2,
                        )[j] == ca;
                }
            }
            let kv = choose|k2: Seq<char>, v2: Seq<char>|
                (ca == mk_attr_change(a[i].0, k2, v2, true) && #[trigger] seq_contains_str(
                    attr_values(r2.attrs, k2),
                    v2,
                ) && !seq_contains_str(attr_values(r1.attrs, k2), v2)) || (ca == mk_attr_change(
                    a[i].0,
                    k2,
                    v2,
                    false,
                ) && seq_contains_str(attr_values(r1.attrs, k2), v2) && !seq_contains_str(
                    attr_values(r2.attrs, k2),
                    v2,
                ));
            assert(kv.0 == k && kv.1 == v && a[i].0 == id);
            // mirror into the reversed diff
            let j = store_idx(b, id);
            lemma_store_idx(b, id, j);
            assert(b[j] == (id, r2));
            assert(store_has_id(a, id)) by {
                assert(a[i].0 == id);
            }
            lemma_store_idx(a, id, i);
            assert(store_rec(a, id) == r1);
            lemma_entry_attr_mem(id, r2, r1, cr);
            assert(entry_changes(id, r2, r1).contains(cr)) by {
                assert((cr == mk_attr_change(id, k, v, false) && seq_contains_str(
                    attr_values(r2.attrs, k),
                    v,
                ) && !seq_contains_str(attr_values(r1.attrs, k), v)));
            }
            assert(diff_spec(b, a).contains(cr)) by {
                assert(store_has_id(a, (b[j]).0) && entry_changes(
                    b[j].0,
                    b[j].1,
                    store_rec(a, b[j].0),
                ).contains(cr));
            }
        }
        if diff_spec(b, a).contains(cr) {
            let i = choose|i: int|
                0 <= i < b.len() && store_has_id(a, (#[trigger] b[i]).0) && entry_changes(
                    b[i].0,
                    b[i].1,
                    store_rec(a, b[i].0),
                ).contains(cr);
            let r2 = b[i].1;
            let r1 = store_rec(a, b[i].0);
            assert(record_wf(r1) && record_wf(r2)) by {
                assert(record_wf(b[i].1));
                let j = store_idx(a, b[i].0);
                assert(record_wf(a[j].1));
            }
            lemma_entry_attr_mem(b[i].0, r2, r1, cr);
            lemma_field_changes_kinds(b[i].0, r2, r1);
            assert(!field_changes(b[i].0, r2, r1).contains(cr)) by {
                if field_changes(b[i].0, r2, r1).contains(cr) {
                    let j = choose|j: int|
                        0 <= j < field_changes(b[i].0, r2, r1).len() && field_changes(
                            b[i].0,
                            r2,
                            r1,
                        )[j] == cr;
                }
            }
            let kv = choose|k2: Seq<char>, v2: Seq<char>|
                (cr == mk_attr_change(b[i].0, k2, v2, true) && #[trigger] seq_contains_str(
                    attr_values(r1.attrs, k2),
                    v2,
                ) && !seq_contains_str(attr_values(r2.attrs, k2), v2)) || (cr == mk_attr_change(
                    b[i].0,
                    k2,
                    v2,
                    false,
                ) && seq_contains_str(attr_values(r2.attrs, k2), v2) && !seq_contains_str(
                    attr_values(r1.attrs, k2),
                    v2,
                ));
            assert(kv.0 == k && kv.1 == v && b[i].0 == id);
            let j = store_idx(a, id);
            lemma_store_idx(a, id, j);
            assert(a[j] == (id, r1));
            assert(store_has_id(b, id)) by {
                assert(b[i].0 == id);
            }
            lemma_store_idx(b, id, i);
            assert(store_rec(b, id) == r2);
            lemma_entry_attr_mem(id, r1, r2, ca);
            assert(entry_changes(id, r1, r2).contains(ca)) by {
                assert((ca == mk_attr_change(id, k, v, true) && seq_contains_str(
                    attr_values(r2.attrs, k),
                    v,
                ) && !seq_contains_str(attr_values(r1.attrs, k), v)));
            }
            assert(diff_spec(a, b).contains(ca)) by {
                assert(store_has_id(b, (a[j]).0) && entry_changes(
                    a[j].0,
                    a[j].1,
                    store_rec(b, a[j].0),
                ).contains(ca));
            }
        }
    }
}

} // verus!
