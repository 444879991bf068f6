//! Canonicalization: a change set has no defined element order, so any
//! consumer needing determinism sorts it by a canonical string rendering of
//! each change.

use vstd::prelude::*;
use crate::change::{Change, ChangeV, ChangeSet};
use crate::record::{RecordV, AttrsV, field_name, field_name_string};
use crate::strings::{
    dec_seq, lex_le, str_lex_le, u64_to_string, lemma_lex_le_total, lemma_lex_le_trans,
    lemma_vec_deep_view_index, lemma_vec_deep_view_len,
};

verus! {

broadcast use lemma_vec_deep_view_index, lemma_vec_deep_view_len;

/// The canonical rendering of one attribute value list: `,value` per value.
pub open spec fn canon_values(vs: Seq<Seq<char>>) -> Seq<char>
    decreases vs.len(),
{
    if vs.len() == 0 {
        Seq::empty()
    } else {
        canon_values(vs.drop_last()) + ","@ + vs.last()
    }
}

/// The canonical rendering of an attribute map: `|key,value,value` per entry.
pub open spec fn canon_attrs(a: AttrsV) -> Seq<char>
    decreases a.len(),
{
    if a.len() == 0 {
        Seq::empty()
    } else {
        canon_attrs(a.drop_last()) + "|"@ + a.last().0 + canon_values(a.last().1)
    }
}

/// The canonical rendering of a record snapshot.
pub open spec fn canon_record(r: RecordV) -> Seq<char> {
    r.seqname + "|"@ + r.source + "|"@ + r.feature_type + "|"@ + dec_seq(r.start as nat) + "|"@
        + dec_seq(r.end as nat) + "|"@ + r.score + "|"@ + r.strand + "|"@ + r.frame + canon_attrs(
        r.attrs,
    )
}

/// The canonical rendering of one change: action, kind, id, then the parts.
pub open spec fn canon_change(c: ChangeV) -> Seq<char> {
    match c {
        ChangeV::RowRemoved { id, snapshot } => "remove|row|"@ + id + "|"@ + canon_record(snapshot),
        ChangeV::RowAdded { id, snapshot } => "add|row|"@ + id + "|"@ + canon_record(snapshot),
        ChangeV::RowFieldUpdated { id, field, value } => "update|row|"@ + id + "|"@ + field_name(
            field,
        ) + "|"@ + value,
        ChangeV::AttributeAdded { id, key, value } => "add|attribute|"@ + id + "|"@ + key + "|"@
            + value,
        ChangeV::AttributeRemoved { id, key, value } => "remove|attribute|"@ + id + "|"@ + key
            + "|"@ + value,
    }
}

/// The canonical order on changes.
pub open spec fn change_le(a: ChangeV, b: ChangeV) -> bool {
    lex_le(canon_change(a), canon_change(b))
}

/// Renders one change canonically.
pub fn canon_string(c: &Change) -> (r: String)
    ensures
        r@ == canon_change(c@),
{
    let bar = String::from_str("|");
    match c {
        Change::RowRemoved { id, snapshot } => {
            let mut s = String::from_str("remove|row|");
            s.append(id.as_str());
            s.append(bar.as_str());
            let cr = canon_record_string(snapshot);
            s.append(cr.as_str());
            s
        },
        Change::RowAdded { id, snapshot } => {
            let mut s = String::from_str("add|row|");
            s.append(id.as_str());
            s.append(bar.as_str());
            let cr = canon_record_string(snapshot);
            s.append(cr.as_str());
            s
        },
        Change::RowFieldUpdated { id, field, value } => {
            let mut s = String::from_str("update|row|");
            s.append(id.as_str());
            s.append(bar.as_str());
            let fname = field_name_string(field);
            s.append(fname.as_str());
            s.append(bar.as_str());
            s.append(value.as_str());
            s
        },
        Change::AttributeAdded { id, key, value } => {
            let mut s = String::from_str("add|attribute|");
            s.append(id.as_str());
            s.append(bar.as_str());
            s.append(key.as_str());
            s.append(bar.as_str());
            s.append(value.as_str());
            s
        },
        Change::AttributeRemoved { id, key, value } => {
            let mut s = String::from_str("remove|attribute|");
            s.append(id.as_str());
            s.append(bar.as_str());
            s.append(key.as_str());
            s.append(bar.as_str());
            s.append(value.as_str());
            s
        },
    }
}

/// Renders a record snapshot canonically.
fn canon_record_string(r: &crate::record::Record) -> (out: String)
    ensures
        out@ == canon_record(r@),
{
    let bar = String::from_str("|");
    let mut s = r.seqname.clone();
    s.append(bar.as_str());
    s.append(r.source.as_str());
    s.append(bar.as_str());
    s.append(r.feature_type.as_str());
    s.append(bar.as_str());
    let st = u64_to_string(r.start);
    s.append(st.as_str());
    s.append(bar.as_str());
    let en = u64_to_string(r.end);
    s.append(en.as_str());
    s.append(bar.as_str());
    s.append(r.score.as_str());
    s.append(bar.as_str());
    s.append(r.strand.as_str());
    s.append(bar.as_str());
    s.append(r.frame.as_str());
    let comma = String::from_str(",");
    let mut i: usize = 0;
    while i < r.attributes.entries.len()
        invariant
            0 <= i <= r.attributes.entries@.len(),
            bar@ == "|"@,
            comma@ == ","@,
            s@ == canon_record(r@).subrange(
                0,
                canon_record(r@).len() - canon_attrs(r@.attrs).len(),
            ) + canon_attrs(r@.attrs.take(i as int)),
        decreases r.attributes.entries.len() - i,
    {
        proof {
            let a = r@.attrs;
            assert(a.take(i + 1).drop_last() =~= a.take(i as int));
            assert(a.take(i + 1).last() == a[i as int]);
            assert(r.attributes.entries@[i as int]@ == a[i as int]);
        }
        let e = &r.attributes.entries[i];
        s.append(bar.as_str());
        s.append(e.key.as_str());
        let ghost vbase = s@;
        let mut j: usize = 0;
        while j < e.values.len()
            invariant
                0 <= j <= e.values@.len(),
                comma@ == ","@,
                s@ == vbase + canon_values(e.values.deep_view().take(j as int)),
            decreases e.values.len() - j,
        {
            proof {
                let vs = e.values.deep_view();
                assert(vs.take(j + 1).drop_last() =~= vs.take(j as int));
                assert(vs.take(j + 1).last() == vs[j as int]);
            }
            s.append(comma.as_str());
            s.append(e.values[j].as_str());
            j = j + 1;
        }
        proof {
            assert(e.values.deep_view().take(e.values@.len() as int) =~= e.values.deep_view());
        }
        i = i + 1;
    }
    proof {
        assert(r@.attrs.take(r.attributes.entries@.len() as int) =~= r@.attrs);
        assert(s@ =~= canon_record(r@));
    }
    s
}

/// Whether `a` comes no later than `b` in the canonical order.
pub fn change_le_exec(a: &Change, b: &Change) -> (r: bool)
    ensures
        r == change_le(a@, b@),
{
    let ca = canon_string(a);
    let cb = canon_string(b);
    str_lex_le(ca.as_str(), cb.as_str())
}

/// Inserting into a sequence sorted in canonical order, after any equal
/// elements.
pub open spec fn insert_sorted(x: ChangeV, s: Seq<ChangeV>) -> Seq<ChangeV>
    decreases s.len(),
{
    if s.len() == 0 {
        seq![x]
    } else if change_le(s.last(), x) {
        s.push(x)
    } else {
        insert_sorted(x, s.drop_last()).push(s.last())
    }
}

/// The canonical stable sort of a change sequence.
pub open spec fn sort_spec(s: Seq<ChangeV>) -> Seq<ChangeV>
    decreases s.len(),
{
    if s.len() == 0 {
        s
    } else {
        insert_sorted(s.last(), sort_spec(s.drop_last()))
    }
}

/// Where the scan found the insertion point, inserting there is what
/// `insert_sorted` does.
proof fn lemma_insert_sorted_at(x: ChangeV, s: Seq<ChangeV>, j: int)
    requires
        0 <= j <= s.len(),
        forall|k: int| j <= k < s.len() ==> !change_le(#[trigger] s[k], x),
        j > 0 ==> change_le(s[j - 1], x),
    ensures
        insert_sorted(x, s) == s.insert(j, x),
    decreases s.len(),
{
    if s.len() == 0 {
        assert(insert_sorted(x, s) =~= s.insert(0, x));
    } else if j == s.len() {
        assert(change_le(s.last(), x));
        assert(insert_sorted(x, s) =~= s.insert(j, x));
    } else {
        assert(!change_le(s.last(), x));
        lemma_insert_sorted_at(x, s.drop_last(), j);
        assert(insert_sorted(x, s.drop_last()).push(s.last()) =~= s.insert(j, x)) by {
            assert(insert_sorted(x, s.drop_last()) == s.drop_last().insert(j, x));
        }
    }
}

/// Inserts one change into a canonically sorted list, keeping it sorted.
fn insert_change(out: &mut Vec<Change>, c: Change)
    ensures
        final(out).deep_view() == insert_sorted(c@, old(out).deep_view()),
{
    let ghost pdv = out.deep_view();
    let mut j: usize = out.len();
    let mut stop = false;
    while j > 0 && !stop
        invariant
            0 <= j <= out@.len(),
            out.deep_view() == pdv,
            out@.len() == pdv.len(),
            forall|k: int| j <= k < pdv.len() ==> !change_le(#[trigger] pdv[k], c@),
            stop ==> j > 0 && change_le(pdv[j - 1], c@),
        decreases j, (if stop {
            0int
        } else {
            1int
        }),
    {
        if change_le_exec(&out[j - 1], &c) {
            stop = true;
        } else {
            j = j - 1;
        }
    }
    proof {
        lemma_insert_sorted_at(c@, pdv, j as int);
    }
    let ghost pv = out@;
    out.insert(j, c);
    proof {
        assert forall|k: int| 0 <= k < out@.len() implies #[trigger] out.deep_view()[k]
            == pdv.insert(j as int, c@)[k] by {
            assert(out.deep_view()[k] == out@[k].deep_view());
            assert(out@[k] == pv.insert(j as int, c)[k]);
            if k < j {
                assert(out@[k] == pv[k]);
            } else if k > j {
                assert(out@[k] == pv[k - 1]);
            }
        }
        assert(out.deep_view() =~= pdv.insert(j as int, c@));
    }
}

/// Sorts a comparison result by the canonical string form of each change,
/// making it deterministic for storage or comparison.
pub fn sort_comparison(result: &mut ChangeSet)
    ensures
        final(result)@.changes == sort_spec(old(result)@.changes),
        final(result)@.issues == old(result)@.issues,
{
    let ghost orig = result@.changes;
    let mut sorted: Vec<Change> = Vec::new();
    proof {
        assert(sorted.deep_view() =~= sort_spec(orig.take(0)));
    }
    let mut i: usize = 0;
    let n = result.changes.len();
    while i < n
        invariant
            0 <= i <= n,
            n == orig.len(),
            result@.issues == old(result)@.issues,
            result.changes.deep_view() == orig,
            sorted.deep_view() == sort_spec(orig.take(i as int)),
        decreases n - i,
    {
        proof {
            assert(orig.take(i + 1).drop_last() =~= orig.take(i as int));
            assert(orig.take(i + 1).last() == orig[i as int]);
        }
        let c = result.changes[i].duplicate();
        insert_change(&mut sorted, c);
        i = i + 1;
    }
    proof {
        assert(orig.take(n as int) =~= orig);
    }
    result.changes = sorted;
}

/// Pairwise canonical sortedness.
pub open spec fn sorted_by_canon(s: Seq<ChangeV>) -> bool {
    forall|i: int, j: int| 0 <= i < j < s.len() ==> change_le(#[trigger] s[i], #[trigger] s[j])
}

/// Every element of a sorted-insert result is bounded by any bound on the
/// inserted element and the list.
proof fn lemma_insert_sorted_bound(x: ChangeV, s: Seq<ChangeV>, b: ChangeV)
    requires
        change_le(x, b),
        forall|i: int| 0 <= i < s.len() ==> change_le(#[trigger] s[i], b),
    ensures
        forall|i: int|
            0 <= i < insert_sorted(x, s).len() ==> change_le(#[trigger] insert_sorted(x, s)[i], b),
    decreases s.len(),
{
    if s.len() == 0 {
        assert(insert_sorted(x, s) =~= seq![x]);
        assert(insert_sorted(x, s)[0] == x);
    } else if change_le(s.last(), x) {
        assert(forall|i: int|
            0 <= i < s.len() ==> #[trigger] insert_sorted(x, s)[i] == s[i]);
        assert(insert_sorted(x, s)[s.len() as int] == x);
    } else {
        assert(forall|i: int|
            0 <= i < s.len() - 1 ==> s.drop_last()[i] == #[trigger] s[i]);
        lemma_insert_sorted_bound(x, s.drop_last(), b);
        let r = insert_sorted(x, s.drop_last());
        assert(forall|i: int| 0 <= i < r.len() ==> #[trigger] insert_sorted(x, s)[i] == r[i]);
        assert(insert_sorted(x, s)[r.len() as int] == s.last());
        assert(change_le(s[s.len() - 1], b));
    }
}

/// Inserting into a sorted sequence keeps it sorted.
proof fn lemma_insert_sorted_sorted(x: ChangeV, s: Seq<ChangeV>)
    requires
        sorted_by_canon(s),
    ensures
        sorted_by_canon(insert_sorted(x, s)),
    decreases s.len(),
{
    if s.len() == 0 {
    } else if change_le(s.last(), x) {
        let r = s.push(x);
        assert forall|i: int, j: int|
            0 <= i < j < r.len() implies change_le(#[trigger] r[i], #[trigger] r[j]) by {
            if j < s.len() {
                assert(r[i] == s[i] && r[j] == s[j]);
            } else {
                assert(r[j] == x);
                if i < s.len() - 1 {
                    assert(r[i] == s[i]);
                    assert(change_le(s[i], s[s.len() - 1]));
                    lemma_lex_le_trans(
                        canon_change(s[i]),
                        canon_change(s.last()),
                        canon_change(x),
                    );
                } else {
                    assert(r[i] == s.last());
                }
            }
        }
    } else {
        assert(sorted_by_canon(s.drop_last())) by {
            assert(forall|i: int|
                0 <= i < s.len() - 1 ==> s.drop_last()[i] == #[trigger] s[i]);
        }
        assert(forall|i: int|
            0 <= i < s.len() - 1 ==> s.drop_last()[i] == #[trigger] s[i]);
        lemma_insert_sorted_sorted(x, s.drop_last());
        lemma_lex_le_total(canon_change(s.last()), canon_change(x));
        assert(change_le(x, s.last()));
        assert(forall|i: int|
            0 <= i < s.len() - 1 ==> change_le(#[trigger] s.drop_last()[i], s.last()));
        lemma_insert_sorted_bound(x, s.drop_last(), s.last());
        let p = insert_sorted(x, s.drop_last());
        let r = p.push(s.last());
        assert forall|i: int, j: int|
            0 <= i < j < r.len() implies change_le(#[trigger] r[i], #[trigger] r[j]) by {
            if j < p.len() {
                assert(r[i] == p[i] && r[j] == p[j]);
            } else {
                assert(r[j] == s.last());
                assert(r[i] == p[i]);
            }
        }
    }
}

/// The canonical sort produces a canonically sorted sequence.
pub proof fn lemma_sort_sorted(s: Seq<ChangeV>)
    ensures
        sorted_by_canon(sort_spec(s)),
    decreases s.len(),
{
    if s.len() > 0 {
        lemma_sort_sorted(s.drop_last());
        lemma_insert_sorted_sorted(s.last(), sort_spec(s.drop_last()));
    }
}

/// A sorted insert holds the inserted element and the old ones, exactly.
proof fn lemma_insert_sorted_multiset(x: ChangeV, s: Seq<ChangeV>)
    ensures
        insert_sorted(x, s).to_multiset() == s.to_multiset().insert(x),
    decreases s.len(),
{
    broadcast use vstd::seq_lib::group_to_multiset_ensures;

    if s.len() == 0 {
        assert(insert_sorted(x, s) =~= Seq::<ChangeV>::empty().push(x));
        assert(insert_sorted(x, s).to_multiset() =~= s.to_multiset().insert(x));
    } else if change_le(s.last(), x) {
        assert(s.push(x).to_multiset() =~= s.to_multiset().insert(x));
    } else {
        lemma_insert_sorted_multiset(x, s.drop_last());
        assert(s.drop_last().push(s.last()) =~= s);
        assert(insert_sorted(x, s.drop_last()).push(s.last()).to_multiset() =~= insert_sorted(
            x,
            s.drop_last(),
        ).to_multiset().insert(s.last()));
        assert(s.to_multiset() =~= s.drop_last().to_multiset().insert(s.last()));
        assert(insert_sorted(x, s).to_multiset() =~= s.drop_last().to_multiset().insert(
            x,
        ).insert(s.last()));
        assert(s.drop_last().to_multiset().insert(x).insert(s.last())
            =~= s.drop_last().to_multiset().insert(s.last()).insert(x));
    }
}

/// The canonical sort permutes its input: same changes, same counts.
pub proof fn lemma_sort_permutes(s: Seq<ChangeV>)
    ensures
        sort_spec(s).to_multiset() == s.to_multiset(),
    decreases s.len(),
{
    broadcast use vstd::seq_lib::group_to_multiset_ensures;

    if s.len() > 0 {
        lemma_sort_permutes(s.drop_last());
        lemma_insert_sorted_multiset(s.last(), sort_spec(s.drop_last()));
        assert(s.drop_last().push(s.last()) =~= s);
        assert(s.to_multiset() =~= s.drop_last().to_multiset().insert(s.last()));
    }
}

/// Sorting an already-sorted change sequence is a no-op.
pub proof fn lemma_sort_noop(s: Seq<ChangeV>)
    requires
        sorted_by_canon(s),
    ensures
        sort_spec(s) == s,
    decreases s.len(),
{
    if s.len() > 0 {
        assert(sorted_by_canon(s.drop_last())) by {
            assert(forall|i: int, j: int|
                0 <= i < j < s.len() - 1 ==> change_le(#[trigger] s.drop_last()[i], #[trigger] s
                    .drop_last()[j]));
        }
        lemma_sort_noop(s.drop_last());
        if s.len() == 1 {
            assert(insert_sorted(s.last(), s.drop_last()) =~= s);
        } else {
            assert(change_le(s.drop_last().last(), s.last()));
            assert(insert_sorted(s.last(), s.drop_last()) =~= s);
        }
    }
}

} // verus!
