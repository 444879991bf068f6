//! The record store: a keyed collection of records, loaded once from a
//! sequence of raw records and mutated in place only by patch application.

use vstd::prelude::*;
use crate::errors::GffError;
use crate::record::{Record, RecordV, record_wf, attr_first};
use crate::strings::{lemma_vec_deep_view_index, lemma_vec_deep_view_len};

verus! {

broadcast use lemma_vec_deep_view_index, lemma_vec_deep_view_len;

/// The view of a store: `(id, record)` pairs in insertion order.
pub type StoreV = Seq<(Seq<char>, RecordV)>;

/// One store entry.
#[derive(Debug, PartialEq, Eq)]
pub struct StoreEntry {
    pub id: String,
    pub rec: Record,
}

impl View for StoreEntry {
    type V = (Seq<char>, RecordV);

    open spec fn view(&self) -> (Seq<char>, RecordV) {
        (self.id@, self.rec@)
    }
}

impl DeepView for StoreEntry {
    type V = (Seq<char>, RecordV);

    open spec fn deep_view(&self) -> (Seq<char>, RecordV) {
        self.view()
    }
}

/// A keyed collection of records.  Ids are unique.
#[derive(Debug, PartialEq, Eq)]
pub struct RecordStore {
    pub entries: Vec<StoreEntry>,
}

impl View for RecordStore {
    type V = StoreV;

    open spec fn view(&self) -> StoreV {
        self.entries.deep_view()
    }
}

/// Well-formedness: ids unique, each record well-formed.
pub open spec fn store_wf(s: StoreV) -> bool {
    &&& forall|i: int, j: int| 0 <= i < j < s.len() ==> (#[trigger] s[i]).0 != (#[trigger] s[j]).0
    &&& forall|i: int| 0 <= i < s.len() ==> record_wf((#[trigger] s[i]).1)
}

/// Whether the store holds a record under `id`.
pub open spec fn store_has_id(s: StoreV, id: Seq<char>) -> bool {
    exists|i: int| 0 <= i < s.len() && (#[trigger] s[i]).0 == id
}

/// The index of the entry for `id` (meaningful when `store_has_id`).
pub open spec fn store_idx(s: StoreV, id: Seq<char>) -> int {
    choose|i: int| 0 <= i < s.len() && (#[trigger] s[i]).0 == id
}

/// The record under `id` (meaningful when `store_has_id`).
pub open spec fn store_rec(s: StoreV, id: Seq<char>) -> RecordV {
    s[store_idx(s, id)].1
}

/// The store without the entry for `id` (unchanged if absent).
pub open spec fn store_remove(s: StoreV, id: Seq<char>) -> StoreV {
    if store_has_id(s, id) {
        s.remove(store_idx(s, id))
    } else {
        s
    }
}

/// The store with the record under `id` replaced.
pub open spec fn store_update(s: StoreV, id: Seq<char>, r: RecordV) -> StoreV {
    s.update(store_idx(s, id), (id, r))
}

/// Under well-formedness, the entry index for a present id is unique.
pub proof fn lemma_store_idx(s: StoreV, id: Seq<char>, i: int)
    requires
        store_wf(s),
        0 <= i < s.len(),
        s[i].0 == id,
    ensures
        store_has_id(s, id),
        store_idx(s, id) == i,
{
    assert(store_has_id(s, id));
    let w = store_idx(s, id);
    assert(0 <= w < s.len() && s[w].0 == id);
    if w < i {
        assert(s[w].0 != s[i].0);
    } else if i < w {
        assert(s[i].0 != s[w].0);
    }
}

impl RecordStore {
    /// An empty store.
    pub fn new() -> (r: RecordStore)
        ensures
            r@ =~= Seq::<(Seq<char>, RecordV)>::empty(),
            store_wf(r@),
    {
        RecordStore { entries: Vec::new() }
    }

    /// How many records the store holds.
    pub fn len(&self) -> (n: usize)
        ensures
            n == self@.len(),
    {
        self.entries.len()
    }

    /// The index of the entry for `id`, scanning in insertion order.
    pub fn find(&self, id: &String) -> (r: Option<usize>)
        ensures
            match r {
                Some(i) => i < self@.len() && self@[i as int].0 == id@ && forall|j: int|
                    0 <= j < i ==> (#[trigger] self@[j]).0 != id@,
                None => !store_has_id(self@, id@),
            },
    {
        let mut i: usize = 0;
        while i < self.entries.len()
            invariant
                0 <= i <= self.entries.len(),
                forall|j: int| 0 <= j < i ==> (#[trigger] self@[j]).0 != id@,
            decreases self.entries.len() - i,
        {
            if self.entries[i].id.eq(id) {
                return Some(i);
            }
            i = i + 1;
        }
        None
    }

    /// Whether the store holds a record under `id`.
    pub fn contains(&self, id: &String) -> (r: bool)
        ensures
            r == store_has_id(self@, id@),
    {
        match self.find(id) {
            Some(_) => true,
            None => false,
        }
    }

    /// The record under `id`, if present.
    pub fn get(&self, id: &String) -> (r: Option<&Record>)
        requires
            store_wf(self@),
        ensures
            match r {
                Some(rec) => store_has_id(self@, id@) && rec@ == store_rec(self@, id@),
                None => !store_has_id(self@, id@),
            },
    {
        match self.find(id) {
            Some(i) => {
                proof {
                    lemma_store_idx(self@, id@, i as int);
                }
                Some(&self.entries[i].rec)
            },
            None => None,
        }
    }

    /// Removes the entry for `id` if present; never errs.
    pub fn remove_id(&mut self, id: &String)
        requires
            store_wf(old(self)@),
        ensures
            final(self)@ == store_remove(old(self)@, id@),
            store_wf(final(self)@),
    {
        let ghost pre = self@;
        match self.find(id) {
            Some(i) => {
                proof {
                    lemma_store_idx(pre, id@, i as int);
                }
                self.entries.remove(i);
                proof {
                    assert(self@ =~= pre.remove(i as int)) by {
                        assert(forall|x: int|
                            0 <= x < i ==> #[trigger] self.entries@[x]@ == pre[x]);
                        assert(forall|x: int|
                            i <= x < self.entries@.len() ==> #[trigger] self.entries@[x]@ == pre[x
                                + 1]);
                    }
                    assert(store_wf(self@)) by {
                        assert(forall|x: int|
                            0 <= x < self@.len() ==> #[trigger] self@[x] == pre.remove(i as int)[
                            x]);
                    }
                }
            },
            None => {},
        }
    }

    /// Appends an entry for an id the store does not hold.
    pub fn insert_absent(&mut self, id: String, rec: Record)
        requires
            store_wf(old(self)@),
            !store_has_id(old(self)@, id@),
            record_wf(rec@),
        ensures
            final(self)@ == old(self)@.push((id@, rec@)),
            store_wf(final(self)@),
    {
        let ghost pre = self@;
        self.entries.push(StoreEntry { id, rec });
        proof {
            assert(self@ =~= pre.push((id@, rec@))) by {
                assert(forall|x: int| 0 <= x < pre.len() ==> #[trigger] self@[x] == pre[x]);
                assert(self.entries@[pre.len() as int]@ == (id@, rec@));
            }
            assert forall|x: int, y: int|
                0 <= x < y < self@.len() implies (#[trigger] self@[x]).0 != (
            #[trigger] self@[y]).0 by {
                if y == pre.len() {
                    assert(!store_has_id(pre, id@));
                    assert(pre[x].0 != id@);
                }
            }
        }
    }
}

/// What loading builds from a sequence of raw records: records without an
/// `ID` attribute are dropped, a second record under an already-present id
/// is dropped (first occurrence wins).
pub open spec fn load_spec(recs: Seq<RecordV>) -> StoreV
    decreases recs.len(),
{
    if recs.len() == 0 {
        Seq::empty()
    } else {
        let s = load_spec(recs.drop_last());
        let r = recs.last();
        match attr_first(r.attrs, "ID"@) {
            Some(id) => if store_has_id(s, id) {
                s
            } else {
                s.push((id, r))
            },
            None => s,
        }
    }
}

/// Builds a store from parsed records.  Fails when no eligible record
/// remains; collisions on an id keep the first occurrence and are reported
/// in the returned log.
pub fn load_records(recs: Vec<Record>) -> (r: Result<(RecordStore, Vec<String>), GffError>)
    requires
        forall|i: int| 0 <= i < recs@.len() ==> record_wf(#[trigger] recs.deep_view()[i]),
    ensures
        match r {
            Ok(p) => p.0@ == load_spec(recs.deep_view()) && store_wf(p.0@) && p.0@.len() > 0,
            Err(e) => e == GffError::EmptyOrInvalidInput && load_spec(recs.deep_view()).len() == 0,
        },
{
    let mut store = RecordStore::new();
    let mut log: Vec<String> = Vec::new();
    let mut i: usize = 0;
    while i < recs.len()
        invariant
            0 <= i <= recs@.len(),
            store@ == load_spec(recs.deep_view().take(i as int)),
            store_wf(store@),
            forall|x: int| 0 <= x < recs@.len() ==> record_wf(#[trigger] recs.deep_view()[x]),
        decreases recs.len() - i,
    {
        let ghost pre = store@;
        let rec = &recs[i];
        proof {
            assert(recs.deep_view().take(i + 1).drop_last() =~= recs.deep_view().take(i as int));
            assert(recs.deep_view().take(i + 1).last() == recs.deep_view()[i as int]);
            assert(rec@ == recs.deep_view()[i as int]);
        }
        let id_lit = String::from_str("ID");
        match rec.attributes.get_first(&id_lit) {
            Some(id) => {
                if store.contains(id) {
                    let mut msg = String::from_str("duplicate id dropped: ");
                    msg.append(id.as_str());
                    log.push(msg);
                } else {
                    let id_owned = id.clone();
                    let copy = rec.duplicate();
                    store.insert_absent(id_owned, copy);
                }
            },
            None => {},
        }
        i = i + 1;
    }
    proof {
        assert(recs.deep_view().take(recs@.len() as int) =~= recs.deep_view());
    }
    if store.len() == 0 {
        Err(GffError::EmptyOrInvalidInput)
    } else {
        Ok((store, log))
    }
}

} // verus!
