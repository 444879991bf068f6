//! Verified core of a GFF3 annotation diff tool.
//!
//! Two record stores are compared into a change set (row additions and
//! removals with full snapshots, scalar field updates, attribute value
//! additions and removals); a change set can be re-applied to a store in a
//! fixed multi-stage order to reconstruct the other store.  A separate
//! reconciliation mode infers record correspondences through parent lineage
//! and feature type when identifiers were not preserved.

pub mod apply;
pub mod canon;
pub mod change;
pub mod diff;
pub mod errors;
pub mod laws;
pub mod record;
pub mod resolve;
pub mod store;
pub mod strings;

use vstd::prelude::*;
use crate::apply::{apply_changes, apply_spec};
use crate::canon::sort_spec;
use crate::change::{ChangeSet, RawChange};
use crate::diff::{diff_stores, diff_spec};
use crate::errors::GffError;
use crate::resolve::{apollo_diff, apollo_changes_spec, apollo_fail_count};
use crate::store::{RecordStore, store_wf};

verus! {

/// Whether the loaded stores are well-formed.
pub open spec fn cgff_wf(c: CompareGFF) -> bool {
    &&& match c.data1 {
        Some(d) => store_wf(d@),
        None => true,
    }
    &&& match c.data2 {
        Some(d) => store_wf(d@),
        None => true,
    }
}

/// A comparison of two record stores: the first and second loaded store,
/// and whether resolution issues are recorded in reconciliation output.
pub struct CompareGFF {
    pub data1: Option<RecordStore>,
    pub data2: Option<RecordStore>,
    pub record_issues: bool,
}

impl CompareGFF {
    /// A blank comparison: no stores loaded, issues not recorded.
    pub fn new() -> (r: Self)
        ensures
            r.data1 is None,
            r.data2 is None,
            !r.record_issues,
            cgff_wf(r),
    {
        CompareGFF { data1: None, data2: None, record_issues: false }
    }

    /// A comparison over two loaded stores.
    pub fn new_from_stores(data1: RecordStore, data2: RecordStore) -> (r: Self)
        requires
            store_wf(data1@),
            store_wf(data2@),
        ensures
            r.data1 == Some(data1),
            r.data2 == Some(data2),
            !r.record_issues,
            cgff_wf(r),
    {
        CompareGFF { data1: Some(data1), data2: Some(data2), record_issues: false }
    }

    /// Switches the option to record issues in reconciliation output.
    pub fn record_issues(&mut self, do_record: bool)
        ensures
            final(self).record_issues == do_record,
            final(self).data1 == old(self).data1,
            final(self).data2 == old(self).data2,
    {
        self.record_issues = do_record;
    }

    /// The diff between the two loaded stores: a forward pass over the
    /// first and a reverse pass over the second.
    pub fn diff(&self) -> (r: Result<ChangeSet, GffError>)
        requires
            cgff_wf(*self),
        ensures
            match (self.data1, self.data2) {
                (Some(d1), Some(d2)) => match r {
                    Ok(cs) => cs@.changes == diff_spec(d1@, d2@) && cs@.issues is None,
                    Err(_) => false,
                },
                _ => r == Err::<ChangeSet, GffError>(GffError::BothStoresRequired),
            },
    {
        match (&self.data1, &self.data2) {
            (Some(d1), Some(d2)) => Ok(ChangeSet { changes: diff_stores(d1, d2), issues: None }),
            _ => Err(GffError::BothStoresRequired),
        }
    }

    /// The reconciliation diff: the first store is the original, the
    /// second the modified ("Apollo-style") one.
    pub fn diff_apollo(&self) -> (r: Result<ChangeSet, GffError>)
        requires
            cgff_wf(*self),
        ensures
            match (self.data1, self.data2) {
                (Some(d1), Some(d2)) => match r {
                    Ok(cs) => cs@.changes == apollo_changes_spec(d1@, d2@, d2@) && (match cs@.issues {
                        Some(iss) => self.record_issues && iss.len() == apollo_fail_count(
                            d1@,
                            d2@,
                            d2@,
                        ),
                        None => !self.record_issues,
                    }),
                    Err(_) => false,
                },
                _ => r == Err::<ChangeSet, GffError>(GffError::BothStoresRequired),
            },
    {
        match (&self.data1, &self.data2) {
            (Some(d1), Some(d2)) => Ok(apollo_diff(d1, d2, self.record_issues)),
            _ => Err(GffError::BothStoresRequired),
        }
    }

    /// Sorts a comparison canonically; used wherever a deterministic
    /// change order is needed.
    pub fn sort_comparison(result: &mut ChangeSet)
        ensures
            final(result)@.changes == sort_spec(old(result)@.changes),
            final(result)@.issues == old(result)@.issues,
    {
        crate::canon::sort_comparison(result);
    }

    /// Applies a diff, in wire shape, to the first loaded store, in the
    /// six-stage order; mutations made before a failure are kept.
    pub fn apply_diff(&mut self, diff: &Vec<RawChange>) -> (r: Result<(), GffError>)
        requires
            cgff_wf(*old(self)),
        ensures
            match old(self).data1 {
                Some(d1) => {
                    let st = apply_spec(diff.deep_view(), d1@);
                    final(self).data1 is Some && final(self).data1.unwrap()@ == st.0 && (match r {
                        Ok(_) => st.1 is None,
                        Err(e) => st.1 == Some(e),
                    })
                },
                None => r == Err::<(), GffError>(GffError::BothStoresRequired) && final(self).data1
                    is None,
            },
            final(self).data2 == old(self).data2,
            final(self).record_issues == old(self).record_issues,
            cgff_wf(*final(self)),
    {
        let mut store = match self.data1.take() {
            None => {
                return Err(GffError::BothStoresRequired);
            },
            Some(s) => s,
        };
        let res = apply_changes(diff, &mut store);
        self.data1 = Some(store);
        res
    }
}

} // verus!
