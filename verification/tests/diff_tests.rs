//! Tests of the diff engine, attribute comparison and canonicalization.

use gff_diff::change::{Change, ChangeSet};
use gff_diff::diff::{compare_attributes, CompareMode};
use gff_diff::record::{Attrs, FieldKey, Record};
use gff_diff::store::{load_records, RecordStore, StoreEntry};
use gff_diff::strings::{parse_u64, strand_norm, u64_to_string};
use gff_diff::CompareGFF;

fn attrs_of(pairs: &[(&str, &[&str])]) -> Attrs {
    let mut a = Attrs::new();
    for (k, vs) in pairs {
        for v in vs.iter() {
            a.insert(k.to_string(), v.to_string());
        }
    }
    a
}

fn record_of(seqname: &str, feature_type: &str, start: u64, end: u64, attrs: &[(&str, &[&str])]) -> Record {
    Record {
        seqname: seqname.to_string(),
        source: "test".to_string(),
        feature_type: feature_type.to_string(),
        start,
        end,
        score: ".".to_string(),
        strand: "+".to_string(),
        frame: ".".to_string(),
        attributes: attrs_of(attrs),
    }
}

fn store_of(recs: Vec<Record>) -> RecordStore {
    load_records(recs).unwrap().0
}

fn clone_store(s: &RecordStore) -> RecordStore {
    let mut entries = Vec::new();
    for e in &s.entries {
        entries.push(StoreEntry { id: e.id.clone(), rec: e.rec.duplicate() });
    }
    RecordStore { entries }
}

#[test]
fn gff_diff_attribute_added() {
    let id: String = "the_id".to_string();
    let key: String = "the_key".to_string();
    let values = vec!["value1".to_string(), "value3".to_string()];
    let attrs = attrs_of(&[("the_key", &["value1", "value2", "value3"])]);
    let mut result: Vec<Change> = Vec::new();

    compare_attributes(&id, &key, &values, &attrs, CompareMode::Forward, &mut result);

    let expected = vec![Change::AttributeAdded {
        id: "the_id".to_string(),
        key: "the_key".to_string(),
        value: "value2".to_string(),
    }];
    assert_eq!(result, expected);
}

#[test]
fn lib_attribute_added() {
    let id: String = "the_id".to_string();
    let key: String = "the_key".to_string();
    let values = vec!["value1".to_string(), "value3".to_string()];
    let attrs = attrs_of(&[("the_key", &["value1", "value2", "value3"])]);
    let mut result: Vec<Change> = Vec::new();

    compare_attributes(&id, &key, &values, &attrs, CompareMode::Forward, &mut result);

    assert_eq!(
        result,
        vec![Change::AttributeAdded {
            id: "the_id".to_string(),
            key: "the_key".to_string(),
            value: "value2".to_string(),
        }]
    );
}

#[test]
fn field_update_only() {
    // One record sharing its id, differing only in `end`.
    let a = store_of(vec![record_of("chr1", "gene", 100, 200, &[("ID", &["gene1"])])]);
    let b = store_of(vec![record_of("chr1", "gene", 100, 250, &[("ID", &["gene1"])])]);
    let cg = CompareGFF::new_from_stores(a, b);
    let cs = cg.diff().unwrap();
    assert_eq!(
        cs.changes,
        vec![Change::RowFieldUpdated {
            id: "gene1".to_string(),
            field: FieldKey::End,
            value: "250".to_string(),
        }]
    );
    assert!(cs.issues.is_none());
}

#[test]
fn attribute_value_replaced() {
    let a = store_of(vec![record_of("chr1", "exon", 1, 2, &[("ID", &["exon1"]), ("Note", &["old"])])]);
    let b = store_of(vec![record_of("chr1", "exon", 1, 2, &[("ID", &["exon1"]), ("Note", &["new"])])]);
    let cg = CompareGFF::new_from_stores(a, b);
    let cs = cg.diff().unwrap();
    let removed = Change::AttributeRemoved {
        id: "exon1".to_string(),
        key: "Note".to_string(),
        value: "old".to_string(),
    };
    let added = Change::AttributeAdded {
        id: "exon1".to_string(),
        key: "Note".to_string(),
        value: "new".to_string(),
    };
    assert!(cs.changes.contains(&removed));
    assert!(cs.changes.contains(&added));
    // never an attribute update, and no row-level change
    for c in &cs.changes {
        assert!(matches!(c, Change::AttributeAdded { .. } | Change::AttributeRemoved { .. }));
    }
}

#[test]
fn row_added_and_removed_symmetrically() {
    let a = store_of(vec![record_of("chr1", "gene", 1, 9, &[("ID", &["gene1"])])]);
    let b = store_of(vec![
        record_of("chr1", "gene", 1, 9, &[("ID", &["gene1"])]),
        record_of("chr1", "exon", 3, 7, &[("ID", &["exon9"])]),
    ]);
    let fwd = CompareGFF::new_from_stores(clone_store(&a), clone_store(&b)).diff().unwrap();
    let rev = CompareGFF::new_from_stores(b, a).diff().unwrap();
    assert_eq!(fwd.changes.len(), 1);
    assert_eq!(rev.changes.len(), 1);
    match (&fwd.changes[0], &rev.changes[0]) {
        (
            Change::RowAdded { id: ia, snapshot: sa },
            Change::RowRemoved { id: ir, snapshot: sr },
        ) => {
            assert_eq!(ia, "exon9");
            assert_eq!(ir, "exon9");
            assert_eq!(sa, sr);
        },
        other => panic!("unexpected changes: {:?}", other),
    }
}

#[test]
fn attribute_changes_are_symmetric() {
    let a = store_of(vec![record_of(
        "chr1",
        "gene",
        1,
        2,
        &[("ID", &["g"]), ("Note", &["old"]), ("Tag", &["only_a"])],
    )]);
    let b = store_of(vec![record_of(
        "chr1",
        "gene",
        1,
        2,
        &[("ID", &["g"]), ("Note", &["new"])],
    )]);
    let fwd = CompareGFF::new_from_stores(clone_store(&a), clone_store(&b)).diff().unwrap();
    let rev = CompareGFF::new_from_stores(b, a).diff().unwrap();
    // every addition one way is the same removal the other way
    for c in &fwd.changes {
        match c {
            Change::AttributeAdded { id, key, value } => {
                assert!(rev.changes.contains(&Change::AttributeRemoved {
                    id: id.clone(),
                    key: key.clone(),
                    value: value.clone(),
                }));
            },
            Change::AttributeRemoved { id, key, value } => {
                assert!(rev.changes.contains(&Change::AttributeAdded {
                    id: id.clone(),
                    key: key.clone(),
                    value: value.clone(),
                }));
            },
            other => panic!("unexpected change: {:?}", other),
        }
    }
}

#[test]
fn strand_compared_by_symbol() {
    // "?" and "." both denote "no strand": no change is emitted.
    let mut r1 = record_of("chr1", "gene", 1, 2, &[("ID", &["g"])]);
    r1.strand = "?".to_string();
    let mut r2 = record_of("chr1", "gene", 1, 2, &[("ID", &["g"])]);
    r2.strand = ".".to_string();
    let cs = CompareGFF::new_from_stores(store_of(vec![r1]), store_of(vec![r2])).diff().unwrap();
    assert!(cs.changes.is_empty());

    // "+" vs "?" differs; the update carries the normalized symbol ".".
    let mut r3 = record_of("chr1", "gene", 1, 2, &[("ID", &["g"])]);
    r3.strand = "+".to_string();
    let mut r4 = record_of("chr1", "gene", 1, 2, &[("ID", &["g"])]);
    r4.strand = "?".to_string();
    let cs2 = CompareGFF::new_from_stores(store_of(vec![r3]), store_of(vec![r4])).diff().unwrap();
    assert_eq!(
        cs2.changes,
        vec![Change::RowFieldUpdated {
            id: "g".to_string(),
            field: FieldKey::Strand,
            value: ".".to_string(),
        }]
    );
    assert_eq!(strand_norm(&"?".to_string()), ".".to_string());
}

#[test]
fn canonical_sort_is_idempotent() {
    let a = store_of(vec![
        record_of("chr1", "gene", 5, 9, &[("ID", &["g1"]), ("Note", &["x", "y"])]),
        record_of("chr2", "exon", 1, 2, &[("ID", &["e1"])]),
    ]);
    let b = store_of(vec![
        record_of("chr1", "gene", 6, 9, &[("ID", &["g1"]), ("Note", &["z"])]),
        record_of("chr3", "exon", 1, 2, &[("ID", &["e2"])]),
    ]);
    let cg = CompareGFF::new_from_stores(a, b);
    let mut cs = cg.diff().unwrap();
    CompareGFF::sort_comparison(&mut cs);
    let once: Vec<Change> = cs.changes.iter().map(|c| c.duplicate()).collect();
    CompareGFF::sort_comparison(&mut cs);
    assert_eq!(cs.changes, once);
}

#[test]
fn canonical_sort_orders_changes() {
    let upd = Change::RowFieldUpdated {
        id: "z".to_string(),
        field: FieldKey::End,
        value: "9".to_string(),
    };
    let add = Change::AttributeAdded {
        id: "a".to_string(),
        key: "K".to_string(),
        value: "v".to_string(),
    };
    let mut cs = ChangeSet { changes: vec![upd, add], issues: None };
    CompareGFF::sort_comparison(&mut cs);
    // "add|attribute|..." sorts before "update|row|..."
    assert!(matches!(cs.changes[0], Change::AttributeAdded { .. }));
    assert!(matches!(cs.changes[1], Change::RowFieldUpdated { .. }));
}

#[test]
fn numbers_render_and_parse() {
    assert_eq!(u64_to_string(0), "0".to_string());
    assert_eq!(u64_to_string(250), "250".to_string());
    assert_eq!(u64_to_string(u64::MAX), "18446744073709551615".to_string());
    assert_eq!(parse_u64("0"), Some(0));
    assert_eq!(parse_u64("18446744073709551615"), Some(u64::MAX));
    assert_eq!(parse_u64("18446744073709551616"), None);
    assert_eq!(parse_u64(""), None);
    assert_eq!(parse_u64("12x"), None);
    assert_eq!(parse_u64("007"), Some(7));
}

#[test]
fn load_keeps_first_occurrence() {
    let first = record_of("chr1", "gene", 1, 2, &[("ID", &["dup"])]);
    let second = record_of("chr1", "gene", 5, 6, &[("ID", &["dup"])]);
    let no_id = record_of("chr1", "gene", 7, 8, &[("Name", &["anon"])]);
    let (store, log) = load_records(vec![first, second, no_id]).unwrap();
    assert_eq!(store.entries.len(), 1);
    assert_eq!(store.entries[0].rec.start, 1);
    assert_eq!(log.len(), 1);
}

#[test]
fn load_rejects_empty_input() {
    let no_id = record_of("chr1", "gene", 7, 8, &[("Name", &["anon"])]);
    assert_eq!(
        load_records(vec![no_id]).err(),
        Some(gff_diff::errors::GffError::EmptyOrInvalidInput)
    );
    assert_eq!(
        load_records(Vec::new()).err(),
        Some(gff_diff::errors::GffError::EmptyOrInvalidInput)
    );
}

#[test]
fn diff_requires_both_stores() {
    let cg = CompareGFF::new();
    assert_eq!(cg.diff().err(), Some(gff_diff::errors::GffError::BothStoresRequired));
    assert_eq!(cg.diff_apollo().err(), Some(gff_diff::errors::GffError::BothStoresRequired));
}
