//! Tests of patch application, the diff/apply round trip, and
//! reconciliation.

use gff_diff::change::{changes_to_raw, Change, RawChange, RawSnapshot};
use gff_diff::errors::GffError;
use gff_diff::record::{Attrs, Record};
use gff_diff::resolve::root_parent_of;
use gff_diff::store::{load_records, RecordStore, StoreEntry};
use gff_diff::CompareGFF;

fn attrs_of(pairs: &[(&str, &[&str])]) -> Attrs {
    let mut a = Attrs::new();
    for (k, vs) in pairs {
        for v in vs.iter() {
            a.insert(k.to_string(), v.to_string());
        }
    }
    a
}

fn record_of(seqname: &str, feature_type: &str, start: u64, end: u64, attrs: &[(&str, &[&str])]) -> Record {
    Record {
        seqname: seqname.to_string(),
        source: "test".to_string(),
        feature_type: feature_type.to_string(),
        start,
        end,
        score: ".".to_string(),
        strand: "+".to_string(),
        frame: ".".to_string(),
        attributes: attrs_of(attrs),
    }
}

fn store_of(recs: Vec<Record>) -> RecordStore {
    load_records(recs).unwrap().0
}

fn clone_store(s: &RecordStore) -> RecordStore {
    let mut entries = Vec::new();
    for e in &s.entries {
        entries.push(StoreEntry { id: e.id.clone(), rec: e.rec.duplicate() });
    }
    RecordStore { entries }
}

fn raw(what: &str, action: &str, id: Option<&str>, key: Option<&str>, value: Option<&str>) -> RawChange {
    RawChange {
        what: Some(what.to_string()),
        action: Some(action.to_string()),
        id: id.map(|s| s.to_string()),
        key: key.map(|s| s.to_string()),
        value: value.map(|s| s.to_string()),
        snapshot: None,
    }
}

#[test]
fn round_trip_reconstructs_second_store() {
    let a = store_of(vec![
        record_of("chr1", "gene", 100, 200, &[("ID", &["gene1"]), ("Note", &["old", "keep"])]),
        record_of("chr1", "exon", 120, 180, &[("ID", &["exon1"]), ("Parent", &["gene1"])]),
        record_of("chr2", "gene", 5, 9, &[("ID", &["lost"])]),
    ]);
    let b = store_of(vec![
        record_of("chr1", "gene", 100, 250, &[("ID", &["gene1"]), ("Note", &["new", "keep"])]),
        record_of("chr1", "exon", 120, 180, &[("ID", &["exon1"]), ("Parent", &["gene1"])]),
        record_of("chr3", "mRNA", 1, 4, &[("ID", &["fresh"]), ("Name", &["n1"])]),
    ]);
    let mut cg = CompareGFF::new_from_stores(clone_store(&a), clone_store(&b));
    let cs = cg.diff().unwrap();
    let raw_changes = changes_to_raw(&cs.changes);
    cg.apply_diff(&raw_changes).unwrap();
    let result = cg.data1.unwrap();
    // the reconstructed store and the second store diff to nothing, in
    // both directions
    let check =
        CompareGFF::new_from_stores(clone_store(&result), clone_store(&b)).diff().unwrap();
    assert!(check.changes.is_empty(), "leftover changes: {:?}", check.changes);
    let check_rev = CompareGFF::new_from_stores(b, result).diff().unwrap();
    assert!(check_rev.changes.is_empty());
}

#[test]
fn unknown_id_aborts_but_keeps_earlier_stages() {
    let a = store_of(vec![
        record_of("chr1", "gene", 1, 2, &[("ID", &["x"])]),
        record_of("chr1", "gene", 3, 4, &[("ID", &["y"])]),
    ]);
    let mut cg = CompareGFF::new_from_stores(a, store_of(vec![record_of("c", "g", 1, 2, &[("ID", &["z"])])]));
    let changes = vec![
        raw("row", "remove", Some("x"), None, None),
        raw("row", "update", Some("absent"), Some("end"), Some("9")),
    ];
    assert_eq!(cg.apply_diff(&changes), Err(GffError::UnknownId));
    // the removal from the earlier stage persists
    let store = cg.data1.unwrap();
    assert!(!store.contains(&"x".to_string()));
    assert!(store.contains(&"y".to_string()));
}

#[test]
fn apply_error_kinds() {
    let base = || store_of(vec![record_of("chr1", "gene", 1, 2, &[("ID", &["x"]), ("Note", &["v"])])]);
    let b = store_of(vec![record_of("c", "g", 1, 2, &[("ID", &["z"])])]);

    // a change object without its id
    let mut cg = CompareGFF::new_from_stores(base(), clone_store(&b));
    assert_eq!(
        cg.apply_diff(&vec![raw("row", "update", None, Some("end"), Some("9"))]),
        Err(GffError::MissingField)
    );

    // an unknown field name
    let mut cg = CompareGFF::new_from_stores(base(), clone_store(&b));
    assert_eq!(
        cg.apply_diff(&vec![raw("row", "update", Some("x"), Some("width"), Some("9"))]),
        Err(GffError::MissingField)
    );

    // a numeric field that does not parse
    let mut cg = CompareGFF::new_from_stores(base(), clone_store(&b));
    assert_eq!(
        cg.apply_diff(&vec![raw("row", "update", Some("x"), Some("start"), Some("abc"))]),
        Err(GffError::MalformedNumericField)
    );

    // an attribute update is not a recognized action
    let mut cg = CompareGFF::new_from_stores(base(), clone_store(&b));
    assert_eq!(
        cg.apply_diff(&vec![raw("attribute", "update", Some("x"), Some("Note"), Some("w"))]),
        Err(GffError::UnrecognizedAction)
    );

    // removing an attribute pair the record does not hold
    let mut cg = CompareGFF::new_from_stores(base(), clone_store(&b));
    assert_eq!(
        cg.apply_diff(&vec![raw("attribute", "remove", Some("x"), Some("Note"), Some("zz"))]),
        Err(GffError::MissingAttribute)
    );

    // applying with no first store loaded
    let mut cg = CompareGFF::new();
    assert_eq!(cg.apply_diff(&Vec::new()), Err(GffError::BothStoresRequired));
}

#[test]
fn row_addition_reconstructs_snapshot_and_respects_existing() {
    let snap_rec = record_of("chr9", "exon", 42, 99, &[("ID", &["n1"]), ("Note", &["a", "b"])]);
    let snapshot = gff_diff::change::snapshot_of_record(&snap_rec);
    let add = RawChange {
        what: Some("row".to_string()),
        action: Some("add".to_string()),
        id: Some("n1".to_string()),
        key: None,
        value: None,
        snapshot: Some(snapshot),
    };
    let a = store_of(vec![record_of("chr1", "gene", 1, 2, &[("ID", &["x"])])]);
    let mut cg = CompareGFF::new_from_stores(a, store_of(vec![record_of("c", "g", 1, 2, &[("ID", &["z"])])]));
    cg.apply_diff(&vec![add]).unwrap();
    let store = cg.data1.unwrap();
    let got = store.get(&"n1".to_string()).unwrap();
    assert_eq!(*got, snap_rec);

    // adding an id that already exists leaves the record untouched
    let snap2 = gff_diff::change::snapshot_of_record(&record_of(
        "other",
        "gene",
        7,
        8,
        &[("ID", &["x"])],
    ));
    let add2 = RawChange {
        what: Some("row".to_string()),
        action: Some("add".to_string()),
        id: Some("x".to_string()),
        key: None,
        value: None,
        snapshot: Some(snap2),
    };
    let mut cg2 = CompareGFF::new_from_stores(store, store_of(vec![record_of("c", "g", 1, 2, &[("ID", &["z"])])]));
    cg2.apply_diff(&vec![add2]).unwrap();
    let store2 = cg2.data1.unwrap();
    assert_eq!(store2.get(&"x".to_string()).unwrap().seqname, "chr1".to_string());
}

#[test]
fn missing_snapshot_fields_default() {
    let add = RawChange {
        what: Some("row".to_string()),
        action: Some("add".to_string()),
        id: Some("fresh".to_string()),
        key: None,
        value: None,
        snapshot: Some(RawSnapshot {
            seqname: Some("chrZ".to_string()),
            source: None,
            feature_type: None,
            start: None,
            end: None,
            score: None,
            strand: None,
            frame: None,
            attributes: Attrs::new(),
        }),
    };
    let a = store_of(vec![record_of("chr1", "gene", 1, 2, &[("ID", &["x"])])]);
    let mut cg = CompareGFF::new_from_stores(a, store_of(vec![record_of("c", "g", 1, 2, &[("ID", &["z"])])]));
    cg.apply_diff(&vec![add]).unwrap();
    let store = cg.data1.unwrap();
    let got = store.get(&"fresh".to_string()).unwrap();
    assert_eq!(got.seqname, "chrZ".to_string());
    assert_eq!(got.source, "".to_string());
    assert_eq!(got.start, 0);
    assert_eq!(got.score, ".".to_string());
}

#[test]
fn row_removal_of_missing_id_is_a_no_op() {
    let a = store_of(vec![record_of("chr1", "gene", 1, 2, &[("ID", &["x"])])]);
    let mut cg = CompareGFF::new_from_stores(a, store_of(vec![record_of("c", "g", 1, 2, &[("ID", &["z"])])]));
    cg.apply_diff(&vec![raw("row", "remove", Some("nobody"), None, None)]).unwrap();
    assert_eq!(cg.data1.unwrap().entries.len(), 1);
}

#[test]
fn duplicate_attribute_values_may_accumulate() {
    // additions insert without deduplication
    let a = store_of(vec![record_of("chr1", "gene", 1, 2, &[("ID", &["x"]), ("Note", &["v"])])]);
    let mut cg = CompareGFF::new_from_stores(a, store_of(vec![record_of("c", "g", 1, 2, &[("ID", &["z"])])]));
    cg.apply_diff(&vec![
        raw("attribute", "add", Some("x"), Some("Note"), Some("v")),
        raw("attribute", "add", Some("x"), Some("Tag"), Some("t")),
    ])
    .unwrap();
    let store = cg.data1.unwrap();
    let rec = store.get(&"x".to_string()).unwrap();
    let notes = rec.attributes.get_vec(&"Note".to_string()).unwrap();
    assert_eq!(notes, &vec!["v".to_string(), "v".to_string()]);
    let tags = rec.attributes.get_vec(&"Tag".to_string()).unwrap();
    assert_eq!(tags, &vec!["t".to_string()]);
}

#[test]
fn attribute_removal_drops_one_occurrence() {
    let a = store_of(vec![record_of("chr1", "gene", 1, 2, &[("ID", &["x"]), ("Note", &["v", "v", "w"])])]);
    let mut cg = CompareGFF::new_from_stores(a, store_of(vec![record_of("c", "g", 1, 2, &[("ID", &["z"])])]));
    cg.apply_diff(&vec![raw("attribute", "remove", Some("x"), Some("Note"), Some("v"))]).unwrap();
    let store = cg.data1.unwrap();
    let rec = store.get(&"x".to_string()).unwrap();
    let notes = rec.attributes.get_vec(&"Note".to_string()).unwrap();
    assert_eq!(notes, &vec!["v".to_string(), "w".to_string()]);
}

#[test]
fn lineage_cycle_returns_none() {
    let store = store_of(vec![
        record_of("chr1", "gene", 1, 2, &[("ID", &["A"]), ("Parent", &["B"])]),
        record_of("chr1", "gene", 3, 4, &[("ID", &["B"]), ("Parent", &["A"])]),
    ]);
    assert_eq!(root_parent_of(&store, &"A".to_string()), None);
    assert_eq!(root_parent_of(&store, &"B".to_string()), None);
}

#[test]
fn lineage_chain_finds_root() {
    let store = store_of(vec![
        record_of("chr1", "gene", 1, 9, &[("ID", &["root1"])]),
        record_of("chr1", "mRNA", 1, 9, &[("ID", &["m1"]), ("Parent", &["root1"])]),
        record_of("chr1", "exon", 2, 3, &[("ID", &["e1"]), ("Parent", &["m1"])]),
    ]);
    assert_eq!(root_parent_of(&store, &"e1".to_string()), Some("root1".to_string()));
    assert_eq!(root_parent_of(&store, &"root1".to_string()), Some("root1".to_string()));
    assert_eq!(root_parent_of(&store, &"ghost".to_string()), None);
}

#[test]
fn unresolved_orig_id_logs_one_issue() {
    let original = store_of(vec![record_of("chr1", "gene", 1, 9, &[("ID", &["gene0"])])]);
    let modified = store_of(vec![record_of(
        "chr1",
        "gene",
        1,
        9,
        &[("ID", &["geneX"]), ("orig_id", &["gene1"])],
    )]);
    let mut cg = CompareGFF::new_from_stores(original, modified);
    cg.record_issues(true);
    let cs = cg.diff_apollo().unwrap();
    assert!(cs.changes.is_empty());
    assert_eq!(cs.issues.unwrap().len(), 1);
}

#[test]
fn reconciliation_resolves_by_lineage_and_type() {
    // Original store: a gene with one mRNA child.
    let original = store_of(vec![
        record_of("chr1", "gene", 1, 100, &[("ID", &["geneX"])]),
        record_of("chr1", "mRNA", 10, 90, &[("ID", &["mrnaX"]), ("Parent", &["geneX"])]),
    ]);
    // Modified store: renamed ids; the gene carries the orig_id hint, the
    // mRNA is resolved through its root parent and feature type, and its
    // end moved.
    let modified = store_of(vec![
        record_of("chr1", "gene", 1, 100, &[("ID", &["geneY"]), ("orig_id", &["geneX"])]),
        record_of("chr1", "mRNA", 10, 95, &[("ID", &["mrnaY"]), ("Parent", &["geneY"])]),
    ]);
    let mut cg = CompareGFF::new_from_stores(original, modified);
    cg.record_issues(true);
    let cs = cg.diff_apollo().unwrap();
    assert_eq!(cs.issues.unwrap().len(), 0);
    let upd = Change::RowFieldUpdated {
        id: "mrnaX".to_string(),
        field: gff_diff::record::FieldKey::End,
        value: "95".to_string(),
    };
    assert!(cs.changes.contains(&upd), "changes: {:?}", cs.changes);
}

#[test]
fn reconciliation_ignores_blanked_source() {
    let original = store_of(vec![record_of("chr1", "gene", 1, 100, &[("ID", &["geneX"])])]);
    let mut m = record_of("chr1", "gene", 1, 120, &[("ID", &["geneY"]), ("orig_id", &["geneX"])]);
    m.source = ".".to_string();
    let modified = store_of(vec![m]);
    let cg = CompareGFF::new_from_stores(original, modified);
    let cs = cg.diff_apollo().unwrap();
    // the blanked source is not reported; the moved end is
    assert_eq!(
        cs.changes,
        vec![Change::RowFieldUpdated {
            id: "geneX".to_string(),
            field: gff_diff::record::FieldKey::End,
            value: "120".to_string(),
        }]
    );
    assert!(cs.issues.is_none());
}
