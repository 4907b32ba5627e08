use mdsync::pipeline::{sync_records, MemStore, SyncPipeline};
use mdsync::table::{parse_table, Record};

fn doc(lines: &[&str]) -> Vec<String> {
    lines.iter().map(|l| l.to_string()).collect()
}

fn fruits() -> Vec<String> {
    doc(&[
        "| Name | Color |",
        "|---|---|",
        "| Apple | Red |",
        "| Plum | Blue |",
        "| Pear | Green |",
    ])
}

#[test]
fn round_trip_unique_keys() {
    let records = parse_table(&fruits(), &"Name".to_string()).unwrap();
    assert_eq!(records.len(), 3);

    let mut store = MemStore::new();
    let summary = sync_records(&records, &mut store);

    assert_eq!(summary.written, 3);
    assert_eq!(summary.failed, 0);
    assert_eq!(store.len(), 3);
    assert_eq!(
        store.get(&"Apple".to_string()).unwrap(),
        &vec![
            ("Name".to_string(), "Apple".to_string()),
            ("Color".to_string(), "Red".to_string()),
        ]
    );
    assert_eq!(
        store.get(&"Plum".to_string()).unwrap(),
        &vec![
            ("Name".to_string(), "Plum".to_string()),
            ("Color".to_string(), "Blue".to_string()),
        ]
    );
    assert_eq!(
        store.get(&"Pear".to_string()).unwrap(),
        &vec![
            ("Name".to_string(), "Pear".to_string()),
            ("Color".to_string(), "Green".to_string()),
        ]
    );
    assert!(store.get(&"Quince".to_string()).is_none());
}

#[test]
fn two_runs_against_cleared_stores_agree() {
    let records = parse_table(&fruits(), &"Name".to_string()).unwrap();

    let mut first = MemStore::new();
    sync_records(&records, &mut first);
    let mut second = MemStore::new();
    sync_records(&records, &mut second);

    assert_eq!(first.len(), second.len());
    for rec in &records {
        assert_eq!(first.get(&rec.key), second.get(&rec.key));
    }
}

#[test]
fn rerunning_the_same_records_changes_nothing() {
    let records = parse_table(&fruits(), &"Name".to_string()).unwrap();

    let mut store = MemStore::new();
    sync_records(&records, &mut store);
    let after_once: Vec<Vec<(String, String)>> =
        records.iter().map(|r| store.get(&r.key).unwrap().clone()).collect();

    let summary = sync_records(&records, &mut store);
    assert_eq!(summary.written, 3);
    assert_eq!(store.len(), 3);
    for (rec, before) in records.iter().zip(after_once.iter()) {
        assert_eq!(store.get(&rec.key).unwrap(), before);
    }
}

#[test]
fn one_failed_write_is_counted_not_fatal() {
    let n = 5;
    let failing = 2;
    let mut pipeline = SyncPipeline::new();
    for i in 0..n {
        pipeline.record_outcome(i != failing);
    }
    let summary = pipeline.summary();
    assert_eq!(summary.written, n - 1);
    assert_eq!(summary.failed, 1);
}

#[test]
fn all_writes_failing_is_a_reportable_outcome() {
    let mut pipeline = SyncPipeline::new();
    for _ in 0..4 {
        pipeline.record_outcome(false);
    }
    let summary = pipeline.summary();
    assert_eq!(summary.written, 0);
    assert_eq!(summary.failed, 4);
}

#[test]
fn empty_run_reports_zero_counts() {
    let pipeline = SyncPipeline::new();
    let summary = pipeline.summary();
    assert_eq!(summary.written, 0);
    assert_eq!(summary.failed, 0);
}

#[test]
fn duplicate_key_last_write_wins() {
    let records = vec![
        Record {
            key: "k".to_string(),
            fields: vec![("V".to_string(), "old".to_string())],
        },
        Record {
            key: "k".to_string(),
            fields: vec![("V".to_string(), "new".to_string())],
        },
    ];
    let mut store = MemStore::new();
    let summary = sync_records(&records, &mut store);
    assert_eq!(summary.written, 2);
    assert_eq!(store.len(), 1);
    assert_eq!(
        store.get(&"k".to_string()).unwrap(),
        &vec![("V".to_string(), "new".to_string())]
    );
}

#[test]
fn write_replaces_all_fields_under_the_key() {
    let mut store = MemStore::new();
    store.write(
        &"k".to_string(),
        &vec![
            ("A".to_string(), "1".to_string()),
            ("B".to_string(), "2".to_string()),
        ],
    );
    store.write(&"k".to_string(), &vec![("C".to_string(), "3".to_string())]);
    assert_eq!(store.len(), 1);
    assert_eq!(
        store.get(&"k".to_string()).unwrap(),
        &vec![("C".to_string(), "3".to_string())]
    );
}
