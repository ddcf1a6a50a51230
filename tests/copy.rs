use std::collections::BTreeMap;

use bloom_migration::batch::{Batch, Config};
use bloom_migration::migration::{ToV10, COLUMNS, PRE_COLUMNS, VERSION};
use bloom_migration::transaction::Transaction;

fn entries(n: u8) -> Vec<(Vec<u8>, Vec<u8>)> {
    (0..n).map(|i| (vec![b'k', i], vec![b'v', i, i])).collect()
}

fn apply(txs: &[Transaction]) -> BTreeMap<(Option<u32>, Vec<u8>), Vec<u8>> {
    let mut db = BTreeMap::new();
    for tx in txs {
        for op in &tx.ops {
            db.insert((op.col, op.key.clone()), op.value.clone());
        }
    }
    db
}

#[test]
fn descriptor_of_the_step() {
    let step = ToV10::new();
    assert_eq!(step.version(), 10);
    assert_eq!(step.pre_columns(), Some(5));
    assert_eq!(step.columns(), Some(6));
    assert_eq!((VERSION, PRE_COLUMNS, COLUMNS), (10, 5, 6));
}

#[test]
fn only_the_state_column_rebuilds_the_bloom() {
    let step = ToV10::new();
    assert!(step.rebuilds_bloom(Some(0)));
    assert!(!step.rebuilds_bloom(Some(1)));
    assert!(!step.rebuilds_bloom(Some(3)));
    assert!(!step.rebuilds_bloom(None));
}

#[test]
fn threshold_flush_issues_ceiling_many_writes() {
    let step = ToV10::new();
    let txs = step.copy_column(&Config { batch_size: 3 }, Some(2), entries(10));
    let sizes: Vec<usize> = txs.iter().map(|t| t.len()).collect();
    assert_eq!(sizes, vec![3, 3, 3, 1]);
    let db = apply(&txs);
    assert_eq!(db.len(), 10);
    let flat: Vec<(Vec<u8>, Vec<u8>)> = txs
        .iter()
        .flat_map(|t| t.ops.iter().map(|o| (o.key.clone(), o.value.clone())))
        .collect();
    assert_eq!(flat, entries(10));
}

#[test]
fn exact_multiple_has_no_empty_write() {
    let step = ToV10::new();
    let txs = step.copy_column(&Config { batch_size: 3 }, Some(2), entries(6));
    assert_eq!(txs.len(), 2);
    assert!(txs.iter().all(|t| t.len() == 3));
}

#[test]
fn empty_column_writes_nothing() {
    let step = ToV10::new();
    let txs = step.copy_column(&Config { batch_size: 4 }, Some(0), Vec::new());
    assert!(txs.is_empty());
}

#[test]
fn copy_is_verbatim_and_adds_nothing() {
    let step = ToV10::new();
    let source = vec![
        (vec![0u8, 255], vec![]),
        (vec![7u8], vec![1u8, 2, 3]),
        (vec![], vec![9u8]),
        (vec![1u8, 1, 1], vec![0u8; 40]),
    ];
    let txs = step.copy_column(&Config { batch_size: 2 }, Some(1), source.clone());
    let db = apply(&txs);
    assert_eq!(db.len(), source.len());
    for (k, v) in &source {
        assert_eq!(db.get(&(Some(1), k.clone())), Some(v));
    }
    assert!(db.keys().all(|(c, _)| *c == Some(1)));
}

#[test]
fn batch_hands_out_at_threshold() {
    let mut batch = Batch::new(&Config { batch_size: 2 }, Some(4));
    assert!(batch.insert(vec![1], vec![10]).is_none());
    let tx = batch.insert(vec![2], vec![20]).expect("threshold reached");
    assert_eq!(tx.len(), 2);
    assert_eq!(tx.ops[0].col, Some(4));
    assert_eq!(tx.ops[1].key, vec![2]);
    assert_eq!(tx.ops[1].value, vec![20]);
    assert!(batch.commit().is_none());
}

#[test]
fn batch_commit_flushes_the_rest() {
    let mut batch = Batch::new(&Config { batch_size: 5 }, None);
    assert!(batch.insert(vec![1], vec![2]).is_none());
    let tx = batch.commit().expect("one entry buffered");
    assert_eq!(tx.len(), 1);
    assert_eq!(tx.ops[0].col, None);
    assert!(batch.commit().is_none());
}

#[test]
fn transaction_put_appends() {
    let mut tx = Transaction::new();
    assert!(tx.is_empty());
    tx.put(Some(3), vec![1, 2], vec![3]);
    tx.put(None, vec![4], vec![]);
    assert_eq!(tx.len(), 2);
    assert_eq!(tx.ops[0].key, vec![1, 2]);
    assert_eq!(tx.ops[1].col, None);
}
