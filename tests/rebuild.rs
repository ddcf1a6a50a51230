use bloom_migration::batch::Config;
use bloom_migration::bloom::{BloomIndex, ACCOUNT_BLOOM_HASH_FUNCTIONS};
use bloom_migration::columns::{best_block_key, hash_count_key, to_le_bytes, ACCOUNT_BLOOM_COLUMN};
use bloom_migration::migration::ToV10;
use bloom_migration::rebuild::{
    commit_bloom, BloomRebuild, MigrationError, RebuildAction, RebuildEvent,
};
use bloom_migration::transaction::Transaction;

fn run(events: Vec<RebuildEvent>) -> Vec<RebuildAction> {
    let mut state = BloomRebuild::new();
    let mut actions = Vec::new();
    for e in events {
        assert!(state.accepts(&e));
        let (next, action) = state.step(e);
        state = next;
        actions.push(action);
    }
    actions
}

fn scan(leaves: &[&[u8]]) -> Transaction {
    let mut events = vec![
        RebuildEvent::Head(Some(vec![0xaa; 32])),
        RebuildEvent::Header(Some(vec![1, 2, 3])),
    ];
    for l in leaves {
        events.push(RebuildEvent::Leaf(l.to_vec()));
    }
    events.push(RebuildEvent::TraversalEnded);
    match run(events).pop() {
        Some(RebuildAction::Write(tx)) => tx,
        other => panic!("expected a write, got {:?}", other),
    }
}

#[test]
fn keys_of_the_store() {
    assert_eq!(best_block_key(), b"best".to_vec());
    assert_eq!(hash_count_key(), b"account_hash_count".to_vec());
    assert_eq!(to_le_bytes(0x0102030405060708), vec![8, 7, 6, 5, 4, 3, 2, 1]);
}

#[test]
fn no_chain_head_is_a_no_op() {
    let actions = run(vec![RebuildEvent::Head(None)]);
    assert_eq!(actions, vec![RebuildAction::Done]);
}

#[test]
fn missing_header_is_a_no_op() {
    let h = vec![0x11u8; 32];
    let actions = run(vec![RebuildEvent::Head(Some(h.clone())), RebuildEvent::Header(None)]);
    assert_eq!(actions, vec![RebuildAction::ReadHeader(h), RebuildAction::Done]);
}

#[test]
fn unavailable_trie_fails() {
    let actions = run(vec![
        RebuildEvent::Head(Some(vec![1])),
        RebuildEvent::Header(Some(vec![2])),
        RebuildEvent::TrieUnavailable,
    ]);
    assert_eq!(actions[2], RebuildAction::Fail(MigrationError::MigrationImpossible));
}

#[test]
fn undecodable_header_fails() {
    let actions = run(vec![
        RebuildEvent::Head(Some(vec![1])),
        RebuildEvent::Header(Some(vec![2])),
        RebuildEvent::HeaderUndecodable,
    ]);
    assert_eq!(actions[2], RebuildAction::Fail(MigrationError::MigrationImpossible));
}

#[test]
fn corrupt_node_fails_without_a_write() {
    let actions = run(vec![
        RebuildEvent::Head(Some(vec![1])),
        RebuildEvent::Header(Some(vec![2])),
        RebuildEvent::Leaf(vec![5; 32]),
        RebuildEvent::TraversalFailed,
    ]);
    assert_eq!(actions[1], RebuildAction::ScanTrie(vec![2]));
    assert_eq!(actions[2], RebuildAction::NextLeaf);
    assert_eq!(actions[3], RebuildAction::Fail(MigrationError::MigrationImpossible));
}

#[test]
fn finished_rebuild_accepts_nothing() {
    let (state, _) = BloomRebuild::new().step(RebuildEvent::Head(None));
    assert!(state.is_finished());
    assert!(!state.accepts(&RebuildEvent::TraversalEnded));
    assert!(!BloomRebuild::new().accepts(&RebuildEvent::Leaf(vec![1])));
}

#[test]
fn commit_bloom_encodes_segments() {
    let mut tx = Transaction::new();
    commit_bloom(&mut tx, &vec![(1usize, 0x0102u64), (9usize, 1u64)], 6);
    assert_eq!(tx.len(), 3);
    assert_eq!(tx.ops[0].col, Some(5));
    assert_eq!(tx.ops[0].key, b"account_hash_count".to_vec());
    assert_eq!(tx.ops[0].value, vec![6]);
    assert_eq!(tx.ops[1].key, vec![1, 0, 0, 0, 0, 0, 0, 0]);
    assert_eq!(tx.ops[1].value, vec![2, 1, 0, 0, 0, 0, 0, 0]);
    assert_eq!(tx.ops[2].key, vec![9, 0, 0, 0, 0, 0, 0, 0]);
    assert_eq!(tx.ops[2].value, vec![1, 0, 0, 0, 0, 0, 0, 0]);
}

#[test]
fn rebuild_twice_is_identical() {
    let a1: &[u8] = &[0xa1; 32];
    let a2: &[u8] = &[0xa2; 32];
    assert_eq!(scan(&[a1, a2]), scan(&[a1, a2]));
    assert_eq!(scan(&[a1, a2]), scan(&[a2, a1, a2]));
}

#[test]
fn scenario_two_accounts() {
    let step = ToV10::new();
    let config = Config { batch_size: 2 };
    let col0 = vec![(vec![1u8], vec![10u8]), (vec![2u8], vec![20u8]), (vec![3u8], vec![30u8])];
    let col1 = vec![(vec![0xde, 0xad], vec![0xbe, 0xef])];
    for (c, source) in [(0u32, col0), (1u32, col1)] {
        let txs = step.copy_column(&config, Some(c), source.clone());
        let copied: Vec<(Vec<u8>, Vec<u8>)> = txs
            .iter()
            .flat_map(|t| t.ops.iter().map(|o| (o.key.clone(), o.value.clone())))
            .collect();
        assert_eq!(copied, source);
        assert!(txs.iter().all(|t| t.ops.iter().all(|o| o.col == Some(c))));
    }

    let a1: &[u8] = &[0xa1; 32];
    let a2: &[u8] = &[0xa2; 32];
    let x: &[u8] = &[0x77; 32];
    let tx = scan(&[a1, a2]);

    let mut expected = BloomIndex::new_account_bloom();
    expected.set(a1);
    expected.set(a2);
    assert!(expected.contains(a1));
    assert!(expected.contains(a2));
    assert!(!expected.contains(x));
    let journal = expected.drain_journal();
    let mut want = Transaction::new();
    commit_bloom(&mut want, &journal, ACCOUNT_BLOOM_HASH_FUNCTIONS);
    assert_eq!(tx, want);
    assert!(tx.ops.iter().all(|o| o.col == Some(ACCOUNT_BLOOM_COLUMN)));
    assert_eq!(tx.len(), journal.len() + 1);
}
