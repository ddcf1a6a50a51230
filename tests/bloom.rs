use bloom_migration::bloom::{
    BloomIndex, ACCOUNT_BLOOM_HASH_FUNCTIONS, ACCOUNT_BLOOM_SPACE, DEFAULT_ACCOUNT_PRESET,
};

#[test]
fn set_bit_marks_one_segment() {
    let mut b = BloomIndex::new(16, 3);
    b.set_bit(70);
    assert!(b.get_bit(70));
    assert!(!b.get_bit(71));
    assert!(!b.get_bit(6));
    assert_eq!(b.drain_journal(), vec![(1usize, 1u64 << 6)]);
}

#[test]
fn journal_lists_touched_segments_in_order() {
    let mut b = BloomIndex::new(32, 3);
    b.set_bit(200);
    b.set_bit(3);
    b.set_bit(5);
    assert_eq!(b.drain_journal(), vec![(0usize, 0b101000u64), (3usize, 1u64 << 8)]);
}

#[test]
fn drain_resets_dirty_but_keeps_bits() {
    let mut b = BloomIndex::new(64, 4);
    b.set(b"account");
    assert!(!b.drain_journal().is_empty());
    assert!(b.drain_journal().is_empty());
    assert!(b.contains(b"account"));
}

#[test]
fn set_keys_are_members() {
    let mut b = BloomIndex::new(1024, 5);
    let keys: Vec<Vec<u8>> = (0u8..50).map(|i| vec![i, i.wrapping_mul(7), 3]).collect();
    for k in &keys {
        b.set(k);
    }
    for k in &keys {
        assert!(b.contains(k));
    }
}

#[test]
fn setting_twice_changes_nothing() {
    let mut once = BloomIndex::new(128, 4);
    once.set(b"a");
    let mut twice = BloomIndex::new(128, 4);
    twice.set(b"a");
    twice.set(b"a");
    assert_eq!(once.drain_journal(), twice.drain_journal());
}

#[test]
fn insertion_order_does_not_matter() {
    let keys: Vec<&[u8]> = vec![b"x", b"yy", b"zzz", b"w"];
    let mut a = BloomIndex::new(256, 3);
    for k in &keys {
        a.set(k);
    }
    let mut b = BloomIndex::new(256, 3);
    for k in keys.iter().rev() {
        b.set(k);
    }
    assert_eq!(a.drain_journal(), b.drain_journal());
}

#[test]
fn account_bloom_parameters() {
    assert_eq!(ACCOUNT_BLOOM_SPACE, 1048576);
    assert_eq!(DEFAULT_ACCOUNT_PRESET, 1000000);
    assert_eq!(ACCOUNT_BLOOM_HASH_FUNCTIONS, 6);
    let mut b = BloomIndex::new_account_bloom();
    assert!(!b.contains(b"anything"));
    assert!(b.drain_journal().is_empty());
}

#[test]
fn distinct_keys_touch_distinct_bits() {
    let mut b = BloomIndex::new_account_bloom();
    b.set(&[1u8; 32]);
    assert!(b.contains(&[1u8; 32]));
    assert!(!b.contains(&[2u8; 32]));
    let journal = b.drain_journal();
    assert!(!journal.is_empty());
    assert!(journal.len() <= 6);
}

#[test]
fn any_positive_space_is_accepted() {
    let mut b = BloomIndex::new(3, 2);
    b.set_bit(23);
    assert!(b.get_bit(23));
    assert!(!b.get_bit(22));
    b.set(b"k");
    assert!(b.contains(b"k"));
    let journal = b.drain_journal();
    assert_eq!(journal.len(), 1);
    assert_eq!(journal[0].0, 0);
    assert_eq!(journal[0].1 >> 24, 0);
}
