use vstd::prelude::*;
use crate::bloom::{
    ACCOUNT_BLOOM_HASH_FUNCTIONS, ACCOUNT_BLOOM_SPACE, BloomIndex, JournalEntry, journal_of,
};
use crate::columns::{
    ACCOUNT_BLOOM_COLUMN, hash_count_key, hash_count_key_spec, le_bytes, to_le_bytes,
};
use crate::transaction::{OpView, Transaction};

verus! {

/// Why a migration step failed.
#[derive(Debug, Clone, PartialEq, Eq)]
pub enum MigrationError {
    /// A read or write of a store failed; the store's message.
    Io(String),
    /// Stored data cannot be decoded: the migration cannot proceed.
    MigrationImpossible,
    /// A failure described by a message.
    Custom(String),
}

/// The upsert of one journal entry: the segment index and its bits, each as
/// eight little-endian bytes.
pub open spec fn segment_op(e: JournalEntry) -> OpView {
    (Some(ACCOUNT_BLOOM_COLUMN), le_bytes(e.0 as u64), le_bytes(e.1))
}

/// The upserts that persist a bloom journal: the number of hash functions,
/// then each journaled segment in order.
pub open spec fn bloom_ops(journal: Seq<JournalEntry>, hash_functions: u32) -> Seq<OpView> {
    seq![(Some(ACCOUNT_BLOOM_COLUMN), hash_count_key_spec(), seq![hash_functions as u8])]
        + journal.map_values(|e: JournalEntry| segment_op(e))
}

/// Adds to `batch` the upserts that persist `journal` of a filter with
/// `hash_functions` positions per key.
pub fn commit_bloom(batch: &mut Transaction, journal: &Vec<JournalEntry>, hash_functions: u32)
    requires
        hash_functions <= 255,
    ensures
        final(batch)@ == old(batch)@ + bloom_ops(journal@, hash_functions),
{
    let count = vec![hash_functions as u8];
    assert(count@ =~= seq![hash_functions as u8]);
    batch.put(Some(ACCOUNT_BLOOM_COLUMN), hash_count_key(), count);
    assert(journal@.subrange(0, 0).map_values(|e: JournalEntry| segment_op(e)) =~= Seq::<OpView>::empty());
    assert(batch@ =~= old(batch)@ + seq![(Some(ACCOUNT_BLOOM_COLUMN), hash_count_key_spec(), seq![hash_functions as u8])]
        + journal@.subrange(0, 0).map_values(|e: JournalEntry| segment_op(e)));
    let mut i: usize = 0;
    while i < journal.len()
        invariant
            i <= journal@.len(),
            batch@ == old(batch)@ + seq![(Some(ACCOUNT_BLOOM_COLUMN), hash_count_key_spec(), seq![hash_functions as u8])]
                + journal@.subrange(0, i as int).map_values(|e: JournalEntry| segment_op(e)),
        decreases journal@.len() - i,
    {
        let (index, bits) = journal[i];
        batch.put(Some(ACCOUNT_BLOOM_COLUMN), to_le_bytes(index as u64), to_le_bytes(bits));
        proof {
            assert(journal@.subrange(0, i + 1).map_values(|e: JournalEntry| segment_op(e)) =~= journal@.subrange(
                0,
                i as int,
            ).map_values(|e: JournalEntry| segment_op(e)).push(segment_op(journal@[i as int])));
        }
        i = i + 1;
    }
    assert(journal@.subrange(0, journal@.len() as int) =~= journal@);
}

} // verus!

verus! {

/// What the collaborators report back to the account bloom rebuild.
#[derive(Debug, Clone, PartialEq, Eq)]
pub enum RebuildEvent {
    /// The value under the chain-head key of the auxiliary column, if any.
    Head(Option<Vec<u8>>),
    /// The header stored under the head hash in the headers column, if any.
    Header(Option<Vec<u8>>),
    /// The header's state root could not be decoded.
    HeaderUndecodable,
    /// The account trie at the header's state root could not be opened.
    TrieUnavailable,
    /// The key of the next leaf of the account trie.
    Leaf(Vec<u8>),
    /// Traversing the account trie hit a node that cannot be decoded.
    TraversalFailed,
    /// The account trie has no further leaf.
    TraversalEnded,
}

/// What the account bloom rebuild asks for next.
#[derive(Debug, Clone, PartialEq, Eq)]
pub enum RebuildAction {
    /// Read the header stored under this hash in the headers column.
    ReadHeader(Vec<u8>),
    /// Decode the state root of this header, open the account trie at it in
    /// the source store, and report its first leaf.
    ScanTrie(Vec<u8>),
    /// Report the next leaf of the account trie.
    NextLeaf,
    /// Write this transaction to the destination store; then the rebuild is done.
    Write(Transaction),
    /// The rebuild is done and nothing is to be written.
    Done,
    /// The rebuild failed; nothing is to be written.
    Fail(MigrationError),
}

/// The account bloom rebuild: it locates the chain head and its header,
/// feeds every account key of the state trie into a fresh account bloom,
/// and hands out the bloom's journal as one transaction.
pub enum BloomRebuild {
    /// The chain head is to be read.
    AwaitHead,
    /// The header of the chain head is to be read.
    AwaitHeader,
    /// The account trie is being scanned; `fed` holds the keys set so far.
    Scanning { bloom: BloomIndex, fed: Ghost<Seq<Seq<u8>>> },
    /// Nothing more is to be done.
    Finished,
}

impl BloomRebuild {
    /// The filter of a scan holds exactly the keys fed to it.
    pub open spec fn wf(&self) -> bool {
        match self {
            BloomRebuild::Scanning { bloom, fed } => {
                &&& bloom.wf()
                &&& bloom.nbits() == ACCOUNT_BLOOM_SPACE * 8
                &&& bloom.k() == ACCOUNT_BLOOM_HASH_FUNCTIONS
                &&& bloom.holds_exactly(fed@.to_set())
            },
            _ => true,
        }
    }

    /// Whether `event` is one that the rebuild waits for in its present state.
    pub open spec fn accepts_spec(&self, event: &RebuildEvent) -> bool {
        match (self, event) {
            (BloomRebuild::AwaitHead, RebuildEvent::Head(_)) => true,
            (BloomRebuild::AwaitHeader, RebuildEvent::Header(_)) => true,
            (BloomRebuild::Scanning { .. }, RebuildEvent::HeaderUndecodable) => true,
            (BloomRebuild::Scanning { .. }, RebuildEvent::TrieUnavailable) => true,
            (BloomRebuild::Scanning { .. }, RebuildEvent::Leaf(_)) => true,
            (BloomRebuild::Scanning { .. }, RebuildEvent::TraversalFailed) => true,
            (BloomRebuild::Scanning { .. }, RebuildEvent::TraversalEnded) => true,
            _ => false,
        }
    }

    /// A rebuild that has not started: it first needs the chain head.
    pub fn new() -> (r: BloomRebuild)
        ensures
            r is AwaitHead,
            r.wf(),
    {
        BloomRebuild::AwaitHead
    }

    /// Whether the rebuild has nothing more to do.
    pub fn is_finished(&self) -> (r: bool)
        ensures
            r == (self is Finished),
    {
        match self {
            BloomRebuild::Finished => true,
            _ => false,
        }
    }

    /// Whether `event` is one that the rebuild waits for in its present state.
    pub fn accepts(&self, event: &RebuildEvent) -> (r: bool)
        ensures
            r == self.accepts_spec(event),
    {
        match (self, event) {
            (BloomRebuild::AwaitHead, RebuildEvent::Head(_)) => true,
            (BloomRebuild::AwaitHeader, RebuildEvent::Header(_)) => true,
            (BloomRebuild::Scanning { .. }, RebuildEvent::HeaderUndecodable) => true,
            (BloomRebuild::Scanning { .. }, RebuildEvent::TrieUnavailable) => true,
            (BloomRebuild::Scanning { .. }, RebuildEvent::Leaf(_)) => true,
            (BloomRebuild::Scanning { .. }, RebuildEvent::TraversalFailed) => true,
            (BloomRebuild::Scanning { .. }, RebuildEvent::TraversalEnded) => true,
            _ => false,
        }
    }

    /// Takes one event and gives the next state and what to do.
    /// - No chain head, or no header under it: done, nothing written.
    /// - A header: a fresh account bloom, and the account trie is scanned.
    /// - A state root that cannot be decoded, or a trie that cannot be
    ///   opened: `MigrationImpossible`, nothing written.
    /// - A leaf: its key is set in the bloom, and the next leaf is asked for.
    /// - A corrupt node: `MigrationImpossible`, nothing written.
    /// - The end of the trie: the bloom's journal as one transaction; every
    ///   key fed is then a possible member of the bloom.
    pub fn step(self, event: RebuildEvent) -> (r: (BloomRebuild, RebuildAction))
        requires
            self.wf(),
            self.accepts_spec(&event),
        ensures
            r.0.wf(),
            match (self, event) {
                (BloomRebuild::AwaitHead, RebuildEvent::Head(None)) => r.0 is Finished && r.1 is Done,
                (BloomRebuild::AwaitHead, RebuildEvent::Head(Some(h))) => r.0 is AwaitHeader && match r.1 {
                    RebuildAction::ReadHeader(h2) => h2@ == h@,
                    _ => false,
                },
                (BloomRebuild::AwaitHeader, RebuildEvent::Header(None)) => r.0 is Finished && r.1 is Done,
                (BloomRebuild::AwaitHeader, RebuildEvent::Header(Some(hd))) => match (r.0, r.1) {
                    (BloomRebuild::Scanning { bloom, fed }, RebuildAction::ScanTrie(hd2)) => {
                        &&& hd2@ == hd@
                        &&& fed@ == Seq::<Seq<u8>>::empty()
                        &&& forall|j: int| 0 <= j < bloom.words().len() ==> bloom.words()[j] == 0
                    },
                    _ => false,
                },
                (BloomRebuild::Scanning { .. }, RebuildEvent::HeaderUndecodable) => r.0 is Finished
                    && match r.1 {
                    RebuildAction::Fail(MigrationError::MigrationImpossible) => true,
                    _ => false,
                },
                (BloomRebuild::Scanning { .. }, RebuildEvent::TrieUnavailable) => r.0 is Finished
                    && match r.1 {
                    RebuildAction::Fail(MigrationError::MigrationImpossible) => true,
                    _ => false,
                },
                (BloomRebuild::Scanning { bloom, fed }, RebuildEvent::Leaf(key)) => r.1 is NextLeaf
                    && match r.0 {
                    BloomRebuild::Scanning { bloom: bloom2, fed: fed2 } => {
                        &&& fed2@ == fed@.push(key@)
                        &&& bloom2.may_contain(key@)
                        &&& forall|q: int|
                            0 <= q < bloom.nbits() ==> #[trigger] bloom.has_bit(q) ==> bloom2.has_bit(q)
                    },
                    _ => false,
                },
                (BloomRebuild::Scanning { .. }, RebuildEvent::TraversalFailed) => r.0 is Finished
                    && match r.1 {
                    RebuildAction::Fail(MigrationError::MigrationImpossible) => true,
                    _ => false,
                },
                (BloomRebuild::Scanning { bloom, fed }, RebuildEvent::TraversalEnded) => r.0 is Finished
                    && match r.1 {
                    RebuildAction::Write(tx) => {
                        &&& tx@ == bloom_ops(
                            journal_of(bloom.words(), bloom.dirty(), bloom.words().len() as int),
                            ACCOUNT_BLOOM_HASH_FUNCTIONS,
                        )
                        &&& forall|key: Seq<u8>| #[trigger] fed@.contains(key) ==> bloom.may_contain(key)
                    },
                    _ => false,
                },
                _ => false,
            },
    {
        match (self, event) {
            (BloomRebuild::AwaitHead, RebuildEvent::Head(None)) => (BloomRebuild::Finished, RebuildAction::Done),
            (BloomRebuild::AwaitHead, RebuildEvent::Head(Some(h))) => (
                BloomRebuild::AwaitHeader,
                RebuildAction::ReadHeader(h),
            ),
            (BloomRebuild::AwaitHeader, RebuildEvent::Header(None)) => (BloomRebuild::Finished, RebuildAction::Done),
            (BloomRebuild::AwaitHeader, RebuildEvent::Header(Some(hd))) => {
                let bloom = BloomIndex::new_account_bloom();
                proof {
                    assert(Seq::<Seq<u8>>::empty().to_set() =~= Set::<Seq<u8>>::empty());
                }
                (
                    BloomRebuild::Scanning { bloom, fed: Ghost(Seq::empty()) },
                    RebuildAction::ScanTrie(hd),
                )
            },
            (BloomRebuild::Scanning { .. }, RebuildEvent::HeaderUndecodable) => (
                BloomRebuild::Finished,
                RebuildAction::Fail(MigrationError::MigrationImpossible),
            ),
            (BloomRebuild::Scanning { .. }, RebuildEvent::TrieUnavailable) => (
                BloomRebuild::Finished,
                RebuildAction::Fail(MigrationError::MigrationImpossible),
            ),
            (BloomRebuild::Scanning { bloom, fed }, RebuildEvent::Leaf(key)) => {
                let mut bloom = bloom;
                bloom.set(&key);
                let ghost fed2 = fed@.push(key@);
                proof {
                    fed@.lemma_push_to_set_commute(key@);
                    crate::bloom::lemma_member_reported(bloom, fed2.to_set(), key@);
                }
                (BloomRebuild::Scanning { bloom, fed: Ghost(fed2) }, RebuildAction::NextLeaf)
            },
            (BloomRebuild::Scanning { .. }, RebuildEvent::TraversalFailed) => (
                BloomRebuild::Finished,
                RebuildAction::Fail(MigrationError::MigrationImpossible),
            ),
            (BloomRebuild::Scanning { bloom, fed }, RebuildEvent::TraversalEnded) => {
                let ghost before = bloom;
                let mut bloom = bloom;
                let journal = bloom.drain_journal();
                let mut tx = Transaction::new();
                commit_bloom(&mut tx, &journal, ACCOUNT_BLOOM_HASH_FUNCTIONS);
                proof {
                    assert(Seq::<OpView>::empty() + bloom_ops(journal@, ACCOUNT_BLOOM_HASH_FUNCTIONS)
                        =~= bloom_ops(journal@, ACCOUNT_BLOOM_HASH_FUNCTIONS));
                    assert forall|key: Seq<u8>| #[trigger] fed@.contains(key) implies before.may_contain(key) by {
                        crate::bloom::lemma_member_reported(before, fed@.to_set(), key);
                    }
                }
                (BloomRebuild::Finished, RebuildAction::Write(tx))
            },
            (s, _) => (s, RebuildAction::Done),
        }
    }
}

} // verus!

verus! {

/// Two scans of the same shape that were fed the same set of account keys,
/// in any order and with any repetition, end with the same transaction: the
/// rebuilt bloom depends on the accounts alone.
pub proof fn lemma_rebuild_order_free(a: BloomRebuild, b: BloomRebuild)
    requires
        a.wf(),
        b.wf(),
        a is Scanning,
        b is Scanning,
        a->fed@.to_set() == b->fed@.to_set(),
    ensures
        bloom_ops(
            journal_of(a->bloom.words(), a->bloom.dirty(), a->bloom.words().len() as int),
            ACCOUNT_BLOOM_HASH_FUNCTIONS,
        ) == bloom_ops(
            journal_of(b->bloom.words(), b->bloom.dirty(), b->bloom.words().len() as int),
            ACCOUNT_BLOOM_HASH_FUNCTIONS,
        ),
{
    crate::bloom::lemma_same_keys_same_journal(a->bloom, b->bloom, a->fed@.to_set());
}

} // verus!
