use vstd::prelude::*;
use crate::batch::{Batch, Config, drive, puts};
use crate::columns::STATE_COLUMN;
use crate::transaction::{Column, OpView, Transaction};

verus! {

/// The schema version that this step produces.
pub const VERSION: u32 = 10;

/// The number of columns before this step.
pub const PRE_COLUMNS: u32 = 5;

/// The number of columns after this step: the account bloom's column is added.
pub const COLUMNS: u32 = 6;

/// The view of a sequence of transactions.
pub open spec fn txs_view(txs: Seq<Transaction>) -> Seq<Seq<OpView>> {
    txs.map_values(|t: Transaction| t@)
}

/// The view of a sequence of key/value entries.
pub open spec fn entries_view(entries: Seq<(Vec<u8>, Vec<u8>)>) -> Seq<(Seq<u8>, Seq<u8>)> {
    entries.map_values(|e: (Vec<u8>, Vec<u8>)| (e.0@, e.1@))
}

/// The upgrade to schema version 10: every column is copied as it is, and
/// the account bloom is rebuilt from the state trie after the state column.
pub struct ToV10 {}

impl ToV10 {
    /// The step.
    pub fn new() -> (r: ToV10) {
        ToV10 {}
    }

    /// The schema version that the step produces.
    pub fn version(&self) -> (r: u32)
        ensures
            r == VERSION,
    {
        VERSION
    }

    /// The number of columns that the source store has.
    pub fn pre_columns(&self) -> (r: Option<u32>)
        ensures
            r == Some(PRE_COLUMNS),
    {
        Some(PRE_COLUMNS)
    }

    /// The number of columns that the destination store has.
    pub fn columns(&self) -> (r: Option<u32>)
        ensures
            r == Some(COLUMNS),
    {
        Some(COLUMNS)
    }

    /// Whether copying column `col` is followed by the account bloom rebuild:
    /// only for the state column.
    pub fn rebuilds_bloom(&self, col: Column) -> (r: bool)
        ensures
            r == (col == Some(STATE_COLUMN)),
    {
        match col {
            Some(c) => c == STATE_COLUMN,
            None => false,
        }
    }

    /// Copies the entries of column `col`, in order, through a buffer with
    /// the threshold of `config`: the transactions to write, in order. This
    /// holds the whole column; a copy in bounded memory feeds each entry to
    /// `Batch::insert` as it is read and writes what comes back at once.
    pub fn copy_column(&self, config: &Config, col: Column, entries: Vec<(Vec<u8>, Vec<u8>)>) -> (r: Vec<
        Transaction,
    >)
        ensures
            txs_view(r@) == drive(puts(col, entries_view(entries@)), config.batch_size as nat),
    {
        let ghost src = entries_view(entries@);
        let ghost ops = puts(col, src);
        let ghost size = config.batch_size as nat;
        let mut entries = entries;
        let mut batch = Batch::new(config, col);
        let mut out: Vec<Transaction> = Vec::new();
        let n: usize = entries.len();
        let mut i: usize = 0;
        while i < n
            invariant
                n == entries@.len(),
                n == src.len(),
                i <= n,
                ops == puts(col, src),
                forall|t: int| i <= t < n ==> (#[trigger] entries@[t].0@, entries@[t].1@) == src[t],
                batch.size() == size,
                batch.column() == col,
                (batch.pending(), txs_view(out@)) == crate::batch::feed(ops.subrange(0, i as int), size),
            decreases n - i,
        {
            let mut key: Vec<u8> = Vec::new();
            let mut value: Vec<u8> = Vec::new();
            std::mem::swap(&mut key, &mut entries[i].0);
            std::mem::swap(&mut value, &mut entries[i].1);
            let flushed = batch.insert(key, value);
            proof {
                assert(ops.subrange(0, i + 1).drop_last() =~= ops.subrange(0, i as int));
                assert(ops.subrange(0, i + 1).last() == (col, key@, value@));
            }
            let ghost out_before = out@;
            match flushed {
                Some(tx) => {
                    out.push(tx);
                    proof {
                        assert(txs_view(out@) =~= txs_view(out_before).push(tx@));
                    }
                },
                None => {},
            }
            i = i + 1;
        }
        let last = batch.commit();
        let ghost out_before = out@;
        match last {
            Some(tx) => {
                out.push(tx);
                proof {
                    assert(txs_view(out@) =~= txs_view(out_before).push(tx@));
                }
            },
            None => {},
        }
        proof {
            assert(ops.subrange(0, n as int) =~= ops);
        }
        out
    }
}

} // verus!
