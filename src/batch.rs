use vstd::prelude::*;
use vstd::arithmetic::div_mod::lemma_fundamental_div_mod_converse;
use crate::transaction::{Column, OpView, StoreView, Transaction, apply_ops, apply_all};

verus! {

/// Settings of a migration run.
#[derive(Debug, Clone, Copy, PartialEq, Eq)]
pub struct Config {
    /// How many entries a copy buffers before it writes them out.
    pub batch_size: usize,
}

/// The view of an optional transaction.
pub open spec fn opt_view(t: Option<Transaction>) -> Option<Seq<OpView>> {
    match t {
        Some(tx) => Some(tx@),
        None => None,
    }
}

/// One insert into a buffer holding `pending` with threshold `size`: the
/// buffer afterwards, and the transaction written out, if the threshold was reached.
pub open spec fn insert_step(pending: Seq<OpView>, op: OpView, size: nat) -> (Seq<OpView>, Option<Seq<OpView>>) {
    let p = pending.push(op);
    if p.len() >= size {
        (Seq::empty(), Some(p))
    } else {
        (p, None)
    }
}

/// The final flush of a buffer holding `pending`: nothing when it is empty.
pub open spec fn commit_step(pending: Seq<OpView>) -> Option<Seq<OpView>> {
    if pending.len() == 0 {
        None
    } else {
        Some(pending)
    }
}

/// Feeding `ops` one by one into an empty buffer of threshold `size`: what
/// stays buffered, and the transactions written out so far, in order.
pub open spec fn feed(ops: Seq<OpView>, size: nat) -> (Seq<OpView>, Seq<Seq<OpView>>)
    decreases ops.len(),
{
    if ops.len() == 0 {
        (Seq::empty(), Seq::empty())
    } else {
        let (p, written) = feed(ops.drop_last(), size);
        let (p2, out) = insert_step(p, ops.last(), size);
        match out {
            Some(t) => (p2, written.push(t)),
            None => (p2, written),
        }
    }
}

/// Every transaction that a buffer of threshold `size` writes when `ops` are
/// inserted into it one by one and it is then committed.
pub open spec fn drive(ops: Seq<OpView>, size: nat) -> Seq<Seq<OpView>> {
    let (p, written) = feed(ops, size);
    match commit_step(p) {
        Some(t) => written.push(t),
        None => written,
    }
}

/// The upserts of `txs`, one transaction after the other.
pub open spec fn concat_all(txs: Seq<Seq<OpView>>) -> Seq<OpView>
    decreases txs.len(),
{
    if txs.len() == 0 {
        Seq::empty()
    } else {
        concat_all(txs.drop_last() ) + txs.last()
    }
}

/// The upserts of `entries` into column `col`.
pub open spec fn puts(col: Column, entries: Seq<(Seq<u8>, Seq<u8>)>) -> Seq<OpView> {
    entries.map_values(|e: (Seq<u8>, Seq<u8>)| (col, e.0, e.1))
}

/// No two entries share a key.
pub open spec fn keys_distinct(entries: Seq<(Seq<u8>, Seq<u8>)>) -> bool {
    forall|i: int, j: int|
        0 <= i < j < entries.len() ==> #[trigger] entries[i].0 != #[trigger] entries[j].0
}

proof fn lemma_feed_shape(ops: Seq<OpView>, size: nat)
    requires
        size > 0,
    ensures
        concat_all(feed(ops, size).1) + feed(ops, size).0 == ops,
        feed(ops, size).0.len() < size,
        forall|i: int| 0 <= i < feed(ops, size).1.len() ==> (#[trigger] feed(ops, size).1[i]).len() == size,
        feed(ops, size).1.len() * size + feed(ops, size).0.len() == ops.len(),
    decreases ops.len(),
{
    if ops.len() > 0 {
        let prev = ops.drop_last();
        lemma_feed_shape(prev, size);
        let (p, w) = feed(prev, size);
        let p2 = p.push(ops.last());
        assert(concat_all(w) + p2 =~= (concat_all(w) + p).push(ops.last()));
        assert(prev.push(ops.last()) =~= ops);
        if p2.len() >= size {
            let w2 = w.push(p2);
            assert(w2.drop_last() =~= w);
            assert(concat_all(w2) + Seq::<OpView>::empty() =~= concat_all(w2));
            assert(w2.len() * size == w.len() * size + size) by (nonlinear_arith)
                requires
                    w2.len() == w.len() + 1,
            ;
        }
    }
}

/// Inserting `ops` into a buffer of positive threshold `size` and then
/// committing writes exactly ceil(n / size) transactions, none empty and none
/// larger than the threshold, which together hold every upsert exactly once,
/// in order.
pub proof fn lemma_threshold_flush(ops: Seq<OpView>, size: nat)
    requires
        size > 0,
    ensures
        drive(ops, size).len() == (ops.len() + size - 1) / size as int,
        concat_all(drive(ops, size)) == ops,
        forall|i: int|
            0 <= i < drive(ops, size).len() ==> 0 < (#[trigger] drive(ops, size)[i]).len() <= size,
{
    lemma_feed_shape(ops, size);
    let (p, w) = feed(ops, size);
    let q = w.len() as int;
    let n = ops.len() as int;
    let d = size as int;
    if p.len() == 0 {
        assert(concat_all(w) + p =~= concat_all(w));
        lemma_fundamental_div_mod_converse(n + d - 1, d, q, d - 1);
    } else {
        let w2 = w.push(p);
        assert(w2.drop_last() =~= w);
        assert((q + 1) * d == q * d + d) by (nonlinear_arith);
        lemma_fundamental_div_mod_converse(n + d - 1, d, q + 1, p.len() - 1);
    }
}

proof fn lemma_apply_append(db: StoreView, a: Seq<OpView>, b: Seq<OpView>)
    ensures
        apply_ops(db, a + b) == apply_ops(apply_ops(db, a), b),
    decreases b.len(),
{
    if b.len() > 0 {
        lemma_apply_append(db, a, b.drop_last());
        assert((a + b).drop_last() =~= a + b.drop_last());
    } else {
        assert(a + b =~= a);
    }
}

/// Writing transactions one after the other leaves the store as applying all
/// their upserts in that order does.
pub proof fn lemma_apply_all_concat(db: StoreView, txs: Seq<Seq<OpView>>)
    ensures
        apply_all(db, txs) == apply_ops(db, concat_all(txs)),
    decreases txs.len(),
{
    if txs.len() > 0 {
        lemma_apply_all_concat(db, txs.drop_last());
        lemma_apply_append(db, concat_all(txs.drop_last()), txs.last());
    }
}

proof fn lemma_apply_puts(col: Column, entries: Seq<(Seq<u8>, Seq<u8>)>)
    requires
        keys_distinct(entries),
    ensures
        forall|c: Column, k: Seq<u8>|
            #[trigger] apply_ops(Map::empty(), puts(col, entries)).contains_key((c, k)) <==> (c == col
                && exists|i: int| 0 <= i < entries.len() && #[trigger] entries[i].0 == k),
        forall|i: int|
            0 <= i < entries.len() ==> apply_ops(Map::empty(), puts(col, entries))[(col, #[trigger] entries[i].0)]
                == entries[i].1,
    decreases entries.len(),
{
    if entries.len() > 0 {
        let prev = entries.drop_last();
        let n = entries.len() - 1;
        assert(puts(col, entries).drop_last() =~= puts(col, prev));
        lemma_apply_puts(col, prev);
        assert(puts(col, entries).last() == (col, entries[n].0, entries[n].1));
        let db = apply_ops(Map::empty(), puts(col, entries));
        let prev_db = apply_ops(Map::empty(), puts(col, prev));
        assert(db == prev_db.insert((col, entries[n].0), entries[n].1));
        assert forall|c: Column, k: Seq<u8>|
            #[trigger] db.contains_key((c, k)) <==> (c == col && exists|i: int|
                0 <= i < entries.len() && #[trigger] entries[i].0 == k) by {
            if db.contains_key((c, k)) && !(c == col && k == entries[n].0) {
                assert(prev_db.contains_key((c, k)));
                let i = choose|i: int| 0 <= i < prev.len() && #[trigger] prev[i].0 == k;
                assert(prev[i] == entries[i]);
            }
            if c == col && exists|i: int| 0 <= i < entries.len() && #[trigger] entries[i].0 == k {
                let i = choose|i: int| 0 <= i < entries.len() && #[trigger] entries[i].0 == k;
                if i < n {
                    assert(prev[i].0 == k);
                }
            }
        }
        assert forall|i: int| 0 <= i < entries.len() implies db[(col, #[trigger] entries[i].0)]
            == entries[i].1 by {
            if i < n {
                assert(prev[i] == entries[i]);
            }
        }
    }
}

/// Copying the entries of a column, whose keys are distinct, through a
/// buffer of positive threshold into an empty store leaves exactly those
/// entries, byte for byte, in that column, and nothing in any other.
pub proof fn lemma_copy_fidelity(col: Column, entries: Seq<(Seq<u8>, Seq<u8>)>, size: nat)
    requires
        size > 0,
        keys_distinct(entries),
    ensures
        forall|c: Column, k: Seq<u8>|
            #[trigger] apply_all(Map::empty(), drive(puts(col, entries), size)).contains_key((c, k))
                <==> (c == col && exists|i: int| 0 <= i < entries.len() && #[trigger] entries[i].0 == k),
        forall|i: int|
            0 <= i < entries.len() ==> apply_all(Map::empty(), drive(puts(col, entries), size))[(
            col,
            #[trigger] entries[i].0,
            )] == entries[i].1,
{
    lemma_threshold_flush(puts(col, entries), size);
    lemma_apply_all_concat(Map::empty(), drive(puts(col, entries), size));
    lemma_apply_puts(col, entries);
}

/// A bounded write buffer for one column: it collects upserts and hands them
/// out as one transaction whenever `batch_size` of them have accumulated.
pub struct Batch {
    pending: Transaction,
    batch_size: usize,
    column: Column,
}

impl Batch {
    /// The upserts buffered and not yet handed out.
    pub closed spec fn pending(&self) -> Seq<OpView> {
        self.pending@
    }

    /// The threshold at which the buffer is handed out.
    pub closed spec fn size(&self) -> nat {
        self.batch_size as nat
    }

    /// The column that every upsert targets.
    pub closed spec fn column(&self) -> Column {
        self.column
    }

    /// An empty buffer for column `col` with the threshold of `config`.
    pub fn new(config: &Config, col: Column) -> (r: Batch)
        ensures
            r.pending() == Seq::<OpView>::empty(),
            r.size() == config.batch_size,
            r.column() == col,
    {
        Batch { pending: Transaction::new(), batch_size: config.batch_size, column: col }
    }

    /// Buffers an upsert of `key` to `value`. When the buffer reaches the
    /// threshold, it is handed out as one transaction and left empty.
    pub fn insert(&mut self, key: Vec<u8>, value: Vec<u8>) -> (r: Option<Transaction>)
        ensures
            (final(self).pending(), opt_view(r)) == insert_step(
                old(self).pending(),
                (old(self).column(), key@, value@),
                old(self).size(),
            ),
            final(self).size() == old(self).size(),
            final(self).column() == old(self).column(),
    {
        self.pending.put(self.column, key, value);
        if self.pending.len() >= self.batch_size {
            let mut out = Transaction::new();
            std::mem::swap(&mut out, &mut self.pending);
            Some(out)
        } else {
            None
        }
    }

    /// Hands out whatever is buffered as one transaction, or nothing when
    /// the buffer is empty, and leaves the buffer empty.
    pub fn commit(&mut self) -> (r: Option<Transaction>)
        ensures
            opt_view(r) == commit_step(old(self).pending()),
            final(self).pending() == Seq::<OpView>::empty(),
            final(self).size() == old(self).size(),
            final(self).column() == old(self).column(),
    {
        if self.pending.is_empty() {
            None
        } else {
            let mut out = Transaction::new();
            std::mem::swap(&mut out, &mut self.pending);
            Some(out)
        }
    }
}

} // verus!
