use vstd::prelude::*;

verus! {

/// A column identifier; `None` is the store's default column.
pub type Column = Option<u32>;

/// One upsert of a write transaction.
#[derive(Debug, Clone, PartialEq, Eq)]
pub struct PutOp {
    pub col: Column,
    pub key: Vec<u8>,
    pub value: Vec<u8>,
}

/// What one upsert means: a column, a key and a value, as byte sequences.
pub type OpView = (Column, Seq<u8>, Seq<u8>);

/// The contents of a store: every (column, key) that is present, with its value.
pub type StoreView = Map<(Column, Seq<u8>), Seq<u8>>;

impl View for PutOp {
    type V = OpView;

    open spec fn view(&self) -> OpView {
        (self.col, self.key@, self.value@)
    }
}

/// A batch of column-scoped upserts that a store applies atomically, in order.
#[derive(Debug, Clone, PartialEq, Eq)]
pub struct Transaction {
    pub ops: Vec<PutOp>,
}

impl View for Transaction {
    type V = Seq<OpView>;

    open spec fn view(&self) -> Seq<OpView> {
        self.ops@.map_values(|op: PutOp| op@)
    }
}

/// The store after applying the upserts `ops` to `db`, first to last.
pub open spec fn apply_ops(db: StoreView, ops: Seq<OpView>) -> StoreView
    decreases ops.len(),
{
    if ops.len() == 0 {
        db
    } else {
        let last = ops.last();
        apply_ops(db, ops.drop_last()).insert((last.0, last.1), last.2)
    }
}

/// The store after writing the transactions `txs`, first to last.
pub open spec fn apply_all(db: StoreView, txs: Seq<Seq<OpView>>) -> StoreView
    decreases txs.len(),
{
    if txs.len() == 0 {
        db
    } else {
        apply_ops(apply_all(db, txs.drop_last()), txs.last())
    }
}

impl Transaction {
    /// An empty transaction.
    pub fn new() -> (r: Transaction)
        ensures
            r@ == Seq::<OpView>::empty(),
    {
        Transaction { ops: Vec::new() }
    }

    /// Appends an upsert of `key` to `value` in column `col`.
    pub fn put(&mut self, col: Column, key: Vec<u8>, value: Vec<u8>)
        ensures
            final(self)@ == old(self)@.push((col, key@, value@)),
    {
        self.ops.push(PutOp { col, key, value });
        proof {
            assert(final(self)@ =~= old(self)@.push((col, key@, value@)));
        }
    }

    /// The number of upserts.
    pub fn len(&self) -> (r: usize)
        ensures
            r == self@.len(),
    {
        self.ops.len()
    }

    /// Whether the transaction holds no upsert.
    pub fn is_empty(&self) -> (r: bool)
        ensures
            r == (self@.len() == 0),
    {
        self.ops.len() == 0
    }
}

} // verus!
