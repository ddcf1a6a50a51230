use vstd::prelude::*;

verus! {

/// Index of the column holding the state trie's nodes.
pub const STATE_COLUMN: u32 = 0;

/// Index of the column holding block headers by hash.
pub const HEADERS_COLUMN: u32 = 1;

/// Index of the auxiliary column holding the chain head.
pub const EXTRA_COLUMN: u32 = 3;

/// Index of the column holding the account bloom's segments.
pub const ACCOUNT_BLOOM_COLUMN: u32 = 5;

/// The key of the chain head in the auxiliary column: "best".
pub open spec fn best_block_key_spec() -> Seq<u8> {
    seq![98u8, 101u8, 115u8, 116u8]
}

/// The key under which the account bloom's number of hash functions is
/// stored: "account_hash_count".
pub open spec fn hash_count_key_spec() -> Seq<u8> {
    seq![
        97u8, 99u8, 99u8, 111u8, 117u8, 110u8, 116u8, 95u8, 104u8,
        97u8, 115u8, 104u8, 95u8, 99u8, 111u8, 117u8, 110u8, 116u8,
    ]
}

/// The key of the chain head in the auxiliary column.
pub fn best_block_key() -> (r: Vec<u8>)
    ensures
        r@ == best_block_key_spec(),
{
    let r = vec![98u8, 101u8, 115u8, 116u8];
    assert(r@ =~= best_block_key_spec());
    r
}

/// The key of the account bloom's number of hash functions.
pub fn hash_count_key() -> (r: Vec<u8>)
    ensures
        r@ == hash_count_key_spec(),
{
    let r = vec![
        97u8, 99u8, 99u8, 111u8, 117u8, 110u8, 116u8, 95u8, 104u8,
        97u8, 115u8, 104u8, 95u8, 99u8, 111u8, 117u8, 110u8, 116u8,
    ];
    assert(r@ =~= hash_count_key_spec());
    r
}

/// The eight bytes of `x`, least significant first.
pub open spec fn le_bytes(x: u64) -> Seq<u8> {
    seq![
        (x & 0xff) as u8,
        ((x >> 8) & 0xff) as u8,
        ((x >> 16) & 0xff) as u8,
        ((x >> 24) & 0xff) as u8,
        ((x >> 32) & 0xff) as u8,
        ((x >> 40) & 0xff) as u8,
        ((x >> 48) & 0xff) as u8,
        ((x >> 56) & 0xff) as u8,
    ]
}

/// The eight bytes of `x`, least significant first.
pub fn to_le_bytes(x: u64) -> (r: Vec<u8>)
    ensures
        r@ == le_bytes(x),
{
    let r = vec![
        (x & 0xff) as u8,
        ((x >> 8) & 0xff) as u8,
        ((x >> 16) & 0xff) as u8,
        ((x >> 24) & 0xff) as u8,
        ((x >> 32) & 0xff) as u8,
        ((x >> 40) & 0xff) as u8,
        ((x >> 48) & 0xff) as u8,
        ((x >> 56) & 0xff) as u8,
    ];
    assert(r@ =~= le_bytes(x));
    r
}

} // verus!
