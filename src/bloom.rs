use std::collections::hash_map::DefaultHasher;
use std::hash::Hasher;
use vstd::prelude::*;
use vstd::std_specs::hash::DefaultHasherAdditionalSpecFns;

verus! {

/// Size in bytes of the account bloom's bit space.
pub const ACCOUNT_BLOOM_SPACE: usize = 1048576;

/// Number of accounts the account bloom is tuned for.
pub const DEFAULT_ACCOUNT_PRESET: usize = 1000000;

/// Number of bit positions derived from each key of the account bloom: the
/// bit count over the preset times ln 2, rounded up.
pub const ACCOUNT_BLOOM_HASH_FUNCTIONS: u32 = 6;

/// A segment of the filter: its index and its 64 bits.
pub type JournalEntry = (usize, u64);

/// The four bytes of `x`, least significant first.
pub open spec fn le32(x: u32) -> Seq<u8> {
    seq![
        (x & 0xff) as u8,
        ((x >> 8) & 0xff) as u8,
        ((x >> 16) & 0xff) as u8,
        ((x >> 24) & 0xff) as u8,
    ]
}

/// The hash of `key` under the `index`-th hash function of the filter: a
/// fresh `DefaultHasher` fed the index as four little-endian bytes, then
/// the key's bytes.
pub open spec fn key_hash(index: u32, key: Seq<u8>) -> u64 {
    DefaultHasher::spec_finish(seq![le32(index), key])
}

fn hash_key(index: u32, key: &[u8]) -> (r: u64)
    ensures
        r == key_hash(index, key@),
{
    let prefix = vec![
        (index & 0xff) as u8,
        ((index >> 8) & 0xff) as u8,
        ((index >> 16) & 0xff) as u8,
        ((index >> 24) & 0xff) as u8,
    ];
    assert(prefix@ =~= le32(index));
    let mut hasher = DefaultHasher::new();
    hasher.write(prefix.as_slice());
    hasher.write(key);
    let r = hasher.finish();
    assert(hasher@ =~= seq![le32(index), key@]);
    r
}

/// Whether bit `b` of the word `w` is set.
pub open spec fn word_bit(w: u64, b: u64) -> bool {
    (w >> b) & 1u64 == 1u64
}

/// The `i`-th bit position of `key` in a filter of `nbits` bits.
pub open spec fn position(key: Seq<u8>, i: u32, nbits: nat) -> int {
    key_hash(i, key) as int % nbits as int
}

/// Whether one of the first `k` positions of `key` is the bit `q`.
pub open spec fn key_marks(key: Seq<u8>, k: u32, nbits: nat, q: int) -> bool {
    exists|i: u32| i < k && #[trigger] position(key, i, nbits) == q
}

/// Whether one of the first `k` positions of `key` lies in segment `j`.
pub open spec fn key_touches(key: Seq<u8>, k: u32, nbits: nat, j: int) -> bool {
    exists|i: u32| i < k && #[trigger] position(key, i, nbits) / 64 == j
}

/// The journal of the first `n` segments: each dirty segment with its bits,
/// by increasing index.
pub open spec fn journal_of(words: Seq<u64>, dirty: Seq<bool>, n: int) -> Seq<JournalEntry>
    decreases n,
{
    if n <= 0 {
        Seq::empty()
    } else {
        let prev = journal_of(words, dirty, n - 1);
        if dirty[n - 1] {
            prev.push(((n - 1) as usize, words[n - 1]))
        } else {
            prev
        }
    }
}

proof fn lemma_set_bit(w: u64, b: u64, c: u64)
    requires
        b < 64,
        c < 64,
    ensures
        word_bit(w | (1u64 << b), c) == (c == b || word_bit(w, c)),
{
    assert(word_bit(w | (1u64 << b), c) == (c == b || word_bit(w, c))) by (bit_vector)
        requires
            b < 64,
            c < 64,
    ;
}

proof fn lemma_high_bits_eq(x: u64, y: u64, n: u64)
    requires
        n < 64,
        forall|b: u64| b < 64 ==> #[trigger] word_bit(x, b) == word_bit(y, b),
    ensures
        x >> n == y >> n,
    decreases 64 - n,
{
    assert(word_bit(x, n) == word_bit(y, n));
    if n == 63 {
        assert(word_bit(x, 63) == word_bit(y, 63) ==> x >> 63u64 == y >> 63u64) by (bit_vector);
    } else {
        lemma_high_bits_eq(x, y, (n + 1) as u64);
        assert(x >> n == y >> n) by (bit_vector)
            requires
                n < 63,
                x >> ((n + 1) as u64) == y >> ((n + 1) as u64),
                word_bit(x, n) == word_bit(y, n),
        ;
    }
}

/// Two words with the same bits are equal.
proof fn lemma_word_ext(x: u64, y: u64)
    requires
        forall|b: u64| b < 64 ==> #[trigger] word_bit(x, b) == word_bit(y, b),
    ensures
        x == y,
{
    lemma_high_bits_eq(x, y, 0);
    assert(x >> 0u64 == x && y >> 0u64 == y) by (bit_vector);
}

/// A bloom filter over a bit space of 64-bit segments. Each key sets `k`
/// hash-derived bits; the segments touched since construction or since the
/// last drain are tracked for journaling.
pub struct BloomIndex {
    words: Vec<u64>,
    dirty: Vec<bool>,
    bits: u64,
    hash_functions: u32,
}

impl BloomIndex {
    /// The segments' bits.
    pub closed spec fn words(&self) -> Seq<u64> {
        self.words@
    }

    /// Which segments were touched since the last drain.
    pub closed spec fn dirty(&self) -> Seq<bool> {
        self.dirty@
    }

    /// How many bit positions each key sets.
    pub closed spec fn k(&self) -> u32 {
        self.hash_functions
    }

    /// The number of bits of the filter.
    pub closed spec fn nbits(&self) -> nat {
        self.bits as nat
    }

    /// The segments just cover the bit space, both sequences have one entry
    /// per segment, and the bits past the bit space are never set.
    pub open spec fn wf(&self) -> bool {
        &&& self.nbits() > 0
        &&& self.nbits() <= self.words().len() * 64
        &&& self.words().len() * 64 < self.nbits() + 64
        &&& self.dirty().len() == self.words().len()
        &&& forall|q: int|
            self.nbits() <= q < self.words().len() * 64 ==> !#[trigger] self.has_bit(q)
    }

    /// Whether bit `q` is set.
    pub open spec fn has_bit(&self, q: int) -> bool {
        word_bit(self.words()[q / 64], (q % 64) as u64)
    }

    /// Whether every position of `key` is set.
    pub open spec fn may_contain(&self, key: Seq<u8>) -> bool {
        forall|i: u32| i < self.k() ==> #[trigger] self.has_bit(position(key, i, self.nbits()))
    }

    /// The set bits and the touched segments are exactly those that the
    /// keys of `keys` give.
    pub open spec fn holds_exactly(&self, keys: Set<Seq<u8>>) -> bool {
        &&& forall|q: int|
            0 <= q < self.nbits() ==> #[trigger] self.has_bit(q) == exists|key: Seq<u8>|
                keys.contains(key) && #[trigger] key_marks(key, self.k(), self.nbits(), q)
        &&& forall|j: int|
            0 <= j < self.words().len() ==> #[trigger] self.dirty()[j] == exists|key: Seq<u8>|
                keys.contains(key) && #[trigger] key_touches(key, self.k(), self.nbits(), j)
    }

    /// An all-zero filter of `space` bytes in which each key sets
    /// `hash_functions` positions.
    pub fn new(space: usize, hash_functions: u32) -> (r: BloomIndex)
        requires
            space > 0,
            space * 8 <= u64::MAX,
        ensures
            r.wf(),
            r.nbits() == space * 8,
            r.k() == hash_functions,
            r.holds_exactly(Set::empty()),
            forall|j: int| 0 <= j < r.words().len() ==> r.words()[j] == 0 && !r.dirty()[j],
    {
        let n: usize = if space % 8 == 0 {
            space / 8
        } else {
            space / 8 + 1
        };
        let mut words: Vec<u64> = Vec::new();
        let mut dirty: Vec<bool> = Vec::new();
        let mut i: usize = 0;
        while i < n
            invariant
                i <= n,
                n == space / 8 || n == space / 8 + 1,
                words@.len() == i,
                dirty@.len() == i,
                forall|j: int| 0 <= j < i ==> words@[j] == 0 && !dirty@[j],
            decreases n - i,
        {
            words.push(0);
            dirty.push(false);
            i = i + 1;
        }
        let bits: u64 = space as u64 * 8;
        let r = BloomIndex { words, dirty, bits, hash_functions };
        assert(space * 8 <= n * 64 && n * 64 < space * 8 + 64) by (nonlinear_arith)
            requires
                space == 8 * (space / 8) + space % 8,
                0 <= space % 8 < 8,
                space % 8 == 0 ==> n == space / 8,
                space % 8 != 0 ==> n == space / 8 + 1,
        ;
        assert forall|q: int| 0 <= q < r.words().len() * 64 implies !#[trigger] r.has_bit(q) by {
            let w = r.words()[q / 64];
            let b = (q % 64) as u64;
            assert(w == 0);
            assert(!word_bit(0u64, b)) by (bit_vector);
        }
        r
    }

    /// The account bloom: the fixed space and number of positions per key.
    pub fn new_account_bloom() -> (r: BloomIndex)
        ensures
            r.wf(),
            r.nbits() == ACCOUNT_BLOOM_SPACE * 8,
            r.k() == ACCOUNT_BLOOM_HASH_FUNCTIONS,
            r.holds_exactly(Set::empty()),
            forall|j: int| 0 <= j < r.words().len() ==> r.words()[j] == 0 && !r.dirty()[j],
    {
        BloomIndex::new(ACCOUNT_BLOOM_SPACE, ACCOUNT_BLOOM_HASH_FUNCTIONS)
    }

    /// Sets bit `p` and marks its segment dirty.
    pub fn set_bit(&mut self, p: u64)
        requires
            old(self).wf(),
            p < old(self).nbits(),
        ensures
            final(self).wf(),
            final(self).words().len() == old(self).words().len(),
            final(self).k() == old(self).k(),
            final(self).nbits() == old(self).nbits(),
            forall|q: int|
                0 <= q < final(self).nbits() ==> #[trigger] final(self).has_bit(q) == (old(self).has_bit(q)
                    || q == p),
            final(self).dirty() == old(self).dirty().update(p as int / 64, true),
    {
        assert(p / 64 < self.words().len()) by (nonlinear_arith)
            requires
                p < self.words().len() * 64,
        ;
        let n: usize = self.words.len();
        assert(p / 64 < n);
        let seg: usize = (p / 64) as usize;
        let b: u64 = p % 64;
        let w = self.words[seg];
        self.words.set(seg, w | (1u64 << b));
        self.dirty.set(seg, true);
        let ghost m = self.words().len() * 64;
        assert forall|q: int| 0 <= q < m implies #[trigger] self.has_bit(q) == (old(self).has_bit(q)
            || q == p) by {
            lemma_set_bit(w, b, (q % 64) as u64);
        }
    }

    /// Whether bit `p` is set.
    pub fn get_bit(&self, p: u64) -> (r: bool)
        requires
            self.wf(),
            p < self.nbits(),
        ensures
            r == self.has_bit(p as int),
    {
        assert(p / 64 < self.words().len()) by (nonlinear_arith)
            requires
                p < self.words().len() * 64,
        ;
        let n: usize = self.words.len();
        assert(p / 64 < n);
        let seg: usize = (p / 64) as usize;
        let b: u64 = p % 64;
        let w = self.words[seg];
        (w >> b) & 1u64 == 1u64
    }

    /// Sets every position of `key`, marking their segments dirty. Setting a
    /// key twice changes nothing the second time.
    pub fn set(&mut self, key: &[u8])
        requires
            old(self).wf(),
        ensures
            final(self).wf(),
            final(self).words().len() == old(self).words().len(),
            final(self).k() == old(self).k(),
            final(self).nbits() == old(self).nbits(),
            forall|q: int|
                0 <= q < final(self).nbits() ==> #[trigger] final(self).has_bit(q) == (old(self).has_bit(q)
                    || key_marks(key@, old(self).k(), old(self).nbits(), q)),
            forall|j: int|
                0 <= j < final(self).words().len() ==> #[trigger] final(self).dirty()[j] == (
                old(self).dirty()[j] || key_touches(key@, old(self).k(), old(self).nbits(), j)),
            forall|s: Set<Seq<u8>>|
                #[trigger] old(self).holds_exactly(s) ==> final(self).holds_exactly(s.insert(key@)),
    {
        let nbits: u64 = self.bits;
        let ghost n = self.nbits();
        let ghost k = self.k();
        let mut i: u32 = 0;
        while i < self.hash_functions
            invariant
                self.wf(),
                self.words().len() == old(self).words().len(),
                self.k() == k,
                k == old(self).k(),
                nbits == n,
                self.nbits() == n,
                n == old(self).nbits(),
                i <= k,
                forall|q: int|
                    0 <= q < n ==> #[trigger] self.has_bit(q) == (old(self).has_bit(q) || exists|t: u32|
                        t < i && #[trigger] position(key@, t, n) == q),
                forall|j: int|
                    0 <= j < self.words().len() ==> #[trigger] self.dirty()[j] == (old(self).dirty()[j]
                        || exists|t: u32| t < i && #[trigger] position(key@, t, n) / 64 == j),
            decreases k - i,
        {
            let h = hash_key(i, key);
            let p: u64 = h % nbits;
            assert(p as int == position(key@, i, n));
            self.set_bit(p);
            assert forall|q: int| 0 <= q < n implies #[trigger] self.has_bit(q) == (old(self).has_bit(q)
                || exists|t: u32| t < i + 1 && #[trigger] position(key@, t, n) == q) by {
                if q == p {
                    assert(position(key@, i, n) == q);
                }
            }
            assert forall|j: int| 0 <= j < self.words().len() implies #[trigger] self.dirty()[j] == (
            old(self).dirty()[j] || exists|t: u32| t < i + 1 && #[trigger] position(key@, t, n) / 64 == j) by {
                if j == p as int / 64 {
                    assert(position(key@, i, n) / 64 == j);
                }
            }
            i = i + 1;
        }
        assert forall|s: Set<Seq<u8>>| #[trigger] old(self).holds_exactly(s) implies self.holds_exactly(
            s.insert(key@)) by {
            let s2 = s.insert(key@);
            assert forall|q: int| 0 <= q < n implies #[trigger] self.has_bit(q) == exists|x: Seq<u8>|
                s2.contains(x) && #[trigger] key_marks(x, k, n, q) by {
                if self.has_bit(q) {
                    if !old(self).has_bit(q) {
                        assert(s2.contains(key@) && key_marks(key@, k, n, q));
                    } else {
                        let x = choose|x: Seq<u8>| s.contains(x) && #[trigger] key_marks(x, k, n, q);
                        assert(s2.contains(x));
                    }
                } else {
                    assert(!key_marks(key@, k, n, q));
                }
            }
            assert forall|j: int| 0 <= j < self.words().len() implies #[trigger] self.dirty()[j]
                == exists|x: Seq<u8>| s2.contains(x) && #[trigger] key_touches(x, k, n, j) by {
                if self.dirty()[j] {
                    if !old(self).dirty()[j] {
                        assert(s2.contains(key@) && key_touches(key@, k, n, j));
                    } else {
                        let x = choose|x: Seq<u8>| s.contains(x) && #[trigger] key_touches(x, k, n, j);
                        assert(s2.contains(x));
                    }
                } else {
                    assert(!key_touches(key@, k, n, j));
                }
            }
        }
    }

    /// Whether every position of `key` is set: `false` means that `key` was
    /// never set.
    pub fn contains(&self, key: &[u8]) -> (r: bool)
        requires
            self.wf(),
        ensures
            r == self.may_contain(key@),
    {
        let nbits: u64 = self.bits;
        let mut i: u32 = 0;
        while i < self.hash_functions
            invariant
                self.wf(),
                nbits == self.nbits(),
                i <= self.k(),
                forall|t: u32| t < i ==> #[trigger] self.has_bit(position(key@, t, self.nbits())),
            decreases self.k() - i,
        {
            let h = hash_key(i, key);
            let p: u64 = h % nbits;
            assert(p as int == position(key@, i, self.nbits()));
            if !self.get_bit(p) {
                return false;
            }
            i = i + 1;
        }
        true
    }

    /// Hands out each segment touched since construction or the last drain,
    /// with its bits, by increasing index, and clears the dirty marks. The
    /// bits stay as they are.
    pub fn drain_journal(&mut self) -> (r: Vec<JournalEntry>)
        requires
            old(self).wf(),
        ensures
            final(self).wf(),
            final(self).words() == old(self).words(),
            final(self).k() == old(self).k(),
            final(self).nbits() == old(self).nbits(),
            forall|j: int| 0 <= j < final(self).words().len() ==> !#[trigger] final(self).dirty()[j],
            r@ == journal_of(old(self).words(), old(self).dirty(), old(self).words().len() as int),
    {
        let n: usize = self.dirty.len();
        let mut out: Vec<JournalEntry> = Vec::new();
        let mut j: usize = 0;
        while j < n
            invariant
                self.wf(),
                n == self.words().len(),
                self.words() == old(self).words(),
                self.k() == old(self).k(),
                old(self).wf(),
                self.nbits() == old(self).nbits(),
                j <= n,
                forall|t: int| 0 <= t < j ==> !#[trigger] self.dirty()[t],
                forall|t: int| j <= t < n ==> #[trigger] self.dirty()[t] == old(self).dirty()[t],
                out@ == journal_of(old(self).words(), old(self).dirty(), j as int),
            decreases n - j,
        {
            if self.dirty[j] {
                out.push((j, self.words[j]));
                self.dirty.set(j, false);
            }
            assert forall|q: int| self.nbits() <= q < self.words().len() * 64 implies !#[trigger] self.has_bit(
                q,
            ) by {
                assert(!old(self).has_bit(q));
            }
            j = j + 1;
        }
        out
    }
}

/// A filter that holds exactly the keys of `keys` reports
/// each of them as a possible member.
pub proof fn lemma_member_reported(b: BloomIndex, keys: Set<Seq<u8>>, key: Seq<u8>)
    requires
        b.wf(),
        b.holds_exactly(keys),
        keys.contains(key),
    ensures
        b.may_contain(key),
{
    assert forall|i: u32| i < b.k() implies #[trigger] b.has_bit(position(key, i, b.nbits())) by {
        let q = position(key, i, b.nbits());
        assert(key_marks(key, b.k(), b.nbits(), q));
    }
}

/// Two filters of the same shape that hold exactly the same set of keys
/// have the same bits, the same dirty segments and the same journal, in
/// whatever order and however often the keys were set.
pub proof fn lemma_same_keys_same_journal(a: BloomIndex, b: BloomIndex, keys: Set<Seq<u8>>)
    requires
        a.wf(),
        b.wf(),
        a.nbits() == b.nbits(),
        a.k() == b.k(),
        a.holds_exactly(keys),
        b.holds_exactly(keys),
    ensures
        a.words() == b.words(),
        a.dirty() == b.dirty(),
        a.words().len() == b.words().len(),
        journal_of(a.words(), a.dirty(), a.words().len() as int) == journal_of(
            b.words(),
            b.dirty(),
            b.words().len() as int,
        ),
{
    assert forall|j: int| 0 <= j < a.words().len() implies a.words()[j] == b.words()[j] by {
        assert forall|c: u64| c < 64 implies #[trigger] word_bit(a.words()[j], c) == word_bit(
            b.words()[j],
            c,
        ) by {
            let q = j * 64 + c;
            assert(q / 64 == j && q % 64 == c);
            assert(a.has_bit(q) == b.has_bit(q));
        }
        lemma_word_ext(a.words()[j], b.words()[j]);
    }
    assert(a.words() =~= b.words());
    assert forall|j: int| 0 <= j < a.words().len() implies a.dirty()[j] == b.dirty()[j] by {
        assert(a.nbits() == b.nbits());
        if a.dirty()[j] {
            let x = choose|x: Seq<u8>| keys.contains(x) && #[trigger] key_touches(x, a.k(), a.nbits(), j);
            assert(b.dirty()[j]);
        }
        if b.dirty()[j] {
            let x = choose|x: Seq<u8>| keys.contains(x) && #[trigger] key_touches(x, b.k(), b.nbits(), j);
            assert(a.dirty()[j]);
        }
    }
    assert(a.dirty() =~= b.dirty());
}

} // verus!
