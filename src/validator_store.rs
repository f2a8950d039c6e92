use crate::merkle::copy_range;
use crate::tree_hash_cache::bytes_equal;
use vstd::prelude::*;

verus! {

/// Column holding validator data.
pub const VALIDATOR_DB_COLUMN: u8 = 1;

/// Bytes of a compressed public key.
pub const PUBLIC_KEY_BYTES: usize = 48;

#[derive(Debug, PartialEq, Eq, Clone, Copy, Structural)]
pub enum StoreError {
    DBError,
    DecodeError,
}

/// A validator's public key in compressed form.
#[derive(Debug, Clone, PartialEq, Eq)]
pub struct PublicKey {
    pub bytes: Vec<u8>,
}

impl PublicKey {
    /// A key from its compressed bytes; only 48 bytes can be a key.
    pub fn from_bytes(bytes: &[u8]) -> (r: Result<PublicKey, StoreError>)
        ensures
            bytes@.len() != 48 <==> r == Err::<PublicKey, StoreError>(StoreError::DecodeError),
            bytes@.len() == 48 ==> r is Ok,
            r is Ok ==> r->Ok_0.bytes@ == bytes@,
    {
        if bytes.len() != PUBLIC_KEY_BYTES {
            return Err(StoreError::DecodeError);
        }
        let mut v: Vec<u8> = Vec::new();
        let mut k: usize = 0;
        while k < bytes.len()
            invariant
                k <= bytes@.len(),
                v@ =~= bytes@.subrange(0, k as int),
            decreases bytes@.len() - k,
        {
            v.push(bytes[k]);
            k = k + 1;
        }
        Ok(PublicKey { bytes: v })
    }

    /// The compressed bytes of the key.
    pub fn as_bytes(&self) -> (r: Vec<u8>)
        ensures
            r@ == self.bytes@,
    {
        let r = copy_range(&self.bytes, 0, self.bytes.len());
        assert(self.bytes@.subrange(0, self.bytes@.len() as int) =~= self.bytes@);
        r
    }
}

/// An in-memory key-value store partitioned by column.
pub struct MemoryDB {
    pub entries: Vec<(u8, Vec<u8>, Vec<u8>)>,
}

/// The value stored under `key` in `column`: the latest write wins.
pub open spec fn db_lookup(entries: Seq<(u8, Vec<u8>, Vec<u8>)>, column: u8, key: Seq<u8>) -> Option<Seq<u8>>
    decreases entries.len(),
{
    if entries.len() == 0 {
        None
    } else if entries.last().0 == column && entries.last().1@ == key {
        Some(entries.last().2@)
    } else {
        db_lookup(entries.drop_last(), column, key)
    }
}

impl MemoryDB {
    pub fn open() -> (r: Self)
        ensures
            r.entries@.len() == 0,
    {
        MemoryDB { entries: Vec::new() }
    }

    /// Stores `value` under `key` in `column`.
    pub fn put(&mut self, column: u8, key: &[u8], value: &[u8]) -> (r: Result<(), StoreError>)
        ensures
            r is Ok,
            forall|c: u8, k: Seq<u8>| #[trigger] db_lookup(final(self).entries@, c, k) == if c == column && k == key@ {
                Some(value@)
            } else {
                db_lookup(old(self).entries@, c, k)
            },
    {
        let kv = slice_copy(key);
        let vv = slice_copy(value);
        let ghost before = self.entries@;
        self.entries.push((column, kv, vv));
        assert(self.entries@.drop_last() =~= before);
        Ok(())
    }

    /// The value stored under `key` in `column`, if any.
    pub fn get(&self, column: u8, key: &[u8]) -> (r: Result<Option<Vec<u8>>, StoreError>)
        ensures
            r is Ok,
            match db_lookup(self.entries@, column, key@) {
                None => r->Ok_0 is None,
                Some(v) => r->Ok_0 is Some && r->Ok_0->Some_0@ == v,
            },
    {
        let mut k: usize = self.entries.len();
        assert(self.entries@.subrange(0, k as int) =~= self.entries@);
        while k > 0
            invariant
                k <= self.entries@.len(),
                db_lookup(self.entries@, column, key@) == db_lookup(self.entries@.subrange(0, k as int), column, key@),
            decreases k,
        {
            let e = &self.entries[k - 1];
            assert(self.entries@.subrange(0, k as int).drop_last() =~= self.entries@.subrange(0, k - 1));
            if e.0 == column && bytes_equal(&e.1, key) {
                return Ok(Some(copy_range(&e.2, 0, e.2.len())));
            }
            k = k - 1;
        }
        Ok(None)
    }
}

/// A copy of `s`.
fn slice_copy(s: &[u8]) -> (r: Vec<u8>)
    ensures
        r@ == s@,
{
    let mut v: Vec<u8> = Vec::new();
    let mut k: usize = 0;
    while k < s.len()
        invariant
            k <= s@.len(),
            v@ =~= s@.subrange(0, k as int),
        decreases s@.len() - k,
    {
        v.push(s[k]);
        k = k + 1;
    }
    v
}

/// The big-endian bytes of `n`.
pub open spec fn be_bytes8(n: u64) -> Seq<u8> {
    Seq::new(8, |k: int| ((n >> (8 * (7 - k)) as u64) & 0xff) as u8)
}

/// The key under which validator `index`'s public key is stored: `pubkey` then the index as
/// eight big-endian bytes.
pub open spec fn public_key_db_key(index: u64) -> Seq<u8> {
    seq![112u8, 117u8, 98u8, 107u8, 101u8, 121u8] + be_bytes8(index)
}

/// Public keys of validators, stored by index.
pub struct ValidatorStore {
    pub db: MemoryDB,
}

impl ValidatorStore {
    pub fn new(db: MemoryDB) -> (r: Self)
        ensures
            r.db.entries@ == db.entries@,
    {
        ValidatorStore { db }
    }

    /// The database key for validator `index`'s public key.
    pub fn get_db_key_for_index(&self, index: usize) -> (r: Vec<u8>)
        ensures
            r@ == public_key_db_key(index as u64),
    {
        let mut buf: Vec<u8> = vec![112u8, 117u8, 98u8, 107u8, 101u8, 121u8];
        let n = index as u64;
        let mut k: u64 = 0;
        while k < 8
            invariant
                k <= 8,
                n == index as u64,
                buf@.len() == 6 + k,
                buf@.subrange(0, 6) =~= seq![112u8, 117u8, 98u8, 107u8, 101u8, 121u8],
                forall|m: int| 0 <= m < k ==> buf@[6 + m] == be_bytes8(n)[m],
            decreases 8 - k,
        {
            buf.push(((n >> (8 * (7 - k))) & 0xff) as u8);
            k = k + 1;
        }
        assert(buf@ =~= public_key_db_key(index as u64));
        buf
    }

    /// Stores the public key of validator `index`.
    pub fn put_public_key_by_index(&mut self, index: usize, public_key: &PublicKey) -> (r: Result<(), StoreError>)
        ensures
            r is Ok,
            forall|c: u8, k: Seq<u8>| #[trigger] db_lookup(final(self).db.entries@, c, k) == if c == VALIDATOR_DB_COLUMN && k == public_key_db_key(index as u64) {
                Some(public_key.bytes@)
            } else {
                db_lookup(old(self).db.entries@, c, k)
            },
    {
        let key = self.get_db_key_for_index(index);
        let val = public_key.as_bytes();
        self.db.put(VALIDATOR_DB_COLUMN, key.as_slice(), val.as_slice())
    }

    /// The public key of validator `index`: `None` if none is stored, `DecodeError` if the
    /// stored bytes are not a key.
    pub fn get_public_key_by_index(&self, index: usize) -> (r: Result<Option<PublicKey>, StoreError>)
        ensures
            match db_lookup(self.db.entries@, VALIDATOR_DB_COLUMN, public_key_db_key(index as u64)) {
                None => r == Ok::<Option<PublicKey>, StoreError>(None),
                Some(v) => if v.len() != 48 {
                    r == Err::<Option<PublicKey>, StoreError>(StoreError::DecodeError)
                } else {
                    r is Ok && r->Ok_0 is Some && r->Ok_0->Some_0.bytes@ == v
                },
            },
    {
        let key = self.get_db_key_for_index(index);
        let ks = key.as_slice();
        assert(ks@ == public_key_db_key(index as u64));
        let val = match self.db.get(VALIDATOR_DB_COLUMN, ks) {
            Err(e) => return Err(e),
            Ok(v) => v,
        };
        match val {
            None => Ok(None),
            Some(val) => match PublicKey::from_bytes(val.as_slice()) {
                Ok(key) => Ok(Some(key)),
                Err(_) => Err(StoreError::DecodeError),
            },
        }
    }
}

} // verus!
