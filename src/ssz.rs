use crate::types::{Fork, Hash256};
use vstd::prelude::*;

verus! {

#[derive(Debug, PartialEq, Eq, Clone, Copy, Structural)]
pub enum DecodeError {
    TooShort,
    TooLong,
    Invalid,
}

/// `b` holds the bytes `e` at position `i`.
pub open spec fn holds(b: Seq<u8>, i: int, e: Seq<u8>) -> bool {
    0 <= i && i + e.len() <= b.len() && b.subrange(i, i + e.len()) == e
}

/// Bytes holding `x + y` hold `x`, then `y` right after it.
pub proof fn lemma_holds_concat(b: Seq<u8>, i: int, x: Seq<u8>, y: Seq<u8>)
    requires
        holds(b, i, x + y),
    ensures
        holds(b, i, x),
        holds(b, i + x.len(), y),
{
    let w = b.subrange(i, i + (x + y).len());
    assert(w == x + y);
    assert(b.subrange(i, i + x.len()) =~= w.subrange(0, x.len() as int));
    assert(w.subrange(0, x.len() as int) =~= x);
    assert(b.subrange(i + x.len(), i + x.len() + y.len()) =~= w.subrange(x.len() as int, w.len() as int));
    assert(w.subrange(x.len() as int, w.len() as int) =~= y);
}

/// The eight little-endian bytes of `n`.
pub open spec fn enc_u64(n: u64) -> Seq<u8> {
    Seq::new(8, |k: int| ((n >> (8 * k) as u64) & 0xff) as u8)
}

/// The integer whose little-endian bytes are `b[0..8]`.
pub open spec fn le_value(b: Seq<u8>) -> u64 {
    (b[0] as u64) | ((b[1] as u64) << 8u64) | ((b[2] as u64) << 16u64) | ((b[3] as u64) << 24u64)
        | ((b[4] as u64) << 32u64) | ((b[5] as u64) << 40u64) | ((b[6] as u64) << 48u64) | ((b[7] as u64) << 56u64)
}

/// Round trip for integers: reading back the bytes of `n` gives `n`, and the bytes of what is
/// read are the bytes read.
pub proof fn lemma_u64_round_trip(n: u64)
    ensures
        le_value(enc_u64(n)) == n,
{
    let b = enc_u64(n);
    let (b0, b1, b2, b3, b4, b5, b6, b7) = (b[0], b[1], b[2], b[3], b[4], b[5], b[6], b[7]);
    assert(b0 == ((n >> 0u64) & 0xff) as u8);
    assert(b1 == ((n >> 8u64) & 0xff) as u8);
    assert(b2 == ((n >> 16u64) & 0xff) as u8);
    assert(b3 == ((n >> 24u64) & 0xff) as u8);
    assert(b4 == ((n >> 32u64) & 0xff) as u8);
    assert(b5 == ((n >> 40u64) & 0xff) as u8);
    assert(b6 == ((n >> 48u64) & 0xff) as u8);
    assert(b7 == ((n >> 56u64) & 0xff) as u8);
    assert(((((n >> 0u64) & 0xff) as u8) as u64) | (((((n >> 8u64) & 0xff) as u8) as u64) << 8u64) | (((((n >> 16u64) & 0xff) as u8) as u64) << 16u64)
        | (((((n >> 24u64) & 0xff) as u8) as u64) << 24u64) | (((((n >> 32u64) & 0xff) as u8) as u64) << 32u64)
        | (((((n >> 40u64) & 0xff) as u8) as u64) << 40u64) | (((((n >> 48u64) & 0xff) as u8) as u64) << 48u64)
        | (((((n >> 56u64) & 0xff) as u8) as u64) << 56u64) == n) by (bit_vector);
}

proof fn lemma_u64_decode_exact(b: Seq<u8>)
    requires
        b.len() == 8,
    ensures
        enc_u64(le_value(b)) == b,
{
    let (b0, b1, b2, b3, b4, b5, b6, b7) = (b[0], b[1], b[2], b[3], b[4], b[5], b[6], b[7]);
    let v = le_value(b);
    assert(v == (b0 as u64) | ((b1 as u64) << 8u64) | ((b2 as u64) << 16u64) | ((b3 as u64) << 24u64)
        | ((b4 as u64) << 32u64) | ((b5 as u64) << 40u64) | ((b6 as u64) << 48u64) | ((b7 as u64) << 56u64));
    assert((((v >> 0u64) & 0xff) as u8) == b0 && (((v >> 8u64) & 0xff) as u8) == b1 && (((v >> 16u64) & 0xff) as u8) == b2
        && (((v >> 24u64) & 0xff) as u8) == b3 && (((v >> 32u64) & 0xff) as u8) == b4 && (((v >> 40u64) & 0xff) as u8) == b5
        && (((v >> 48u64) & 0xff) as u8) == b6 && (((v >> 56u64) & 0xff) as u8) == b7) by (bit_vector)
        requires
            v == (b0 as u64) | ((b1 as u64) << 8u64) | ((b2 as u64) << 16u64) | ((b3 as u64) << 24u64)
                | ((b4 as u64) << 32u64) | ((b5 as u64) << 40u64) | ((b6 as u64) << 48u64) | ((b7 as u64) << 56u64),
    ;
    assert(enc_u64(v) =~= b);
}

/// Appends the bytes of `n`.
pub fn append_u64(out: &mut Vec<u8>, n: u64)
    ensures
        final(out)@ == old(out)@ + enc_u64(n),
{
    let ghost before = out@;
    let mut k: u64 = 0;
    while k < 8
        invariant
            k <= 8,
            out@.len() == before.len() + k,
            out@.subrange(0, before.len() as int) == before,
            forall|m: int| 0 <= m < k ==> out@[before.len() + m] == enc_u64(n)[m],
        decreases 8 - k,
    {
        out.push(((n >> (8 * k)) & 0xff) as u8);
        k = k + 1;
    }
    assert(out@ =~= before + enc_u64(n));
}

/// Reads an integer at `i`.
pub fn decode_u64(bytes: &[u8], i: usize) -> (r: Result<(u64, usize), DecodeError>)
    ensures
        i + 8 > bytes@.len() <==> r == Err::<(u64, usize), DecodeError>(DecodeError::TooShort),
        i + 8 <= bytes@.len() ==> r is Ok,
        r is Ok ==> r->Ok_0.1 == i + 8 && enc_u64(r->Ok_0.0) == bytes@.subrange(i as int, i + 8)
            && r->Ok_0.0 == le_value(bytes@.subrange(i as int, i + 8)),
        forall|n: u64| #[trigger] holds(bytes@, i as int, enc_u64(n)) ==> r == Ok::<(u64, usize), DecodeError>((n, (i + 8) as usize)),
{
    if bytes.len() < 8 || i > bytes.len() - 8 {
        return Err(DecodeError::TooShort);
    }
    let b = bytes;
    let v = (b[i] as u64) | ((b[i + 1] as u64) << 8u64) | ((b[i + 2] as u64) << 16u64) | ((b[i + 3] as u64) << 24u64)
        | ((b[i + 4] as u64) << 32u64) | ((b[i + 5] as u64) << 40u64) | ((b[i + 6] as u64) << 48u64) | ((b[i + 7] as u64) << 56u64);
    proof {
        let s = bytes@.subrange(i as int, i + 8);
        assert(s[0] == b@[i as int] && s[1] == b@[i + 1] && s[2] == b@[i + 2] && s[3] == b@[i + 3]);
        assert(s[4] == b@[i + 4] && s[5] == b@[i + 5] && s[6] == b@[i + 6] && s[7] == b@[i + 7]);
        lemma_u64_decode_exact(s);
        assert forall|n: u64| #[trigger] holds(bytes@, i as int, enc_u64(n)) implies v == n by {
            lemma_u64_round_trip(n);
        }
    }
    Ok((v, i + 8))
}

/// Appends the 32 bytes of `h`.
pub fn append_hash(out: &mut Vec<u8>, h: &Hash256)
    ensures
        final(out)@ == old(out)@ + h@,
{
    let ghost before = out@;
    let mut k: usize = 0;
    while k < 32
        invariant
            k <= 32,
            h@.len() == 32,
            out@ =~= before + h@.subrange(0, k as int),
        decreases 32 - k,
    {
        out.push(h[k]);
        k = k + 1;
    }
    assert(h@.subrange(0, 32) =~= h@);
}

/// Reads a hash at `i`.
pub fn decode_hash(bytes: &[u8], i: usize) -> (r: Result<(Hash256, usize), DecodeError>)
    ensures
        i + 32 > bytes@.len() <==> r == Err::<(Hash256, usize), DecodeError>(DecodeError::TooShort),
        i + 32 <= bytes@.len() ==> r is Ok,
        r is Ok ==> r->Ok_0.1 == i + 32 && r->Ok_0.0@ == bytes@.subrange(i as int, i + 32),
        forall|h: Hash256| #[trigger] holds(bytes@, i as int, h@) ==> r == Ok::<(Hash256, usize), DecodeError>((h, (i + 32) as usize)),
{
    if bytes.len() < 32 || i > bytes.len() - 32 {
        return Err(DecodeError::TooShort);
    }
    let mut h: Hash256 = [0u8; 32];
    let n = bytes.len();
    let mut k: usize = 0;
    while k < 32
        invariant
            k <= 32,
            n == bytes@.len(),
            i + 32 <= bytes@.len(),
            h@.len() == 32,
            forall|m: int| 0 <= m < k ==> h@[m] == bytes@[i + m],
        decreases 32 - k,
    {
        h.set(k, bytes[i + k]);
        k = k + 1;
    }
    assert(h@ =~= bytes@.subrange(i as int, i + 32));
    assert forall|g: Hash256| #[trigger] holds(bytes@, i as int, g@) implies h == g by {
        assert(h =~= g);
    }
    Ok((h, i + 32))
}

/// The encoding of a fork: its three fields in order.
pub open spec fn enc_fork(f: Fork) -> Seq<u8> {
    enc_u64(f.previous_version) + enc_u64(f.current_version) + enc_u64(f.epoch)
}

/// The fork read from the 24 bytes `b`.
pub open spec fn dec_fork(b: Seq<u8>) -> Fork {
    Fork {
        previous_version: le_value(b.subrange(0, 8)),
        current_version: le_value(b.subrange(8, 16)),
        epoch: le_value(b.subrange(16, 24)),
    }
}

/// Round trip for forks: reading back the encoding of `f` gives `f`.
pub proof fn lemma_fork_round_trip(f: Fork)
    ensures
        dec_fork(enc_fork(f)) == f,
{
    let e = enc_fork(f);
    assert(e.subrange(0, 8) =~= enc_u64(f.previous_version));
    assert(e.subrange(8, 16) =~= enc_u64(f.current_version));
    assert(e.subrange(16, 24) =~= enc_u64(f.epoch));
    lemma_u64_round_trip(f.previous_version);
    lemma_u64_round_trip(f.current_version);
    lemma_u64_round_trip(f.epoch);
}

impl Fork {
    /// Appends the encoding of the fork.
    pub fn ssz_append(&self, out: &mut Vec<u8>)
        ensures
            final(out)@ == old(out)@ + enc_fork(*self),
    {
        append_u64(out, self.previous_version);
        append_u64(out, self.current_version);
        append_u64(out, self.epoch);
        assert(out@ =~= old(out)@ + enc_fork(*self));
    }

    /// Reads a fork at `i`.
    pub fn ssz_decode(bytes: &[u8], i: usize) -> (r: Result<(Fork, usize), DecodeError>)
        ensures
            i + 24 > bytes@.len() <==> r == Err::<(Fork, usize), DecodeError>(DecodeError::TooShort),
            i + 24 <= bytes@.len() ==> r is Ok,
            r is Ok ==> r->Ok_0.1 == i + 24 && enc_fork(r->Ok_0.0) == bytes@.subrange(i as int, i + 24)
                && r->Ok_0.0 == dec_fork(bytes@.subrange(i as int, i + 24)),
            forall|f: Fork| #[trigger] holds(bytes@, i as int, enc_fork(f)) ==> r == Ok::<(Fork, usize), DecodeError>((f, (i + 24) as usize)),
    {
        if bytes.len() < 24 || i > bytes.len() - 24 {
            return Err(DecodeError::TooShort);
        }
        let (previous_version, j) = match decode_u64(bytes, i) {
            Ok(x) => x,
            Err(e) => return Err(e),
        };
        let (current_version, j) = match decode_u64(bytes, j) {
            Ok(x) => x,
            Err(e) => return Err(e),
        };
        let (epoch, j) = match decode_u64(bytes, j) {
            Ok(x) => x,
            Err(e) => return Err(e),
        };
        let f = Fork { previous_version, current_version, epoch };
        proof {
            let s = bytes@.subrange(i as int, i + 24);
            assert(s.subrange(0, 8) =~= bytes@.subrange(i as int, i + 8));
            assert(s.subrange(8, 16) =~= bytes@.subrange(i + 8, i + 16));
            assert(s.subrange(16, 24) =~= bytes@.subrange(i + 16, i + 24));
            assert(enc_fork(f) =~= s);
            assert forall|g: Fork| #[trigger] holds(bytes@, i as int, enc_fork(g)) implies f == g by {
                lemma_fork_round_trip(g);
            }
        }
        Ok((f, j))
    }

    /// The tree-hash root of the fork: the hash of its encoding.
    pub fn hash_tree_root_internal(&self) -> (r: Vec<u8>)
        ensures
            r@ == crate::hashing::sha256_of(enc_fork(*self)),
            r@.len() == 32,
    {
        let mut out: Vec<u8> = Vec::new();
        self.ssz_append(&mut out);
        assert(out@ =~= enc_fork(*self));
        crate::hashing::hash(out.as_slice())
    }
}

/// Encodes a fork.
pub fn ssz_encode_fork(f: &Fork) -> (r: Vec<u8>)
    ensures
        r@ == enc_fork(*f),
{
    let mut out: Vec<u8> = Vec::new();
    f.ssz_append(&mut out);
    assert(out@ =~= enc_fork(*f));
    out
}

} // verus!
