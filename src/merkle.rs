use crate::hashing::{hash, sha256_of};
use vstd::prelude::*;

verus! {

/// Bytes in one node of a merkle tree.
pub const HASHSIZE: usize = 32;

/// Whether `n` is a power of two.
pub open spec fn is_pow2(n: nat) -> bool
    decreases n,
{
    if n == 1 {
        true
    } else if n == 0 || n % 2 == 1 {
        false
    } else {
        is_pow2(n / 2)
    }
}

/// The `i`-th 32-byte chunk of `bytes`.
pub open spec fn chunk_at(bytes: Seq<u8>, i: int) -> Seq<u8> {
    bytes.subrange(32 * i, 32 * i + 32)
}

/// Internal node `k` of a tree laid out in heap order (children of `k` at `2k+1`, `2k+2`)
/// holds the hash of its two children.
pub open spec fn node_ok(bytes: Seq<u8>, k: int) -> bool {
    chunk_at(bytes, k) == sha256_of(chunk_at(bytes, 2 * k + 1) + chunk_at(bytes, 2 * k + 2))
}

/// `bytes` is a complete merkle tree with `n_int` internal nodes followed by `n_int + 1`
/// leaves, every internal node holding the hash of its children.
pub open spec fn heap_consistent(bytes: Seq<u8>, n_int: nat) -> bool {
    &&& bytes.len() == 32 * (2 * n_int + 1)
    &&& forall|k: int| 0 <= k < n_int ==> #[trigger] node_ok(bytes, k)
}

/// `a` and `b` hold the same chunks at the leaf positions of a tree with `n_int` internal nodes.
pub open spec fn same_leaves(a: Seq<u8>, b: Seq<u8>, n_int: nat) -> bool {
    forall|i: int| n_int <= i < 2 * n_int + 1 ==> #[trigger] chunk_at(a, i) == chunk_at(b, i)
}

proof fn lemma_node_equal(a: Seq<u8>, b: Seq<u8>, n_int: nat, k: int)
    requires
        heap_consistent(a, n_int),
        heap_consistent(b, n_int),
        same_leaves(a, b, n_int),
        0 <= k < 2 * n_int + 1,
    ensures
        chunk_at(a, k) == chunk_at(b, k),
    decreases 2 * n_int + 1 - k,
{
    if k >= n_int {
        assert(chunk_at(a, k) == chunk_at(b, k));
    } else {
        lemma_node_equal(a, b, n_int, 2 * k + 1);
        lemma_node_equal(a, b, n_int, 2 * k + 2);
        assert(node_ok(a, k));
        assert(node_ok(b, k));
    }
}

/// Hash stability: two consistent trees over the same leaves agree on every node, so the
/// root does not depend on how either tree was produced.
pub proof fn lemma_root_stable(a: Seq<u8>, b: Seq<u8>, n_int: nat)
    requires
        heap_consistent(a, n_int),
        heap_consistent(b, n_int),
        same_leaves(a, b, n_int),
    ensures
        a == b,
        chunk_at(a, 0) == chunk_at(b, 0),
{
    assert forall|i: int| 0 <= i < 2 * n_int + 1 implies #[trigger] chunk_at(a, i) == chunk_at(b, i) by {
        lemma_node_equal(a, b, n_int, i);
    }
    assert forall|m: int| 0 <= m < a.len() implies a[m] == b[m] by {
        let i = m / 32;
        assert(0 <= i < 2 * n_int + 1);
        assert(chunk_at(a, i) == chunk_at(b, i));
        assert(a[m] == chunk_at(a, i)[m - 32 * i]);
        assert(b[m] == chunk_at(b, i)[m - 32 * i]);
    }
    assert(a =~= b);
}

proof fn lemma_pow2_double(a: nat, b: nat)
    requires
        is_pow2(a),
        is_pow2(b),
        a < b,
    ensures
        2 * a <= b,
    decreases a,
{
    if a != 1 {
        lemma_pow2_double(a / 2, b / 2);
    }
}

/// Two powers of two that are both the least at least `n` are equal.
pub proof fn lemma_pow2_unique(a: nat, b: nat, n: nat)
    requires
        is_pow2(a),
        is_pow2(b),
        a >= n,
        b >= n,
        a == 1 || a / 2 < n,
        b == 1 || b / 2 < n,
    ensures
        a == b,
{
    if a < b {
        lemma_pow2_double(a, b);
    } else if b < a {
        lemma_pow2_double(b, a);
    }
}

/// The least power of two that is at least `n` (one for zero).
pub fn next_power_of_two(n: usize) -> (r: usize)
    requires
        n <= usize::MAX / 2,
    ensures
        is_pow2(r as nat),
        r >= n,
        r >= 1,
        r == 1 || r / 2 < n,
        r <= 2 * n || r == 1,
{
    let mut p: usize = 1;
    while p < n
        invariant
            is_pow2(p as nat),
            p >= 1,
            p == 1 || p / 2 < n,
            n <= usize::MAX / 2,
        decreases usize::MAX - p,
    {
        assert(is_pow2((p * 2) as nat)) by {
            assert((p * 2) as nat / 2 == p as nat);
            assert(((p * 2) as nat) % 2 == 0);
        }
        p = p * 2;
    }
    p
}

/// Number of 32-byte leaves needed to hold `num_bytes`, rounded up.
pub open spec fn leaves_for(num_bytes: nat) -> nat {
    (num_bytes + 31) / 32
}

/// `bytes` extended with zeros to `n` bytes.
pub open spec fn zero_pad(bytes: Seq<u8>, n: nat) -> Seq<u8> {
    bytes + Seq::new((n - bytes.len()) as nat, |_i: int| 0u8)
}

/// `r` is `bytes` padded with zeros to a power-of-two count of whole leaves, the least that
/// holds them (one leaf for no bytes).
pub open spec fn is_sanitised(bytes: Seq<u8>, r: Seq<u8>) -> bool {
    let p = r.len() / 32;
    &&& r.len() % 32 == 0
    &&& is_pow2(p)
    &&& p >= leaves_for(bytes.len())
    &&& (p == 1 || p / 2 < leaves_for(bytes.len()))
    &&& r == zero_pad(bytes, r.len())
}

/// Pads `bytes` with zeros up to a power-of-two number of whole leaves.
pub fn sanitise_bytes(bytes: Vec<u8>) -> (r: Vec<u8>)
    requires
        bytes@.len() <= usize::MAX / 4,
    ensures
        is_sanitised(bytes@, r@),
        r@.len() <= 2 * bytes@.len() + 64,
{
    let mut bytes = bytes;
    let ghost b0 = bytes@;
    let present_leaves = num_unsanitized_leaves(bytes.len());
    let required_leaves = next_power_of_two(present_leaves);
    if (present_leaves != required_leaves) || last_leaf_needs_padding(bytes.len()) {
        bytes.resize(required_leaves * HASHSIZE, 0u8);
    }
    assert(bytes@ =~= zero_pad(b0, bytes@.len()));
    assert(bytes@.len() / 32 == required_leaves);
    bytes
}

fn last_leaf_needs_padding(num_bytes: usize) -> (r: bool)
    ensures
        r == (num_bytes % 32 != 0),
{
    num_bytes % HASHSIZE != 0
}

fn num_unsanitized_leaves(num_bytes: usize) -> (r: usize)
    requires
        num_bytes <= usize::MAX - 32,
    ensures
        r == leaves_for(num_bytes as nat),
{
    (num_bytes + HASHSIZE - 1) / HASHSIZE
}

/// The number of leaves a tree over `num_bytes` bytes has.
pub fn num_sanitized_leaves(num_bytes: usize) -> (r: usize)
    requires
        num_bytes <= usize::MAX / 4,
    ensures
        is_pow2(r as nat),
        r >= leaves_for(num_bytes as nat),
        r == 1 || r / 2 < leaves_for(num_bytes as nat),
{
    let leaves = num_unsanitized_leaves(num_bytes);
    next_power_of_two(leaves)
}

/// Appends zero chunks to `bytes` for the leaves missing between `num_leaves` and the next
/// power of two.
pub fn pad_for_leaf_count(num_leaves: usize, bytes: &mut Vec<u8>)
    requires
        num_leaves <= usize::MAX / 64,
        old(bytes)@.len() + 64 * num_leaves + 32 <= usize::MAX,
    ensures
        exists|p: nat|
            is_pow2(p) && p >= num_leaves && (p == 1 || p / 2 < num_leaves) && final(bytes)@
                == zero_pad(old(bytes)@, (old(bytes)@.len() + 32 * (p - num_leaves)) as nat),
{
    let required_leaves = next_power_of_two(num_leaves);
    let ghost b0 = bytes@;
    assert((required_leaves - num_leaves) * 32 <= 32 * num_leaves + 32) by (nonlinear_arith)
        requires
            required_leaves <= 2 * num_leaves || required_leaves == 1,
            required_leaves >= num_leaves,
            required_leaves == 1 ==> num_leaves <= 1,
    ;
    let new_len = bytes.len() + (required_leaves - num_leaves) * HASHSIZE;
    bytes.resize(new_len, 0u8);
    assert(bytes@ =~= zero_pad(b0, new_len as nat));
    assert(is_pow2(required_leaves as nat));
}

/// Copies `len` bytes of `src` starting at `start`.
pub fn copy_range(src: &Vec<u8>, start: usize, len: usize) -> (r: Vec<u8>)
    requires
        start + len <= src@.len(),
    ensures
        r@ == src@.subrange(start as int, start + len),
{
    let mut r: Vec<u8> = Vec::with_capacity(len);
    let n = src.len();
    let mut k: usize = 0;
    while k < len
        invariant
            k <= len,
            n == src@.len(),
            start + len <= src@.len(),
            r@ =~= src@.subrange(start as int, start + k),
        decreases len - k,
    {
        r.push(src[start + k]);
        k = k + 1;
    }
    r
}

/// Overwrites `dst[start..start + src.len()]` with `src`.
pub fn write_range(dst: &mut Vec<u8>, start: usize, src: &Vec<u8>)
    requires
        start + src@.len() <= old(dst)@.len(),
    ensures
        final(dst)@.len() == old(dst)@.len(),
        final(dst)@ == old(dst)@.subrange(0, start as int) + src@ + old(dst)@.subrange(
            start + src@.len(),
            old(dst)@.len() as int,
        ),
{
    let ghost d0 = dst@;
    let n = dst.len();
    let mut k: usize = 0;
    while k < src.len()
        invariant
            n == d0.len(),
            k <= src@.len(),
            start + src@.len() <= d0.len(),
            dst@.len() == d0.len(),
            forall|m: int| 0 <= m < start ==> dst@[m] == d0[m],
            forall|m: int| start + src@.len() <= m < d0.len() ==> dst@[m] == d0[m],
            forall|m: int| start <= m < start + k ==> dst@[m] == src@[m - start],
            forall|m: int| start + k <= m < start + src@.len() ==> dst@[m] == d0[m],
        decreases src@.len() - k,
    {
        dst.set(start + k, src[k]);
        k = k + 1;
    }
    assert(dst@ =~= d0.subrange(0, start as int) + src@ + d0.subrange(
        start + src@.len(),
        d0.len() as int,
    ));
}

/// The tree that `merkleize` builds over the sanitised `leaf_bytes`: `r` is consistent and
/// its leaves are `leaf_bytes` in order.
pub open spec fn is_merkle_tree_of(leaf_bytes: Seq<u8>, r: Seq<u8>) -> bool {
    let n_leaves = leaf_bytes.len() / 32;
    &&& n_leaves >= 1
    &&& heap_consistent(r, (n_leaves - 1) as nat)
    &&& r.subrange(32 * (n_leaves - 1), r.len() as int) == leaf_bytes
}

/// Splits `values` into a power-of-two number of zero-padded 32-byte leaves and returns the
/// whole merkle tree over them, internal nodes first; the root is its first chunk.
pub fn merkleize(values: Vec<u8>) -> (r: Vec<u8>)
    requires
        values@.len() <= usize::MAX / 8,
    ensures
        exists|s: Seq<u8>| is_sanitised(values@, s) && is_merkle_tree_of(s, r@),
{
    let values = sanitise_bytes(values);
    let ghost s = values@;
    let leaves = values.len() / HASHSIZE;
    let n_int = leaves - 1;
    let mut o: Vec<u8> = vec![0u8; n_int * HASHSIZE];
    let mut vals = values;
    o.append(&mut vals);
    assert(o@.subrange(32 * n_int, o@.len() as int) =~= s);
    let total = o.len();
    let mut i: usize = total;
    let mut j: usize = n_int * HASHSIZE;
    while i >= 64
        invariant
            total == o@.len(),
            total == 32 * (2 * n_int + 1),
            i == 32 * (2 * (j / 32) + 1),
            j % 32 == 0,
            j <= 32 * n_int,
            o@.subrange(32 * n_int, total as int) == s,
            forall|k: int| j / 32 <= k < n_int ==> #[trigger] node_ok(o@, k),
        decreases i,
    {
        i = i - 64;
        let pair = copy_range(&o, i, 64);
        let h = hash(pair.as_slice());
        j = j - 32;
        let ghost before = o@;
        write_range(&mut o, j, &h);
        proof {
            let jj = (j / 32) as int;
            assert(i == 32 * (2 * jj + 1));
            assert forall|m: int| jj + 1 <= m < total / 32 implies #[trigger] chunk_at(o@, m)
                == chunk_at(before, m) by {
                assert(chunk_at(o@, m) =~= chunk_at(before, m));
            }
            assert(chunk_at(before, 2 * jj + 1) + chunk_at(before, 2 * jj + 2) =~= pair@);
            assert(chunk_at(o@, jj) =~= h@);
            assert forall|k: int| jj <= k < n_int implies #[trigger] node_ok(o@, k) by {
                if k > jj {
                    assert(node_ok(before, k));
                }
            }
            assert(o@.subrange(32 * n_int, total as int) =~= before.subrange(32 * n_int, total as int));
        }
    }
    o
}

} // verus!
