use crate::hashing::{hash, int_to_bytes32, le_bytes32, sha256_of};
use vstd::prelude::*;

verus! {

broadcast use {vstd::seq_lib::group_to_multiset_ensures, vstd::multiset::group_multiset_axioms};

/// The number drawn for position `i` of a shuffle keyed by `seed`: the first four bytes, read
/// big-endian, of the hash of `seed` followed by `i` as 32 little-endian bytes.
pub open spec fn rand_at(seed: Seq<u8>, i: nat) -> u64 {
    let h = sha256_of(seed + le_bytes32(i as u64));
    ((h[0] as u64) * 16777216 + (h[1] as u64) * 65536 + (h[2] as u64) * 256 + (h[3] as u64)) as u64
}

/// `s` with the elements at `i` and `j` exchanged.
pub open spec fn swap_at<T>(s: Seq<T>, i: int, j: int) -> Seq<T> {
    s.update(i, s[j]).update(j, s[i])
}

/// Fisher-Yates from position `i` on: position `i` takes the element at
/// `i + rand_at(seed, i) % (len - i)`.
pub open spec fn shuffle_from(seed: Seq<u8>, s: Seq<usize>, i: nat) -> Seq<usize>
    decreases s.len() - i,
{
    if i + 1 >= s.len() {
        s
    } else {
        let j = i + (rand_at(seed, i) as int) % (s.len() - i);
        shuffle_from(seed, swap_at(s, i as int, j), i + 1)
    }
}

/// The shuffle of `s` keyed by `seed`.
pub open spec fn shuffle_spec(seed: Seq<u8>, s: Seq<usize>) -> Seq<usize> {
    shuffle_from(seed, s, 0)
}

proof fn lemma_swap_multiset<T>(s: Seq<T>, i: int, j: int)
    requires
        0 <= i < s.len(),
        0 <= j < s.len(),
    ensures
        swap_at(s, i, j).to_multiset() == s.to_multiset(),
        swap_at(s, i, j).len() == s.len(),
{
    broadcast use vstd::seq_lib::to_multiset_update;

    let s1 = s.update(i, s[j]);
    assert(s1.to_multiset() == s.to_multiset().insert(s[j]).remove(s[i]));
    assert(s1[j] == (if i == j { s[j] } else { s[j] }));
    assert(s1.update(j, s[i]).to_multiset() == s1.to_multiset().insert(s[i]).remove(s1[j]));
    assert(s1.update(j, s[i]).to_multiset() =~= s.to_multiset());
}

/// A shuffle only reorders: it keeps every element with its multiplicity.
pub proof fn lemma_shuffle_permutes(seed: Seq<u8>, s: Seq<usize>, i: nat)
    ensures
        shuffle_from(seed, s, i).to_multiset() == s.to_multiset(),
        shuffle_from(seed, s, i).len() == s.len(),
    decreases s.len() - i,
{
    if i + 1 < s.len() {
        let j = i + (rand_at(seed, i) as int) % (s.len() - i);
        lemma_swap_multiset(s, i as int, j);
        lemma_shuffle_permutes(seed, swap_at(s, i as int, j), i + 1);
    }
}

/// Draws the number for position `i` of a shuffle keyed by `seed`.
fn rand_value(seed: &Vec<u8>, i: usize) -> (r: u64)
    requires
        i <= u64::MAX,
    ensures
        r == rand_at(seed@, i as nat),
        r < 0x1_0000_0000,
{
    let mut input: Vec<u8> = Vec::new();
    let mut k: usize = 0;
    while k < seed.len()
        invariant
            k <= seed@.len(),
            input@ =~= seed@.subrange(0, k as int),
        decreases seed@.len() - k,
    {
        input.push(seed[k]);
        k = k + 1;
    }
    let mut idx = int_to_bytes32(i as u64);
    input.append(&mut idx);
    assert(input@ =~= seed@ + le_bytes32(i as u64));
    let h = hash(input.as_slice());
    (h[0] as u64) * 16777216 + (h[1] as u64) * 65536 + (h[2] as u64) * 256 + (h[3] as u64)
}

/// Shuffles `list` deterministically, keyed by `seed`.
pub fn shuffle(seed: &Vec<u8>, list: Vec<usize>) -> (r: Vec<usize>)
    ensures
        r@ == shuffle_spec(seed@, list@),
        r@.to_multiset() == list@.to_multiset(),
        r@.len() == list@.len(),
{
    let mut list = list;
    let ghost orig = list@;
    let n = list.len();
    let mut i: usize = 0;
    proof {
        lemma_shuffle_permutes(seed@, orig, 0);
    }
    while n > 0 && i < n - 1
        invariant
            n == list@.len(),
            n == orig.len(),
            i <= n,
            shuffle_from(seed@, list@, i as nat) == shuffle_spec(seed@, orig),
            list@.to_multiset() == orig.to_multiset(),
        decreases n - i,
    {
        let x = rand_value(seed, i);
        let j = i + (x as usize) % (n - i);
        let ghost before = list@;
        let a = list[i];
        let b = list[j];
        list.set(i, b);
        list.set(j, a);
        proof {
            assert(list@ == swap_at(before, i as int, j as int));
            lemma_swap_multiset(before, i as int, j as int);
        }
        i = i + 1;
    }
    list
}

/// Start of part `k` when `len` elements are cut into `n` parts of near-equal size.
pub open spec fn part_start(len: nat, n: nat, k: nat) -> nat {
    (k * len / n) as nat
}

/// `s` cut into `n` consecutive parts whose sizes differ by at most one.
pub open spec fn split_spec(s: Seq<usize>, n: nat) -> Seq<Seq<usize>> {
    Seq::new(n, |k: int| s.subrange(part_start(s.len(), n, k as nat) as int, part_start(s.len(), n, (k + 1) as nat) as int))
}

/// The parts of `cs` placed end to end.
pub open spec fn concat_all(cs: Seq<Seq<usize>>) -> Seq<usize>
    decreases cs.len(),
{
    if cs.len() == 0 {
        Seq::empty()
    } else {
        concat_all(cs.drop_last()) + cs.last()
    }
}

pub proof fn lemma_part_bounds(len: nat, n: nat, k: nat)
    requires
        n > 0,
        k < n,
    ensures
        part_start(len, n, k) <= part_start(len, n, k + 1) <= len,
{
    assert(k * len <= (k + 1) * len) by (nonlinear_arith);
    assert((k * len) / n <= ((k + 1) * len) / n) by (nonlinear_arith)
        requires
            k * len <= (k + 1) * len,
            n > 0,
    ;
    assert((k + 1) * len <= n * len) by (nonlinear_arith)
        requires
            k < n,
    ;
    assert(((k + 1) * len) / n <= (n * len) / n) by (nonlinear_arith)
        requires
            (k + 1) * len <= n * len,
            n > 0,
    ;
    assert((n * len) / n == len) by (nonlinear_arith)
        requires
            n > 0,
    ;
}

proof fn lemma_split_prefix(s: Seq<usize>, n: nat, m: nat)
    requires
        n > 0,
        m <= n,
    ensures
        concat_all(split_spec(s, n).subrange(0, m as int)) == s.subrange(0, part_start(s.len(), n, m) as int),
    decreases m,
{
    let parts = split_spec(s, n);
    if m == 0 {
        assert(parts.subrange(0, 0) =~= Seq::<Seq<usize>>::empty());
        assert(0 * s.len() / n == 0) by (nonlinear_arith)
            requires
                n > 0,
        ;
        assert(s.subrange(0, 0) =~= Seq::<usize>::empty());
    } else {
        lemma_split_prefix(s, n, (m - 1) as nat);
        lemma_part_bounds(s.len(), n, (m - 1) as nat);
        let pre = parts.subrange(0, m as int);
        assert(pre.drop_last() =~= parts.subrange(0, m - 1));
        assert(pre.last() == parts[m - 1]);
        assert(s.subrange(0, part_start(s.len(), n, (m - 1) as nat) as int) + parts[m - 1] =~= s.subrange(
            0,
            part_start(s.len(), n, m) as int,
        ));
    }
}

/// Cutting and rejoining gives back the sequence.
pub proof fn lemma_split_concat(s: Seq<usize>, n: nat)
    requires
        n > 0,
    ensures
        concat_all(split_spec(s, n)) == s,
{
    lemma_split_prefix(s, n, n);
    assert(split_spec(s, n).subrange(0, n as int) =~= split_spec(s, n));
    assert((n * s.len()) / n == s.len()) by (nonlinear_arith)
        requires
            n > 0,
    ;
    assert(s.subrange(0, s.len() as int) =~= s);
}

proof fn lemma_div_step(a: int, l: int, n: int)
    requires
        n > 0,
        a >= 0,
        l >= 0,
    ensures
        l / n <= (a + l) / n - a / n <= l / n + 1,
{
    let qa = a / n;
    let ra = a % n;
    let ql = l / n;
    let rl = l % n;
    assert(a == n * qa + ra && 0 <= ra < n) by (nonlinear_arith)
        requires
            n > 0,
            qa == a / n,
            ra == a % n,
    ;
    assert(l == n * ql + rl && 0 <= rl < n) by (nonlinear_arith)
        requires
            n > 0,
            ql == l / n,
            rl == l % n,
    ;
    assert(a + l == n * (qa + ql) + (ra + rl)) by (nonlinear_arith)
        requires
            a == n * qa + ra,
            l == n * ql + rl,
    ;
    if ra + rl < n {
        assert((a + l) / n == qa + ql) by (nonlinear_arith)
            requires
                a + l == n * (qa + ql) + (ra + rl),
                0 <= ra + rl < n,
        ;
    } else {
        assert(a + l == n * (qa + ql + 1) + (ra + rl - n)) by (nonlinear_arith)
            requires
                a + l == n * (qa + ql) + (ra + rl),
        ;
        assert((a + l) / n == qa + ql + 1) by (nonlinear_arith)
            requires
                a + l == n * (qa + ql + 1) + (ra + rl - n),
                0 <= ra + rl - n < n,
        ;
    }
}

/// Near-equal parts: every part of `s` cut into `n` has between `len / n` and `len / n + 1`
/// elements, so any two parts differ in size by at most one.
pub proof fn lemma_split_sizes(s: Seq<usize>, n: nat, k: int)
    requires
        n > 0,
        0 <= k < n,
    ensures
        s.len() / n <= split_spec(s, n)[k].len() <= s.len() / n + 1,
{
    lemma_part_bounds(s.len(), n, k as nat);
    assert((k + 1) * s.len() == k * s.len() + s.len()) by (nonlinear_arith);
    assert(k * s.len() >= 0) by (nonlinear_arith)
        requires
            k >= 0,
    ;
    lemma_div_step(k * s.len(), s.len() as int, n as int);
}

/// Cuts `list` into `n` consecutive parts whose sizes differ by at most one.
pub fn honey_badger_split(list: &Vec<usize>, n: usize) -> (r: Vec<Vec<usize>>)
    requires
        n > 0,
        list@.len() * n <= u64::MAX,
    ensures
        r@.len() == n,
        forall|k: int| 0 <= k < n ==> #[trigger] r@[k]@ == split_spec(list@, n as nat)[k],
{
    let len = list.len();
    let mut r: Vec<Vec<usize>> = Vec::new();
    let mut k: usize = 0;
    while k < n
        invariant
            k <= n,
            n > 0,
            len == list@.len(),
            len * n <= u64::MAX,
            r@.len() == k,
            forall|m: int| 0 <= m < k ==> #[trigger] r@[m]@ == split_spec(list@, n as nat)[m],
        decreases n - k,
    {
        proof {
            lemma_part_bounds(len as nat, n as nat, k as nat);
            assert(k * len <= len * n && (k + 1) * len <= len * n) by (nonlinear_arith)
                requires
                    k < n,
            ;
        }
        let start = ((k as u64) * (len as u64) / (n as u64)) as usize;
        let end = (((k + 1) as u64) * (len as u64) / (n as u64)) as usize;
        let mut part: Vec<usize> = Vec::new();
        let mut t: usize = start;
        while t < end
            invariant
                start <= t <= end <= len,
                len == list@.len(),
                part@ =~= list@.subrange(start as int, t as int),
            decreases end - t,
        {
            part.push(list[t]);
            t = t + 1;
        }
        r.push(part);
        k = k + 1;
    }
    r
}

} // verus!
