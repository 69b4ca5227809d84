use vstd::prelude::*;

verus! {

/// First index of worker `i`'s chunk when `n` files are shared among `k` workers.
pub open spec fn chunk_start(n: nat, k: nat, i: nat) -> nat {
    i * (n / k)
}

/// One past the last index of worker `i`'s chunk; the last worker takes the remainder.
pub open spec fn chunk_end(n: nat, k: nat, i: nat) -> nat {
    if i + 1 == k {
        n
    } else {
        (i + 1) * (n / k)
    }
}

/// The files handed to worker `i`.
pub open spec fn chunk_of<T>(s: Seq<T>, k: nat, i: nat) -> Seq<T> {
    s.subrange(chunk_start(s.len(), k, i) as int, chunk_end(s.len(), k, i) as int)
}

/// The worker whose chunk holds file index `j`.
pub open spec fn chunk_owner(n: nat, k: nat, j: nat) -> nat {
    let q = n / k;
    if q == 0 || j / q >= k - 1 {
        (k - 1) as nat
    } else {
        j / q
    }
}

/// Whether file index `j` lies in worker `i`'s chunk.
pub open spec fn in_chunk(n: nat, k: nat, i: nat, j: nat) -> bool {
    chunk_start(n, k, i) <= j < chunk_end(n, k, i)
}

/// The chunks of workers `0 .. m`, joined in worker order.
pub open spec fn joined_chunks<T>(s: Seq<T>, k: nat, m: nat) -> Seq<T>
    decreases m,
{
    if m == 0 {
        Seq::empty()
    } else {
        joined_chunks(s, k, (m - 1) as nat) + chunk_of(s, k, (m - 1) as nat)
    }
}

proof fn lemma_bounds(n: nat, k: nat, i: nat)
    requires
        k >= 1,
        i < k,
    ensures
        chunk_start(n, k, i) <= chunk_end(n, k, i) <= n,
        i + 1 < k ==> chunk_end(n, k, i) == chunk_start(n, k, i + 1),
        i + 1 < k ==> chunk_end(n, k, i) - chunk_start(n, k, i) == n / k,
{
    let q = n / k;
    assert(q * k <= n) by (nonlinear_arith)
        requires
            q == n / k,
            k >= 1,
    ;
    assert(i * q + q == (i + 1) * q) by (nonlinear_arith);
    if i + 1 < k {
        assert((i + 1) * q <= k * q) by (nonlinear_arith)
            requires
                i + 1 < k,
        ;
    } else {
        assert(i * q <= k * q) by (nonlinear_arith)
            requires
                i < k,
        ;
    }
}

/// The chunks of the first `m` workers, joined, are the list up to the end of the last of them.
pub proof fn lemma_joined_prefix<T>(s: Seq<T>, k: nat, m: nat)
    requires
        k >= 1,
        m <= k,
    ensures
        joined_chunks(s, k, m) == s.subrange(0, (if m == 0 { 0 } else { chunk_end(s.len(), k, (m - 1) as nat) }) as int),
    decreases m,
{
    if m > 0 {
        lemma_joined_prefix(s, k, (m - 1) as nat);
        lemma_bounds(s.len(), k, (m - 1) as nat);
        if m >= 2 {
            lemma_bounds(s.len(), k, (m - 2) as nat);
        }
        assert(chunk_start(s.len(), k, 0) == 0);
        let prev = if m - 1 == 0 { 0 } else { chunk_end(s.len(), k, (m - 2) as nat) };
        assert(prev == chunk_start(s.len(), k, (m - 1) as nat));
        assert(s.subrange(0, prev as int) + chunk_of(s, k, (m - 1) as nat) =~= s.subrange(
            0,
            chunk_end(s.len(), k, (m - 1) as nat) as int,
        ));
    }
}

/// Sharing `n` files among `k >= 1` workers is total and without overlap: every
/// index below `n` lies in the range of exactly one worker (its owner), the ranges follow one
/// another, every worker but the last gets exactly `n / k` files, and the chunks
/// joined in worker order give back the whole file list.
pub proof fn lemma_partition_exact<T>(s: Seq<T>, k: nat)
    requires
        k >= 1,
    ensures
        chunk_start(s.len(), k, 0) == 0,
        chunk_end(s.len(), k, (k - 1) as nat) == s.len(),
        forall|i: nat|
            i < k ==> chunk_start(s.len(), k, i) <= #[trigger] chunk_end(s.len(), k, i) <= s.len(),
        forall|i: nat|
            i + 1 < k ==> #[trigger] chunk_end(s.len(), k, i) == chunk_start(s.len(), k, i + 1),
        forall|i: nat|
            i + 1 < k ==> (#[trigger] chunk_of(s, k, i)).len() == s.len() / k,
        forall|j: nat| j < s.len() ==> #[trigger] chunk_owner(s.len(), k, j) < k,
        forall|i: nat, j: nat|
            i < k && j < s.len() ==> (#[trigger] in_chunk(s.len(), k, i, j) <==> i == chunk_owner(
                s.len(),
                k,
                j,
            )),
        joined_chunks(s, k, k) == s,
{
    let n = s.len();
    assert forall|i: nat| i < k implies chunk_start(n, k, i) <= #[trigger] chunk_end(n, k, i) <= n by {
        lemma_bounds(n, k, i);
    }
    assert forall|i: nat| i + 1 < k implies #[trigger] chunk_end(n, k, i) == chunk_start(n, k, i + 1) by {
        lemma_bounds(n, k, i);
    }
    assert forall|i: nat| i + 1 < k implies (#[trigger] chunk_of(s, k, i)).len() == n / k by {
        lemma_bounds(n, k, i);
    }
    // the starts never decrease, and worker i starts at or after the end of any earlier worker
    assert forall|a: nat, b: nat| a < b < k implies chunk_end(n, k, a) <= chunk_start(n, k, b) by {
        let q = n / k;
        lemma_bounds(n, k, a);
        assert((a + 1) * q <= b * q) by (nonlinear_arith)
            requires
                a + 1 <= b,
        ;
    }
    assert forall|i: nat, j: nat| i < k && j < n implies (#[trigger] in_chunk(n, k, i, j) <==> i
        == chunk_owner(n, k, j)) by {
        let q = n / k;
        let last = (k - 1) as nat;
        let o = chunk_owner(n, k, j);
        if q > 0 {
            assert((j / q) * q <= j < (j / q + 1) * q) by (nonlinear_arith)
                requires
                    q > 0,
            ;
        }
        // the owner's chunk holds j
        if q == 0 || j / q >= last {
            assert(o == last);
            if q > 0 {
                assert(last * q <= (j / q) * q) by (nonlinear_arith)
                    requires
                        last <= j / q,
                ;
            }
            assert(in_chunk(n, k, o, j));
        } else {
            assert(o == j / q);
            assert(in_chunk(n, k, o, j));
        }
        // no other chunk holds j
        if i != o {
            if i < o {
                assert(chunk_end(n, k, i) <= chunk_start(n, k, o));
            } else {
                assert(chunk_end(n, k, o) <= chunk_start(n, k, i));
            }
        }
    }
    lemma_joined_prefix(s, k, k);
    assert(s.subrange(0, n as int) =~= s);
}

/// The half-open range of file indices that worker `i` of `k` scans out of `n` files.
pub fn chunk_bounds(n: usize, k: usize, i: usize) -> (r: (usize, usize))
    requires
        k >= 1,
        i < k,
    ensures
        r.0 == chunk_start(n as nat, k as nat, i as nat),
        r.1 == chunk_end(n as nat, k as nat, i as nat),
        r.0 <= r.1 <= n,
{
    proof {
        lemma_bounds(n as nat, k as nat, i as nat);
    }
    let size = n / k;
    let start = i * size;
    let end = if i == k - 1 {
        n
    } else {
        proof {
            lemma_bounds(n as nat, k as nat, (i + 1) as nat);
        }
        (i + 1) * size
    };
    (start, end)
}

/// The ranges of all `k` workers, in worker order.
pub fn partition(n: usize, k: usize) -> (r: Vec<(usize, usize)>)
    requires
        k >= 1,
    ensures
        r@.len() == k,
        forall|i: int|
            0 <= i < k ==> #[trigger] r@[i] == (
            chunk_start(n as nat, k as nat, i as nat) as usize,
            chunk_end(n as nat, k as nat, i as nat) as usize,
        ),
{
    let mut r: Vec<(usize, usize)> = Vec::new();
    for i in 0..k
        invariant
            k >= 1,
            r@.len() == i,
            forall|j: int|
                0 <= j < i ==> #[trigger] r@[j] == (
                chunk_start(n as nat, k as nat, j as nat) as usize,
                chunk_end(n as nat, k as nat, j as nat) as usize,
            ),
    {
        let b = chunk_bounds(n, k, i);
        r.push(b);
    }
    r
}

} // verus!
