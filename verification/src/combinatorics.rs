//! Binomial coefficients and the lexicographic numbering of combinations.

use vstd::prelude::*;

verus! {

/// The binomial coefficient `C(n, k)`, by Pascal's rule.
pub open spec fn binomial(n: nat, k: nat) -> nat
    decreases n,
{
    if k == 0 {
        1
    } else if n == 0 {
        0
    } else {
        binomial((n - 1) as nat, (k - 1) as nat) + binomial((n - 1) as nat, k)
    }
}

/// Largest `n` that the functions of this module take.
pub const MAX_N: usize = 64;

/// Largest `k` that the functions of this module take.
pub const MAX_K: usize = 8;

/// A combination of `{0, .., n-1}`: strictly increasing members below `n`.
pub open spec fn is_combination(n: nat, s: Seq<usize>) -> bool {
    &&& forall|i: int| 0 <= i < s.len() ==> (#[trigger] s[i]) < n
    &&& forall|i: int, j: int| 0 <= i < j < s.len() ==> (#[trigger] s[i]) < (#[trigger] s[j])
}

/// Number of combinations of `{start, .., n-1}` with as many members as `s`
/// that come before `s` in lexicographic order.
pub open spec fn rank_from(n: nat, s: Seq<usize>, start: nat) -> nat
    decreases s.len(), s[0] - start,
{
    if s.len() == 0 {
        0
    } else if start < s[0] && start < n {
        binomial((n - start - 1) as nat, (s.len() - 1) as nat) + rank_from(n, s, start + 1)
    } else {
        rank_from(n, s.drop_first(), start + 1)
    }
}

/// The lexicographic rank of the combination `s` among those of `{0, .., n-1}`
/// with as many members.
pub open spec fn combination_rank(n: nat, s: Seq<usize>) -> nat {
    rank_from(n, s, 0)
}

/// The combination of `k` members of `{start, .., n-1}` that has `rank`
/// combinations before it.
pub open spec fn unrank_from(n: nat, k: nat, rank: nat, start: nat) -> Seq<usize>
    decreases n - start,
{
    if k == 0 || start >= n {
        Seq::empty()
    } else if rank < binomial((n - start - 1) as nat, (k - 1) as nat) {
        seq![start as usize] + unrank_from(n, (k - 1) as nat, rank, start + 1)
    } else {
        unrank_from(
            n,
            k,
            (rank - binomial((n - start - 1) as nat, (k - 1) as nat)) as nat,
            start + 1,
        )
    }
}

/// The combination of `k` members of `{0, .., n-1}` with the given rank.
pub open spec fn combination_unrank(n: nat, k: nat, rank: nat) -> Seq<usize> {
    unrank_from(n, k, rank, 0)
}

/// `64^j`.
pub open spec fn pow64(j: nat) -> nat
    decreases j,
{
    if j == 0 {
        1
    } else {
        64 * pow64((j - 1) as nat)
    }
}

/// No way to choose more members than there are.
pub proof fn lemma_binomial_zero(n: nat, k: nat)
    requires
        k > n,
    ensures
        binomial(n, k) == 0,
    decreases n,
{
    if n > 0 {
        lemma_binomial_zero((n - 1) as nat, (k - 1) as nat);
        lemma_binomial_zero((n - 1) as nat, k);
    }
}

/// One way to choose everything.
pub proof fn lemma_binomial_full(n: nat)
    ensures
        binomial(n, n) == 1,
    decreases n,
{
    if n > 0 {
        lemma_binomial_full((n - 1) as nat);
        lemma_binomial_zero((n - 1) as nat, n);
    }
}

/// Choosing `k` members is choosing the `n - k` that stay out.
pub proof fn lemma_binomial_symmetric(n: nat, k: nat)
    requires
        k <= n,
    ensures
        binomial(n, k) == binomial(n, (n - k) as nat),
    decreases n,
{
    if k == 0 {
        lemma_binomial_full(n);
    } else if k == n {
        lemma_binomial_full(n);
    } else {
        lemma_binomial_symmetric((n - 1) as nat, (k - 1) as nat);
        lemma_binomial_symmetric((n - 1) as nat, k);
    }
}

/// The absorption identity `k * C(n, k) = n * C(n-1, k-1)`.
pub proof fn lemma_binomial_absorb(n: nat, k: nat)
    requires
        n >= 1,
        k >= 1,
    ensures
        k * binomial(n, k) == n * binomial((n - 1) as nat, (k - 1) as nat),
    decreases n,
{
    let a = binomial((n - 1) as nat, (k - 1) as nat);
    let b = binomial((n - 1) as nat, k);
    assert(binomial(n, k) == a + b);
    if n == 1 {
        if k == 1 {
            assert(a == 1);
            assert(b == 0);
        } else {
            lemma_binomial_zero(0, (k - 1) as nat);
            lemma_binomial_zero(0, k);
        }
    } else if k == 1 {
        // C(n-1, 1) = n - 1
        lemma_binomial_absorb((n - 1) as nat, 1);
        assert(a == 1);
        assert(1 * b == (n - 1) * binomial((n - 2) as nat, 0));
        assert(b == n - 1);
    } else {
        let c = binomial((n - 2) as nat, (k - 2) as nat);
        let d = binomial((n - 2) as nat, (k - 1) as nat);
        assert(a == c + d);
        lemma_binomial_absorb((n - 1) as nat, (k - 1) as nat);
        lemma_binomial_absorb((n - 1) as nat, k);
        assert((k - 1) * a == (n - 1) * c);
        assert(k * b == (n - 1) * d);
        assert(k * (a + b) == n * a) by (nonlinear_arith)
            requires
                (k - 1) * a == (n - 1) * c,
                k * b == (n - 1) * d,
                a == c + d,
        ;
    }
}

/// For `n <= 64`, `C(n, k) <= 64^k`.
pub proof fn lemma_binomial_bound(n: nat, k: nat)
    requires
        n <= 64,
    ensures
        binomial(n, k) <= pow64(k),
        k >= 1 ==> binomial(n, k) <= n * pow64((k - 1) as nat),
    decreases k, n,
{
    if k == 0 {
    } else if n == 0 {
        assert(pow64(k) >= 0);
    } else {
        lemma_binomial_bound((n - 1) as nat, (k - 1) as nat);
        lemma_binomial_bound((n - 1) as nat, k);
        let p = pow64((k - 1) as nat);
        assert(binomial(n, k) <= p + (n - 1) * p);
        assert(p + (n - 1) * p == n * p) by (nonlinear_arith);
        assert(n * p <= 64 * p) by (nonlinear_arith)
            requires
                n <= 64,
                p >= 0,
        ;
    }
}

/// `64^j` grows with `j`, and `64^8 = 2^48`.
pub proof fn lemma_pow64(j: nat)
    requires
        j <= 8,
    ensures
        1 <= pow64(j) <= 0x1_0000_0000_0000,
    decreases 8 - j,
{
    reveal_with_fuel(pow64, 10);
    assert(pow64(8) == 0x1_0000_0000_0000);
    if j < 8 {
        lemma_pow64(j + 1);
    }
}

/// With `n <= 64` and `k <= 8` a binomial coefficient is below `2^48`.
pub proof fn lemma_binomial_fits(n: nat, k: nat)
    requires
        n <= 64,
        k <= 8,
    ensures
        binomial(n, k) <= 0x1_0000_0000_0000,
{
    lemma_binomial_bound(n, k);
    lemma_pow64(k);
}

/// Computes `C(n, k)`; `0` when `k > n`. The lesser of `k` and `n - k`
/// is at most `MAX_K`, so that no product on the way overflows.
pub fn n_choose_k(n: usize, k: usize) -> (r: u64)
    requires
        n <= MAX_N,
        k > n || k <= MAX_K || n - k <= MAX_K,
    ensures
        r == binomial(n as nat, k as nat),
{
    if k > n {
        proof {
            lemma_binomial_zero(n as nat, k as nat);
        }
        return 0;
    }
    let k0 = k;
    let k = if k <= n - k { k } else { n - k };
    proof {
        lemma_binomial_symmetric(n as nat, k0 as nat);
    }
    let mut result: u64 = 1;
    let mut i: usize = 1;
    while i <= k
        invariant
            n <= 64,
            k <= 8,
            k <= n,
            1 <= i <= k + 1,
            result == binomial((n - k + i - 1) as nat, (i - 1) as nat),
        decreases k + 1 - i,
    {
        let m: usize = n - (k - i);
        proof {
            lemma_binomial_absorb(m as nat, i as nat);
            lemma_binomial_fits((m - 1) as nat, (i - 1) as nat);
            lemma_binomial_fits(m as nat, i as nat);
            let prev = binomial((m - 1) as nat, (i - 1) as nat);
            let next = binomial(m as nat, i as nat);
            assert(prev * m <= 0x1_0000_0000_0000 * 64) by (nonlinear_arith)
                requires
                    prev <= 0x1_0000_0000_0000,
                    m <= 64,
            ;
            assert(i * next == m * prev);
            assert((m * prev) / (i as int) == next) by (nonlinear_arith)
                requires
                    i * next == m * prev,
                    i >= 1,
            ;
            assert(result * (m as u64) == m * prev) by (nonlinear_arith)
                requires
                    result == prev,
            ;
        }
        result = result * (m as u64) / (i as u64);
        i += 1;
    }
    result
}

/// A combination's rank, counted from `start <= s[0]`, is below the number
/// of combinations of `{start, .., n-1}`.
pub proof fn lemma_rank_bound(n: nat, s: Seq<usize>, start: nat)
    requires
        is_combination(n, s),
        s.len() > 0 ==> start <= s[0],
    ensures
        rank_from(n, s, start) < binomial((n - start) as nat, s.len()),
    decreases s.len(), s[0] - start,
{
    if s.len() == 0 {
    } else if start < s[0] && start < n {
        lemma_rank_bound(n, s, start + 1);
    } else {
        assert(start == s[0]);
        assert(start < n);
        let t = s.drop_first();
        assert(is_combination(n, t)) by {
            assert forall|i: int| 0 <= i < t.len() implies (#[trigger] t[i]) < n by {
                assert(t[i] == s[i + 1]);
            }
            assert forall|i: int, j: int| 0 <= i < j < t.len() implies (#[trigger] t[i]) < (
            #[trigger] t[j]) by {
                assert(t[i] == s[i + 1]);
                assert(t[j] == s[j + 1]);
            }
        }
        if t.len() > 0 {
            assert(t[0] == s[1]);
            assert(s[0] < s[1]);
        }
        lemma_rank_bound(n, t, start + 1);
    }
}

/// What `unrank_from` gives for a rank within range: a combination of `k`
/// members, none below `start`, and with that very rank.
pub proof fn lemma_unrank_from(n: nat, k: nat, rank: nat, start: nat)
    requires
        start <= n <= usize::MAX,
        rank < binomial((n - start) as nat, k),
    ensures
        unrank_from(n, k, rank, start).len() == k,
        is_combination(n, unrank_from(n, k, rank, start)),
        k > 0 ==> start <= unrank_from(n, k, rank, start)[0],
        rank_from(n, unrank_from(n, k, rank, start), start) == rank,
    decreases n - start,
{
    let s = unrank_from(n, k, rank, start);
    if k == 0 {
    } else if start >= n {
        lemma_binomial_zero(0, k);
    } else {
        let cnt = binomial((n - start - 1) as nat, (k - 1) as nat);
        if rank < cnt {
            let t = unrank_from(n, (k - 1) as nat, rank, start + 1);
            lemma_unrank_from(n, (k - 1) as nat, rank, start + 1);
            assert(s == seq![start as usize] + t);
            assert(s.drop_first() =~= t);
            assert(s[0] == start);
            assert(is_combination(n, s)) by {
                assert forall|i: int| 0 <= i < s.len() implies (#[trigger] s[i]) < n by {
                    if i > 0 {
                        assert(s[i] == t[i - 1]);
                    }
                }
                assert forall|i: int, j: int| 0 <= i < j < s.len() implies (#[trigger] s[i]) < (
                #[trigger] s[j]) by {
                    assert(s[j] == t[j - 1]);
                    assert(t[0] <= t[j - 1]);
                    if i > 0 {
                        assert(s[i] == t[i - 1]);
                    }
                }
            }
        } else {
            lemma_unrank_from(n, k, (rank - cnt) as nat, start + 1);
            assert(s == unrank_from(n, k, (rank - cnt) as nat, start + 1));
            assert(start < s[0]);
        }
    }
}

/// The rank of the combination with a given rank is that rank.
pub proof fn lemma_rank_of_unrank(n: nat, k: nat, rank: nat)
    requires
        n <= usize::MAX,
        rank < binomial(n, k),
    ensures
        combination_rank(n, combination_unrank(n, k, rank)) == rank,
        combination_unrank(n, k, rank).len() == k,
        is_combination(n, combination_unrank(n, k, rank)),
{
    lemma_unrank_from(n, k, rank, 0);
}

/// The `rank`-th combination, in lexicographic order, of `k` members of
/// `{0, .., n-1}`.
pub fn unrank_combination(n: usize, k: usize, rank: u64) -> (combo: Vec<usize>)
    requires
        n <= MAX_N,
        k <= MAX_K,
        rank < binomial(n as nat, k as nat),
    ensures
        combo@ == combination_unrank(n as nat, k as nat, rank as nat),
        combo@.len() == k,
        is_combination(n as nat, combo@),
        combination_rank(n as nat, combo@) == rank,
{
    let ghost rank0 = rank;
    let mut rank = rank;
    let mut combo: Vec<usize> = Vec::with_capacity(k);
    let mut c: usize = 0;
    let mut i: usize = 0;
    while i < k
        invariant
            n <= 64,
            k <= 8,
            i <= k,
            c <= n,
            combo@.len() == i,
            rank < binomial((n - c) as nat, (k - i) as nat),
            combination_unrank(n as nat, k as nat, rank0 as nat) == combo@ + unrank_from(
                n as nat,
                (k - i) as nat,
                rank as nat,
                c as nat,
            ),
        decreases k - i, n - c,
    {
        proof {
            if c == n {
                lemma_binomial_zero(0, (k - i) as nat);
            }
        }
        let count = n_choose_k(n - c - 1, k - i - 1);
        if count <= rank {
            rank -= count;
            c += 1;
        } else {
            proof {
                assert(combo@ + (seq![c] + unrank_from(
                    n as nat,
                    (k - i - 1) as nat,
                    rank as nat,
                    (c + 1) as nat,
                )) =~= combo@.push(c) + unrank_from(
                    n as nat,
                    (k - i - 1) as nat,
                    rank as nat,
                    (c + 1) as nat,
                ));
            }
            combo.push(c);
            c += 1;
            i += 1;
        }
    }
    proof {
        lemma_rank_of_unrank(n as nat, k as nat, rank0 as nat);
        assert(combo@ + Seq::<usize>::empty() =~= combo@);
    }
    combo
}

/// The lexicographic rank of a combination of `{0, .., n-1}`.
pub fn rank_combination(n: usize, indices: &[usize]) -> (rank: u64)
    requires
        n <= MAX_N,
        indices@.len() <= MAX_K,
        is_combination(n as nat, indices@),
    ensures
        rank == combination_rank(n as nat, indices@),
        rank < binomial(n as nat, indices@.len()),
{
    let k = indices.len();
    let mut rank: u64 = 0;
    let mut i: usize = 0;
    let mut j: usize = 0;
    proof {
        lemma_rank_bound(n as nat, indices@, 0);
        lemma_binomial_fits(n as nat, k as nat);
        assert(indices@.skip(0) =~= indices@);
    }
    while i < k
        invariant
            n <= 64,
            k <= 8,
            k == indices@.len(),
            i <= k,
            j <= n,
            is_combination(n as nat, indices@),
            i < k ==> j <= indices@[i as int],
            rank + rank_from(n as nat, indices@.skip(i as int), j as nat) == combination_rank(
                n as nat,
                indices@,
            ),
            combination_rank(n as nat, indices@) <= 0x1_0000_0000_0000,
        decreases k - i, n - j,
    {
        let c = indices[i];
        let ghost rest = indices@.skip(i as int);
        proof {
            assert(rest[0] == indices@[i as int]);
            assert(rest.len() == k - i);
        }
        if j < c {
            let count = n_choose_k(n - j - 1, k - i - 1);
            rank += count;
            j += 1;
        } else {
            proof {
                assert(rest.drop_first() =~= indices@.skip(i + 1));
                if i + 1 < k {
                    assert(indices@[i as int] < indices@[i + 1]);
                }
            }
            j += 1;
            i += 1;
        }
    }
    proof {
        lemma_rank_bound(n as nat, indices@, 0);
    }
    rank
}

} // verus!
