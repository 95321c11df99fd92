//! Why the code lengths of a Huffman tree yield a code: every leaf of a
//! binary tree takes its share of the code space, and the shares of all
//! leaves add up to the whole.

use crate::compression::huffman::{
    code_length, code_of, depth_in, grown, huffman_lengths, huffman_tree, least_root,
    leaf_weights, leaves_only, lengths_valid, merged, next_code, two_pow, Forest, NO_PARENT,
};
use vstd::prelude::*;

verus! {

/// The scale of the shares: the whole code space is `2^SCALE`.
pub open spec fn scale() -> nat {
    300000
}

/// The share of the code space of a leaf at the depth `depth`.
pub open spec fn share(depth: nat) -> nat {
    two_pow((scale() - depth) as nat)
}

/// The root of the tree of a node.
pub open spec fn top(f: Forest, node: int) -> int
    decreases f.parents.len() - node,
{
    if 0 <= node < f.parents.len() && node < f.parents[node] && f.parents[node]
        < f.parents.len() {
        top(f, f.parents[node] as int)
    } else {
        node
    }
}

/// The shares of the first `k` nodes that stand below the root `root`.
pub open spec fn mass(f: Forest, root: int, k: nat) -> nat
    decreases k,
{
    if k == 0 {
        0
    } else {
        mass(f, root, (k - 1) as nat) + if top(f, k - 1) == root {
            share(depth_in(f, k - 1))
        } else {
            0nat
        }
    }
}

/// The number of roots among the first `k` nodes.
pub open spec fn root_count(f: Forest, k: nat) -> nat
    decreases k,
{
    if k == 0 {
        0
    } else {
        root_count(f, (k - 1) as nat) + if f.parents[k - 1] == NO_PARENT {
            1nat
        } else {
            0nat
        }
    }
}

/// A forest as it grows from `leaves` leaves: each node has no parent or
/// a later node, no leaf is a parent, no node is deeper than there are
/// joins, and below each root the leaves share the whole code space.
pub open spec fn grows_well(f: Forest, leaves: nat) -> bool {
    &&& f.weights.len() == f.parents.len()
    &&& leaves <= f.parents.len() <= 2 * leaves
    &&& leaves <= 65536
    &&& forall|x: int|
        0 <= x < f.parents.len() ==> (#[trigger] f.parents[x]) == NO_PARENT || (x < f.parents[x]
            < f.parents.len() && leaves <= f.parents[x])
    &&& forall|x: int|
        0 <= x < f.parents.len() ==> #[trigger] depth_in(f, x) <= f.parents.len() - leaves
    &&& forall|r: int|
        0 <= r < f.parents.len() && (#[trigger] f.parents[r]) == NO_PARENT ==> mass(
            f,
            r,
            leaves,
        ) == share(0)
    &&& root_count(f, f.parents.len()) + (f.parents.len() - leaves) == leaves
}

/// A share is twice the share one level deeper.
proof fn lemma_share_halves(depth: nat)
    requires
        depth < scale(),
    ensures
        share(depth) == 2 * share(depth + 1),
{
    assert((scale() - depth) as nat == (scale() - depth - 1) as nat + 1);
}

/// The top of a node is a node without a parent in the forest.
proof fn lemma_top_is_root(f: Forest, leaves: nat, x: int)
    requires
        grows_well(f, leaves),
        0 <= x < f.parents.len(),
    ensures
        0 <= top(f, x) < f.parents.len(),
        f.parents[top(f, x)] == NO_PARENT,
        x <= top(f, x),
        depth_in(f, x) == 0 <==> top(f, x) == x,
    decreases f.parents.len() - x,
{
    if x < f.parents[x] && f.parents[x] < f.parents.len() {
        lemma_top_is_root(f, leaves, f.parents[x] as int);
    } else {
        assert(f.parents[x] == NO_PARENT);
    }
}

/// The leaves alone grow well.
proof fn lemma_leaves_grow_well(freqs: Seq<usize>)
    requires
        freqs.len() <= 65536,
    ensures
        grows_well(leaves_only(freqs), leaf_weights(freqs, freqs.len()).len()),
{
    let f = leaves_only(freqs);
    let leaves = leaf_weights(freqs, freqs.len()).len();
    crate::compression::repetition::lemma_leaf_count(freqs, freqs.len());
    assert forall|x: int| 0 <= x < f.parents.len() implies #[trigger] depth_in(f, x) == 0 && top(
        f,
        x,
    ) == x by {}
    assert forall|r: int| 0 <= r < f.parents.len() implies mass(f, r, leaves) == share(0) by {
        lemma_mass_of_lone_roots(f, r, leaves);
    }
    lemma_count_of_lone_roots(f, leaves);
}

proof fn lemma_mass_of_lone_roots(f: Forest, r: int, k: nat)
    requires
        k <= f.parents.len(),
        f.parents.len() <= 65536,
        forall|x: int| 0 <= x < f.parents.len() ==> #[trigger] f.parents[x] == NO_PARENT,
    ensures
        mass(f, r, k) == (if 0 <= r < k {
            share(0)
        } else {
            0
        }),
    decreases k,
{
    if k > 0 {
        lemma_mass_of_lone_roots(f, r, (k - 1) as nat);
        assert(f.parents[k - 1] == NO_PARENT);
        assert(top(f, k - 1) == k - 1);
        assert(depth_in(f, k - 1) == 0);
    }
}

proof fn lemma_count_of_lone_roots(f: Forest, k: nat)
    requires
        k <= f.parents.len(),
        forall|x: int| 0 <= x < f.parents.len() ==> #[trigger] f.parents[x] == NO_PARENT,
    ensures
        root_count(f, k) == k,
    decreases k,
{
    if k > 0 {
        lemma_count_of_lone_roots(f, (k - 1) as nat);
        assert(f.parents[k - 1] == NO_PARENT);
    }
}

/// Where the least root is missing, there is no root but the one left out.
proof fn lemma_no_least_root(f: Forest, skip: usize, n: nat, r: int)
    requires
        n <= f.parents.len(),
        n < usize::MAX,
        least_root(f, skip, n) == NO_PARENT,
        0 <= r < n,
        f.parents[r] == NO_PARENT,
    ensures
        r == skip,
    decreases n,
{
    if r < n - 1 {
        lemma_no_least_root(f, skip, (n - 1) as nat, r);
    }
}

/// The least root is a root, and not the one left out.
proof fn lemma_least_root(f: Forest, skip: usize, n: nat)
    requires
        n <= f.parents.len(),
        n < usize::MAX,
    ensures
        least_root(f, skip, n) == NO_PARENT || (least_root(f, skip, n) < n
            && f.parents[least_root(f, skip, n) as int] == NO_PARENT && least_root(f, skip, n)
            != skip),
    decreases n,
{
    if n > 0 {
        lemma_least_root(f, skip, (n - 1) as nat);
    }
}

/// With roots counted, there are roots.
proof fn lemma_counted_roots(f: Forest, k: nat, a: int)
    requires
        k <= f.parents.len(),
        forall|r: int| 0 <= r < k && #[trigger] f.parents[r] == NO_PARENT ==> r == a,
    ensures
        root_count(f, k) <= 1,
        root_count(f, k) == 1 ==> 0 <= a < k && f.parents[a] == NO_PARENT,
    decreases k,
{
    if k > 0 {
        lemma_counted_roots(f, (k - 1) as nat, a);
        if f.parents[k - 1] == NO_PARENT {
            assert(k - 1 == a);
            lemma_no_roots_before(f, (k - 1) as nat, a);
        }
    }
}

proof fn lemma_no_roots_before(f: Forest, k: nat, a: int)
    requires
        k <= f.parents.len(),
        k <= a,
        forall|r: int| 0 <= r < k && #[trigger] f.parents[r] == NO_PARENT ==> r == a,
    ensures
        root_count(f, k) == 0,
    decreases k,
{
    if k > 0 {
        lemma_no_roots_before(f, (k - 1) as nat, a);
        if f.parents[k - 1] == NO_PARENT {
            assert(k - 1 == a);
        }
    }
}

/// What a join does to the tops and the depths of the nodes.
proof fn lemma_join_tops(f: Forest, leaves: nat, a: usize, b: usize, x: int)
    requires
        grows_well(f, leaves),
        a < f.parents.len(),
        b < f.parents.len(),
        a != b,
        f.parents[a as int] == NO_PARENT,
        f.parents[b as int] == NO_PARENT,
        f.parents.len() < 2 * leaves,
        0 <= x < f.parents.len(),
    ensures
        top(merged(f, a, b), x) == (if top(f, x) == a || top(f, x) == b {
            f.parents.len() as int
        } else {
            top(f, x)
        }),
        depth_in(merged(f, a, b), x) == depth_in(f, x) + (if top(f, x) == a || top(f, x) == b {
            1nat
        } else {
            0nat
        }),
    decreases f.parents.len() - x,
{
    let g = merged(f, a, b);
    let n = f.parents.len() as int;
    assert(g.parents.len() == n + 1);
    assert(g.parents[n] == NO_PARENT);
    assert(top(g, n) == n);
    assert(depth_in(g, n) == 0);
    if x == a || x == b {
        assert(g.parents[x] == n);
        assert(top(f, x) == x);
        assert(depth_in(f, x) == 0);
        assert(top(g, x) == top(g, n));
        assert(depth_in(g, x) == 1 + depth_in(g, n));
    } else {
        assert(g.parents[x] == f.parents[x]);
        if f.parents[x] == NO_PARENT {
            assert(top(f, x) == x);
        } else {
            lemma_join_tops(f, leaves, a, b, f.parents[x] as int);
        }
    }
}

/// What a join does to the shares below a root.
proof fn lemma_join_mass(f: Forest, leaves: nat, a: usize, b: usize, r: int, k: nat)
    requires
        grows_well(f, leaves),
        a < f.parents.len(),
        b < f.parents.len(),
        a != b,
        f.parents[a as int] == NO_PARENT,
        f.parents[b as int] == NO_PARENT,
        f.parents.len() < 2 * leaves,
        k <= leaves,
        0 <= r <= f.parents.len(),
        r != a,
        r != b,
    ensures
        r < f.parents.len() ==> mass(merged(f, a, b), r, k) == mass(f, r, k),
        r == f.parents.len() ==> 2 * mass(merged(f, a, b), r, k) == mass(f, a as int, k) + mass(
            f,
            b as int,
            k,
        ),
    decreases k,
{
    if k > 0 {
        lemma_join_mass(f, leaves, a, b, r, (k - 1) as nat);
        lemma_join_tops(f, leaves, a, b, k - 1);
        lemma_top_is_root(f, leaves, k - 1);
        let d = depth_in(f, k - 1);
        assert(d <= f.parents.len() - leaves);
        lemma_share_halves(d);
    }
}

/// After a join the forest grows well still.
proof fn lemma_join_grows_well(f: Forest, leaves: nat, a: usize, b: usize)
    requires
        grows_well(f, leaves),
        a < f.parents.len(),
        b < f.parents.len(),
        a != b,
        f.parents[a as int] == NO_PARENT,
        f.parents[b as int] == NO_PARENT,
        root_count(f, f.parents.len()) >= 2,
    ensures
        grows_well(merged(f, a, b), leaves),
{
    let g = merged(f, a, b);
    let n = f.parents.len() as int;
    assert(f.parents.len() < 2 * leaves);
    assert(g.parents.len() == n + 1);
    assert forall|x: int| 0 <= x < g.parents.len() implies (#[trigger] g.parents[x]) == NO_PARENT
        || (x < g.parents[x] < g.parents.len() && leaves <= g.parents[x]) by {
        if x < n && x != a && x != b {
            assert(g.parents[x] == f.parents[x]);
        }
    }
    assert forall|x: int| 0 <= x < g.parents.len() implies #[trigger] depth_in(g, x)
        <= g.parents.len() - leaves by {
        if x < n {
            lemma_join_tops(f, leaves, a, b, x);
            assert(depth_in(f, x) <= f.parents.len() - leaves);
        } else {
            assert(g.parents[n] == NO_PARENT);
        }
    }
    assert forall|r: int|
        0 <= r < g.parents.len() && (#[trigger] g.parents[r]) == NO_PARENT implies mass(
        g,
        r,
        leaves,
    ) == share(0) by {
        assert(r != a && r != b);
        lemma_join_mass(f, leaves, a, b, r, leaves);
        if r < n {
            assert(g.parents[r] == f.parents[r]);
        } else {
            assert(mass(f, a as int, leaves) == share(0));
            assert(mass(f, b as int, leaves) == share(0));
        }
    }
    lemma_join_root_count(f, a, b, f.parents.len());
    assert(root_count(g, (n + 1) as nat) == root_count(g, n as nat) + 1);
}

/// The roots among the old nodes after a join.
proof fn lemma_join_root_count(f: Forest, a: usize, b: usize, k: nat)
    requires
        a < f.parents.len(),
        b < f.parents.len(),
        a != b,
        f.parents[a as int] == NO_PARENT,
        f.parents[b as int] == NO_PARENT,
        k <= f.parents.len(),
        f.parents.len() < usize::MAX,
        f.weights.len() == f.parents.len(),
    ensures
        root_count(merged(f, a, b), k) == root_count(f, k) - (if a < k {
            1int
        } else {
            0int
        }) - (if b < k {
            1int
        } else {
            0int
        }),
    decreases k,
{
    if k > 0 {
        lemma_join_root_count(f, a, b, (k - 1) as nat);
        let g = merged(f, a, b);
        if k - 1 != a && k - 1 != b {
            assert(g.parents[k - 1] == f.parents[k - 1]);
        } else {
            assert(g.parents[k - 1] == f.parents.len());
        }
    }
}

/// A forest that grows well and is joined often enough becomes one tree.
proof fn lemma_grown_well(f: Forest, leaves: nat, steps: nat)
    requires
        grows_well(f, leaves),
        root_count(f, f.parents.len()) <= steps + 1,
    ensures
        grows_well(grown(f, steps), leaves),
        root_count(grown(f, steps), grown(f, steps).parents.len()) <= 1,
    decreases steps,
{
    let n = f.parents.len();
    if steps > 0 {
        let a = least_root(f, NO_PARENT, n);
        let b = least_root(f, a, n);
        lemma_least_root(f, NO_PARENT, n);
        lemma_least_root(f, a, n);
        if a == NO_PARENT {
            assert forall|r: int| 0 <= r < n && #[trigger] f.parents[r] == NO_PARENT implies r
                == -1 by {
                lemma_no_least_root(f, NO_PARENT, n, r);
            }
            lemma_counted_roots(f, n, -1);
        } else if b == NO_PARENT {
            assert forall|r: int| 0 <= r < n && #[trigger] f.parents[r] == NO_PARENT implies r
                == a by {
                lemma_no_least_root(f, a, n, r);
            }
            lemma_counted_roots(f, n, a as int);
        } else {
            lemma_two_roots_counted(f, n, a as int, b as int);
            lemma_join_grows_well(f, leaves, a, b);
            lemma_grown_well(merged(f, a, b), leaves, (steps - 1) as nat);
        }
    }
}

/// Two roots are counted as two at least.
proof fn lemma_two_roots_counted(f: Forest, k: nat, a: int, b: int)
    requires
        k <= f.parents.len(),
        0 <= a < k,
        0 <= b < k,
        a != b,
        f.parents[a] == NO_PARENT,
        f.parents[b] == NO_PARENT,
    ensures
        root_count(f, k) >= 2,
    decreases k,
{
    if k > 0 {
        if a < k - 1 && b < k - 1 {
            lemma_two_roots_counted(f, (k - 1) as nat, a, b);
        } else if a == k - 1 {
            lemma_one_root_counted(f, (k - 1) as nat, b);
        } else {
            lemma_one_root_counted(f, (k - 1) as nat, a);
        }
    }
}

proof fn lemma_one_root_counted(f: Forest, k: nat, a: int)
    requires
        k <= f.parents.len(),
        0 <= a < k,
        f.parents[a] == NO_PARENT,
    ensures
        root_count(f, k) >= 1,
    decreases k,
{
    if a < k - 1 {
        lemma_one_root_counted(f, (k - 1) as nat, a);
    }
}

/// The shares of the first `k` leaves.
pub open spec fn leaf_shares(f: Forest, k: nat) -> nat
    decreases k,
{
    if k == 0 {
        0
    } else {
        leaf_shares(f, (k - 1) as nat) + share(depth_in(f, k - 1))
    }
}

/// Below the only root stand all leaves.
proof fn lemma_mass_of_the_tree(f: Forest, leaves: nat, root: int, k: nat)
    requires
        grows_well(f, leaves),
        root_count(f, f.parents.len()) <= 1,
        0 <= root < f.parents.len(),
        f.parents[root] == NO_PARENT,
        k <= leaves,
    ensures
        mass(f, root, k) == leaf_shares(f, k),
    decreases k,
{
    if k > 0 {
        lemma_mass_of_the_tree(f, leaves, root, (k - 1) as nat);
        lemma_top_is_root(f, leaves, k - 1);
        let t = top(f, k - 1);
        if t != root {
            lemma_two_roots_counted(f, f.parents.len(), t, root);
        }
    }
}

/// The shares of the symbols with a code below `len` bits, among the
/// first `m` symbols.
pub open spec fn shorter_shares(lens: Seq<u8>, len: nat, m: nat) -> nat
    decreases m,
{
    if m == 0 {
        0
    } else {
        shorter_shares(lens, len, (m - 1) as nat) + if 0 < lens[m - 1] < len {
            share(lens[m - 1] as nat)
        } else {
            0nat
        }
    }
}

/// The shares of the symbols with a code of `len` bits, among the first
/// `m` symbols.
pub open spec fn same_shares(lens: Seq<u8>, len: nat, m: nat) -> nat
    decreases m,
{
    if m == 0 {
        0
    } else {
        same_shares(lens, len, (m - 1) as nat) + if lens[m - 1] == len && len > 0 {
            share(len)
        } else {
            0nat
        }
    }
}

/// The shares of the symbols with a code, among the first `m` symbols.
pub open spec fn all_shares(lens: Seq<u8>, m: nat) -> nat
    decreases m,
{
    if m == 0 {
        0
    } else {
        all_shares(lens, (m - 1) as nat) + if 0 < lens[m - 1] {
            share(lens[m - 1] as nat)
        } else {
            0nat
        }
    }
}

/// The next free code of a length, as a share of the code space, is
/// what the codes given out before have taken.
proof fn lemma_next_code_shares(lens: Seq<u8>, len: nat, s: nat)
    requires
        len <= 255,
        s <= lens.len(),
    ensures
        next_code(lens, len, s) * share(len) == shorter_shares(lens, len, lens.len())
            + same_shares(lens, len, s),
    decreases len, s,
{
    if len == 0 {
        lemma_no_shorter(lens, lens.len());
        lemma_no_same_at_zero(lens, s);
        assert(0 * share(0) == 0) by (nonlinear_arith);
    } else if s == 0 {
        assert(same_shares(lens, len, 0) == 0);
        lemma_next_code_shares(lens, (len - 1) as nat, lens.len());
        lemma_shorter_grows(lens, (len - 1) as nat, lens.len());
        lemma_share_halves((len - 1) as nat);
        let c = next_code(lens, (len - 1) as nat, lens.len());
        assert((2 * c) * share(len) == c * (2 * share(len))) by (nonlinear_arith);
    } else {
        lemma_next_code_shares(lens, len, (s - 1) as nat);
        let c = next_code(lens, len, (s - 1) as nat);
        assert((c + 1) * share(len) == c * share(len) + share(len)) by (nonlinear_arith);
    }
}

proof fn lemma_no_shorter(lens: Seq<u8>, m: nat)
    ensures
        shorter_shares(lens, 0, m) == 0,
    decreases m,
{
    if m > 0 {
        lemma_no_shorter(lens, (m - 1) as nat);
    }
}

proof fn lemma_no_same_at_zero(lens: Seq<u8>, m: nat)
    ensures
        next_code(lens, 0, m) == 0,
        same_shares(lens, 0, m) == 0,
    decreases m,
{
    if m > 0 {
        lemma_no_same_at_zero(lens, (m - 1) as nat);
    }
}

/// The codes below `len + 1` bits are those below `len` bits and those of `len` bits.
proof fn lemma_shorter_grows(lens: Seq<u8>, len: nat, m: nat)
    ensures
        shorter_shares(lens, len + 1, m) == shorter_shares(lens, len, m) + same_shares(
            lens,
            len,
            m,
        ),
    decreases m,
{
    if m > 0 {
        lemma_shorter_grows(lens, len, (m - 1) as nat);
    }
}

/// The shares of some symbols are part of the shares of all.
proof fn lemma_part_of_all(lens: Seq<u8>, len: nat, m: nat, s: nat)
    requires
        s <= m,
        len > 0,
    ensures
        shorter_shares(lens, len, m) + same_shares(lens, len, s) <= all_shares(lens, m),
        s < m && lens[s as int] == len ==> shorter_shares(lens, len, m) + same_shares(lens, len, s)
            + share(len) <= all_shares(lens, m),
    decreases m,
{
    if m > 0 {
        if s == m {
            lemma_part_of_all(lens, len, (m - 1) as nat, (m - 1) as nat);
        } else {
            lemma_part_of_all(lens, len, (m - 1) as nat, s);
            if s == m - 1 {
                assert(same_shares(lens, len, m) == same_shares(lens, len, s) + (if lens[s as int]
                    == len && len > 0 {
                    share(len)
                } else {
                    0nat
                }));
            }
        }
    }
}

/// The shares of the symbols are the shares of their leaves.
proof fn lemma_shares_of_leaves(freqs: Seq<usize>, m: nat)
    requires
        m <= freqs.len(),
        freqs.len() <= 65536,
        forall|s: int| 0 <= s < freqs.len() ==> #[trigger] code_length(freqs, s) <= 32,
        forall|s: int|
            0 <= s < freqs.len() && freqs[s] > 0 ==> depth_in(
                huffman_tree(freqs),
                leaf_weights(freqs, s as nat).len() as int,
            ) >= 1,
    ensures
        all_shares(huffman_lengths(freqs), m) == leaf_shares(
            huffman_tree(freqs),
            leaf_weights(freqs, m).len(),
        ),
    decreases m,
{
    if m > 0 {
        lemma_shares_of_leaves(freqs, (m - 1) as nat);
        let lens = huffman_lengths(freqs);
        assert(lens[m - 1] == code_length(freqs, m - 1));
        if freqs[m - 1] > 0 {
            let d = depth_in(huffman_tree(freqs), leaf_weights(freqs, (m - 1) as nat).len() as int);
            assert(d >= 1);
            assert(code_length(freqs, m - 1) <= 32);
        }
    }
}

/// One share of a code of `len` bits is the code space of `len` bits.
proof fn lemma_share_of_length(len: nat)
    requires
        len <= 32,
    ensures
        two_pow(len) * share(len) == share(0),
    decreases len,
{
    if len == 0 {
        assert(two_pow(0) == 1);
        assert(1 * share(0) == share(0)) by (nonlinear_arith);
    } else {
        lemma_share_of_length((len - 1) as nat);
        lemma_share_halves((len - 1) as nat);
        let p = two_pow((len - 1) as nat);
        assert((2 * p) * share(len) == p * (2 * share(len))) by (nonlinear_arith);
    }
}

/// The code lengths of a Huffman tree yield a code, unless one is above
/// 32 bits.
pub proof fn lemma_huffman_lengths_valid(freqs: Seq<usize>)
    requires
        freqs.len() <= 65536,
        forall|s: int| 0 <= s < freqs.len() ==> #[trigger] code_length(freqs, s) <= 32,
    ensures
        lengths_valid(huffman_lengths(freqs)),
{
    let lens = huffman_lengths(freqs);
    let first = leaves_only(freqs);
    let leaves = leaf_weights(freqs, freqs.len()).len();
    let tree = huffman_tree(freqs);
    lemma_leaves_grow_well(freqs);
    lemma_grown_well(first, leaves, leaves);
    assert forall|s: int| 0 <= s < lens.len() implies (#[trigger] lens[s]) <= 32 && (lens[s] > 0
        ==> code_of(lens, s) < two_pow(lens[s] as nat)) by {
        assert(lens[s] == code_length(freqs, s));
        if lens[s] > 0 {
            let len = lens[s] as nat;
            crate::compression::repetition::lemma_leaf_count(freqs, freqs.len());
            crate::compression::repetition::lemma_leaf_index(freqs, s);
            let total = all_shares(lens, lens.len());
            lemma_next_code_shares(lens, len, s as nat);
            lemma_part_of_all(lens, len, lens.len(), s as nat);
            // the shares of all symbols are no more than the whole code space
            assert(total <= share(0)) by {
                if leaves == 1 {
                    lemma_single_leaf(freqs, lens.len());
                    lemma_share_halves(0);
                } else {
                    // the tree has one root, and it is no leaf
                    assert(root_count(tree, tree.parents.len()) == 1);
                    lemma_the_root(tree, tree.parents.len());
                    let root = choose|r: int|
                        0 <= r < tree.parents.len() && tree.parents[r] == NO_PARENT;
                    assert forall|t: int|
                        0 <= t < freqs.len() && freqs[t] > 0 implies depth_in(
                        tree,
                        leaf_weights(freqs, t as nat).len() as int,
                    ) >= 1 by {
                        let leaf = leaf_weights(freqs, t as nat).len() as int;
                        crate::compression::repetition::lemma_leaf_index(freqs, t);
                        lemma_top_is_root(tree, leaves, leaf);
                        if depth_in(tree, leaf) == 0 {
                            // the leaf would be the root, above the other leaf
                            let other = if leaf == 0 {
                                1int
                            } else {
                                0int
                            };
                            lemma_top_is_root(tree, leaves, other);
                            if top(tree, other) != leaf {
                                lemma_two_roots_counted(
                                    tree,
                                    tree.parents.len(),
                                    top(tree, other),
                                    leaf,
                                );
                            }
                            lemma_top_above_leaves(tree, leaves, other);
                        }
                    }
                    lemma_shares_of_leaves(freqs, freqs.len());
                    lemma_mass_of_the_tree(tree, leaves, root, leaves);
                }
            }
            lemma_share_of_length(len);
            let c = code_of(lens, s);
            let unit = share(len);
            assert(c * unit + unit <= two_pow(len) * unit);
            assert(unit >= 1) by {
                crate::compression::huffman::lemma_two_pow_adds((scale() - len) as nat, 0);
            }
            assert(c < two_pow(len)) by (nonlinear_arith)
                requires
                    c * unit + unit <= two_pow(len) * unit,
                    unit >= 1,
            ;
        }
    }
}

/// The top of a node that has a parent is no leaf.
proof fn lemma_top_above_leaves(f: Forest, leaves: nat, x: int)
    requires
        grows_well(f, leaves),
        0 <= x < f.parents.len(),
    ensures
        top(f, x) == x || top(f, x) >= leaves,
    decreases f.parents.len() - x,
{
    if x < f.parents[x] && f.parents[x] < f.parents.len() {
        lemma_top_above_leaves(f, leaves, f.parents[x] as int);
        lemma_top_is_root(f, leaves, f.parents[x] as int);
    }
}

/// Where a root is counted, there is one.
proof fn lemma_the_root(f: Forest, k: nat)
    requires
        k <= f.parents.len(),
        root_count(f, k) >= 1,
    ensures
        exists|r: int| 0 <= r < k && f.parents[r] == NO_PARENT,
    decreases k,
{
    if k > 0 {
        if f.parents[k - 1] == NO_PARENT {
        } else {
            lemma_the_root(f, (k - 1) as nat);
        }
    }
}

/// With one leaf, the one symbol that occurs has a code of one bit.
proof fn lemma_single_leaf(freqs: Seq<usize>, m: nat)
    requires
        m <= freqs.len(),
        leaf_weights(freqs, freqs.len()).len() == 1,
        forall|s: int| 0 <= s < freqs.len() ==> #[trigger] code_length(freqs, s) <= 32,
    ensures
        all_shares(huffman_lengths(freqs), m) == leaf_weights(freqs, m).len() * share(1),
    decreases m,
{
    if m > 0 {
        lemma_single_leaf(freqs, (m - 1) as nat);
        let lens = huffman_lengths(freqs);
        assert(lens[m - 1] == code_length(freqs, m - 1));
        if freqs[m - 1] > 0 {
            crate::compression::repetition::lemma_leaf_index(freqs, m - 1);
            let tree = huffman_tree(freqs);
            // the forest of one leaf is never joined
            assert(leaves_only(freqs).parents.len() == 1);
            assert(tree == leaves_only(freqs)) by {
                lemma_lone_leaf_stays(leaves_only(freqs));
            }
            assert(depth_in(tree, 0) == 0);
        }
        let n = leaf_weights(freqs, (m - 1) as nat).len();
        assert((n + 1) * share(1) == n * share(1) + share(1)) by (nonlinear_arith);
    } else {
        assert(0 * share(1) == 0) by (nonlinear_arith);
    }
}

proof fn lemma_lone_leaf_stays(f: Forest)
    requires
        f.parents.len() == 1,
        f.weights.len() == 1,
    ensures
        grown(f, 1) == f,
{
    reveal_with_fuel(least_root, 3);
    let a = least_root(f, NO_PARENT, 1);
    let b = least_root(f, a, 1);
    if a != NO_PARENT {
        assert(a == 0);
        assert(b == NO_PARENT);
    }
}

} // verus!
