//! Huffman code lengths for a sequence of symbols, and the canonical codes
//! that belong to a table of code lengths.

use vstd::prelude::*;

verus! {

/// Among the first `n` members of `seq`, the number of those equal to `sym`.
pub open spec fn occurrences(seq: Seq<u16>, sym: int, n: nat) -> nat
    decreases n,
{
    if n == 0 {
        0
    } else {
        occurrences(seq, sym, (n - 1) as nat) + if seq[n - 1] == sym {
            1nat
        } else {
            0nat
        }
    }
}

/// A count as a machine number, held at the largest value of its type.
pub open spec fn held(n: nat) -> usize {
    if n > usize::MAX {
        usize::MAX
    } else {
        n as usize
    }
}

/// How often each of the symbols `0 .. count` occurs in `seq`.
pub open spec fn frequencies(seq: Seq<u16>, count: nat) -> Seq<usize> {
    Seq::new(count, |s: int| held(occurrences(seq, s, seq.len())))
}

/// The mark of a node that has no parent.
pub const NO_PARENT: usize = usize::MAX;

/// A forest of binary trees as it grows into the Huffman tree: for each
/// node its weight and its parent. The leaves come first; a merged node
/// comes after both nodes that it joins.
pub struct Forest {
    pub weights: Seq<usize>,
    pub parents: Seq<usize>,
}

/// The weights of the leaves for the first `n` symbols: one leaf for each
/// symbol that occurs, in the order of the symbols.
pub open spec fn leaf_weights(freqs: Seq<usize>, n: nat) -> Seq<usize>
    decreases n,
{
    if n == 0 {
        Seq::empty()
    } else if freqs[n - 1] > 0 {
        leaf_weights(freqs, (n - 1) as nat).push(freqs[n - 1])
    } else {
        leaf_weights(freqs, (n - 1) as nat)
    }
}

/// The forest of the leaves alone.
pub open spec fn leaves_only(freqs: Seq<usize>) -> Forest {
    let weights = leaf_weights(freqs, freqs.len());
    Forest { weights, parents: Seq::new(weights.len(), |i: int| NO_PARENT) }
}

/// Among the first `n` nodes, the root of least weight that is not `skip`,
/// the earliest of several; `NO_PARENT` where there is none.
pub open spec fn least_root(f: Forest, skip: usize, n: nat) -> usize
    decreases n,
{
    if n == 0 {
        NO_PARENT
    } else {
        let before = least_root(f, skip, (n - 1) as nat);
        let i = (n - 1) as usize;
        if f.parents[n - 1] == NO_PARENT && i != skip && (before == NO_PARENT || f.weights[n - 1]
            < f.weights[before as int]) {
            i
        } else {
            before
        }
    }
}

/// The sum of two weights, held at the largest value of their type.
pub open spec fn joined_weight(a: usize, b: usize) -> usize {
    if a + b > usize::MAX {
        usize::MAX
    } else {
        (a + b) as usize
    }
}

/// The forest after the roots `a` and `b` were joined under a new node.
pub open spec fn merged(f: Forest, a: usize, b: usize) -> Forest {
    let n = f.weights.len() as usize;
    Forest {
        weights: f.weights.push(joined_weight(f.weights[a as int], f.weights[b as int])),
        parents: f.parents.update(a as int, n).update(b as int, n).push(NO_PARENT),
    }
}

/// The forest after at most `steps` joins: as long as there are two roots,
/// the two of least weight are joined, the lighter one first.
pub open spec fn grown(f: Forest, steps: nat) -> Forest
    decreases steps,
{
    if steps == 0 {
        f
    } else {
        let a = least_root(f, NO_PARENT, f.weights.len());
        let b = least_root(f, a, f.weights.len());
        if a == NO_PARENT || b == NO_PARENT {
            f
        } else {
            grown(merged(f, a, b), (steps - 1) as nat)
        }
    }
}

/// The number of steps from a node up to the root of its tree.
pub open spec fn depth_in(f: Forest, node: int) -> nat
    decreases f.parents.len() - node,
{
    if 0 <= node < f.parents.len() && node < f.parents[node] && f.parents[node]
        < f.parents.len() {
        1 + depth_in(f, f.parents[node] as int)
    } else {
        0
    }
}

/// The Huffman tree of the frequencies.
pub open spec fn huffman_tree(freqs: Seq<usize>) -> Forest {
    grown(leaves_only(freqs), leaf_weights(freqs, freqs.len()).len())
}

/// The length of the code of the symbol `sym`: `0` where it does not occur,
/// else the depth of its leaf in the Huffman tree, at least `1` and at most `255`.
pub open spec fn code_length(freqs: Seq<usize>, sym: int) -> u8 {
    if !(0 <= sym < freqs.len()) || freqs[sym] == 0 {
        0
    } else {
        let depth = depth_in(huffman_tree(freqs), leaf_weights(freqs, sym as nat).len() as int);
        if depth == 0 {
            1
        } else if depth > 255 {
            255
        } else {
            depth as u8
        }
    }
}

/// The code lengths of all symbols.
pub open spec fn huffman_lengths(freqs: Seq<usize>) -> Seq<u8> {
    Seq::new(freqs.len(), |s: int| code_length(freqs, s))
}

/// `2^n`.
pub open spec fn two_pow(n: nat) -> nat
    decreases n,
{
    if n == 0 {
        1
    } else {
        2 * two_pow((n - 1) as nat)
    }
}

/// The next free code of length `len` when the symbols with shorter codes
/// and the symbols below `s` with codes of this length have got theirs:
/// codes are given out by ascending length and, within a length, by
/// ascending symbol, each one above the one before.
pub open spec fn next_code(lens: Seq<u8>, len: nat, s: nat) -> nat
    decreases len, s,
{
    if len == 0 {
        0
    } else if s == 0 {
        2 * next_code(lens, (len - 1) as nat, lens.len())
    } else {
        next_code(lens, len, (s - 1) as nat) + if lens[s - 1] == len {
            1nat
        } else {
            0nat
        }
    }
}

/// The canonical code of the symbol `s`.
pub open spec fn code_of(lens: Seq<u8>, s: int) -> nat {
    next_code(lens, lens[s] as nat, s as nat)
}

/// Longest code that is given out.
pub const MAX_CODE_LEN: u8 = 32;

/// A table of code lengths that yields a code: at most `65536` symbols, no
/// length above `32`, and each code fits its length.
pub open spec fn lengths_valid(lens: Seq<u8>) -> bool {
    &&& lens.len() <= 65536
    &&& forall|s: int|
        0 <= s < lens.len() ==> (#[trigger] lens[s]) <= 32 && (lens[s] > 0 ==> code_of(lens, s)
            < two_pow(lens[s] as nat))
}

/// The canonical codes of a table of lengths: for each symbol its code and
/// its length, `(0, 0)` for a symbol without a code.
pub open spec fn canonical_codes(lens: Seq<u8>) -> Seq<(u32, u8)> {
    Seq::new(
        lens.len(),
        |s: int|
            if lens[s] == 0 {
                (0u32, 0u8)
            } else {
                (code_of(lens, s) as u32, lens[s])
            },
    )
}

/// The powers of two up to `2^33`.
pub proof fn lemma_two_pow(n: nat)
    requires
        n <= 33,
    ensures
        1 <= two_pow(n) <= 0x2_0000_0000,
        n <= 32 ==> two_pow(n) <= 0x1_0000_0000,
        n <= 16 ==> two_pow(n) <= 0x1_0000,
        two_pow(n + 1) == 2 * two_pow(n),
        two_pow(16) == 0x1_0000,
    decreases 33 - n,
{
    reveal_with_fuel(two_pow, 35);
    assert(two_pow(33) == 0x2_0000_0000);
    assert(two_pow(32) == 0x1_0000_0000);
    assert(two_pow(16) == 0x1_0000);
    if n < 33 {
        lemma_two_pow(n + 1);
    }
}

/// `2^(a+b) = 2^a * 2^b`.
pub proof fn lemma_two_pow_adds(a: nat, b: nat)
    ensures
        two_pow(a + b) == two_pow(a) * two_pow(b),
        two_pow(a) >= 1,
    decreases a,
{
    if a == 0 {
        assert(two_pow(0) * two_pow(b) == two_pow(b)) by (nonlinear_arith)
            requires
                two_pow(0) == 1,
        ;
    } else {
        lemma_two_pow_adds((a - 1) as nat, b);
        assert(two_pow(a + b) == 2 * two_pow((a - 1 + b) as nat));
        assert(2 * (two_pow((a - 1) as nat) * two_pow(b)) == (2 * two_pow((a - 1) as nat))
            * two_pow(b)) by (nonlinear_arith);
    }
}

/// Codes of one length grow with the symbol.
pub proof fn lemma_next_code_grows(lens: Seq<u8>, len: nat, s: nat, t: nat)
    requires
        s <= t,
    ensures
        next_code(lens, len, s) <= next_code(lens, len, t),
    decreases t - s,
{
    if s < t {
        lemma_next_code_grows(lens, len, s, (t - 1) as nat);
    }
}

/// A longer code lies above every shorter code, shifted to its length: for
/// a symbol `s` with a code of length `short`, each code of a length
/// `long > short` is at least `(code_of(s) + 1) * 2^(long - short)`.
pub proof fn lemma_longer_code_above(lens: Seq<u8>, s: int, long: nat, t: nat)
    requires
        0 <= s < lens.len(),
        0 < lens[s] < long,
    ensures
        next_code(lens, long, t) >= (code_of(lens, s) + 1) * two_pow((long - lens[s]) as nat),
    decreases long, t,
{
    let short = lens[s] as nat;
    if t > 0 {
        lemma_longer_code_above(lens, s, long, (t - 1) as nat);
    } else {
        let under = next_code(lens, (long - 1) as nat, lens.len());
        if long - 1 == short {
            lemma_next_code_grows(lens, short, (s + 1) as nat, lens.len());
            assert(next_code(lens, short, (s + 1) as nat) == code_of(lens, s) + 1);
            assert(two_pow(1) == 2) by {
                reveal_with_fuel(two_pow, 2);
            }
            assert(2 * under >= (code_of(lens, s) + 1) * 2) by (nonlinear_arith)
                requires
                    under >= code_of(lens, s) + 1,
            ;
        } else {
            lemma_longer_code_above(lens, s, (long - 1) as nat, lens.len());
            let p = two_pow((long - 1 - short) as nat);
            assert(two_pow((long - short) as nat) == 2 * p);
            assert(2 * under >= (code_of(lens, s) + 1) * (2 * p)) by (nonlinear_arith)
                requires
                    under >= (code_of(lens, s) + 1) * p,
            ;
        }
    }
}

/// Two symbols with codes of the same length have different codes.
pub proof fn lemma_same_length_codes_differ(lens: Seq<u8>, s: int, t: int)
    requires
        0 <= s < t < lens.len(),
        lens[s] == lens[t],
        lens[s] > 0,
    ensures
        code_of(lens, s) < code_of(lens, t),
{
    lemma_next_code_grows(lens, lens[s] as nat, (s + 1) as nat, t as nat);
}

/// Counts how often each symbol occurs.
fn count_symbols(seq: &Vec<u16>, symbols_count: usize) -> (freqs: Vec<usize>)
    requires
        forall|i: int| 0 <= i < seq@.len() ==> (#[trigger] seq@[i]) < symbols_count,
    ensures
        freqs@ == frequencies(seq@, symbols_count as nat),
{
    let mut freqs: Vec<usize> = vec![0usize; symbols_count];
    let mut i: usize = 0;
    while i < seq.len()
        invariant
            i <= seq@.len(),
            freqs@.len() == symbols_count,
            forall|i: int| 0 <= i < seq@.len() ==> (#[trigger] seq@[i]) < symbols_count,
            forall|s: int|
                0 <= s < symbols_count ==> (#[trigger] freqs@[s]) == occurrences(
                    seq@,
                    s,
                    i as nat,
                ),
            forall|s: int|
                0 <= s < symbols_count ==> #[trigger] occurrences(seq@, s, i as nat) <= i,
        decreases seq@.len() - i,
    {
        let s = seq[i] as usize;
        let had = freqs[s];
        proof {
            assert(freqs@[s as int] == occurrences(seq@, s as int, i as nat));
            assert(occurrences(seq@, s as int, i as nat) <= i);
        }
        freqs[s] = had + 1;
        proof {
            let ghost next = (i + 1) as nat;
            assert forall|t: int| 0 <= t < symbols_count implies #[trigger] occurrences(
                seq@,
                t,
                next,
            ) <= next by {
                assert(occurrences(seq@, t, i as nat) <= i);
            }
        }
        i += 1;
    }
    proof {
        assert(freqs@ =~= frequencies(seq@, symbols_count as nat));
    }
    freqs
}

/// The root of least weight that is not `skip`, the earliest of several.
fn find_least_root(weights: &Vec<usize>, parents: &Vec<usize>, skip: usize) -> (r: usize)
    requires
        weights@.len() == parents@.len(),
        weights@.len() < usize::MAX,
    ensures
        r == least_root(Forest { weights: weights@, parents: parents@ }, skip, weights@.len()),
        r == NO_PARENT || (r < weights@.len() && r != skip && parents@[r as int] == NO_PARENT),
{
    let ghost f = Forest { weights: weights@, parents: parents@ };
    let mut best: usize = NO_PARENT;
    let mut i: usize = 0;
    while i < weights.len()
        invariant
            i <= weights@.len(),
            weights@.len() == parents@.len(),
            weights@.len() < usize::MAX,
            f == (Forest { weights: weights@, parents: parents@ }),
            best == least_root(f, skip, i as nat),
            best == NO_PARENT || (best < i && best != skip && parents@[best as int]
                == NO_PARENT),
        decreases weights@.len() - i,
    {
        if parents[i] == NO_PARENT && i != skip && (best == NO_PARENT || weights[i]
            < weights[best]) {
            best = i;
        }
        i += 1;
    }
    best
}

/// Computes the Huffman code length of each of the symbols
/// `0 .. symbols_count` for the sequence `seq`: `0` for a symbol that does
/// not occur, `1` for the only symbol of a sequence.
pub fn build_huffman_code_lengths(seq: &Vec<u16>, symbols_count: usize) -> (lengths: Vec<u8>)
    requires
        symbols_count <= 65536,
        forall|i: int| 0 <= i < seq@.len() ==> (#[trigger] seq@[i]) < symbols_count,
    ensures
        lengths@ == huffman_lengths(frequencies(seq@, symbols_count as nat)),
{
    let freqs = count_symbols(seq, symbols_count);
    let mut weights: Vec<usize> = Vec::new();
    let mut parents: Vec<usize> = Vec::new();
    let mut leaf_of: Vec<usize> = Vec::new();
    let mut s: usize = 0;
    while s < symbols_count
        invariant
            s <= symbols_count <= 65536,
            freqs@.len() == symbols_count,
            weights@ == leaf_weights(freqs@, s as nat),
            parents@ == Seq::new(weights@.len(), |i: int| NO_PARENT),
            weights@.len() <= s,
            leaf_of@.len() == s,
            forall|t: int|
                0 <= t < s ==> (#[trigger] leaf_of@[t]) == leaf_weights(freqs@, t as nat).len(),
        decreases symbols_count - s,
    {
        leaf_of.push(weights.len());
        if freqs[s] > 0 {
            weights.push(freqs[s]);
            parents.push(NO_PARENT);
            proof {
                assert(parents@ =~= Seq::new(weights@.len(), |i: int| NO_PARENT));
            }
        }
        s += 1;
    }
    let leaves = weights.len();
    let ghost first = Forest { weights: weights@, parents: parents@ };
    proof {
        assert(first == leaves_only(freqs@));
    }
    let mut step: usize = 0;
    let mut done = false;
    while step < leaves && !done
        invariant
            step <= leaves <= 65536,
            weights@.len() == parents@.len(),
            weights@.len() == leaves + step,
            grown(first, leaves as nat) == grown(
                Forest { weights: weights@, parents: parents@ },
                (leaves - step) as nat,
            ),
            done ==> grown(
                Forest { weights: weights@, parents: parents@ },
                (leaves - step) as nat,
            ) == (Forest { weights: weights@, parents: parents@ }),
        decreases leaves - step, if done { 0int } else { 1int },
    {
        let a = find_least_root(&weights, &parents, NO_PARENT);
        let b = find_least_root(&weights, &parents, a);
        if a == NO_PARENT || b == NO_PARENT {
            done = true;
        } else {
            let n = weights.len();
            let ghost before = Forest { weights: weights@, parents: parents@ };
            let joined = weights[a].saturating_add(weights[b]);
            weights.push(joined);
            parents[a] = n;
            parents[b] = n;
            parents.push(NO_PARENT);
            proof {
                assert(Forest { weights: weights@, parents: parents@ } == merged(before, a, b));
            }
            step += 1;
        }
    }
    let n = weights.len();
    let ghost tree = Forest { weights: weights@, parents: parents@ };
    proof {
        assert(tree == huffman_tree(freqs@));
    }
    let mut depths: Vec<usize> = vec![0usize; n];
    let mut i: usize = n;
    while i > 0
        invariant
            i <= n,
            n == parents@.len(),
            n <= 2 * 65536,
            depths@.len() == n,
            tree == (Forest { weights: weights@, parents: parents@ }),
            forall|j: int| i <= j < n ==> (#[trigger] depths@[j]) == depth_in(tree, j),
            forall|j: int| i <= j < n ==> (#[trigger] depths@[j]) <= n - j,
        decreases i,
    {
        i -= 1;
        let p = parents[i];
        if i < p && p < n {
            let d = depths[p] + 1;
            depths[i] = d;
        } else {
            depths[i] = 0;
        }
    }
    let mut lengths: Vec<u8> = Vec::new();
    let mut t: usize = 0;
    while t < symbols_count
        invariant
            t <= symbols_count,
            freqs@.len() == symbols_count,
            leaf_of@.len() == symbols_count,
            depths@.len() == n,
            weights@.len() == n,
            n >= leaves,
            leaves == leaf_weights(freqs@, symbols_count as nat).len(),
            tree == huffman_tree(freqs@),
            forall|u: int|
                0 <= u < symbols_count ==> (#[trigger] leaf_of@[u]) == leaf_weights(
                    freqs@,
                    u as nat,
                ).len(),
            forall|j: int| 0 <= j < n ==> (#[trigger] depths@[j]) == depth_in(tree, j),
            lengths@.len() == t,
            forall|u: int| 0 <= u < t ==> (#[trigger] lengths@[u]) == code_length(freqs@, u),
        decreases symbols_count - t,
    {
        if freqs[t] == 0 {
            lengths.push(0);
        } else {
            proof {
                lemma_leaf_index_in_range(freqs@, t as int);
            }
            let depth = depths[leaf_of[t]];
            let len: u8 = if depth == 0 {
                1
            } else if depth > 255 {
                255
            } else {
                depth as u8
            };
            lengths.push(len);
        }
        t += 1;
    }
    proof {
        assert(lengths@ =~= huffman_lengths(freqs@));
    }
    lengths
}

/// The leaf of a symbol that occurs is one of the leaves.
pub proof fn lemma_leaf_index_in_range(freqs: Seq<usize>, sym: int)
    requires
        0 <= sym < freqs.len(),
        freqs[sym] > 0,
    ensures
        leaf_weights(freqs, sym as nat).len() < leaf_weights(freqs, freqs.len()).len(),
{
    lemma_leaf_weights_grow(freqs, (sym + 1) as nat, freqs.len());
}

/// Later symbols only add leaves.
pub proof fn lemma_leaf_weights_grow(freqs: Seq<usize>, m: nat, n: nat)
    requires
        m <= n,
    ensures
        leaf_weights(freqs, m).len() <= leaf_weights(freqs, n).len(),
    decreases n - m,
{
    if m < n {
        lemma_leaf_weights_grow(freqs, m, (n - 1) as nat);
    }
}

/// Gives each symbol its canonical code: `(code, length)` for a symbol
/// with a length above `0`, `(0, 0)` for the others. `None` where the table
/// of lengths yields no code.
pub fn build_codes_from_lengths(code_lens: &Vec<u8>) -> (r: Option<Vec<(u32, u8)>>)
    ensures
        r.is_some() <==> lengths_valid(code_lens@),
        r.is_some() ==> r.unwrap()@ == canonical_codes(code_lens@),
{
    let n = code_lens.len();
    if n > 65536 {
        return None;
    }
    let mut k: usize = 0;
    while k < n
        invariant
            k <= n,
            n == code_lens@.len(),
            forall|s: int| 0 <= s < k ==> (#[trigger] code_lens@[s]) <= 32,
        decreases n - k,
    {
        if code_lens[k] > 32 {
            return None;
        }
        k += 1;
    }
    let mut codes: Vec<(u32, u8)> = Vec::with_capacity(n);
    let mut filled: usize = 0;
    while filled < n
        invariant
            filled <= n,
            codes@.len() == filled,
            forall|s: int| 0 <= s < filled ==> (#[trigger] codes@[s]) == (0u32, 0u8),
        decreases n - filled,
    {
        codes.push((0u32, 0u8));
        filled += 1;
    }
    let mut code: u64 = 0;
    let mut limit: u64 = 1;
    let mut len: u8 = 1;
    proof {
        reveal_with_fuel(two_pow, 2);
    }
    while len <= 32
        invariant
            1 <= len <= 33,
            n == code_lens@.len(),
            n <= 65536,
            codes@.len() == n,
            forall|s: int| 0 <= s < n ==> (#[trigger] code_lens@[s]) <= 32,
            limit == two_pow((len - 1) as nat),
            code == next_code(code_lens@, (len - 1) as nat, n as nat),
            code <= limit,
            forall|s: int|
                0 <= s < n && 0 < (#[trigger] code_lens@[s]) < len ==> code_of(code_lens@, s)
                    < two_pow(code_lens@[s] as nat) && codes@[s] == (
                    code_of(code_lens@, s) as u32,
                    code_lens@[s],
                ),
            forall|s: int|
                0 <= s < n && !(0 < (#[trigger] code_lens@[s]) < len) ==> codes@[s] == (0u32, 0u8),
        decreases 33 - len,
    {
        proof {
            lemma_two_pow((len - 1) as nat);
        }
        code = code * 2;
        limit = limit * 2;
        proof {
            lemma_two_pow(len as nat);
        }
        let mut s: usize = 0;
        while s < n
            invariant
                s <= n,
                1 <= len <= 32,
                n == code_lens@.len(),
                n <= 65536,
                codes@.len() == n,
                forall|s: int| 0 <= s < n ==> (#[trigger] code_lens@[s]) <= 32,
                limit == two_pow(len as nat),
                limit <= 0x1_0000_0000,
                code == next_code(code_lens@, len as nat, s as nat),
                code <= limit,
                forall|t: int|
                    0 <= t < n && (0 < (#[trigger] code_lens@[t]) < len || (code_lens@[t] == len
                        && t < s)) ==> code_of(code_lens@, t) < two_pow(code_lens@[t] as nat)
                        && codes@[t] == (code_of(code_lens@, t) as u32, code_lens@[t]),
                forall|t: int|
                    0 <= t < n && !(0 < (#[trigger] code_lens@[t]) < len || (code_lens@[t] == len
                        && t < s)) ==> codes@[t] == (0u32, 0u8),
            decreases n - s,
        {
            if code_lens[s] == len {
                if code >= limit {
                    proof {
                        assert(code_of(code_lens@, s as int) >= two_pow(
                            code_lens@[s as int] as nat,
                        ));
                    }
                    return None;
                }
                codes[s] = (code as u32, len);
                code += 1;
            }
            s += 1;
        }
        len += 1;
    }
    proof {
        assert(codes@ =~= canonical_codes(code_lens@));
    }
    Some(codes)
}

} // verus!
