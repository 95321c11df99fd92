//! The decoding tree of a canonical code, and the walk along a stream of
//! bits that gives the symbols back.

use crate::compression::codes::{
    all_coded, code_bits, encoded, is_prefix, lemma_encoded_concat, lemma_prefix_free, read_bit,
    stream_bit, stream_bits, symbol_bits,
};
use crate::compression::huffman::{canonical_codes, lemma_two_pow, lengths_valid, two_pow};
use vstd::prelude::*;

verus! {

/// Node in the Huffman decoding tree.
///
/// Each leaf represents exactly one symbol and has no children. Internal
/// nodes have `left`/`right` children and no symbol. From the root, the
/// left branch is taken for a `0` bit and the right branch for a `1`.
#[derive(Clone, Copy, Debug)]
pub struct HuffmanNode {
    pub left: Option<usize>,
    pub right: Option<usize>,
    pub symbol: Option<u16>,
}

/// The child of the node `n` on the branch `bit`.
pub open spec fn child_of(nodes: Seq<HuffmanNode>, n: int, bit: bool) -> Option<usize> {
    if bit {
        nodes[n].right
    } else {
        nodes[n].left
    }
}

/// The node reached from the root along `path`, if the tree has it.
pub open spec fn walk(nodes: Seq<HuffmanNode>, path: Seq<bool>) -> Option<int>
    decreases path.len(),
{
    if path.len() == 0 {
        Some(0)
    } else {
        match walk(nodes, path.drop_last()) {
            Some(n) => match child_of(nodes, n, path.last()) {
                Some(c) => Some(c as int),
                None => None,
            },
            None => None,
        }
    }
}

/// The nodes form a tree below node `0`, and `paths` gives for each node
/// the branches that lead to it.
pub open spec fn tree_wf(nodes: Seq<HuffmanNode>, paths: Seq<Seq<bool>>) -> bool {
    &&& nodes.len() == paths.len()
    &&& nodes.len() >= 1
    &&& paths[0] == Seq::<bool>::empty()
    &&& forall|n: int, bit: bool|
        0 <= n < nodes.len() ==> match #[trigger] child_of(nodes, n, bit) {
            Some(c) => c < nodes.len() && paths[c as int] == paths[n].push(bit),
            None => true,
        }
}

/// The codes of the symbols below `k` are in the tree: the path of each
/// code ends in a node that holds the symbol, and a node holds a symbol
/// only where the symbol's code ends.
pub open spec fn marks_ok(
    nodes: Seq<HuffmanNode>,
    paths: Seq<Seq<bool>>,
    codes: Seq<(u32, u8)>,
    k: int,
) -> bool {
    &&& forall|n: int|
        0 <= n < nodes.len() ==> match (#[trigger] nodes[n]).symbol {
            Some(s) => s < k && s < codes.len() && codes[s as int].1 > 0 && paths[n]
                == symbol_bits(codes, s as int),
            None => true,
        }
    &&& forall|s: int|
        0 <= s < k && s < codes.len() && (#[trigger] codes[s]).1 > 0 ==> match walk(
            nodes,
            symbol_bits(codes, s),
        ) {
            Some(n) => 0 <= n < nodes.len() && nodes[n].symbol == Some(s as u16),
            None => false,
        }
}

/// `after` has every node and every branch of `before`.
pub open spec fn extends(before: Seq<HuffmanNode>, after: Seq<HuffmanNode>) -> bool {
    &&& before.len() <= after.len()
    &&& forall|n: int, bit: bool|
        0 <= n < before.len() && (#[trigger] child_of(before, n, bit)).is_some() ==> child_of(
            after,
            n,
            bit,
        ) == child_of(before, n, bit)
}

/// A walk ends in a node of the tree, whose path is the path walked.
pub proof fn lemma_walk_path(nodes: Seq<HuffmanNode>, paths: Seq<Seq<bool>>, path: Seq<bool>)
    requires
        tree_wf(nodes, paths),
        walk(nodes, path).is_some(),
    ensures
        0 <= walk(nodes, path).unwrap() < nodes.len(),
        paths[walk(nodes, path).unwrap()] == path,
    decreases path.len(),
{
    if path.len() > 0 {
        lemma_walk_path(nodes, paths, path.drop_last());
        let n = walk(nodes, path.drop_last()).unwrap();
        assert(child_of(nodes, n, path.last()).is_some());
        assert(path.drop_last().push(path.last()) =~= path);
    } else {
        assert(path =~= Seq::<bool>::empty());
    }
}

/// Where a walk succeeds, the walk along each beginning of its path succeeds.
pub proof fn lemma_walk_front(nodes: Seq<HuffmanNode>, path: Seq<bool>, j: int)
    requires
        walk(nodes, path).is_some(),
        0 <= j <= path.len(),
    ensures
        walk(nodes, path.take(j)).is_some(),
    decreases path.len() - j,
{
    if j < path.len() {
        lemma_walk_front(nodes, path, j + 1);
        assert(path.take(j + 1).drop_last() =~= path.take(j));
    } else {
        assert(path.take(j) =~= path);
    }
}

/// A walk in a tree is a walk in every tree that extends it.
pub proof fn lemma_walk_stable(before: Seq<HuffmanNode>, after: Seq<HuffmanNode>, path: Seq<bool>)
    requires
        extends(before, after),
        walk(before, path).is_some(),
        before.len() >= 1,
        forall|n: int, bit: bool|
            0 <= n < before.len() ==> match #[trigger] child_of(before, n, bit) {
                Some(c) => c < before.len(),
                None => true,
            },
    ensures
        walk(after, path) == walk(before, path),
        0 <= walk(before, path).unwrap() < before.len(),
    decreases path.len(),
{
    if path.len() > 0 {
        lemma_walk_stable(before, after, path.drop_last());
        let n = walk(before, path.drop_last()).unwrap();
        assert(child_of(before, n, path.last()).is_some());
    }
}

/// One step of a walk.
pub proof fn lemma_walk_step(nodes: Seq<HuffmanNode>, path: Seq<bool>, bit: bool)
    ensures
        walk(nodes, path.push(bit)) == match walk(nodes, path) {
            Some(n) => match child_of(nodes, n, bit) {
                Some(c) => Some(c as int),
                None => None,
            },
            None => None,
        },
{
    assert(path.push(bit).drop_last() =~= path);
    assert(path.push(bit).last() == bit);
}

/// A beginning of `p + [bit]` is a beginning of `p` or all of `p + [bit]`.
pub proof fn lemma_prefix_of_push(x: Seq<bool>, p: Seq<bool>, bit: bool)
    ensures
        is_prefix(x, p.push(bit)) <==> (is_prefix(x, p) || x == p.push(bit)),
{
    let q = p.push(bit);
    if is_prefix(x, q) {
        if x.len() <= p.len() {
            assert(p.take(x.len() as int) =~= q.take(x.len() as int));
        } else {
            assert(q.take(x.len() as int) =~= q);
        }
    }
    if is_prefix(x, p) {
        assert(q.take(x.len() as int) =~= p.take(x.len() as int));
    }
    if x == q {
        assert(q.take(q.len() as int) =~= q);
    }
}

/// Two beginnings of one sequence: the shorter is a beginning of the longer.
pub proof fn lemma_prefixes_comparable(x: Seq<bool>, y: Seq<bool>, z: Seq<bool>)
    requires
        is_prefix(x, z),
        is_prefix(y, z),
        x.len() <= y.len(),
    ensures
        is_prefix(x, y),
{
    assert(y.take(x.len() as int) =~= z.take(x.len() as int)) by {
        assert forall|i: int| 0 <= i < x.len() implies y.take(x.len() as int)[i] == z.take(
            x.len() as int,
        )[i] by {
            assert(z.take(y.len() as int)[i] == y[i]);
        }
    }
}

/// The bits of a sequence, split after its first symbol.
pub proof fn lemma_encoded_front(seq: Seq<u16>, codes: Seq<(u32, u8)>)
    requires
        seq.len() > 0,
    ensures
        encoded(seq, codes) == symbol_bits(codes, seq[0] as int) + encoded(seq.skip(1), codes),
{
    assert(seq =~= seq![seq[0]] + seq.skip(1));
    lemma_encoded_concat(seq![seq[0]], seq.skip(1), codes);
    assert(seq![seq[0]].drop_last() =~= Seq::<u16>::empty());
    reveal_with_fuel(encoded, 2);
    assert(encoded(seq![seq[0]], codes) =~= symbol_bits(codes, seq[0] as int));
}

/// Where the bits of `out`, followed by `rest`, begin the bits of `seq`,
/// `out` begins `seq` and `rest` begins the bits of what follows `out` in `seq`.
pub proof fn lemma_common_front(
    out: Seq<u16>,
    seq: Seq<u16>,
    rest: Seq<bool>,
    lens: Seq<u8>,
)
    requires
        lengths_valid(lens),
        all_coded(out, canonical_codes(lens)),
        all_coded(seq, canonical_codes(lens)),
        is_prefix(encoded(out, canonical_codes(lens)) + rest, encoded(seq, canonical_codes(lens))),
    ensures
        out.len() <= seq.len(),
        seq.take(out.len() as int) == out,
        is_prefix(rest, encoded(seq.skip(out.len() as int), canonical_codes(lens))),
    decreases out.len(),
{
    let codes = canonical_codes(lens);
    if out.len() == 0 {
        assert(encoded(out, codes) + rest =~= rest);
        assert(seq.skip(0) =~= seq);
        assert(seq.take(0) =~= out);
    } else {
        let a = out[0];
        let whole = encoded(seq, codes);
        lemma_encoded_front(out, codes);
        let bits_a = symbol_bits(codes, a as int);
        let tail = encoded(out.skip(1), codes);
        let front = encoded(out, codes) + rest;
        assert(front =~= bits_a + (tail + rest));
        assert(codes[a as int].1 > 0);
        assert(bits_a.len() > 0);
        assert(whole.len() >= bits_a.len());
        if seq.len() == 0 {
            assert(whole.len() == 0);
        }
        let t = seq[0];
        lemma_encoded_front(seq, codes);
        let bits_t = symbol_bits(codes, t as int);
        assert(whole == bits_t + encoded(seq.skip(1), codes));
        assert(is_prefix(bits_a, whole)) by {
            assert(whole.take(bits_a.len() as int) =~= bits_a) by {
                assert forall|i: int| 0 <= i < bits_a.len() implies whole[i] == bits_a[i] by {
                    assert(whole.take(front.len() as int)[i] == front[i]);
                }
            }
        }
        assert(is_prefix(bits_t, whole)) by {
            assert(whole.take(bits_t.len() as int) =~= bits_t);
        }
        if a != t {
            if bits_a.len() <= bits_t.len() {
                lemma_prefixes_comparable(bits_a, bits_t, whole);
                lemma_prefix_free(lens, a as int, t as int);
            } else {
                lemma_prefixes_comparable(bits_t, bits_a, whole);
                lemma_prefix_free(lens, t as int, a as int);
            }
        }
        assert(a == t);
        let seq_tail = encoded(seq.skip(1), codes);
        assert(is_prefix(tail + rest, seq_tail)) by {
            let inner = tail + rest;
            assert(inner.len() <= seq_tail.len());
            assert(seq_tail.take(inner.len() as int) =~= inner) by {
                assert forall|i: int| 0 <= i < inner.len() implies seq_tail[i] == inner[i] by {
                    assert(whole.take(front.len() as int)[i + bits_a.len()] == front[i
                        + bits_a.len()]);
                    assert(whole[i + bits_a.len()] == seq_tail[i]);
                    assert(front[i + bits_a.len()] == inner[i]);
                }
            }
        }
        assert(all_coded(out.skip(1), codes)) by {
            assert forall|i: int| 0 <= i < out.skip(1).len() implies (#[trigger] out.skip(1)[i])
                < codes.len() && codes[out.skip(1)[i] as int].1 > 0 by {
                assert(out.skip(1)[i] == out[i + 1]);
            }
        }
        assert(all_coded(seq.skip(1), codes)) by {
            assert forall|i: int| 0 <= i < seq.skip(1).len() implies (#[trigger] seq.skip(1)[i])
                < codes.len() && codes[seq.skip(1)[i] as int].1 > 0 by {
                assert(seq.skip(1)[i] == seq[i + 1]);
            }
        }
        lemma_common_front(out.skip(1), seq.skip(1), rest, lens);
        assert(seq.skip(1).skip(out.len() - 1) =~= seq.skip(out.len() as int));
        assert(seq.take(out.len() as int) =~= out) by {
            assert forall|i: int| 0 <= i < out.len() implies seq[i] == out[i] by {
                if i > 0 {
                    assert(seq.skip(1).take(out.len() - 1)[i - 1] == out.skip(1)[i - 1]);
                }
            }
        }
    }
}

/// No code is the beginning of the path `p`.
pub open spec fn no_code_begins(codes: Seq<(u32, u8)>, p: Seq<bool>) -> bool {
    forall|s: int|
        0 <= s < codes.len() && (#[trigger] codes[s]).1 > 0 ==> !is_prefix(
            symbol_bits(codes, s),
            p,
        )
}

/// Where the bits walked so far and one more bit begin a sequence of
/// codes, the tree has a branch for that bit.
pub proof fn lemma_stuck(
    nodes: Seq<HuffmanNode>,
    paths: Seq<Seq<bool>>,
    lens: Seq<u8>,
    out: Seq<u16>,
    cur: int,
    bit: bool,
    seq: Seq<u16>,
)
    requires
        lengths_valid(lens),
        tree_wf(nodes, paths),
        marks_ok(nodes, paths, canonical_codes(lens), lens.len() as int),
        all_coded(out, canonical_codes(lens)),
        all_coded(seq, canonical_codes(lens)),
        0 <= cur < nodes.len(),
        walk(nodes, paths[cur]) == Some(cur),
        no_code_begins(canonical_codes(lens), paths[cur]),
        is_prefix(
            encoded(out, canonical_codes(lens)) + paths[cur].push(bit),
            encoded(seq, canonical_codes(lens)),
        ),
    ensures
        child_of(nodes, cur, bit).is_some(),
{
    let codes = canonical_codes(lens);
    let p = paths[cur];
    let q = p.push(bit);
    lemma_common_front(out, seq, q, lens);
    let rest = seq.skip(out.len() as int);
    let rest_bits = encoded(rest, codes);
    if rest.len() == 0 {
        assert(rest_bits.len() == 0);
    }
    let t = rest[0];
    assert(t == seq[out.len() as int]);
    lemma_encoded_front(rest, codes);
    let bits_t = symbol_bits(codes, t as int);
    assert(is_prefix(bits_t, rest_bits)) by {
        assert(rest_bits.take(bits_t.len() as int) =~= bits_t);
    }
    assert(codes[t as int].1 > 0);
    lemma_walk_step(nodes, p, bit);
    if bits_t.len() <= q.len() {
        lemma_prefixes_comparable(bits_t, q, rest_bits);
        lemma_prefix_of_push(bits_t, p, bit);
        // the code of `t` is not the beginning of `p`, so it is `q`: its walk succeeds
        assert(bits_t == q);
        assert(walk(nodes, bits_t).is_some());
    } else {
        lemma_prefixes_comparable(q, bits_t, rest_bits);
        assert(walk(nodes, bits_t).is_some());
        lemma_walk_front(nodes, bits_t, q.len() as int);
        assert(bits_t.take(q.len() as int) == q);
    }
}

/// Bits that end within a code are no sequence of codes.
pub proof fn lemma_dangling(
    lens: Seq<u8>,
    out: Seq<u16>,
    p: Seq<bool>,
    seq: Seq<u16>,
)
    requires
        lengths_valid(lens),
        all_coded(out, canonical_codes(lens)),
        all_coded(seq, canonical_codes(lens)),
        p.len() > 0,
        no_code_begins(canonical_codes(lens), p),
    ensures
        encoded(out, canonical_codes(lens)) + p != encoded(seq, canonical_codes(lens)),
{
    let codes = canonical_codes(lens);
    let whole = encoded(seq, codes);
    if encoded(out, codes) + p == whole {
        assert(is_prefix(encoded(out, codes) + p, whole)) by {
            assert(whole.take(whole.len() as int) =~= whole);
        }
        lemma_common_front(out, seq, p, lens);
        let rest = seq.skip(out.len() as int);
        let rest_bits = encoded(rest, codes);
        if rest.len() == 0 {
            assert(rest_bits.len() == 0);
        }
        let t = rest[0];
        assert(t == seq[out.len() as int]);
        lemma_encoded_front(rest, codes);
        let bits_t = symbol_bits(codes, t as int);
        // the bits of `rest` are exactly `p`
        lemma_encoded_concat(seq.take(out.len() as int), rest, codes);
        assert(seq.take(out.len() as int) + rest =~= seq);
        assert(rest_bits =~= p) by {
            assert(whole == encoded(out, codes) + rest_bits);
            assert(rest_bits.len() == p.len());
            assert forall|i: int| 0 <= i < p.len() implies rest_bits[i] == p[i] by {
                assert(whole[encoded(out, codes).len() + i] == p[i]);
                assert(whole[encoded(out, codes).len() + i] == rest_bits[i]);
            }
        }
        assert(is_prefix(bits_t, p)) by {
            assert(p.take(bits_t.len() as int) =~= bits_t);
        }
        assert(codes[t as int].1 > 0);
    }
}

/// Build a Huffman decoding tree from `(code, length)` pairs.
///
/// The tree mirrors the canonical code assignment: a `0` bit takes the
/// `left` branch and a `1` bit the `right`. Each code inserts a leaf node
/// whose `symbol` field holds its symbol.
pub(crate) fn build_decoding_tree(codes: &Vec<(u32, u8)>, Ghost(lens): Ghost<Seq<u8>>) -> (r: (
    Vec<HuffmanNode>,
    Ghost<Seq<Seq<bool>>>,
))
    requires
        lengths_valid(lens),
        codes@ == canonical_codes(lens),
    ensures
        tree_wf(r.0@, r.1@),
        marks_ok(r.0@, r.1@, codes@, codes@.len() as int),
{
    let mut nodes: Vec<HuffmanNode> = Vec::new();
    nodes.push(HuffmanNode { left: None, right: None, symbol: None });
    let ghost mut paths: Seq<Seq<bool>> = seq![Seq::<bool>::empty()];
    let n = codes.len();
    let mut sym: usize = 0;
    proof {
        assert(walk(nodes@, Seq::<bool>::empty()) == Some(0int));
    }
    while sym < n
        invariant
            sym <= n,
            n == codes@.len(),
            n == lens.len(),
            lengths_valid(lens),
            codes@ == canonical_codes(lens),
            tree_wf(nodes@, paths),
            marks_ok(nodes@, paths, codes@, sym as int),
        decreases n - sym,
    {
        let (code, len) = codes[sym];
        if len > 0 {
            let ghost bits = symbol_bits(codes@, sym as int);
            proof {
                assert(lens[sym as int] == len);
                assert(bits == code_bits(code as nat, len as nat));
            }
            // the weight of the highest bit
            let mut divisor: u64 = 1;
            let mut k: u8 = 1;
            proof {
                reveal_with_fuel(two_pow, 2);
            }
            while k < len
                invariant
                    1 <= k <= len <= 32,
                    divisor == two_pow((k - 1) as nat),
                    divisor <= 0x1_0000_0000,
                decreases len - k,
            {
                proof {
                    lemma_two_pow((k - 1) as nat);
                    lemma_two_pow(k as nat);
                }
                divisor = divisor * 2;
                k += 1;
            }
            let mut idx: usize = 0;
            let mut i: u8 = 0;
            proof {
                lemma_two_pow((len - 1) as nat);
                assert(bits.take(0) =~= Seq::<bool>::empty());
            }
            while i < len
                invariant
                    i <= len <= 32,
                    sym < n,
                    n == codes@.len(),
                    n == lens.len(),
                    lengths_valid(lens),
                    codes@ == canonical_codes(lens),
                    codes@[sym as int] == (code, len),
                    bits == code_bits(code as nat, len as nat),
                    bits == symbol_bits(codes@, sym as int),
                    i < len ==> divisor == two_pow((len - 1 - i) as nat),
                    divisor >= 1,
                    tree_wf(nodes@, paths),
                    marks_ok(nodes@, paths, codes@, sym as int),
                    idx < nodes@.len(),
                    walk(nodes@, bits.take(i as int)) == Some(idx as int),
                    paths[idx as int] == bits.take(i as int),
                decreases len - i,
            {
                let bit = (code as u64 / divisor) % 2 == 1;
                proof {
                    assert(bits[i as int] == bit);
                    assert(bits.take(i + 1) =~= bits.take(i as int).push(bit));
                    lemma_walk_step(nodes@, bits.take(i as int), bit);
                    if i + 1 < len {
                        assert(two_pow((len - 1 - i) as nat) == 2 * two_pow((len - 2 - i) as nat));
                    }
                }
                let node = nodes[idx];
                let next = if bit {
                    node.right
                } else {
                    node.left
                };
                proof {
                    assert(next == child_of(nodes@, idx as int, bit));
                }
                match next {
                    Some(c) => {
                        idx = c;
                    },
                    None => {
                        let new_idx = nodes.len();
                        let ghost before = nodes@;
                        let ghost old_paths = paths;
                        nodes.push(HuffmanNode { left: None, right: None, symbol: None });
                        let changed = if bit {
                            HuffmanNode { left: node.left, right: Some(new_idx), symbol: node.symbol }
                        } else {
                            HuffmanNode { left: Some(new_idx), right: node.right, symbol: node.symbol }
                        };
                        nodes[idx] = changed;
                        proof {
                            paths = old_paths.push(old_paths[idx as int].push(bit));
                            assert(extends(before, nodes@)) by {
                                assert forall|m: int, b: bool|
                                    0 <= m < before.len() && (#[trigger] child_of(
                                        before,
                                        m,
                                        b,
                                    )).is_some() implies child_of(nodes@, m, b) == child_of(
                                    before,
                                    m,
                                    b,
                                ) by {
                                    if m == idx {
                                        assert(b != bit);
                                    }
                                }
                            }
                            assert(tree_wf(nodes@, paths)) by {
                                assert forall|m: int, b: bool| 0 <= m < nodes@.len() implies match #[trigger] child_of(
                                    nodes@,
                                    m,
                                    b,
                                ) {
                                    Some(c) => c < nodes@.len() && paths[c as int] == paths[m].push(
                                        b,
                                    ),
                                    None => true,
                                } by {
                                    if m == new_idx {
                                    } else if m == idx && b == bit {
                                    } else {
                                        assert(child_of(nodes@, m, b) == child_of(before, m, b));
                                    }
                                }
                            }
                            assert(marks_ok(nodes@, paths, codes@, sym as int)) by {
                                assert forall|m: int| 0 <= m < nodes@.len() implies match (
                                #[trigger] nodes@[m]).symbol {
                                    Some(s) => s < sym && s < codes@.len() && codes@[s as int].1
                                        > 0 && paths[m] == symbol_bits(codes@, s as int),
                                    None => true,
                                } by {
                                    if m < before.len() {
                                        assert(nodes@[m].symbol == before[m].symbol);
                                    }
                                }
                                assert forall|s: int|
                                    0 <= s < sym && s < codes@.len() && (#[trigger] codes@[s]).1
                                        > 0 implies match walk(nodes@, symbol_bits(codes@, s)) {
                                    Some(m) => 0 <= m < nodes@.len() && nodes@[m].symbol == Some(
                                        s as u16,
                                    ),
                                    None => false,
                                } by {
                                    lemma_walk_stable(before, nodes@, symbol_bits(codes@, s));
                                    let m = walk(before, symbol_bits(codes@, s)).unwrap();
                                    assert(nodes@[m].symbol == before[m].symbol);
                                }
                            }
                            lemma_walk_stable(before, nodes@, bits.take(i as int));
                            lemma_walk_step(nodes@, bits.take(i as int), bit);
                        }
                        idx = new_idx;
                    },
                }
                if i + 1 < len {
                    divisor = divisor / 2;
                }
                i += 1;
            }
            proof {
                assert(bits.take(len as int) =~= bits);
            }
            let node = nodes[idx];
            let ghost before = nodes@;
            proof {
                // a symbol here would have the same code as `sym`
                match node.symbol {
                    Some(other) => {
                        assert(before[idx as int].symbol == Some(other));
                        assert(paths[idx as int] == symbol_bits(codes@, other as int));
                        assert(is_prefix(
                            symbol_bits(codes@, other as int),
                            symbol_bits(codes@, sym as int),
                        )) by {
                            assert(bits.take(bits.len() as int) =~= bits);
                        }
                        lemma_prefix_free(lens, other as int, sym as int);
                    },
                    None => {},
                }
            }
            nodes[idx] = HuffmanNode {
                left: node.left,
                right: node.right,
                symbol: Some(sym as u16),
            };
            proof {
                assert(extends(before, nodes@));
                assert(tree_wf(nodes@, paths)) by {
                    assert forall|m: int, b: bool| 0 <= m < nodes@.len() implies match #[trigger] child_of(
                        nodes@,
                        m,
                        b,
                    ) {
                        Some(c) => c < nodes@.len() && paths[c as int] == paths[m].push(b),
                        None => true,
                    } by {
                        assert(child_of(nodes@, m, b) == child_of(before, m, b));
                    }
                }
                assert(marks_ok(nodes@, paths, codes@, sym + 1)) by {
                    assert forall|m: int| 0 <= m < nodes@.len() implies match (
                    #[trigger] nodes@[m]).symbol {
                        Some(s) => s < sym + 1 && s < codes@.len() && codes@[s as int].1 > 0
                            && paths[m] == symbol_bits(codes@, s as int),
                        None => true,
                    } by {
                        if m != idx {
                            assert(nodes@[m].symbol == before[m].symbol);
                        }
                    }
                    assert forall|s: int|
                        0 <= s < sym + 1 && s < codes@.len() && (#[trigger] codes@[s]).1
                            > 0 implies match walk(nodes@, symbol_bits(codes@, s)) {
                        Some(m) => 0 <= m < nodes@.len() && nodes@[m].symbol == Some(s as u16),
                        None => false,
                    } by {
                        if s < sym {
                            lemma_walk_stable(before, nodes@, symbol_bits(codes@, s));
                            let m = walk(before, symbol_bits(codes@, s)).unwrap();
                            assert(before[m].symbol == Some(s as u16));
                            assert(m != idx);
                            assert(nodes@[m].symbol == before[m].symbol);
                        } else {
                            lemma_walk_stable(before, nodes@, bits);
                        }
                    }
                }
            }
        } else {
            proof {
                assert(marks_ok(nodes@, paths, codes@, sym + 1));
            }
        }
        sym += 1;
    }
    (nodes, Ghost(paths))
}

/// Walks the first `bit_len` bits of the stream through the tree: at each
/// node that holds a symbol the symbol is given out and the walk starts
/// again at the root. Gives the symbols whose codes, one after the other,
/// are these bits; `None` where the bits are no such sequence of codes.
pub(crate) fn decode_bitstream(
    bitstream: &Vec<u8>,
    bit_len: usize,
    nodes: &Vec<HuffmanNode>,
    Ghost(paths): Ghost<Seq<Seq<bool>>>,
    Ghost(lens): Ghost<Seq<u8>>,
) -> (r: Option<Vec<u16>>)
    requires
        lengths_valid(lens),
        tree_wf(nodes@, paths),
        marks_ok(nodes@, paths, canonical_codes(lens), lens.len() as int),
        bit_len <= 8 * bitstream@.len(),
    ensures
        match r {
            Some(out) => all_coded(out@, canonical_codes(lens)) && encoded(
                out@,
                canonical_codes(lens),
            ) == stream_bits(bitstream@, bit_len as nat),
            None => forall|seq: Seq<u16>| #[trigger]
                all_coded(seq, canonical_codes(lens)) ==> encoded(seq, canonical_codes(lens))
                    != stream_bits(bitstream@, bit_len as nat),
        },
{
    let ghost codes = canonical_codes(lens);
    let ghost bits = stream_bits(bitstream@, bit_len as nat);
    let mut out: Vec<u16> = Vec::new();
    let mut idx: usize = 0;
    let mut pos: usize = 0;
    proof {
        assert(bits.take(0) =~= encoded(out@, codes) + paths[0]);
        assert(walk(nodes@, paths[0]) == Some(0int));
    }
    while pos < bit_len
        invariant
            pos <= bit_len <= 8 * bitstream@.len(),
            lengths_valid(lens),
            codes == canonical_codes(lens),
            bits == stream_bits(bitstream@, bit_len as nat),
            tree_wf(nodes@, paths),
            marks_ok(nodes@, paths, codes, lens.len() as int),
            idx < nodes@.len(),
            walk(nodes@, paths[idx as int]) == Some(idx as int),
            bits.take(pos as int) == encoded(out@, codes) + paths[idx as int],
            all_coded(out@, codes),
            no_code_begins(codes, paths[idx as int]),
        decreases bit_len - pos,
    {
        let bit = read_bit(bitstream, pos);
        let node = nodes[idx];
        let next = if bit {
            node.right
        } else {
            node.left
        };
        let ghost p = paths[idx as int];
        proof {
            assert(bits[pos as int] == bit);
            assert(next == child_of(nodes@, idx as int, bit));
            assert(bits.take(pos + 1) =~= bits.take(pos as int).push(bit));
            assert(bits.take(pos + 1) =~= encoded(out@, codes) + p.push(bit));
            lemma_walk_step(nodes@, p, bit);
        }
        match next {
            None => {
                proof {
                    assert forall|seq: Seq<u16>| #[trigger] all_coded(seq, codes) implies encoded(
                        seq,
                        codes,
                    ) != bits by {
                        if encoded(seq, codes) == bits {
                            assert(is_prefix(
                                encoded(out@, codes) + p.push(bit),
                                encoded(seq, codes),
                            ));
                            lemma_stuck(nodes@, paths, lens, out@, idx as int, bit, seq);
                        }
                    }
                }
                return None;
            },
            Some(c) => {
                let reached = nodes[c];
                proof {
                    assert(paths[c as int] == p.push(bit));
                }
                match reached.symbol {
                    Some(s) => {
                        proof {
                            assert(nodes@[c as int].symbol == Some(s));
                            assert(p.push(bit) == symbol_bits(codes, s as int));
                            crate::compression::codes::lemma_encoded_push(out@, s, codes);
                            assert(bits.take(pos + 1) =~= encoded(out@.push(s), codes)
                                + paths[0]);
                            assert(walk(nodes@, paths[0]) == Some(0int));
                        }
                        out.push(s);
                        idx = 0;
                    },
                    None => {
                        proof {
                            assert forall|s: int|
                                0 <= s < codes.len() && (#[trigger] codes[s]).1
                                    > 0 implies !is_prefix(symbol_bits(codes, s), p.push(bit)) by {
                                lemma_prefix_of_push(symbol_bits(codes, s), p, bit);
                                if symbol_bits(codes, s) == p.push(bit) {
                                    assert(walk(nodes@, symbol_bits(codes, s)) == Some(c as int));
                                }
                            }
                        }
                        idx = c;
                    },
                }
            },
        }
        pos += 1;
    }
    proof {
        assert(bits.take(bit_len as int) =~= bits);
    }
    if idx != 0 {
        proof {
            let p = paths[idx as int];
            if p.len() == 0 {
                assert(p =~= Seq::<bool>::empty());
            }
            assert forall|seq: Seq<u16>| #[trigger] all_coded(seq, codes) implies encoded(
                seq,
                codes,
            ) != bits by {
                if encoded(seq, codes) == bits {
                    lemma_dangling(lens, out@, p, seq);
                }
            }
        }
        return None;
    }
    proof {
        assert(encoded(out@, codes) + paths[0] =~= encoded(out@, codes));
    }
    Some(out)
}

} // verus!
