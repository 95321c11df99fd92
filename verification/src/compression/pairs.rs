//! Pair substitution: the most frequent pair of neighbours becomes a new
//! symbol, again and again, until no pair occurs twice.

use std::collections::HashMap;
use vstd::prelude::*;

verus! {

broadcast use vstd::std_specs::hash::group_hash_axioms;

/// A pair of symbols as one number.
pub open spec fn pair_key(a: u16, b: u16) -> u32 {
    (a as u32 * 65536 + b as u32) as u32
}

/// Number of places in a sequence at which a pair of neighbours starts.
pub open spec fn windows(seq: Seq<u16>) -> nat {
    if seq.len() == 0 {
        0
    } else {
        (seq.len() - 1) as nat
    }
}

/// Among the first `n` places of `seq`, the number of those at which the
/// pair `(a, b)` starts. Pairs that overlap all count.
pub open spec fn count_windows(seq: Seq<u16>, a: u16, b: u16, n: nat) -> nat
    decreases n,
{
    if n == 0 {
        0
    } else {
        count_windows(seq, a, b, (n - 1) as nat) + if seq[n - 1] == a && seq[n as int] == b {
            1nat
        } else {
            0nat
        }
    }
}

/// How often the pair `(a, b)` occurs in `seq`.
pub open spec fn pair_count(seq: Seq<u16>, a: u16, b: u16) -> nat {
    count_windows(seq, a, b, windows(seq))
}

/// How often the pair that starts at place `i` occurs in `seq`.
pub open spec fn count_at(seq: Seq<u16>, i: int) -> nat {
    pair_count(seq, seq[i], seq[i + 1])
}

/// Among the first `n` places, the first at which a pair starts that
/// occurs as often as any pair starting at one of them.
pub open spec fn best_window(seq: Seq<u16>, n: nat) -> int
    decreases n,
{
    if n <= 1 {
        0
    } else {
        let before = best_window(seq, (n - 1) as nat);
        if count_at(seq, n - 1) > count_at(seq, before) {
            n - 1
        } else {
            before
        }
    }
}

/// The sequence with each occurrence of the pair `(a, b)`, taken from left
/// to right without overlap, replaced by `sym`.
pub open spec fn replaced(seq: Seq<u16>, a: u16, b: u16, sym: u16) -> Seq<u16>
    decreases seq.len(),
{
    if seq.len() == 0 {
        Seq::empty()
    } else if seq.len() >= 2 && seq[0] == a && seq[1] == b {
        seq![sym] + replaced(seq.skip(2), a, b, sym)
    } else {
        seq![seq[0]] + replaced(seq.skip(1), a, b, sym)
    }
}

/// Pair substitution from a given state: `pairs` holds the pairs of the
/// symbols made so far, the symbol `base + i` standing for `pairs[i]`. As
/// long as the most frequent pair of `seq` (the first such pair, where
/// several are as frequent) occurs more than once and fewer than `65535`
/// symbols are in use, that pair gets the next symbol and is replaced.
/// Gives the final sequence and pairs.
pub open spec fn substituted(seq: Seq<u16>, pairs: Seq<(u16, u16)>, base: u16) -> (
    Seq<u16>,
    Seq<(u16, u16)>,
)
    decreases seq.len(),
{
    if seq.len() < 2 || base + pairs.len() >= 65535 {
        (seq, pairs)
    } else {
        let w = best_window(seq, windows(seq));
        let a = seq[w];
        let b = seq[w + 1];
        if pair_count(seq, a, b) <= 1 {
            (seq, pairs)
        } else {
            proof {
                lemma_best_window(seq, windows(seq));
                lemma_replaced_shorter(seq, a, b, (base + pairs.len()) as u16, w);
            }
            substituted(
                replaced(seq, a, b, (base + pairs.len()) as u16),
                pairs.push((a, b)),
                base,
            )
        }
    }
}

/// Every pair stands for two symbols that came before its own.
pub open spec fn pairs_wf(pairs: Seq<(u16, u16)>, base: u16) -> bool {
    &&& base + pairs.len() <= 65536
    &&& forall|i: int|
        0 <= i < pairs.len() ==> (#[trigger] pairs[i]).0 < base + i && pairs[i].1 < base + i
}

/// Every symbol of `seq` is below `limit`.
pub open spec fn symbols_below(seq: Seq<u16>, limit: int) -> bool {
    forall|i: int| 0 <= i < seq.len() ==> (#[trigger] seq[i]) < limit
}

/// The base symbols that a symbol stands for.
pub open spec fn expanded_symbol(sym: u16, pairs: Seq<(u16, u16)>, base: u16) -> Seq<u16>
    decreases sym,
{
    if sym < base || sym - base >= pairs.len() {
        seq![sym]
    } else {
        let (a, b) = pairs[sym - base];
        if a < sym && b < sym {
            expanded_symbol(a, pairs, base) + expanded_symbol(b, pairs, base)
        } else {
            seq![sym]
        }
    }
}

/// The base symbols that a sequence of symbols stands for.
pub open spec fn expanded(seq: Seq<u16>, pairs: Seq<(u16, u16)>, base: u16) -> Seq<u16>
    decreases seq.len(),
{
    if seq.len() == 0 {
        Seq::empty()
    } else {
        expanded(seq.drop_last(), pairs, base) + expanded_symbol(seq.last(), pairs, base)
    }
}

/// The best place is a place, and no pair is more frequent than its pair.
pub proof fn lemma_best_window(seq: Seq<u16>, n: nat)
    requires
        1 <= n <= windows(seq),
    ensures
        0 <= best_window(seq, n) < n,
        forall|i: int|
            0 <= i < n ==> (#[trigger] count_at(seq, i)) <= count_at(seq, best_window(seq, n)),
    decreases n,
{
    if n > 1 {
        lemma_best_window(seq, (n - 1) as nat);
    }
}

/// A pair that starts at a place occurs at least once.
pub proof fn lemma_count_at_least(seq: Seq<u16>, w: int, n: nat)
    requires
        0 <= w < n <= windows(seq),
    ensures
        count_windows(seq, seq[w], seq[w + 1], n) >= 1,
    decreases n,
{
    if w < n - 1 {
        lemma_count_at_least(seq, w, (n - 1) as nat);
    }
}

/// Replacing never makes a sequence longer.
pub proof fn lemma_replaced_len(seq: Seq<u16>, a: u16, b: u16, sym: u16)
    ensures
        replaced(seq, a, b, sym).len() <= seq.len(),
    decreases seq.len(),
{
    if seq.len() == 0 {
    } else if seq.len() >= 2 && seq[0] == a && seq[1] == b {
        lemma_replaced_len(seq.skip(2), a, b, sym);
    } else {
        lemma_replaced_len(seq.skip(1), a, b, sym);
    }
}

/// Replacing a pair that occurs makes the sequence shorter.
pub proof fn lemma_replaced_shorter(seq: Seq<u16>, a: u16, b: u16, sym: u16, w: int)
    requires
        0 <= w,
        w + 1 < seq.len(),
        seq[w] == a,
        seq[w + 1] == b,
    ensures
        replaced(seq, a, b, sym).len() < seq.len(),
    decreases seq.len(),
{
    if seq.len() >= 2 && seq[0] == a && seq[1] == b {
        lemma_replaced_len(seq.skip(2), a, b, sym);
    } else {
        assert(w >= 1);
        lemma_replaced_shorter(seq.skip(1), a, b, sym, w - 1);
    }
}

/// What a sequence stands for is what its parts stand for, one after the other.
pub proof fn lemma_expanded_concat(x: Seq<u16>, y: Seq<u16>, pairs: Seq<(u16, u16)>, base: u16)
    ensures
        expanded(x + y, pairs, base) == expanded(x, pairs, base) + expanded(y, pairs, base),
    decreases y.len(),
{
    if y.len() == 0 {
        assert(x + y =~= x);
        assert(expanded(x, pairs, base) + Seq::<u16>::empty() =~= expanded(x, pairs, base));
    } else {
        assert((x + y).drop_last() =~= x + y.drop_last());
        assert((x + y).last() == y.last());
        lemma_expanded_concat(x, y.drop_last(), pairs, base);
        assert(expanded(x, pairs, base) + expanded(y.drop_last(), pairs, base) + expanded_symbol(
            y.last(),
            pairs,
            base,
        ) =~= expanded(x, pairs, base) + (expanded(y.drop_last(), pairs, base) + expanded_symbol(
            y.last(),
            pairs,
            base,
        )));
    }
}

/// A sequence of one symbol stands for what the symbol stands for.
pub proof fn lemma_expanded_one(sym: u16, pairs: Seq<(u16, u16)>, base: u16)
    ensures
        expanded(seq![sym], pairs, base) == expanded_symbol(sym, pairs, base),
{
    reveal_with_fuel(expanded, 2);
    assert(seq![sym].drop_last() =~= Seq::<u16>::empty());
    assert(seq![sym].last() == sym);
    assert(Seq::<u16>::empty() + expanded_symbol(sym, pairs, base) =~= expanded_symbol(
        sym,
        pairs,
        base,
    ));
}

/// A further pair changes nothing about the symbols that were there before.
pub proof fn lemma_expanded_symbol_stable(
    sym: u16,
    pairs: Seq<(u16, u16)>,
    base: u16,
    pair: (u16, u16),
)
    requires
        sym < base + pairs.len(),
    ensures
        expanded_symbol(sym, pairs.push(pair), base) == expanded_symbol(sym, pairs, base),
    decreases sym,
{
    if sym >= base {
        let (a, b) = pairs[sym - base];
        assert(pairs.push(pair)[sym - base] == pairs[sym - base]);
        if a < sym && b < sym {
            lemma_expanded_symbol_stable(a, pairs, base, pair);
            lemma_expanded_symbol_stable(b, pairs, base, pair);
        }
    }
}

/// A further pair changes nothing about a sequence of earlier symbols.
pub proof fn lemma_expanded_stable(
    seq: Seq<u16>,
    pairs: Seq<(u16, u16)>,
    base: u16,
    pair: (u16, u16),
)
    requires
        symbols_below(seq, base + pairs.len()),
    ensures
        expanded(seq, pairs.push(pair), base) == expanded(seq, pairs, base),
    decreases seq.len(),
{
    if seq.len() > 0 {
        assert(symbols_below(seq.drop_last(), base + pairs.len())) by {
            assert forall|i: int| 0 <= i < seq.drop_last().len() implies (
            #[trigger] seq.drop_last()[i]) < base + pairs.len() by {
                assert(seq.drop_last()[i] == seq[i]);
            }
        }
        lemma_expanded_stable(seq.drop_last(), pairs, base, pair);
        lemma_expanded_symbol_stable(seq.last(), pairs, base, pair);
    }
}

/// After a pair was replaced by its new symbol, the sequence stands for
/// the same base symbols as before.
pub proof fn lemma_replaced_expands(
    seq: Seq<u16>,
    pairs: Seq<(u16, u16)>,
    base: u16,
    a: u16,
    b: u16,
)
    requires
        base + pairs.len() < 65536,
        symbols_below(seq, base + pairs.len()),
        a < base + pairs.len(),
        b < base + pairs.len(),
    ensures
        expanded(replaced(seq, a, b, (base + pairs.len()) as u16), pairs.push((a, b)), base)
            == expanded(seq, pairs, base),
        symbols_below(replaced(seq, a, b, (base + pairs.len()) as u16), base + pairs.len() + 1),
    decreases seq.len(),
{
    let sym = (base + pairs.len()) as u16;
    let more = pairs.push((a, b));
    let out = replaced(seq, a, b, sym);
    if seq.len() == 0 {
    } else if seq.len() >= 2 && seq[0] == a && seq[1] == b {
        let rest = seq.skip(2);
        assert(symbols_below(rest, base + pairs.len())) by {
            assert forall|i: int| 0 <= i < rest.len() implies (#[trigger] rest[i]) < base
                + pairs.len() by {
                assert(rest[i] == seq[i + 2]);
            }
        }
        lemma_replaced_expands(rest, pairs, base, a, b);
        lemma_expanded_concat(seq![sym], replaced(rest, a, b, sym), more, base);
        lemma_expanded_one(sym, more, base);
        assert(more[sym - base] == (a, b));
        lemma_expanded_symbol_stable(a, pairs, base, (a, b));
        lemma_expanded_symbol_stable(b, pairs, base, (a, b));
        assert(expanded_symbol(sym, more, base) == expanded_symbol(a, pairs, base)
            + expanded_symbol(b, pairs, base));
        assert(seq =~= seq![a] + seq![b] + rest);
        lemma_expanded_concat(seq![a] + seq![b], rest, pairs, base);
        lemma_expanded_concat(seq![a], seq![b], pairs, base);
        lemma_expanded_one(a, pairs, base);
        lemma_expanded_one(b, pairs, base);
        assert forall|i: int| 0 <= i < out.len() implies (#[trigger] out[i]) < base + pairs.len()
            + 1 by {
            if i > 0 {
                assert(out[i] == replaced(rest, a, b, sym)[i - 1]);
            }
        }
    } else {
        let rest = seq.skip(1);
        assert(symbols_below(rest, base + pairs.len())) by {
            assert forall|i: int| 0 <= i < rest.len() implies (#[trigger] rest[i]) < base
                + pairs.len() by {
                assert(rest[i] == seq[i + 1]);
            }
        }
        lemma_replaced_expands(rest, pairs, base, a, b);
        lemma_expanded_concat(seq![seq[0]], replaced(rest, a, b, sym), more, base);
        lemma_expanded_one(seq[0], more, base);
        lemma_expanded_symbol_stable(seq[0], pairs, base, (a, b));
        assert(seq =~= seq![seq[0]] + rest);
        lemma_expanded_concat(seq![seq[0]], rest, pairs, base);
        lemma_expanded_one(seq[0], pairs, base);
        assert forall|i: int| 0 <= i < out.len() implies (#[trigger] out[i]) < base + pairs.len()
            + 1 by {
            if i > 0 {
                assert(out[i] == replaced(rest, a, b, sym)[i - 1]);
            }
        }
    }
}

/// Pair substitution keeps what the sequence stands for, and leaves pairs
/// and symbols in order.
pub proof fn lemma_substituted(seq: Seq<u16>, pairs: Seq<(u16, u16)>, base: u16)
    requires
        pairs_wf(pairs, base),
        symbols_below(seq, base + pairs.len()),
    ensures
        ({
            let (out, more) = substituted(seq, pairs, base);
            &&& pairs_wf(more, base)
            &&& symbols_below(out, base + more.len())
            &&& expanded(out, more, base) == expanded(seq, pairs, base)
            &&& out.len() <= seq.len()
        }),
    decreases seq.len(),
{
    if seq.len() < 2 || base + pairs.len() >= 65535 {
    } else {
        let w = best_window(seq, windows(seq));
        let a = seq[w];
        let b = seq[w + 1];
        lemma_best_window(seq, windows(seq));
        if pair_count(seq, a, b) <= 1 {
        } else {
            let sym = (base + pairs.len()) as u16;
            lemma_replaced_shorter(seq, a, b, sym, w);
            lemma_replaced_expands(seq, pairs, base, a, b);
            let more = pairs.push((a, b));
            assert(pairs_wf(more, base)) by {
                assert forall|i: int| 0 <= i < more.len() implies (#[trigger] more[i]).0 < base + i
                    && more[i].1 < base + i by {
                    if i < pairs.len() {
                        assert(more[i] == pairs[i]);
                    }
                }
            }
            lemma_substituted(replaced(seq, a, b, sym), more, base);
        }
    }
}

/// A sequence of base symbols stands for itself.
pub proof fn lemma_expanded_base(seq: Seq<u16>, pairs: Seq<(u16, u16)>, base: u16)
    requires
        symbols_below(seq, base as int),
    ensures
        expanded(seq, pairs, base) == seq,
    decreases seq.len(),
{
    if seq.len() > 0 {
        assert(symbols_below(seq.drop_last(), base as int)) by {
            assert forall|i: int| 0 <= i < seq.drop_last().len() implies (
            #[trigger] seq.drop_last()[i]) < base by {
                assert(seq.drop_last()[i] == seq[i]);
            }
        }
        lemma_expanded_base(seq.drop_last(), pairs, base);
        assert(seq.drop_last() + seq![seq.last()] =~= seq);
    }
}

/// Every symbol stands for base symbols only.
pub proof fn lemma_expanded_symbol_is_base(sym: u16, pairs: Seq<(u16, u16)>, base: u16)
    requires
        pairs_wf(pairs, base),
        sym < base + pairs.len(),
    ensures
        symbols_below(expanded_symbol(sym, pairs, base), base as int),
        expanded_symbol(sym, pairs, base).len() >= 1,
    decreases sym,
{
    if sym >= base {
        let (a, b) = pairs[sym - base];
        lemma_expanded_symbol_is_base(a, pairs, base);
        lemma_expanded_symbol_is_base(b, pairs, base);
    }
}

/// Counts the pairs of neighbours of `seq`.
fn count_pairs(seq: &Vec<u16>) -> (counts: HashMap<u32, usize>)
    requires
        seq@.len() >= 2,
    ensures
        forall|a: u16, b: u16|
            pair_count(seq@, a, b) == (if counts@.contains_key(#[trigger] pair_key(a, b)) {
                counts@[pair_key(a, b)] as nat
            } else {
                0nat
            }),
{
    let mut counts: HashMap<u32, usize> = HashMap::new();
    let n = seq.len() - 1;
    let mut i: usize = 0;
    while i < n
        invariant
            n == seq@.len() - 1,
            i <= n,
            forall|a: u16, b: u16|
                count_windows(seq@, a, b, i as nat) == (if counts@.contains_key(
                    #[trigger] pair_key(a, b),
                ) {
                    counts@[pair_key(a, b)] as nat
                } else {
                    0nat
                }),
            forall|a: u16, b: u16| count_windows(seq@, a, b, i as nat) <= i,
        decreases n - i,
    {
        let x = seq[i];
        let y = seq[i + 1];
        let key: u32 = x as u32 * 65536 + y as u32;
        let had: usize = match counts.get(&key) {
            Some(c) => *c,
            None => 0,
        };
        proof {
            assert(key == pair_key(x, y));
            assert(had == count_windows(seq@, x, y, i as nat));
        }
        let ghost before = counts@;
        counts.insert(key, had + 1);
        proof {
            assert forall|a: u16, b: u16|
                count_windows(seq@, a, b, (i + 1) as nat) == (if counts@.contains_key(
                    #[trigger] pair_key(a, b),
                ) {
                    counts@[pair_key(a, b)] as nat
                } else {
                    0nat
                }) by {
                if a == x && b == y {
                } else {
                    assert(pair_key(a, b) != pair_key(x, y));
                    assert(before.contains_key(pair_key(a, b)) == counts@.contains_key(
                        pair_key(a, b),
                    ));
                }
            }
            let ghost next = (i + 1) as nat;
            assert forall|a: u16, b: u16| #[trigger] count_windows(seq@, a, b, next) <= next by {
                assert(count_windows(seq@, a, b, i as nat) <= i);
            }
        }
        i += 1;
    }
    counts
}

/// The place of the most frequent pair and how often it occurs.
fn find_best(seq: &Vec<u16>, counts: &HashMap<u32, usize>) -> (r: (usize, usize))
    requires
        seq@.len() >= 2,
        forall|a: u16, b: u16|
            pair_count(seq@, a, b) == (if counts@.contains_key(#[trigger] pair_key(a, b)) {
                counts@[pair_key(a, b)] as nat
            } else {
                0nat
            }),
    ensures
        r.0 == best_window(seq@, windows(seq@)),
        r.1 == count_at(seq@, r.0 as int),
        r.0 + 1 < seq@.len(),
{
    let n = seq.len() - 1;
    let mut best: usize = 0;
    let mut best_count: usize = 0;
    let mut i: usize = 0;
    while i < n
        invariant
            n == seq@.len() - 1,
            i <= n,
            best == best_window(seq@, i as nat),
            i > 0 ==> best < i && best_count == count_at(seq@, best as int),
            i == 0 ==> best == 0 && best_count == 0,
            forall|a: u16, b: u16|
                pair_count(seq@, a, b) == (if counts@.contains_key(#[trigger] pair_key(a, b)) {
                    counts@[pair_key(a, b)] as nat
                } else {
                    0nat
                }),
        decreases n - i,
    {
        let x = seq[i];
        let y = seq[i + 1];
        let key: u32 = x as u32 * 65536 + y as u32;
        let c: usize = match counts.get(&key) {
            Some(c) => *c,
            None => 0,
        };
        proof {
            assert(key == pair_key(x, y));
            assert(c == count_at(seq@, i as int));
            lemma_count_at_least(seq@, i as int, n as nat);
        }
        if i == 0 || c > best_count {
            best = i;
            best_count = c;
        }
        i += 1;
    }
    (best, best_count)
}

/// Replaces each occurrence of the pair, from left to right without overlap.
fn replace_pair(seq: &Vec<u16>, a: u16, b: u16, sym: u16) -> (out: Vec<u16>)
    ensures
        out@ == replaced(seq@, a, b, sym),
{
    let mut out: Vec<u16> = Vec::with_capacity(seq.len());
    let mut i: usize = 0;
    proof {
        assert(seq@.skip(0) =~= seq@);
        assert(Seq::<u16>::empty() + replaced(seq@, a, b, sym) =~= replaced(seq@, a, b, sym));
    }
    while i < seq.len()
        invariant
            i <= seq@.len(),
            out@ + replaced(seq@.skip(i as int), a, b, sym) == replaced(seq@, a, b, sym),
        decreases seq@.len() - i,
    {
        let ghost rest = seq@.skip(i as int);
        proof {
            assert(rest[0] == seq@[i as int]);
        }
        if seq.len() - i >= 2 && seq[i] == a && seq[i + 1] == b {
            proof {
                assert(rest[1] == seq@[i + 1]);
                assert(rest.skip(2) =~= seq@.skip(i + 2));
                assert(out@.push(sym) + replaced(seq@.skip(i + 2), a, b, sym) =~= out@ + (seq![sym]
                    + replaced(seq@.skip(i + 2), a, b, sym)));
            }
            out.push(sym);
            i += 2;
        } else {
            proof {
                if rest.len() >= 2 {
                    assert(rest[1] == seq@[i + 1]);
                }
                assert(rest.skip(1) =~= seq@.skip(i + 1));
                assert(out@.push(seq@[i as int]) + replaced(seq@.skip(i + 1), a, b, sym) =~= out@
                    + (seq![seq@[i as int]] + replaced(seq@.skip(i + 1), a, b, sym)));
            }
            out.push(seq[i]);
            i += 1;
        }
    }
    proof {
        assert(seq@.skip(seq@.len() as int) =~= Seq::<u16>::empty());
        assert(out@ + Seq::<u16>::empty() =~= out@);
    }
    out
}

/// Pair substitution: gives the shortened sequence and the pairs of the
/// new symbols, the symbol `base + i` standing for the `i`-th pair.
pub fn pair_substitution(seq: Vec<u16>, base: u16) -> (r: (Vec<u16>, Vec<(u16, u16)>))
    ensures
        (r.0@, r.1@) == substituted(seq@, Seq::empty(), base),
{
    let mut seq = seq;
    let mut sym_pairs: Vec<(u16, u16)> = Vec::new();
    let ghost first = seq@;
    let mut done = false;
    while !done
        invariant
            substituted(first, Seq::empty(), base) == substituted(seq@, sym_pairs@, base),
            base + sym_pairs@.len() <= 65536,
            done ==> substituted(seq@, sym_pairs@, base) == (seq@, sym_pairs@),
        decreases seq@.len() + (if done { 0int } else { 1int }),
    {
        if seq.len() < 2 || base as usize + sym_pairs.len() >= 65535 {
            done = true;
        } else {
            let counts = count_pairs(&seq);
            let (w, count) = find_best(&seq, &counts);
            if count <= 1 {
                done = true;
            } else {
                let a = seq[w];
                let b = seq[w + 1];
                let new_sym: u16 = (base as usize + sym_pairs.len()) as u16;
                proof {
                    lemma_replaced_shorter(seq@, a, b, new_sym, w as int);
                }
                let new_seq = replace_pair(&seq, a, b, new_sym);
                sym_pairs.push((a, b));
                seq = new_seq;
            }
        }
    }
    (seq, sym_pairs)
}

/// Appends to `out` the base symbols that `sym` stands for.
pub fn expand_symbol(sym: u16, sym_pairs: &Vec<(u16, u16)>, base: u16, out: &mut Vec<u16>)
    requires
        pairs_wf(sym_pairs@, base),
        sym < base + sym_pairs@.len(),
    ensures
        final(out)@ == old(out)@ + expanded_symbol(sym, sym_pairs@, base),
    decreases sym,
{
    if sym < base {
        out.push(sym);
        proof {
            assert(out@ =~= old(out)@ + seq![sym]);
        }
    } else {
        let (a, b) = sym_pairs[(sym - base) as usize];
        expand_symbol(a, sym_pairs, base, out);
        expand_symbol(b, sym_pairs, base, out);
        proof {
            assert(out@ =~= old(out)@ + (expanded_symbol(a, sym_pairs@, base) + expanded_symbol(
                b,
                sym_pairs@,
                base,
            )));
        }
    }
}

/// Whether every pair stands for two symbols that came before its own.
pub fn check_pairs(sym_pairs: &Vec<(u16, u16)>, base: u16) -> (r: bool)
    ensures
        r == pairs_wf(sym_pairs@, base),
{
    if sym_pairs.len() > 65536 - base as usize {
        return false;
    }
    let mut i: usize = 0;
    while i < sym_pairs.len()
        invariant
            i <= sym_pairs@.len(),
            base + sym_pairs@.len() <= 65536,
            forall|j: int|
                0 <= j < i ==> (#[trigger] sym_pairs@[j]).0 < base + j && sym_pairs@[j].1 < base
                    + j,
        decreases sym_pairs@.len() - i,
    {
        let (a, b) = sym_pairs[i];
        if a as usize >= base as usize + i || b as usize >= base as usize + i {
            return false;
        }
        i += 1;
    }
    true
}

} // verus!
