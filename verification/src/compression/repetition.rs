//! Why a table that repeats one value gets smaller: pair substitution
//! halves a run again and again, and what is left is written in few bits.

use crate::compression::codes::{all_coded, encoded, packed, symbol_bits};
use crate::compression::huffman::{
    canonical_codes, code_length, depth_in, frequencies, grown, held, huffman_lengths,
    huffman_tree, leaf_weights, leaves_only, lengths_valid, merged, occurrences, Forest,
};
use crate::compression::pairs::{
    best_window, count_at, count_windows, lemma_best_window, pair_count, replaced, substituted,
    windows,
};
use crate::compression::{
    chosen_lengths, compressed, fixed_lengths, lemma_chosen_lengths, value_symbols,
    BASE_SYMBOLS,
};
use crate::wdl_score_range::{wdl_code, WdlScoreRange};
use vstd::prelude::*;

verus! {

/// The symbol `s`, `q` times.
pub open spec fn repeated(s: u16, q: nat) -> Seq<u16> {
    Seq::new(q, |i: int| s)
}

/// A tail of symbols below `s`, each below the one before.
pub open spec fn falls_below(tail: Seq<u16>, s: u16) -> bool {
    &&& forall|i: int| 0 <= i < tail.len() ==> (#[trigger] tail[i]) < s
    &&& forall|i: int, j: int| 0 <= i < j < tail.len() ==> (#[trigger] tail[i]) > (#[trigger] tail[j])
}

/// The length of what is left of a run of `q` equal symbols: as long as
/// it has three symbols or more it is halved, and an odd symbol stays behind.
pub open spec fn final_run(q: nat) -> nat
    decreases q,
{
    if q <= 2 {
        q
    } else {
        final_run(q / 2) + q % 2
    }
}

/// The number of binary digits of `q`.
pub open spec fn digits(q: nat) -> nat
    decreases q,
{
    if q == 0 {
        0
    } else {
        digits(q / 2) + 1
    }
}

/// Among the places `1 ..= n` of `seq`, the number of those that hold `b`.
pub open spec fn later_occurrences(seq: Seq<u16>, b: u16, n: nat) -> nat
    decreases n,
{
    if n == 0 {
        0
    } else {
        later_occurrences(seq, b, (n - 1) as nat) + if seq[n as int] == b {
            1nat
        } else {
            0nat
        }
    }
}

proof fn lemma_count_by_second(seq: Seq<u16>, a: u16, b: u16, n: nat)
    ensures
        count_windows(seq, a, b, n) <= later_occurrences(seq, b, n),
    decreases n,
{
    if n > 0 {
        lemma_count_by_second(seq, a, b, (n - 1) as nat);
    }
}

proof fn lemma_no_later_occurrence(seq: Seq<u16>, b: u16, n: nat)
    requires
        forall|j: int| 1 <= j <= n ==> #[trigger] seq[j] != b,
    ensures
        later_occurrences(seq, b, n) == 0,
    decreases n,
{
    if n > 0 {
        lemma_no_later_occurrence(seq, b, (n - 1) as nat);
        assert(seq[n as int] != b);
    }
}

/// In a run followed by a falling tail, a symbol other than that of the
/// run occurs once at most.
proof fn lemma_tail_symbol_once(s: u16, q: nat, tail: Seq<u16>, b: u16, n: nat)
    requires
        falls_below(tail, s),
        b != s,
        n < q + tail.len(),
    ensures
        later_occurrences(repeated(s, q) + tail, b, n) <= 1,
    decreases n,
{
    let seq = repeated(s, q) + tail;
    if n > 0 {
        if seq[n as int] == b {
            assert forall|j: int| 1 <= j <= n - 1 implies #[trigger] seq[j] != b by {
                if j < q {
                    assert(seq[j] == s);
                } else {
                    assert(n >= q);
                    assert(seq[j] == tail[j - q]);
                    assert(seq[n as int] == tail[n - q]);
                }
            }
            lemma_no_later_occurrence(seq, b, (n - 1) as nat);
        } else {
            lemma_tail_symbol_once(s, q, tail, b, (n - 1) as nat);
        }
    }
}

/// In a run of `q` symbols followed by a falling tail, the pair of two
/// symbols of the run starts at the first `q - 1` places.
proof fn lemma_run_pairs(s: u16, q: nat, tail: Seq<u16>, n: nat)
    requires
        falls_below(tail, s),
        q >= 1,
        n < q + tail.len(),
    ensures
        count_windows(repeated(s, q) + tail, s, s, n) == (if n <= q - 1 {
            n
        } else {
            (q - 1) as nat
        }),
    decreases n,
{
    let seq = repeated(s, q) + tail;
    if n > 0 {
        lemma_run_pairs(s, q, tail, (n - 1) as nat);
        if n <= q - 1 {
            assert(seq[n - 1] == s && seq[n as int] == s);
        } else {
            assert(seq[n as int] == tail[n - q]);
        }
    }
}

/// How often the pair at a place of a run with a falling tail occurs:
/// as often as the run has pairs, or once at most.
proof fn lemma_run_counts(s: u16, q: nat, tail: Seq<u16>, i: int)
    requires
        falls_below(tail, s),
        q >= 1,
        0 <= i,
        i + 1 < q + tail.len(),
    ensures
        count_at(repeated(s, q) + tail, i) <= (if q >= 2 {
            (q - 1) as nat
        } else {
            1nat
        }),
        i + 1 < q ==> count_at(repeated(s, q) + tail, i) == q - 1,
{
    let seq = repeated(s, q) + tail;
    let n = windows(seq);
    let a = seq[i];
    let b = seq[i + 1];
    if b == s {
        if i + 1 >= q {
            assert(b == tail[i + 1 - q]);
        }
        assert(a == s);
        lemma_run_pairs(s, q, tail, n);
    } else {
        lemma_count_by_second(seq, a, b, n);
        lemma_tail_symbol_once(s, q, tail, b, n);
    }
}

/// Where no pair is more frequent than the first, the first pair wins.
proof fn lemma_first_wins(seq: Seq<u16>, n: nat)
    requires
        1 <= n <= windows(seq),
        forall|i: int| 0 <= i < n ==> (#[trigger] count_at(seq, i)) <= count_at(seq, 0),
    ensures
        best_window(seq, n) == 0,
    decreases n,
{
    if n > 1 {
        lemma_first_wins(seq, (n - 1) as nat);
        assert(count_at(seq, n - 1) <= count_at(seq, 0));
    }
}

/// A falling tail below `s` has no pair of two `s`.
proof fn lemma_tail_replaced(tail: Seq<u16>, s: u16, sym: u16)
    requires
        forall|i: int| 0 <= i < tail.len() ==> (#[trigger] tail[i]) < s,
    ensures
        replaced(tail, s, s, sym) == tail,
    decreases tail.len(),
{
    if tail.len() > 0 {
        assert(tail[0] < s);
        let rest = tail.skip(1);
        assert forall|i: int| 0 <= i < rest.len() implies (#[trigger] rest[i]) < s by {
            assert(rest[i] == tail[i + 1]);
        }
        lemma_tail_replaced(rest, s, sym);
        assert(seq![tail[0]] + rest =~= tail);
    }
}

/// The tail that a halved run leaves: the odd symbol of the run, if
/// there is one, before the tail that was there.
pub open spec fn next_tail(s: u16, q: nat, tail: Seq<u16>) -> Seq<u16> {
    if q % 2 == 1 {
        seq![s] + tail
    } else {
        tail
    }
}

/// A run with its pairs replaced is a run of half the length, of the new symbol.
proof fn lemma_run_replaced(s: u16, q: nat, tail: Seq<u16>, sym: u16)
    requires
        forall|i: int| 0 <= i < tail.len() ==> (#[trigger] tail[i]) < s,
    ensures
        replaced(repeated(s, q) + tail, s, s, sym) == repeated(sym, q / 2) + next_tail(s, q, tail),
    decreases q,
{
    let seq = repeated(s, q) + tail;
    if q == 0 {
        assert(seq =~= tail);
        lemma_tail_replaced(tail, s, sym);
        assert(repeated(sym, 0) + tail =~= tail);
    } else if q == 1 {
        assert(seq[0] == s);
        if seq.len() >= 2 {
            assert(seq[1] == tail[0]);
        }
        assert(seq.skip(1) =~= tail);
        lemma_tail_replaced(tail, s, sym);
        assert(repeated(sym, 0) + (seq![s] + tail) =~= seq![s] + tail);
    } else {
        assert(seq[0] == s && seq[1] == s);
        assert(seq.skip(2) =~= repeated(s, (q - 2) as nat) + tail);
        lemma_run_replaced(s, (q - 2) as nat, tail, sym);
        assert((q - 2) / 2 == q / 2 - 1 && (q - 2) % 2 == q % 2);
        assert(seq![sym] + (repeated(sym, ((q - 2) / 2) as nat) + next_tail(
            s,
            (q - 2) as nat,
            tail,
        )) =~= repeated(sym, q / 2) + next_tail(s, q, tail));
    }
}

/// The digits of a number, and of its half.
proof fn lemma_digits(q: nat)
    ensures
        q >= 1 ==> digits(q) == digits(q / 2) + 1,
        final_run(q) <= digits(q),
        q >= 1 ==> final_run(q) >= 1,
    decreases q,
{
    if q > 2 {
        lemma_digits(q / 2);
    } else {
        reveal_with_fuel(digits, 3);
    }
}

/// The length of what is left of a run of `q` equal symbols when
/// `made` symbols were made before: the run is halved as long as it has
/// three symbols or more and a symbol is left to stand for its pairs.
pub open spec fn left_of_run(q: nat, made: nat) -> nat
    decreases q,
{
    if q <= 2 || BASE_SYMBOLS + made >= 65535 {
        q
    } else {
        left_of_run(q / 2, made + 1) + q % 2
    }
}

/// Pair substitution on a run of `q` equal symbols followed by a falling
/// tail leaves `left_of_run(q, ..)` symbols and the tail.
proof fn lemma_run_substituted(s: u16, q: nat, tail: Seq<u16>, pairs: Seq<(u16, u16)>)
    requires
        falls_below(tail, s),
        q >= 1,
        s < BASE_SYMBOLS + pairs.len(),
    ensures
        substituted(repeated(s, q) + tail, pairs, BASE_SYMBOLS).0.len() == left_of_run(
            q,
            pairs.len(),
        ) + tail.len(),
    decreases q,
{
    let seq = repeated(s, q) + tail;
    if seq.len() < 2 || BASE_SYMBOLS + pairs.len() >= 65535 {
        if seq.len() < 2 {
            assert(q <= 2);
        }
    } else {
        let n = windows(seq);
        assert forall|i: int| 0 <= i < n implies (#[trigger] count_at(seq, i)) <= (if q >= 2 {
            (q - 1) as nat
        } else {
            1nat
        }) by {
            lemma_run_counts(s, q, tail, i);
        }
        lemma_best_window(seq, n);
        let w = best_window(seq, n);
        if q <= 2 {
            assert(count_at(seq, w) <= 1);
        } else {
            lemma_run_counts(s, q, tail, 0);
            assert forall|i: int| 0 <= i < n implies (#[trigger] count_at(seq, i)) <= count_at(
                seq,
                0,
            ) by {
                lemma_run_counts(s, q, tail, i);
            }
            lemma_first_wins(seq, n);
            assert(w == 0);
            assert(seq[0] == s && seq[1] == s);
            let sym = (BASE_SYMBOLS + pairs.len()) as u16;
            lemma_run_replaced(s, q, tail, sym);
            let rest = next_tail(s, q, tail);
            assert(falls_below(rest, sym)) by {
                assert forall|i: int| 0 <= i < rest.len() implies (#[trigger] rest[i]) < sym by {
                    if q % 2 == 1 && i > 0 {
                        assert(rest[i] == tail[i - 1]);
                    }
                }
                assert forall|i: int, j: int| 0 <= i < j < rest.len() implies (
                #[trigger] rest[i]) > (#[trigger] rest[j]) by {
                    if q % 2 == 1 {
                        assert(rest[j] == tail[j - 1]);
                        if i > 0 {
                            assert(rest[i] == tail[i - 1]);
                        }
                    }
                }
            }
            lemma_run_substituted(sym, q / 2, rest, pairs.push((s, s)));
        }
    }
}

/// What is left of a run is no longer than the run.
proof fn lemma_left_of_run_bound(q: nat, made: nat)
    ensures
        left_of_run(q, made) <= q,
    decreases q,
{
    if q > 2 && BASE_SYMBOLS + made < 65535 {
        lemma_left_of_run_bound(q / 2, made + 1);
    }
}

/// As long as symbols are left, a run is halved down to `final_run`.
proof fn lemma_left_of_short_run(q: nat, made: nat)
    requires
        made + digits(q) <= 1000,
    ensures
        left_of_run(q, made) == final_run(q),
    decreases q,
{
    if q > 2 {
        lemma_digits(q);
        lemma_left_of_short_run(q / 2, made + 1);
    }
}

/// A long run is halved four times at least.
proof fn lemma_left_of_long_run(n: nat)
    requires
        n >= 48,
    ensures
        left_of_run(n, 0) <= n / 16 + 4,
{
    reveal_with_fuel(left_of_run, 5);
    lemma_left_of_run_bound(n / 16, 4);
    assert(n / 2 / 2 == n / 4 && n / 4 / 2 == n / 8 && n / 8 / 2 == n / 16);
}

/// The least root is a node of the forest, if there is one.
proof fn lemma_least_root_is_node(f: Forest, skip: usize, n: nat)
    requires
        n <= usize::MAX,
    ensures
        crate::compression::huffman::least_root(f, skip, n)
            == crate::compression::huffman::NO_PARENT
            || crate::compression::huffman::least_root(f, skip, n) < n,
    decreases n,
{
    if n > 0 {
        lemma_least_root_is_node(f, skip, (n - 1) as nat);
    }
}

/// A forest has at most one more node for each join.
proof fn lemma_grown_len(f: Forest, steps: nat)
    requires
        f.weights.len() == f.parents.len(),
        f.parents.len() + steps <= usize::MAX,
    ensures
        grown(f, steps).weights.len() == grown(f, steps).parents.len(),
        grown(f, steps).parents.len() <= f.parents.len() + steps,
    decreases steps,
{
    if steps > 0 {
        let a = crate::compression::huffman::least_root(
            f,
            crate::compression::huffman::NO_PARENT,
            f.weights.len(),
        );
        let b = crate::compression::huffman::least_root(f, a, f.weights.len());
        lemma_least_root_is_node(f, crate::compression::huffman::NO_PARENT, f.weights.len());
        lemma_least_root_is_node(f, a, f.weights.len());
        if a == crate::compression::huffman::NO_PARENT || b
            == crate::compression::huffman::NO_PARENT {
        } else {
            let next = merged(f, a, b);
            assert(next.parents.len() == f.parents.len() + 1);
            assert(next.weights.len() == f.weights.len() + 1);
            lemma_grown_len(next, (steps - 1) as nat);
        }
    }
}

/// The number of leaves grows with the symbols, and the leaves have
/// the weights of the symbols that occur.
pub proof fn lemma_leaf_count(freqs: Seq<usize>, n: nat)
    requires
        n <= freqs.len(),
    ensures
        leaf_weights(freqs, n).len() <= n,
        leaf_weights(freqs, n).len() <= leaf_weights(freqs, freqs.len()).len(),
    decreases freqs.len() - n,
{
    lemma_leaves_at_most(freqs, n);
    if n < freqs.len() {
        lemma_leaf_count(freqs, n + 1);
    }
}

/// The leaf of a symbol that occurs is a leaf.
pub proof fn lemma_leaf_index(freqs: Seq<usize>, sym: int)
    requires
        0 <= sym < freqs.len(),
        freqs[sym] > 0,
    ensures
        leaf_weights(freqs, sym as nat).len() < leaf_weights(freqs, freqs.len()).len(),
        leaf_weights(freqs, (sym + 1) as nat).len() == leaf_weights(freqs, sym as nat).len() + 1,
{
    lemma_leaf_count(freqs, (sym + 1) as nat);
}

/// There are at most as many leaves as there are symbols.
proof fn lemma_leaves_at_most(freqs: Seq<usize>, n: nat)
    ensures
        leaf_weights(freqs, n).len() <= n,
    decreases n,
{
    if n > 0 {
        lemma_leaves_at_most(freqs, (n - 1) as nat);
    }
}

/// A node is no deeper than there are nodes after it.
proof fn lemma_depth_bound(f: Forest, node: int)
    requires
        0 <= node,
    ensures
        depth_in(f, node) <= (if node < f.parents.len() {
            f.parents.len() - 1 - node
        } else {
            0
        }),
    decreases f.parents.len() - node,
{
    if 0 <= node < f.parents.len() && node < f.parents[node] && f.parents[node]
        < f.parents.len() {
        lemma_depth_bound(f, f.parents[node] as int);
    }
}

/// Where two tables of frequencies agree but at one symbol on which
/// symbols occur, their numbers of leaves differ by one at most.
proof fn lemma_leaves_differ(a: Seq<usize>, b: Seq<usize>, x: int, n: nat)
    requires
        n <= a.len(),
        n <= b.len(),
        forall|s: int| 0 <= s < n && s != x ==> ((#[trigger] a[s]) > 0) == (b[s] > 0),
    ensures
        leaf_weights(a, n).len() <= leaf_weights(b, n).len() + (if 0 <= x < n {
            1int
        } else {
            0int
        }),
    decreases n,
{
    if n > 0 {
        lemma_leaves_differ(a, b, x, (n - 1) as nat);
        if n - 1 != x {
            assert((a[n - 1] > 0) == (b[n - 1] > 0));
        }
    }
}

proof fn lemma_occurrences_prefix(seq: Seq<u16>, x: u16, sym: int, n: nat)
    requires
        n <= seq.len(),
    ensures
        occurrences(seq.push(x), sym, n) == occurrences(seq, sym, n),
    decreases n,
{
    if n > 0 {
        lemma_occurrences_prefix(seq, x, sym, (n - 1) as nat);
        assert(seq.push(x)[n - 1] == seq[n - 1]);
    }
}

/// There are at most as many leaves as the sequence has symbols.
proof fn lemma_leaves_bound(seq: Seq<u16>, count: nat)
    ensures
        leaf_weights(frequencies(seq, count), count).len() <= seq.len(),
    decreases seq.len(),
{
    if seq.len() == 0 {
        lemma_no_leaves(frequencies(seq, count), count);
    } else {
        let before = seq.drop_last();
        let x = seq.last();
        lemma_leaves_bound(before, count);
        assert(before.push(x) =~= seq);
        let a = frequencies(seq, count);
        let b = frequencies(before, count);
        assert forall|s: int| 0 <= s < count && s != x implies ((#[trigger] a[s]) > 0) == (b[s]
            > 0) by {
            lemma_occurrences_prefix(before, x, s, before.len());
        }
        lemma_leaves_differ(a, b, x as int, count);
    }
}

proof fn lemma_no_leaves(freqs: Seq<usize>, n: nat)
    requires
        n <= freqs.len(),
        forall|s: int| 0 <= s < n ==> (#[trigger] freqs[s]) == 0,
    ensures
        leaf_weights(freqs, n).len() == 0,
    decreases n,
{
    if n > 0 {
        lemma_no_leaves(freqs, (n - 1) as nat);
    }
}

/// A Huffman code length is below twice the number of symbols of the sequence.
proof fn lemma_code_length_bound(seq: Seq<u16>, count: nat, sym: int)
    requires
        0 <= sym < count,
        count <= 65536,
        seq.len() >= 1,
    ensures
        code_length(frequencies(seq, count), sym) <= 2 * seq.len() - 1,
{
    let freqs = frequencies(seq, count);
    let first = leaves_only(freqs);
    let leaves = leaf_weights(freqs, freqs.len()).len();
    lemma_leaves_bound(seq, count);
    lemma_leaves_at_most(freqs, count);
    lemma_grown_len(first, leaves);
    let tree = huffman_tree(freqs);
    if freqs[sym] > 0 {
        let leaf = leaf_weights(freqs, sym as nat).len() as int;
        lemma_depth_bound(tree, leaf);
    }
}

/// The bits of a sequence whose codes have `limit` bits at most.
proof fn lemma_encoded_len(seq: Seq<u16>, codes: Seq<(u32, u8)>, limit: nat)
    requires
        forall|i: int| 0 <= i < seq.len() ==> codes[(#[trigger] seq[i]) as int].1 <= limit,
    ensures
        encoded(seq, codes).len() <= seq.len() * limit,
    decreases seq.len(),
{
    if seq.len() > 0 {
        let before = seq.drop_last();
        assert forall|i: int| 0 <= i < before.len() implies codes[(
        #[trigger] before[i]) as int].1 <= limit by {
            assert(before[i] == seq[i]);
        }
        lemma_encoded_len(before, codes, limit);
        assert(codes[seq.last() as int].1 <= limit) by {
            assert(seq[seq.len() - 1] == seq.last());
        }
        assert(before.len() * limit + limit == seq.len() * limit) by (nonlinear_arith)
            requires
                before.len() + 1 == seq.len(),
        ;
    }
}

/// The longest code that a sequence of `m` symbols is written with.
pub open spec fn code_limit(m: nat) -> nat {
    if m <= 8 {
        16
    } else {
        32
    }
}

/// The bits that a sequence is written with.
proof fn lemma_written_bits(seq: Seq<u16>, count: nat)
    requires
        count <= 65536,
        forall|i: int| 0 <= i < seq.len() ==> (#[trigger] seq[i]) < count,
    ensures
        encoded(seq, canonical_codes(chosen_lengths(seq, count))).len() <= seq.len() * code_limit(
            seq.len(),
        ),
{
    let lens = chosen_lengths(seq, count);
    let codes = canonical_codes(lens);
    let freqs = frequencies(seq, count);
    lemma_chosen_lengths(seq, count);
    assert forall|i: int| 0 <= i < seq.len() implies codes[(#[trigger] seq[i]) as int].1
        <= code_limit(seq.len()) by {
        let s = seq[i] as int;
        assert(codes[s].1 == lens[s]);
        if crate::compression::fits_code_words(huffman_lengths(freqs)) {
            lemma_code_length_bound(seq, count, s);
            assert(lens[s] == code_length(freqs, s));
            assert(lens[s] <= 32);
        } else {
            assert(lens[s] == fixed_lengths(freqs)[s]);
        }
    }
    lemma_encoded_len(seq, codes, code_limit(seq.len()));
}

/// What is left of a run of eight symbols or more takes fewer bytes than
/// the run has symbols.
proof fn lemma_few_bits(n: nat)
    requires
        n >= 8,
    ensures
        left_of_run(n, 0) * code_limit(left_of_run(n, 0)) + 7 <= 8 * n,
{
    let m = left_of_run(n, 0);
    if n >= 48 {
        lemma_left_of_long_run(n);
        assert(m * code_limit(m) <= m * 32) by (nonlinear_arith)
            requires
                code_limit(m) <= 32,
        ;
    } else {
        lemma_power_values();
        reveal_with_fuel(power_of_two, 8);
        lemma_digits_of_machine_numbers(n, 6);
        lemma_left_of_short_run(n, 0);
        lemma_digits(n);
        if n == 8 {
            reveal_with_fuel(final_run, 4);
            assert(final_run(8) == 2);
        } else {
            lemma_digits_power(n);
            lemma_power_monotone((m - 1) as nat, (digits(n) - 1) as nat);
            if m > 4 {
                assert(n >= power_of_two((m - 1) as nat));
            }
        }
    }
}

/// The powers of two grow.
proof fn lemma_power_monotone(a: nat, b: nat)
    requires
        a <= b,
    ensures
        power_of_two(a) <= power_of_two(b),
    decreases b - a,
{
    if a < b {
        lemma_power_monotone(a, (b - 1) as nat);
    }
}

/// `2^k`.
pub open spec fn power_of_two(k: nat) -> nat
    decreases k,
{
    if k == 0 {
        1
    } else {
        2 * power_of_two((k - 1) as nat)
    }
}

proof fn lemma_power_values()
    ensures
        power_of_two(4) == 16,
        power_of_two(5) == 32,
        power_of_two(6) == 64,
        power_of_two(7) == 128,
        power_of_two(8) == 256,
{
    reveal_with_fuel(power_of_two, 10);
}

/// A number is at least the power of two of its digits less one.
proof fn lemma_digits_power(q: nat)
    requires
        q >= 1,
    ensures
        power_of_two((digits(q) - 1) as nat) <= q,
    decreases q,
{
    if q >= 2 {
        lemma_digits_power(q / 2);
        lemma_digits(q);
    } else {
        reveal_with_fuel(digits, 3);
    }
}

/// A run as long as a machine can hold has at most 64 binary digits.
proof fn lemma_digits_of_machine_numbers(q: nat, k: nat)
    requires
        q < power_of_two(k),
    ensures
        digits(q) <= k,
    decreases q,
{
    if q > 0 {
        assert(k > 0);
        lemma_digits_of_machine_numbers(q / 2, (k - 1) as nat);
    }
}

/// A table of eight values or more that are all the same is compressed
/// to at most as many bytes as it has values.
pub proof fn lemma_repetition_shrinks(values: Seq<WdlScoreRange>)
    requires
        values.len() >= 8,
        forall|i: int| 0 <= i < values.len() ==> (#[trigger] values[i]) == values[0],
    ensures
        compressed(values).bitstream.len() <= values.len(),
{
    let n = values.len();
    let x = wdl_code(values[0]) as u16;
    let first = value_symbols(values);
    assert(first =~= repeated(x, n) + Seq::<u16>::empty());
    lemma_run_substituted(x, n, Seq::empty(), Seq::empty());
    let (seq, sym_pairs) = substituted(first, Seq::empty(), BASE_SYMBOLS);
    crate::compression::lemma_symbol_values(values);
    crate::compression::pairs::lemma_substituted(first, Seq::empty(), BASE_SYMBOLS);
    let count = (BASE_SYMBOLS + sym_pairs.len()) as nat;
    lemma_written_bits(seq, count);
    lemma_few_bits(n);
    let bits = encoded(seq, canonical_codes(chosen_lengths(seq, count)));
    assert(seq.len() == left_of_run(n, 0));
    assert(packed(bits).len() == (bits.len() + 7) / 8);
}

} // verus!
