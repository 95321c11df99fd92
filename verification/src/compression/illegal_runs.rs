//! Runs of the marker for illegal positions, given the value of a
//! neighbour: a table that need not tell illegal positions apart gets
//! longer runs of equal values this way, and compresses better. The
//! markers are lost; `compress_wdl` does not take this step by itself.

use vstd::prelude::*;

verus! {

/// The value that takes the place of a run without a neighbour: a draw.
pub const FALLBACK_CODE: u8 = 4;

/// The end of the run of `code` that begins at `i`: the first place at or
/// after `i` that holds another value, or the end of the sequence.
pub open spec fn run_end(seq: Seq<u8>, i: int, code: u8) -> int
    decreases seq.len() - i,
{
    if 0 <= i < seq.len() && seq[i] == code {
        run_end(seq, i + 1, code)
    } else {
        i
    }
}

/// The number of places that hold `value` without a break, up to but not
/// including the place `end`.
pub open spec fn run_before(seq: Seq<u8>, end: int, value: u8) -> nat
    decreases end,
{
    if 0 < end <= seq.len() && seq[end - 1] == value {
        1 + run_before(seq, end - 1, value)
    } else {
        0
    }
}

/// The number of places that hold `value` without a break, from the place
/// `start` on.
pub open spec fn run_after(seq: Seq<u8>, start: int, value: u8) -> nat
    decreases seq.len() - start,
{
    if 0 <= start < seq.len() && seq[start] == value {
        1 + run_after(seq, start + 1, value)
    } else {
        0
    }
}

/// The value that a run from `start` to `end` is given: that of its
/// neighbours where both agree or only one is there; of two different
/// neighbours the one with the longer run of its own, the left one where
/// both runs are as long; a draw where the run is the whole sequence.
pub open spec fn replacement(seq: Seq<u8>, start: int, end: int) -> u8 {
    if start > 0 && end < seq.len() {
        let left = seq[start - 1];
        let right = seq[end];
        if left == right {
            left
        } else if run_before(seq, start, left) >= run_after(seq, end, right) {
            left
        } else {
            right
        }
    } else if start > 0 {
        seq[start - 1]
    } else if end < seq.len() {
        seq[end]
    } else {
        FALLBACK_CODE
    }
}

/// The sequence with `value` at the places from `start` to `end`.
pub open spec fn filled(seq: Seq<u8>, start: int, end: int, value: u8) -> Seq<u8> {
    Seq::new(
        seq.len(),
        |k: int|
            if start <= k < end {
                value
            } else {
                seq[k]
            },
    )
}

/// The sequence with the runs of `code` from the place `i` on rewritten,
/// from left to right: a run that was rewritten counts as the neighbour of
/// the next with the value that it was given.
pub open spec fn rewritten_from(seq: Seq<u8>, i: int, code: u8) -> Seq<u8>
    decreases seq.len() - i,
{
    if !(0 <= i < seq.len()) {
        seq
    } else if seq[i] != code {
        rewritten_from(seq, i + 1, code)
    } else {
        let end = run_end(seq, i, code);
        proof {
            lemma_run_end(seq, i, code);
        }
        rewritten_from(filled(seq, i, end, replacement(seq, i, end)), end, code)
    }
}

/// The end of a run lies within the sequence and after the start of the run.
pub proof fn lemma_run_end(seq: Seq<u8>, i: int, code: u8)
    requires
        0 <= i <= seq.len(),
    ensures
        i <= run_end(seq, i, code) <= seq.len(),
        i < seq.len() && seq[i] == code ==> i < run_end(seq, i, code),
        forall|k: int| i <= k < run_end(seq, i, code) ==> seq[k] == code,
        run_end(seq, i, code) < seq.len() ==> seq[run_end(seq, i, code)] != code,
    decreases seq.len() - i,
{
    if i < seq.len() && seq[i] == code {
        lemma_run_end(seq, i + 1, code);
    }
}

/// Gives each run of `illegal_code` the value of a neighbour, see
/// `replacement`, from left to right.
pub fn rewrite_illegal_runs(seq: &mut Vec<u8>, illegal_code: u8)
    ensures
        final(seq)@ == rewritten_from(old(seq)@, 0, illegal_code),
        final(seq)@.len() == old(seq)@.len(),
{
    let len = seq.len();
    let mut i: usize = 0;
    while i < len
        invariant
            i <= len,
            len == seq@.len(),
            len == old(seq)@.len(),
            rewritten_from(old(seq)@, 0, illegal_code) == rewritten_from(
                seq@,
                i as int,
                illegal_code,
            ),
        decreases len - i,
    {
        if seq[i] != illegal_code {
            i += 1;
            continue ;
        }
        let start = i;
        while i < len && seq[i] == illegal_code
            invariant
                start <= i <= len,
                len == seq@.len(),
                run_end(seq@, start as int, illegal_code) == run_end(
                    seq@,
                    i as int,
                    illegal_code,
                ),
            decreases len - i,
        {
            i += 1;
        }
        let end = i;
        let replacement_value = if start > 0 && end < len {
            let l = seq[start - 1];
            let r = seq[end];
            if l == r {
                l
            } else {
                let mut left_len: usize = 0;
                let mut idx = start;
                while idx > 0 && seq[idx - 1] == l
                    invariant
                        idx <= start <= len,
                        len == seq@.len(),
                        left_len == start - idx,
                        run_before(seq@, start as int, l) == left_len + run_before(
                            seq@,
                            idx as int,
                            l,
                        ),
                    decreases idx,
                {
                    idx -= 1;
                    left_len += 1;
                }
                let mut right_len: usize = 0;
                let mut idx = end;
                while idx < len && seq[idx] == r
                    invariant
                        end <= idx <= len,
                        len == seq@.len(),
                        right_len == idx - end,
                        run_after(seq@, end as int, r) == right_len + run_after(
                            seq@,
                            idx as int,
                            r,
                        ),
                    decreases len - idx,
                {
                    right_len += 1;
                    idx += 1;
                }
                if left_len >= right_len {
                    l
                } else {
                    r
                }
            }
        } else if start > 0 {
            seq[start - 1]
        } else if end < len {
            seq[end]
        } else {
            FALLBACK_CODE
        };
        let ghost before = seq@;
        proof {
            lemma_run_end(before, start as int, illegal_code);
            assert(replacement_value == replacement(before, start as int, end as int));
        }
        let mut k = start;
        while k < end
            invariant
                start <= k <= end <= len,
                len == seq@.len(),
                seq@ == filled(before, start as int, k as int, replacement_value),
            decreases end - k,
        {
            seq[k] = replacement_value;
            proof {
                assert(seq@ =~= filled(before, start as int, k + 1, replacement_value));
            }
            k += 1;
        }
    }
}

} // verus!
