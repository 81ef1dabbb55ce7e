use vstd::prelude::*;

use crate::motif::{base_index_of, is_base, window_code};
use crate::Threshold;

verus! {

/// Number of window offsets among the first `n` offsets of `s` at which a
/// window of length `k` fits and encodes to motif code `c`.
pub open spec fn count_code_prefix(s: Seq<u8>, k: int, c: int, n: int) -> nat
    decreases n,
{
    if n <= 0 {
        0
    } else {
        count_code_prefix(s, k, c, n - 1) + (if n - 1 + k <= s.len() && window_code(
            s.subrange(n - 1, n - 1 + k),
        ) == c {
            1nat
        } else {
            0nat
        })
    }
}

/// Number of sliding-window occurrences of the motif with code `c` in `s`.
/// Codes 0..16 are dinucleotides (windows of length 2), codes 16..80 are
/// trinucleotides (windows of length 3).
pub open spec fn count_code(s: Seq<u8>, c: int) -> nat {
    if 0 <= c < 16 {
        count_code_prefix(s, 2, c, s.len() as int)
    } else {
        count_code_prefix(s, 3, c, s.len() as int)
    }
}

proof fn lemma_count_prefix_bound(s: Seq<u8>, k: int, c: int, n: int)
    ensures
        count_code_prefix(s, k, c, n) <= (if n <= 0 {
            0
        } else {
            n as nat
        }),
    decreases n,
{
    if n > 0 {
        lemma_count_prefix_bound(s, k, c, n - 1);
    }
}

/// Sum of `count_code_prefix(s, k, c, n)` over the codes `c` in `lo..hi`.
/// With `n == s.len()` this is the total of the observed occurrence counts
/// `count_code(s, c)` over that code range.
pub open spec fn sum_counts(s: Seq<u8>, k: int, lo: int, hi: int, n: int) -> nat
    decreases hi - lo,
{
    if lo >= hi {
        0
    } else {
        count_code_prefix(s, k, lo, n) + sum_counts(s, k, lo + 1, hi, n)
    }
}

proof fn lemma_sum_step(s: Seq<u8>, k: int, lo: int, hi: int, n: int)
    requires
        0 <= n,
    ensures
        sum_counts(s, k, lo, hi, n + 1) == sum_counts(s, k, lo, hi, n) + (if n + k <= s.len()
            && lo <= window_code(s.subrange(n, n + k)) < hi {
            1nat
        } else {
            0nat
        }),
    decreases hi - lo,
{
    if lo < hi {
        lemma_sum_step(s, k, lo + 1, hi, n);
    }
}

proof fn lemma_sum_zero(s: Seq<u8>, k: int, lo: int, hi: int, n: int)
    requires
        n <= 0,
    ensures
        sum_counts(s, k, lo, hi, n) == 0,
    decreases hi - lo,
{
    if lo < hi {
        lemma_sum_zero(s, k, lo + 1, hi, n);
    }
}

proof fn lemma_sum_all(s: Seq<u8>, k: int, lo: int, hi: int, n: int)
    requires
        (k == 2 && lo == 0 && hi == 16) || (k == 3 && lo == 16 && hi == 80),
        forall|i: int| 0 <= i < s.len() ==> is_base(s[i]),
        0 <= n <= s.len(),
    ensures
        sum_counts(s, k, lo, hi, n) == if n + k <= s.len() + 1 {
            n
        } else if s.len() + 1 - k >= 0 {
            s.len() + 1 - k
        } else {
            0
        },
    decreases n,
{
    if n > 0 {
        lemma_sum_all(s, k, lo, hi, n - 1);
        lemma_sum_step(s, k, lo, hi, n - 1);
        if n - 1 + k <= s.len() {
            let w = s.subrange(n - 1, n - 1 + k);
            assert(is_base(w[0]) && is_base(w[1]));
            if k == 3 {
                assert(is_base(w[2]));
            }
            assert(lo <= window_code(w) < hi);
        }
    } else {
        lemma_sum_zero(s, k, lo, hi, n);
    }
}

/// Every window offset contributes to exactly one motif count: for a read
/// whose bytes are all nucleotides, the observed dinucleotide counts sum to
/// L - 1 over the 16 dinucleotide codes, and the observed trinucleotide
/// counts sum to L - 2 over the 64 trinucleotide codes.
pub proof fn lemma_observed_window_totals(s: Seq<u8>)
    requires
        s.len() >= 2,
        forall|i: int| 0 <= i < s.len() ==> is_base(s[i]),
    ensures
        sum_counts(s, 2, 0, 16, s.len() as int) == s.len() - 1,
        sum_counts(s, 3, 16, 80, s.len() as int) == s.len() - 2,
{
    lemma_sum_all(s, 2, 0, 16, s.len() as int);
    lemma_sum_all(s, 3, 16, 80, s.len() as int);
}

/// Occurrence counts for all 80 fixed motifs in one read, by sliding
/// windows of length 2 and 3 with step 1. Windows containing a byte
/// outside the nucleotide alphabet count toward no motif.
pub fn count_motifs(s: &Vec<u8>) -> (counts: Vec<u64>)
    ensures
        counts.len() == 80,
        forall|c: int| 0 <= c < 80 ==> counts[c] == count_code(s@, c),
{
    let n = s.len();
    let mut counts: Vec<u64> = Vec::new();
    let mut j: usize = 0;
    while j < 80
        invariant
            counts.len() == j <= 80,
            forall|c: int| 0 <= c < j ==> counts[c] == 0,
        decreases 80 - j,
    {
        counts.push(0);
        j += 1;
    }
    let mut i: usize = 0;
    while i < n
        invariant
            n == s.len(),
            i <= n,
            counts.len() == 80,
            forall|c: int| 0 <= c < 16 ==> counts[c] == count_code_prefix(s@, 2, c, i as int),
            forall|c: int| 16 <= c < 80 ==> counts[c] == count_code_prefix(s@, 3, c, i as int),
        decreases n - i,
    {
        if n - i >= 2 {
            let b0 = base_index_of(s[i]);
            let b1 = base_index_of(s[i + 1]);
            match (b0, b1) {
                (Some(x0), Some(x1)) => {
                    let code = (x0 * 4 + x1) as usize;
                    assert(s@.subrange(i as int, i + 2) =~= seq![s@[i as int], s@[i + 1]]);
                    assert(window_code(s@.subrange(i as int, i + 2)) == code as int);
                    proof {
                        lemma_count_prefix_bound(s@, 2, code as int, i as int);
                    }
                    let old_c = counts[code];
                    counts.set(code, old_c + 1);
                },
                _ => {
                    assert(s@.subrange(i as int, i + 2) =~= seq![s@[i as int], s@[i + 1]]);
                    assert(window_code(s@.subrange(i as int, i + 2)) == -1);
                },
            }
        }
        if n - i >= 3 {
            let b0 = base_index_of(s[i]);
            let b1 = base_index_of(s[i + 1]);
            let b2 = base_index_of(s[i + 2]);
            match (b0, b1, b2) {
                (Some(x0), Some(x1), Some(x2)) => {
                    let code = (16 + x0 as usize * 16 + x1 as usize * 4 + x2 as usize);
                    assert(s@.subrange(i as int, i + 3) =~= seq![
                        s@[i as int],
                        s@[i + 1],
                        s@[i + 2],
                    ]);
                    assert(window_code(s@.subrange(i as int, i + 3)) == code as int);
                    proof {
                        lemma_count_prefix_bound(s@, 3, code as int, i as int);
                    }
                    let old_c = counts[code];
                    counts.set(code, old_c + 1);
                },
                _ => {
                    assert(s@.subrange(i as int, i + 3) =~= seq![
                        s@[i as int],
                        s@[i + 1],
                        s@[i + 2],
                    ]);
                    assert(window_code(s@.subrange(i as int, i + 3)) == -1);
                },
            }
        }
        i += 1;
    }
    counts
}

/// The number of windows of the relevant length in a read of length `len`:
/// `len - 1` for a dinucleotide code, `len - 2` for a trinucleotide code.
pub open spec fn windows_for(len: nat, c: int) -> nat {
    if 0 <= c < 16 {
        if len >= 1 {
            (len - 1) as nat
        } else {
            0
        }
    } else {
        if len >= 2 {
            (len - 2) as nat
        } else {
            0
        }
    }
}

/// The motif with code `c` is a hit for read `s`: its within-read
/// proportion strictly exceeds the threshold. A boundary-equal proportion
/// is not a hit; with zero windows nothing is a hit.
pub open spec fn hit(s: Seq<u8>, c: int, t: Threshold) -> bool {
    t.exceeded_by(count_code(s, c), windows_for(s.len(), c))
}

/// `count / windows > t`, decided exactly on the fraction `t.num / t.den`.
pub(crate) fn exceeds(count: u64, windows: u64, t: &Threshold) -> (r: bool)
    requires
        t.wf(),
    ensures
        r == t.exceeded_by(count as nat, windows as nat),
{
    proof {
        assert((count as int) * (t.den as int) <= (u64::MAX as int) * (u64::MAX as int)
            && (t.num as int) * (windows as int) <= (u64::MAX as int) * (u64::MAX as int))
            by (nonlinear_arith)
            requires
                count as int <= u64::MAX as int,
                t.den as int <= u64::MAX as int,
                t.num as int <= u64::MAX as int,
                windows as int <= u64::MAX as int,
                count as int >= 0,
                t.den as int >= 0,
                t.num as int >= 0,
                windows as int >= 0,
        ;
    }
    (count as u128) * (t.den as u128) > (t.num as u128) * (windows as u128)
}

/// Adds one read's votes: for each of the 80 motifs, the vote count grows
/// by exactly one when the motif is a hit for this read, else stays.
pub fn add_read_votes(votes: &mut Vec<u64>, s: &Vec<u8>, t: &Threshold)
    requires
        old(votes).len() == 80,
        s.len() >= 2,
        t.wf(),
        forall|c: int| 0 <= c < 80 ==> old(votes)[c] < u64::MAX,
    ensures
        final(votes).len() == 80,
        forall|c: int|
            0 <= c < 80 ==> final(votes)[c] == old(votes)[c] + (if hit(s@, c, *t) {
                1int
            } else {
                0int
            }),
{
    let counts = count_motifs(s);
    let di_windows = (s.len() - 1) as u64;
    let tri_windows = (s.len() - 2) as u64;
    let mut c: usize = 0;
    while c < 80
        invariant
            votes.len() == 80,
            counts.len() == 80,
            s.len() >= 2,
            t.wf(),
            c <= 80,
            di_windows == s@.len() - 1,
            tri_windows == s@.len() - 2,
            forall|k: int| 0 <= k < 80 ==> counts[k] == count_code(s@, k),
            forall|k: int| 0 <= k < 80 ==> old(votes)[k] < u64::MAX,
            forall|k: int|
                0 <= k < c ==> votes[k] == old(votes)[k] + (if hit(s@, k, *t) {
                    1int
                } else {
                    0int
                }),
            forall|k: int| c <= k < 80 ==> votes[k] == old(votes)[k],
        decreases 80 - c,
    {
        let w = if c < 16 {
            di_windows
        } else {
            tri_windows
        };
        assert(w == windows_for(s@.len() as nat, c as int));
        if exceeds(counts[c], w, t) {
            let v = votes[c];
            votes.set(c, v + 1);
        }
        c += 1;
    }
}

} // verus!
