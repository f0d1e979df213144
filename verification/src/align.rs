//! Pairing the removed lines of a change block with its added lines.
//!
//! Every removed/added combination gets a similarity score — twice the
//! token-level longest-common-subsequence length over the total token
//! count of the two lines, a value in `[0, 1]` — and a monotonic matching
//! (no pairing may invert the relative order of either side) maximizing
//! the total score is chosen by dynamic programming over scaled integer
//! weights. A combination is pairable only while its similarity is at
//! least the configured minimum threshold `num / den`; at exactly the
//! threshold it is still pairable, strictly below it is not.

use vstd::prelude::*;
use crate::edits::{
    lcs_suf, lcs_table, lemma_lcs_suf_bound, lemma_token_count_le, lemma_tokenize_is_line_tokens,
    line_tokens, token_texts, tokenize,
};

verus! {

/// The fixed-point scale of the similarity weights used by the matcher.
pub const SIM_SCALE: u64 = 1000000;

/// One element of an alignment: a removed line paired with an added line,
/// or a line of either side left unmatched. Lines are named by their index
/// on their own side of the change block.
#[derive(Clone, Copy, Debug, PartialEq, Eq, Structural)]
pub enum LinePair {
    Paired { removed: usize, added: usize },
    RemovedOnly { removed: usize },
    AddedOnly { added: usize },
}

/// The token-level longest-common-subsequence length of two lines.
pub open spec fn line_lcs(a: Seq<u8>, b: Seq<u8>) -> int {
    lcs_suf(token_texts(a, line_tokens(a)), token_texts(b, line_tokens(b)), 0, 0)
}

/// How many tokens a line has.
pub open spec fn tok_count(s: Seq<u8>) -> int {
    line_tokens(s).len() as int
}

/// Whether two lines are similar enough to pair under threshold
/// `num / den`: their similarity `2 * lcs / (tokens(a) + tokens(b))` is at
/// least the threshold. Two empty lines always pair.
pub open spec fn pair_ok(a: Seq<u8>, b: Seq<u8>, num: int, den: int) -> bool {
    2 * line_lcs(a, b) * den >= (tok_count(a) + tok_count(b)) * num
}

/// The scaled similarity weight of one removed/added combination: twice
/// the token-level longest-common-subsequence length over the total token
/// count, at fixed-point scale — and the full scale for two empty lines.
pub open spec fn sim_weight(a: Seq<u8>, b: Seq<u8>) -> int {
    if tok_count(a) + tok_count(b) == 0 {
        SIM_SCALE as int
    } else {
        (2 * line_lcs(a, b) * (SIM_SCALE as int)) / (tok_count(a) + tok_count(b))
    }
}

/// A similarity weight lies in `[0, SIM_SCALE]`.
pub proof fn lemma_sim_weight_bounds(a: Seq<u8>, b: Seq<u8>)
    ensures
        0 <= sim_weight(a, b) <= SIM_SCALE,
{
    if tok_count(a) + tok_count(b) != 0 {
        let xa = token_texts(a, line_tokens(a));
        let xb = token_texts(b, line_tokens(b));
        lemma_lcs_suf_bound(xa, xb, 0, 0);
        let l = line_lcs(a, b);
        let t = tok_count(a) + tok_count(b);
        assert(0 <= l && 2 * l <= t);
        assert(0 <= (2 * l * (SIM_SCALE as int)) / t <= SIM_SCALE as int) by (nonlinear_arith)
            requires
                0 <= l && 2 * l <= t && 0 < t,
        ;
    }
}

/// The greatest total similarity weight of a monotonic alignment of the
/// line suffixes starting at removed line `i` and added line `j` that
/// pairs only threshold-reaching combinations: pair the heads where the
/// threshold allows it, or leave either head unmatched.
pub open spec fn best_weight(
    removed: Seq<Vec<u8>>,
    added: Seq<Vec<u8>>,
    num: int,
    den: int,
    i: int,
    j: int,
) -> int
    decreases removed.len() + added.len() - i - j,
    when 0 <= i <= removed.len() && 0 <= j <= added.len()
{
    if i >= removed.len() || j >= added.len() {
        0
    } else {
        let skip_r = best_weight(removed, added, num, den, i + 1, j);
        let skip_a = best_weight(removed, added, num, den, i, j + 1);
        let rest = if skip_r >= skip_a {
            skip_r
        } else {
            skip_a
        };
        if pair_ok(removed[i]@, added[j]@, num, den) {
            let take = sim_weight(removed[i]@, added[j]@) + best_weight(
                removed,
                added,
                num,
                den,
                i + 1,
                j + 1,
            );
            if take >= rest {
                take
            } else {
                rest
            }
        } else {
            rest
        }
    }
}

/// The best weight of suffixes is non-negative and bounded by the number
/// of remaining lines times the scale.
pub proof fn lemma_best_weight_bounds(
    removed: Seq<Vec<u8>>,
    added: Seq<Vec<u8>>,
    num: int,
    den: int,
    i: int,
    j: int,
)
    requires
        0 <= i <= removed.len(),
        0 <= j <= added.len(),
    ensures
        0 <= best_weight(removed, added, num, den, i, j) <= (removed.len() + added.len() - i - j)
            * (SIM_SCALE as int),
    decreases removed.len() + added.len() - i - j,
{
    if i < removed.len() && j < added.len() {
        lemma_best_weight_bounds(removed, added, num, den, i + 1, j);
        lemma_best_weight_bounds(removed, added, num, den, i, j + 1);
        lemma_best_weight_bounds(removed, added, num, den, i + 1, j + 1);
        lemma_sim_weight_bounds(removed[i]@, added[j]@);
    }
}

/// The total similarity weight of an alignment: the sum of its pairs'
/// weights.
pub open spec fn align_weight(pairs: Seq<LinePair>, removed: Seq<Vec<u8>>, added: Seq<Vec<u8>>) -> int
    decreases pairs.len(),
{
    if pairs.len() == 0 {
        0
    } else {
        align_weight(pairs.drop_last(), removed, added) + (match pairs[pairs.len() - 1] {
            LinePair::Paired { removed: ri, added: ai } => sim_weight(
                removed[ri as int]@,
                added[ai as int]@,
            ),
            _ => 0,
        })
    }
}

/// The removed-side indices named by an alignment, in order.
pub open spec fn removed_indices(out: Seq<LinePair>) -> Seq<int>
    decreases out.len(),
{
    if out.len() == 0 {
        Seq::empty()
    } else {
        let rest = removed_indices(out.drop_last());
        match out[out.len() - 1] {
            LinePair::Paired { removed, added } => rest.push(removed as int),
            LinePair::RemovedOnly { removed } => rest.push(removed as int),
            LinePair::AddedOnly { added } => rest,
        }
    }
}

/// The added-side indices named by an alignment, in order.
pub open spec fn added_indices(out: Seq<LinePair>) -> Seq<int>
    decreases out.len(),
{
    if out.len() == 0 {
        Seq::empty()
    } else {
        let rest = added_indices(out.drop_last());
        match out[out.len() - 1] {
            LinePair::Paired { removed, added } => rest.push(added as int),
            LinePair::RemovedOnly { removed } => rest,
            LinePair::AddedOnly { added } => rest.push(added as int),
        }
    }
}

/// The indices `0, 1, ..., k - 1`.
pub open spec fn index_run(k: int) -> Seq<int> {
    Seq::new(k as nat, |q: int| q)
}

/// Pairs never invert the relative order of either side.
pub open spec fn pairs_monotonic(out: Seq<LinePair>) -> bool {
    forall|p: int, q: int|
        0 <= p < q < out.len() ==> match ((#[trigger] out[p]), (#[trigger] out[q])) {
            (
                LinePair::Paired { removed: r1, added: a1 },
                LinePair::Paired { removed: r2, added: a2 },
            ) => r1 < r2 && a1 < a2,
            _ => true,
        }
}

/// The token-level longest-common-subsequence length and the token counts
/// of two lines.
#[verifier::rlimit(100)]
fn line_lcs_counts(a: &[u8], b: &[u8]) -> (r: (usize, usize, usize))
    requires
        a@.len() < usize::MAX,
        b@.len() < usize::MAX,
    ensures
        r.0 as int == line_lcs(a@, b@),
        r.1 as int == tok_count(a@),
        r.2 as int == tok_count(b@),
        r.0 <= r.1 && r.0 <= r.2,
{
    let ta = tokenize(a);
    let tb = tokenize(b);
    proof {
        lemma_tokenize_is_line_tokens(ta@, a@);
        lemma_tokenize_is_line_tokens(tb@, b@);
        lemma_token_count_le(ta@, a@, a@.len() as int);
        lemma_token_count_le(tb@, b@, b@.len() as int);
        lemma_lcs_suf_bound(token_texts(a@, ta@), token_texts(b@, tb@), 0, 0);
    }
    let rows = lcs_table(a, &ta, b, &tb);
    let n = ta.len();
    let m = tb.len();
    let l: usize = rows[n][0];
    (l, n, m)
}

/// The whole contract of an alignment: every line of the block named
/// exactly once and in order on its own side, pairs monotonic, and every
/// pair similar enough under the threshold.
pub open spec fn aligned_block(
    pairs: Seq<LinePair>,
    removed: Seq<Vec<u8>>,
    added: Seq<Vec<u8>>,
    num: int,
    den: int,
) -> bool {
    &&& removed_indices(pairs) == index_run(removed.len() as int)
    &&& added_indices(pairs) == index_run(added.len() as int)
    &&& pairs_monotonic(pairs)
    &&& forall|p: int|
        0 <= p < pairs.len() ==> match #[trigger] pairs[p] {
            LinePair::Paired { removed: ri, added: ai } => ri < removed.len() && ai < added.len()
                && pair_ok(removed[ri as int]@, added[ai as int]@, num, den),
            LinePair::RemovedOnly { removed: ri } => ri < removed.len(),
            LinePair::AddedOnly { added: ai } => ai < added.len(),
        }
}

/// Whether two lines pair under threshold `num / den`: similarity at least
/// the threshold, with equality accepted and anything strictly below it
/// rejected.
pub fn pair_accepts(a: &[u8], b: &[u8], num: u32, den: u32) -> (r: bool)
    requires
        a@.len() < usize::MAX,
        b@.len() < usize::MAX,
    ensures
        r == pair_ok(a@, b@, num as int, den as int),
{
    let (l, n, m) = line_lcs_counts(a, b);
    proof {
        assert(2 * (l as int) * (den as int) < u128::MAX && 0 <= 2 * (l as int) * (den as int)
            && ((n + m) as int) * (num as int) < u128::MAX && (2 * (l as u128)) * (den as u128)
            == 2 * (l as int) * (den as int) && ((n as u128) + (m as u128)) * (num as u128) == ((
        n + m) as int) * (num as int)) by (nonlinear_arith)
            requires
                l <= usize::MAX && den <= u32::MAX && num <= u32::MAX && n <= usize::MAX && m
                    <= usize::MAX,
        ;
    }
    let lhs: u128 = (2 * (l as u128)) * (den as u128);
    let rhs: u128 = ((n as u128) + (m as u128)) * (num as u128);
    lhs >= rhs
}

/// The scaled similarity weight of one removed/added combination, exactly
/// `sim_weight`.
fn pair_weight(a: &[u8], b: &[u8]) -> (w: u64)
    requires
        a@.len() < usize::MAX,
        b@.len() < usize::MAX,
    ensures
        w as int == sim_weight(a@, b@),
        w <= SIM_SCALE,
{
    let (l, n, m) = line_lcs_counts(a, b);
    if n == 0 && m == 0 {
        SIM_SCALE
    } else {
        proof {
            assert((2 * (l as int) * 1000000) / ((n + m) as int) <= 1000000 && 0 <= (2 * (
            l as int) * 1000000) / ((n + m) as int)) by (nonlinear_arith)
                requires
                    0 <= l && 2 * (l as int) <= (n + m) as int && 0 < (n + m) as int,
            ;
        }
        let raw: u128 = ((2 * (l as u128)) * 1000000) / ((n as u128) + (m as u128));
        if raw > 1000000 {
            proof {
                assert(false);
            }
            SIM_SCALE
        } else {
            raw as u64
        }
    }
}

/// Align a change block: pair removed lines with added lines without
/// inverting the order of either side, pairing only combinations whose
/// similarity reaches the threshold `num / den`. A block of one removed
/// and one added line pairs exactly when the threshold is reached; in
/// general the chosen alignment's total scaled similarity equals
/// `best_weight` — the maximum the recurrence assigns over pairing or
/// skipping each head, i.e. over all monotonic threshold-respecting
/// alignments — so a pairing that improves the total is never passed over.
///
/// Every removed line and every added line of the block appears in exactly
/// one returned element, in order: the removed-side indices named by the
/// result are exactly `0..removed.len()` and the added-side indices exactly
/// `0..added.len()`, each in increasing order.
#[verifier::rlimit(100)]
#[verifier::loop_isolation(false)]
pub fn align_lines(removed: &Vec<Vec<u8>>, added: &Vec<Vec<u8>>, num: u32, den: u32) -> (out: Vec<
    LinePair,
>)
    requires
        removed@.len() < usize::MAX,
        added@.len() < usize::MAX,
        forall|i: int| 0 <= i < removed@.len() ==> (#[trigger] removed@[i])@.len() < usize::MAX,
        forall|j: int| 0 <= j < added@.len() ==> (#[trigger] added@[j])@.len() < usize::MAX,
    ensures
        removed_indices(out@) == index_run(removed@.len() as int),
        added_indices(out@) == index_run(added@.len() as int),
        pairs_monotonic(out@),
        forall|p: int|
            0 <= p < out@.len() ==> match #[trigger] out@[p] {
                LinePair::Paired { removed: ri, added: ai } => ri < removed@.len() && ai
                    < added@.len() && pair_ok(
                    removed@[ri as int]@,
                    added@[ai as int]@,
                    num as int,
                    den as int,
                ),
                LinePair::RemovedOnly { removed: ri } => ri < removed@.len(),
                LinePair::AddedOnly { added: ai } => ai < added@.len(),
            },
        aligned_block(out@, removed@, added@, num as int, den as int),
        align_weight(out@, removed@, added@) == best_weight(
            removed@,
            added@,
            num as int,
            den as int,
            0,
            0,
        ),
        (removed@.len() == 1 && added@.len() == 1 && pair_ok(
            removed@[0]@,
            added@[0]@,
            num as int,
            den as int,
        )) ==> out@ =~= seq![LinePair::Paired { removed: 0usize, added: 0usize }],
{
    let n = removed.len();
    let m = added.len();
    // A block of one removed and one added line pairs exactly when the two
    // lines reach the threshold.
    if n == 1 && m == 1 {
        let mut out: Vec<LinePair> = Vec::new();
        proof {
            assert(removed_indices(Seq::<LinePair>::empty()) == Seq::<int>::empty());
            assert(added_indices(Seq::<LinePair>::empty()) == Seq::<int>::empty());
            assert(align_weight(Seq::<LinePair>::empty(), removed@, added@) == 0);
            assert(best_weight(removed@, added@, num as int, den as int, 1, 1) == 0);
            assert(best_weight(removed@, added@, num as int, den as int, 1, 0) == 0);
            assert(best_weight(removed@, added@, num as int, den as int, 0, 1) == 0);
            lemma_sim_weight_bounds(removed@[0]@, added@[0]@);
        }
        if pair_accepts(removed[0].as_slice(), added[0].as_slice(), num, den) {
            out.push(LinePair::Paired { removed: 0, added: 0 });
            proof {
                assert(out@.drop_last() =~= Seq::<LinePair>::empty());
                assert(removed_indices(out@) == removed_indices(out@.drop_last()).push(0));
                assert(added_indices(out@) == added_indices(out@.drop_last()).push(0));
                assert(removed_indices(out@) =~= index_run(1));
                assert(added_indices(out@) =~= index_run(1));
                assert(align_weight(out@, removed@, added@) == sim_weight(
                    removed@[0]@,
                    added@[0]@,
                ));
                assert(best_weight(removed@, added@, num as int, den as int, 0, 0) == sim_weight(
                    removed@[0]@,
                    added@[0]@,
                ));
            }
        } else {
            out.push(LinePair::RemovedOnly { removed: 0 });
            let ghost mid = out@;
            out.push(LinePair::AddedOnly { added: 0 });
            proof {
                assert(mid.drop_last() =~= Seq::<LinePair>::empty());
                assert(removed_indices(mid) == removed_indices(mid.drop_last()).push(0));
                assert(added_indices(mid) == added_indices(mid.drop_last()));
                assert(out@.drop_last() =~= mid);
                assert(removed_indices(out@) == removed_indices(mid));
                assert(added_indices(out@) == added_indices(mid).push(0));
                assert(removed_indices(out@) =~= index_run(1));
                assert(added_indices(out@) =~= index_run(1));
                assert(align_weight(mid, removed@, added@) == 0);
                assert(align_weight(out@, removed@, added@) == 0);
                assert(best_weight(removed@, added@, num as int, den as int, 0, 0) == 0);
            }
        }
        return out;
    }
    // Score and test every combination.
    let mut acc: Vec<Vec<bool>> = Vec::new();
    let mut w: Vec<Vec<u64>> = Vec::new();
    let mut i: usize = 0;
    while i < n
        invariant
            acc@.len() == i,
            w@.len() == i,
            i <= n,
            forall|p: int| 0 <= p < i ==> (#[trigger] acc@[p])@.len() == m,
            forall|p: int| 0 <= p < i ==> (#[trigger] w@[p])@.len() == m,
            forall|p: int, q: int|
                0 <= p < i && 0 <= q < m ==> (#[trigger] acc@[p]@[q]) == pair_ok(
                    removed@[p]@,
                    added@[q]@,
                    num as int,
                    den as int,
                ),
            forall|p: int, q: int|
                0 <= p < i && 0 <= q < m ==> (#[trigger] w@[p]@[q]) as int == sim_weight(
                    removed@[p]@,
                    added@[q]@,
                ) && w@[p]@[q] <= SIM_SCALE,
        decreases n - i,
    {
        let mut arow: Vec<bool> = Vec::new();
        let mut wrow: Vec<u64> = Vec::new();
        let mut j: usize = 0;
        while j < m
            invariant
                i < n,
                arow@.len() == j,
                wrow@.len() == j,
                j <= m,
                forall|q: int|
                    0 <= q < j ==> (#[trigger] arow@[q]) == pair_ok(
                        removed@[i as int]@,
                        added@[q]@,
                        num as int,
                        den as int,
                    ),
                forall|q: int|
                    0 <= q < j ==> (#[trigger] wrow@[q]) as int == sim_weight(
                        removed@[i as int]@,
                        added@[q]@,
                    ) && wrow@[q] <= SIM_SCALE,
            decreases m - j,
        {
            arow.push(pair_accepts(removed[i].as_slice(), added[j].as_slice(), num, den));
            wrow.push(pair_weight(removed[i].as_slice(), added[j].as_slice()));
            j = j + 1;
        }
        acc.push(arow);
        w.push(wrow);
        i = i + 1;
    }
    // Best total similarity of suffixes: rows[r][j] for the suffixes
    // starting at removed line n - r and added line j.
    let mut rows: Vec<Vec<u128>> = Vec::new();
    let mut z: Vec<u128> = Vec::new();
    let mut j0: usize = 0;
    while j0 <= m
        invariant
            j0 <= m + 1,
            z@.len() == j0,
            forall|q: int| 0 <= q < j0 ==> (#[trigger] z@[q]) == 0,
        decreases m + 1 - j0,
    {
        z.push(0);
        j0 = j0 + 1;
    }
    proof {
        assert forall|q: int| 0 <= q <= m implies z@[q] as int == best_weight(
            removed@,
            added@,
            num as int,
            den as int,
            n as int,
            q,
        ) by {}
    }
    rows.push(z);
    let mut r: usize = 1;
    while r <= n
        invariant
            1 <= r <= n + 1,
            rows@.len() == r,
            forall|rr: int| 0 <= rr < r ==> (#[trigger] rows@[rr])@.len() == m + 1,
            forall|rr: int, q: int|
                0 <= rr < r && 0 <= q <= m ==> (#[trigger] rows@[rr]@[q]) <= (rr + m - q) * (
                SIM_SCALE as int),
            forall|rr: int, q: int|
                0 <= rr < r && 0 <= q <= m ==> (#[trigger] rows@[rr]@[q]) as int == best_weight(
                    removed@,
                    added@,
                    num as int,
                    den as int,
                    n - rr,
                    q,
                ),
        decreases n + 1 - r,
    {
        let i2 = n - r;
        let mut row: Vec<u128> = Vec::new();
        let mut q: usize = 0;
        while q <= m
            invariant
                q <= m + 1,
                row@.len() == q,
                forall|p: int| 0 <= p < q ==> (#[trigger] row@[p]) == 0,
            decreases m + 1 - q,
        {
            row.push(0);
            q = q + 1;
        }
        let mut jj: usize = m;
        proof {
            assert(best_weight(removed@, added@, num as int, den as int, i2 as int, m as int)
                == 0);
        }
        while jj > 0
            invariant
                r == n - i2,
                1 <= r <= n,
                i2 < n,
                jj <= m,
                rows@.len() == r,
                row@.len() == m + 1,
                forall|p: int|
                    jj <= p <= m ==> (#[trigger] row@[p]) <= (r + m - p) * (SIM_SCALE as int),
                forall|p: int|
                    jj <= p <= m ==> (#[trigger] row@[p]) as int == best_weight(
                        removed@,
                        added@,
                        num as int,
                        den as int,
                        i2 as int,
                        p,
                    ),
            decreases jj,
        {
            jj = jj - 1;
            let prev = &rows[r - 1];
            let keep: u128 = if acc[i2][jj] {
                prev[jj + 1] + (w[i2][jj] as u128)
            } else {
                0
            };
            let skip_r: u128 = prev[jj];
            let skip_a: u128 = row[jj + 1];
            let mut best: u128 = keep;
            if skip_r > best {
                best = skip_r;
            }
            if skip_a > best {
                best = skip_a;
            }
            let ghost old_row = row@;
            row[jj] = best;
            proof {
                assert(row@ =~= old_row.update(jj as int, best));
                lemma_best_weight_bounds(removed@, added@, num as int, den as int, i2 + 1, jj as int);
                lemma_best_weight_bounds(removed@, added@, num as int, den as int, i2 as int, jj + 1);
                lemma_best_weight_bounds(removed@, added@, num as int, den as int, i2 + 1, jj + 1);
                assert(row@[jj as int] as int == best_weight(
                    removed@,
                    added@,
                    num as int,
                    den as int,
                    i2 as int,
                    jj as int,
                ));
            }
        }
        rows.push(row);
        r = r + 1;
    }
    // Walk forward, emitting one element per consumed line.
    let mut bi: usize = 0;
    let mut bj: usize = 0;
    let mut out: Vec<LinePair> = Vec::new();
    proof {
        assert(removed_indices(out@) =~= index_run(0));
        assert(added_indices(out@) =~= index_run(0));
    }
    while bi < n || bj < m
        invariant
            bi <= n,
            bj <= m,
            rows@.len() == n + 1,
            forall|rr: int| 0 <= rr <= n ==> (#[trigger] rows@[rr])@.len() == m + 1,
            align_weight(out@, removed@, added@) + best_weight(
                removed@,
                added@,
                num as int,
                den as int,
                bi as int,
                bj as int,
            ) == best_weight(removed@, added@, num as int, den as int, 0, 0),
            removed_indices(out@) == index_run(bi as int),
            added_indices(out@) == index_run(bj as int),
            pairs_monotonic(out@),
            forall|p: int|
                0 <= p < out@.len() ==> match #[trigger] out@[p] {
                    LinePair::Paired { removed: ri, added: ai } => ri < bi && ai < bj && pair_ok(
                        removed@[ri as int]@,
                        added@[ai as int]@,
                        num as int,
                        den as int,
                    ),
                    LinePair::RemovedOnly { removed: ri } => ri < bi,
                    LinePair::AddedOnly { added: ai } => ai < bj,
                },
        decreases n - bi + m - bj,
    {
        let ghost old_out = out@;
        let pick_pair: bool = if bi < n && bj < m && acc[bi][bj] {
            let diag: u128 = rows[n - (bi + 1)][bj + 1];
            let wv: u128 = w[bi][bj] as u128;
            proof {
                assert(diag <= ((n - bi - 1) + m - (bj + 1)) * (SIM_SCALE as int));
            }
            rows[n - bi][bj] == diag + wv
        } else {
            false
        };
        if pick_pair {
            out.push(LinePair::Paired { removed: bi, added: bj });
            proof {
                assert(out@.drop_last() =~= old_out);
                assert(removed_indices(out@) =~= index_run(bi + 1));
                assert(added_indices(out@) =~= index_run(bj + 1));
                assert(align_weight(out@, removed@, added@) == align_weight(
                    old_out,
                    removed@,
                    added@,
                ) + sim_weight(removed@[bi as int]@, added@[bj as int]@));
                // The cell equality of `pick_pair` says the optimum takes
                // this pair.
                assert(best_weight(removed@, added@, num as int, den as int, bi as int, bj as int)
                    == sim_weight(removed@[bi as int]@, added@[bj as int]@) + best_weight(
                    removed@,
                    added@,
                    num as int,
                    den as int,
                    bi + 1,
                    bj + 1,
                ));
            }
            bi = bi + 1;
            bj = bj + 1;
        } else if bi < n && (bj == m || rows[n - bi][bj] == rows[n - (bi + 1)][bj]) {
            out.push(LinePair::RemovedOnly { removed: bi });
            proof {
                assert(out@.drop_last() =~= old_out);
                assert(removed_indices(out@) =~= index_run(bi + 1));
                assert(added_indices(out@) =~= added_indices(old_out));
                assert(align_weight(out@, removed@, added@) == align_weight(
                    old_out,
                    removed@,
                    added@,
                ));
                if bj == m {
                    assert(best_weight(
                        removed@,
                        added@,
                        num as int,
                        den as int,
                        bi as int,
                        bj as int,
                    ) == 0);
                    assert(best_weight(removed@, added@, num as int, den as int, bi + 1, bj as int)
                        == 0);
                } else {
                    assert(best_weight(
                        removed@,
                        added@,
                        num as int,
                        den as int,
                        bi as int,
                        bj as int,
                    ) == best_weight(removed@, added@, num as int, den as int, bi + 1, bj as int));
                }
            }
            bi = bi + 1;
        } else {
            proof {
                if bj >= m {
                    assert(bi < n);
                    assert(false);
                }
                if bi >= n {
                    assert(best_weight(
                        removed@,
                        added@,
                        num as int,
                        den as int,
                        bi as int,
                        bj as int,
                    ) == 0);
                    assert(best_weight(removed@, added@, num as int, den as int, bi as int, bj + 1)
                        == 0);
                } else {
                    // Neither the pair cell nor the removed-skip cell
                    // matched, so the optimum skips the added line.
                    lemma_best_weight_bounds(
                        removed@,
                        added@,
                        num as int,
                        den as int,
                        bi + 1,
                        bj as int,
                    );
                    lemma_best_weight_bounds(
                        removed@,
                        added@,
                        num as int,
                        den as int,
                        bi as int,
                        bj + 1,
                    );
                    assert(best_weight(
                        removed@,
                        added@,
                        num as int,
                        den as int,
                        bi as int,
                        bj as int,
                    ) == best_weight(removed@, added@, num as int, den as int, bi as int, bj + 1));
                }
            }
            out.push(LinePair::AddedOnly { added: bj });
            proof {
                assert(out@.drop_last() =~= old_out);
                assert(added_indices(out@) =~= index_run(bj + 1));
                assert(removed_indices(out@) =~= removed_indices(old_out));
                assert(align_weight(out@, removed@, added@) == align_weight(
                    old_out,
                    removed@,
                    added@,
                ));
            }
            bj = bj + 1;
        }
    }
    proof {
        assert(best_weight(removed@, added@, num as int, den as int, bi as int, bj as int) == 0);
    }
    out
}

} // verus!
