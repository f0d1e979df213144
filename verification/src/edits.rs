//! Token-level edit scripts between a paired line's before and after text.
//!
//! Both texts are split into tokens — maximal runs of whitespace or of
//! non-whitespace bytes — and a longest-common-subsequence table over the
//! two token sequences classifies every token as unchanged or changed.
//! The unchanged tokens of the two sides read off as the same sequence of
//! texts (they are a common subsequence), and their number is exactly the
//! length of a longest common subsequence, so the edit script is minimal.

use vstd::prelude::*;

verus! {

/// A token is a byte range `[start, end)` of its line.
#[derive(Clone, Copy, Debug, PartialEq, Eq, Structural)]
pub struct TokenRange {
    pub start: usize,
    pub end: usize,
}

/// The classification of a token (or of a span of tokens).
#[derive(Clone, Copy, Debug, PartialEq, Eq, Structural)]
pub enum EditStatus {
    Unchanged,
    Changed,
}

/// Whitespace for tokenization purposes: space or tab.
pub open spec fn is_ws(b: u8) -> bool {
    b == 32 || b == 9
}

fn is_ws_exec(b: u8) -> (r: bool)
    ensures
        r == is_ws(b),
{
    b == 32 || b == 9
}

/// The token ranges partition `[0, n)` into non-empty, contiguous,
/// class-uniform, maximal runs of the line `s`.
pub open spec fn tokens_upto(t: Seq<TokenRange>, s: Seq<u8>, n: int) -> bool {
    &&& (t.len() == 0 ==> n == 0)
    &&& (t.len() > 0 ==> t[0].start == 0 && t[t.len() - 1].end == n)
    &&& (forall|i: int| 0 <= i < t.len() ==> (#[trigger] t[i]).start < t[i].end <= n)
    &&& (forall|i: int| 0 <= i < t.len() - 1 ==> (#[trigger] t[i]).end == t[i + 1].start)
    &&& (forall|i: int, j: int|
        0 <= i < t.len() && (#[trigger] t[i]).start <= j < t[i].end && n <= s.len() ==> is_ws(
            #[trigger] s[j],
        ) == is_ws(s[t[i].start as int]))
    &&& (forall|i: int|
        0 <= i < t.len() - 1 && n <= s.len() ==> is_ws(s[(#[trigger] t[i + 1]).start as int])
            != is_ws(s[t[i].start as int]))
}

/// The token ranges partition the whole line.
pub open spec fn token_partition(t: Seq<TokenRange>, s: Seq<u8>) -> bool {
    tokens_upto(t, s, s.len() as int)
}

/// Extend the token runs of `line[..pos]` by the byte at `pos`, merging it
/// into the last run when it has the same whitespace class.
#[verifier::rlimit(100)]
fn push_byte_token(toks: &mut Vec<TokenRange>, line: &[u8], pos: usize)
    requires
        tokens_upto(old(toks)@, line@, pos as int),
        pos < line@.len(),
    ensures
        tokens_upto(final(toks)@, line@, pos + 1),
{
    let c = is_ws_exec(line[pos]);
    let tlen = toks.len();
    let merge: bool = if tlen > 0 {
        let lt = toks[tlen - 1];
        is_ws_exec(line[lt.start]) == c
    } else {
        false
    };
    let ghost old_toks = toks@;
    if merge {
        let mut last = toks.pop().unwrap();
        last.end = pos + 1;
        toks.push(last);
        proof {
            assert(toks@.drop_last() =~= old_toks.drop_last());
            assert forall|i: int, j: int|
                0 <= i < toks@.len() && (#[trigger] toks@[i]).start <= j < toks@[i].end && pos + 1
                    <= line@.len() implies is_ws(#[trigger] line@[j]) == is_ws(
                line@[toks@[i].start as int],
            ) by {
                if i < toks@.len() - 1 {
                    assert(toks@[i] == old_toks[i]);
                } else {
                    assert(toks@[i].start == old_toks[i].start);
                }
            }
        }
    } else {
        toks.push(TokenRange { start: pos, end: pos + 1 });
        proof {
            assert(toks@.drop_last() =~= old_toks);
            assert forall|i: int, j: int|
                0 <= i < toks@.len() && (#[trigger] toks@[i]).start <= j < toks@[i].end && pos + 1
                    <= line@.len() implies is_ws(#[trigger] line@[j]) == is_ws(
                line@[toks@[i].start as int],
            ) by {
                if i < toks@.len() - 1 {
                    assert(toks@[i] == old_toks[i]);
                }
            }
        }
    }
}

/// Split a line into maximal whitespace / non-whitespace runs.
pub fn tokenize(line: &[u8]) -> (toks: Vec<TokenRange>)
    ensures
        token_partition(toks@, line@),
{
    let mut toks: Vec<TokenRange> = Vec::new();
    let len = line.len();
    let mut pos: usize = 0;
    while pos < len
        invariant
            len == line@.len(),
            pos <= len,
            tokens_upto(toks@, line@, pos as int),
        decreases len - pos,
    {
        push_byte_token(&mut toks, line, pos);
        pos = pos + 1;
    }
    toks
}

/// The text of one token.
pub open spec fn token_text(s: Seq<u8>, t: TokenRange) -> Seq<u8> {
    s.subrange(t.start as int, t.end as int)
}

/// The texts of a line's tokens, in order.
pub open spec fn token_texts(s: Seq<u8>, ts: Seq<TokenRange>) -> Seq<Seq<u8>> {
    Seq::new(ts.len(), |i: int| token_text(s, ts[i]))
}

/// The length of a longest common subsequence of `x[i..]` and `y[j..]`.
pub open spec fn lcs_suf(x: Seq<Seq<u8>>, y: Seq<Seq<u8>>, i: int, j: int) -> int
    decreases x.len() + y.len() - i - j,
    when 0 <= i <= x.len() && 0 <= j <= y.len()
{
    if i < 0 || j < 0 || i >= x.len() || j >= y.len() {
        0
    } else if x[i] == y[j] {
        1 + lcs_suf(x, y, i + 1, j + 1)
    } else {
        let d = lcs_suf(x, y, i + 1, j);
        let e = lcs_suf(x, y, i, j + 1);
        if d >= e {
            d
        } else {
            e
        }
    }
}

/// A longest common subsequence of suffixes is no longer than either suffix.
pub proof fn lemma_lcs_suf_bound(x: Seq<Seq<u8>>, y: Seq<Seq<u8>>, i: int, j: int)
    requires
        0 <= i <= x.len(),
        0 <= j <= y.len(),
    ensures
        0 <= lcs_suf(x, y, i, j) <= x.len() - i,
        lcs_suf(x, y, i, j) <= y.len() - j,
    decreases x.len() + y.len() - i - j,
{
    if i < x.len() && j < y.len() {
        lemma_lcs_suf_bound(x, y, i + 1, j + 1);
        lemma_lcs_suf_bound(x, y, i + 1, j);
        lemma_lcs_suf_bound(x, y, i, j + 1);
    }
}

/// Whether the two token ranges carry the same bytes.
fn range_eq(a: &[u8], ra: TokenRange, b: &[u8], rb: TokenRange) -> (r: bool)
    requires
        ra.start <= ra.end <= a@.len(),
        rb.start <= rb.end <= b@.len(),
    ensures
        r == (token_text(a@, ra) == token_text(b@, rb)),
{
    let la = ra.end - ra.start;
    let lb = rb.end - rb.start;
    if la != lb {
        proof {
            assert(token_text(a@, ra).len() != token_text(b@, rb).len());
        }
        return false;
    }
    let mut q: usize = 0;
    while q < la
        invariant
            ra.start <= ra.end <= a@.len(),
            rb.start <= rb.end <= b@.len(),
            la == ra.end - ra.start == rb.end - rb.start,
            q <= la,
            forall|p: int|
                0 <= p < q ==> (#[trigger] a@[ra.start + p]) == b@[rb.start + p],
        decreases la - q,
    {
        if a[ra.start + q] != b[rb.start + q] {
            proof {
                assert(token_text(a@, ra)[q as int] != token_text(b@, rb)[q as int]);
            }
            return false;
        }
        q = q + 1;
    }
    proof {
        assert forall|p: int| 0 <= p < la implies token_text(a@, ra)[p] == token_text(b@, rb)[p] by {
            assert(a@[ra.start + p] == b@[rb.start + p]);
        }
        assert(token_text(a@, ra) =~= token_text(b@, rb));
    }
    true
}

/// The texts of the tokens marked `Unchanged`, in order.
pub open spec fn unchanged_texts(st: Seq<EditStatus>, x: Seq<Seq<u8>>) -> Seq<Seq<u8>>
    decreases st.len(),
{
    if st.len() == 0 {
        Seq::empty()
    } else {
        let rest = unchanged_texts(st.drop_last(), x);
        if st[st.len() - 1] is Unchanged {
            rest.push(x[st.len() - 1])
        } else {
            rest
        }
    }
}

/// How many tokens are marked `Unchanged`.
pub open spec fn count_unchanged(st: Seq<EditStatus>) -> int
    decreases st.len(),
{
    if st.len() == 0 {
        0
    } else {
        count_unchanged(st.drop_last()) + if st[st.len() - 1] is Unchanged {
            1int
        } else {
            0int
        }
    }
}

/// A line has no more tokens than bytes: every run is non-empty.
pub proof fn lemma_token_count_le(t: Seq<TokenRange>, s: Seq<u8>, n: int)
    requires
        tokens_upto(t, s, n),
        0 <= n <= s.len(),
    ensures
        t.len() <= n,
    decreases t.len(),
{
    if t.len() > 0 {
        let last = t[t.len() - 1];
        assert(tokens_upto(t.drop_last(), s, last.start as int)) by {
            if t.len() >= 2 {
                assert(t.drop_last()[t.len() - 2].end == last.start);
            }
        }
        lemma_token_count_le(t.drop_last(), s, last.start as int);
    }
}

/// The table of longest-common-subsequence lengths of token suffixes:
/// `rows[r][j]` is the value for the suffixes starting at `ta.len() - r`
/// and `j`.
#[verifier::rlimit(100)]
#[verifier::spinoff_prover]
#[verifier::loop_isolation(false)]
pub(crate) fn lcs_table(a: &[u8], ta: &Vec<TokenRange>, b: &[u8], tb: &Vec<TokenRange>) -> (rows:
    Vec<Vec<usize>>)
    requires
        token_partition(ta@, a@),
        token_partition(tb@, b@),
        ta@.len() < usize::MAX,
        tb@.len() < usize::MAX,
    ensures
        rows@.len() == ta@.len() + 1,
        forall|rr: int| 0 <= rr <= ta@.len() ==> (#[trigger] rows@[rr])@.len() == tb@.len() + 1,
        forall|rr: int, q: int|
            0 <= rr <= ta@.len() && 0 <= q <= tb@.len() ==> (#[trigger] rows@[rr]@[q]) == lcs_suf(
                token_texts(a@, ta@),
                token_texts(b@, tb@),
                ta@.len() - rr,
                q,
            ),
{
    let ghost xa = token_texts(a@, ta@);
    let ghost xb = token_texts(b@, tb@);
    let n = ta.len();
    let m = tb.len();
    proof {
        assert(forall|k: int|
            0 <= k < ta@.len() ==> (#[trigger] ta@[k]).start <= ta@[k].end <= a@.len());
        assert(forall|k: int|
            0 <= k < tb@.len() ==> (#[trigger] tb@[k]).start <= tb@[k].end <= b@.len());
    }
    let mut rows: Vec<Vec<usize>> = Vec::new();
    let mut z: Vec<usize> = Vec::new();
    let mut j0: usize = 0;
    while j0 <= m
        invariant
            m < usize::MAX,
            j0 <= m + 1,
            z@.len() == j0,
            forall|q: int| 0 <= q < j0 ==> z@[q] == 0,
        decreases m + 1 - j0,
    {
        z.push(0);
        j0 = j0 + 1;
    }
    proof {
        assert forall|q: int| 0 <= q <= m implies z@[q] == lcs_suf(xa, xb, n as int, q) by {}
    }
    rows.push(z);
    let mut r: usize = 1;
    while r <= n
        invariant
            n < usize::MAX,
            m < usize::MAX,
            n == ta@.len(),
            m == tb@.len(),
            xa == token_texts(a@, ta@),
            xb == token_texts(b@, tb@),
            forall|k: int|
                0 <= k < ta@.len() ==> (#[trigger] ta@[k]).start <= ta@[k].end <= a@.len(),
            forall|k: int|
                0 <= k < tb@.len() ==> (#[trigger] tb@[k]).start <= tb@[k].end <= b@.len(),
            1 <= r <= n + 1,
            rows@.len() == r,
            forall|rr: int| 0 <= rr < r ==> (#[trigger] rows@[rr])@.len() == m + 1,
            forall|rr: int, q: int|
                0 <= rr < r && 0 <= q <= m ==> (#[trigger] rows@[rr]@[q]) == lcs_suf(
                    xa,
                    xb,
                    n - rr,
                    q,
                ),
        decreases n + 1 - r,
    {
        let i = n - r;
        let ra = ta[i];
        proof {
            assert(xa[i as int] == token_text(a@, ta@[i as int]));
        }
        let mut row: Vec<usize> = Vec::new();
        let mut q: usize = 0;
        while q <= m
            invariant
                m < usize::MAX,
                q <= m + 1,
                row@.len() == q,
                forall|p: int| 0 <= p < q ==> (#[trigger] row@[p]) == 0,
            decreases m + 1 - q,
        {
            row.push(0);
            q = q + 1;
        }
        let mut jj: usize = m;
        proof {
            assert(xa.len() == n && xb.len() == m);
            assert(lcs_suf(xa, xb, i as int, m as int) == 0);
        }
        while jj > 0
            invariant
                r == n - i,
                1 <= r <= n,
                i < n,
                jj <= m,
                ra == ta@[i as int],
                ra.start <= ra.end <= a@.len(),
                xa[i as int] == token_text(a@, ra),
                forall|k: int|
                    0 <= k < tb@.len() ==> (#[trigger] tb@[k]).start <= tb@[k].end <= b@.len(),
                forall|k: int| 0 <= k < tb@.len() ==> (#[trigger] xb[k]) == token_text(b@, tb@[k]),
                rows@.len() == r,
                rows@[r - 1]@.len() == m + 1,
                forall|q: int|
                    0 <= q <= m ==> (#[trigger] rows@[r - 1]@[q]) == lcs_suf(xa, xb, i + 1, q),
                row@.len() == m + 1,
                forall|q: int| jj <= q <= m ==> (#[trigger] row@[q]) == lcs_suf(xa, xb, i as int, q),
            decreases jj,
        {
            jj = jj - 1;
            let prev = &rows[r - 1];
            let val: usize = if range_eq(a, ra, b, tb[jj]) {
                proof {
                    lemma_lcs_suf_bound(xa, xb, i + 1, jj + 1);
                }
                prev[jj + 1] + 1
            } else {
                let d = prev[jj];
                let e = row[jj + 1];
                if d >= e {
                    d
                } else {
                    e
                }
            };
            let ghost old_row = row@;
            row[jj] = val;
            proof {
                assert(row@ =~= old_row.update(jj as int, val));
                assert(row@[jj as int] == lcs_suf(xa, xb, i as int, jj as int));
            }
        }
        proof {
            assert(row@[m as int] == lcs_suf(xa, xb, i as int, m as int));
        }
        rows.push(row);
        r = r + 1;
    }
    rows
}

/// Classify every token of the two sides as unchanged or changed.
///
/// The unchanged tokens read off as the same sequence of texts on both
/// sides (they form a common subsequence), and their number is the length
/// of a longest common subsequence of the two token-text sequences: no
/// classification with fewer changed tokens exists.
#[verifier::rlimit(100)]
pub fn edit_statuses(a: &[u8], ta: &Vec<TokenRange>, b: &[u8], tb: &Vec<TokenRange>) -> (r: (
    Vec<EditStatus>,
    Vec<EditStatus>,
))
    requires
        token_partition(ta@, a@),
        token_partition(tb@, b@),
        ta@.len() < usize::MAX,
        tb@.len() < usize::MAX,
    ensures
        r.0@.len() == ta@.len(),
        r.1@.len() == tb@.len(),
        unchanged_texts(r.0@, token_texts(a@, ta@)) == unchanged_texts(r.1@, token_texts(b@, tb@)),
        count_unchanged(r.0@) == lcs_suf(token_texts(a@, ta@), token_texts(b@, tb@), 0, 0),
        count_unchanged(r.1@) == count_unchanged(r.0@),
{
    let ghost xa = token_texts(a@, ta@);
    let ghost xb = token_texts(b@, tb@);
    let n = ta.len();
    let m = tb.len();
    let rows = lcs_table(a, ta, b, tb);
    // Walk the table from the front, emitting one status per token.
    let mut bi: usize = 0;
    let mut bj: usize = 0;
    let mut bstat: Vec<EditStatus> = Vec::new();
    let mut astat: Vec<EditStatus> = Vec::new();
    while bi < n || bj < m
        invariant
            n < usize::MAX,
            m < usize::MAX,
            n == ta@.len(),
            m == tb@.len(),
            xa.len() == n,
            xb.len() == m,
            forall|k: int|
                0 <= k < ta@.len() ==> (#[trigger] ta@[k]).start <= ta@[k].end <= a@.len(),
            forall|k: int|
                0 <= k < tb@.len() ==> (#[trigger] tb@[k]).start <= tb@[k].end <= b@.len(),
            forall|k: int| 0 <= k < ta@.len() ==> (#[trigger] xa[k]) == token_text(a@, ta@[k]),
            forall|k: int| 0 <= k < tb@.len() ==> (#[trigger] xb[k]) == token_text(b@, tb@[k]),
            bi <= n,
            bj <= m,
            bstat@.len() == bi,
            astat@.len() == bj,
            rows@.len() == n + 1,
            forall|rr: int| 0 <= rr <= n ==> (#[trigger] rows@[rr])@.len() == m + 1,
            forall|rr: int, q: int|
                0 <= rr <= n && 0 <= q <= m ==> (#[trigger] rows@[rr]@[q]) == lcs_suf(
                    xa,
                    xb,
                    n - rr,
                    q,
                ),
            unchanged_texts(bstat@, xa) == unchanged_texts(astat@, xb),
            count_unchanged(bstat@) + lcs_suf(xa, xb, bi as int, bj as int) == lcs_suf(xa, xb, 0, 0),
            count_unchanged(astat@) == count_unchanged(bstat@),
        decreases n - bi + m - bj,
    {
        let take: bool = if bi < n && bj < m {
            range_eq(a, ta[bi], b, tb[bj])
        } else {
            false
        };
        let ghost old_b = bstat@;
        let ghost old_a = astat@;
        if take {
            proof {
                assert(xa[bi as int] == token_text(a@, ta@[bi as int]));
                assert(xb[bj as int] == token_text(b@, tb@[bj as int]));
            }
            bstat.push(EditStatus::Unchanged);
            astat.push(EditStatus::Unchanged);
            proof {
                assert(bstat@.drop_last() =~= old_b);
                assert(astat@.drop_last() =~= old_a);
                assert(unchanged_texts(bstat@, xa) == unchanged_texts(old_b, xa).push(
                    xa[bi as int],
                ));
                assert(unchanged_texts(astat@, xb) == unchanged_texts(old_a, xb).push(
                    xb[bj as int],
                ));
            }
            bi = bi + 1;
            bj = bj + 1;
        } else if bi < n && (bj == m || {
            let d = rows[n - (bi + 1)][bj];
            let e = rows[n - bi][bj + 1];
            d >= e
        }) {
            bstat.push(EditStatus::Changed);
            proof {
                assert(bstat@.drop_last() =~= old_b);
                if bj < m {
                    assert(xa[bi as int] == token_text(a@, ta@[bi as int]));
                    assert(xb[bj as int] == token_text(b@, tb@[bj as int]));
                    assert(xa[bi as int] != xb[bj as int]);
                }
                assert(lcs_suf(xa, xb, bi as int, bj as int) == lcs_suf(xa, xb, bi + 1, bj as int));
            }
            bi = bi + 1;
        } else {
            astat.push(EditStatus::Changed);
            proof {
                assert(astat@.drop_last() =~= old_a);
                if bi < n {
                    assert(xa[bi as int] == token_text(a@, ta@[bi as int]));
                    assert(xb[bj as int] == token_text(b@, tb@[bj as int]));
                    assert(xa[bi as int] != xb[bj as int]);
                }
                assert(lcs_suf(xa, xb, bi as int, bj as int) == lcs_suf(xa, xb, bi as int, bj + 1));
            }
            bj = bj + 1;
        }
    }
    (bstat, astat)
}

/// Whether byte `i` of the line lies in a token classified `Changed` by one
/// of the first `k` statuses.
pub open spec fn changed_before(
    st: Seq<EditStatus>,
    toks: Seq<TokenRange>,
    k: int,
    i: int,
) -> bool {
    exists|kk: int|
        0 <= kk < k && st[kk] is Changed && (#[trigger] toks[kk]).start <= i < toks[kk].end
}

/// Whether byte `i` of the line lies in a token classified `Changed`.
pub open spec fn changed_at(st: Seq<EditStatus>, toks: Seq<TokenRange>, i: int) -> bool {
    changed_before(st, toks, st.len() as int, i)
}

/// The byte ranges of the tokens classified `Changed`: exactly the bytes of
/// changed tokens lie in the returned ranges.
#[verifier::rlimit(100)]
pub fn changed_byte_ranges(st: &Vec<EditStatus>, toks: &Vec<TokenRange>, line_len: usize) -> (r:
    Vec<(usize, usize)>)
    requires
        st@.len() == toks@.len(),
        forall|k: int| 0 <= k < toks@.len() ==> (#[trigger] toks@[k]).start < toks@[k].end <= line_len,
        forall|k: int| 0 <= k < toks@.len() - 1 ==> (#[trigger] toks@[k]).end == toks@[k + 1].start,
    ensures
        crate::style::ranges_wf(r@, line_len as int),
        forall|i: int|
            0 <= i < line_len ==> (crate::style::in_ranges(r@, i) <==> changed_at(st@, toks@, i)),
{
    let mut r: Vec<(usize, usize)> = Vec::new();
    let mut k: usize = 0;
    let n = toks.len();
    while k < n
        invariant
            n == toks@.len(),
            st@.len() == toks@.len(),
            k <= n,
            forall|q: int|
                0 <= q < toks@.len() ==> (#[trigger] toks@[q]).start < toks@[q].end <= line_len,
            forall|q: int|
                0 <= q < toks@.len() - 1 ==> (#[trigger] toks@[q]).end == toks@[q + 1].start,
            crate::style::ranges_wf(r@, line_len as int),
            r@.len() > 0 && k < n ==> r@[r@.len() - 1].1 <= toks@[k as int].start,
            forall|i: int| crate::style::in_ranges(r@, i) <==> changed_before(st@, toks@, k as int, i),
        decreases n - k,
    {
        let ghost old_r = r@;
        let emit: bool = st[k] == EditStatus::Changed;
        if emit {
            r.push((toks[k].start, toks[k].end));
        }
        proof {
            if emit {
                assert forall|i: int| crate::style::in_ranges(r@, i) <==> changed_before(
                    st@,
                    toks@,
                    k + 1,
                    i,
                ) by {
                    if crate::style::in_ranges(r@, i) {
                        let q = choose|q: int|
                            0 <= q < r@.len() && (#[trigger] r@[q]).0 <= i < r@[q].1;
                        if q < r@.len() - 1 {
                            assert(crate::style::in_ranges(old_r, i));
                        } else {
                            assert(toks@[k as int].start <= i < toks@[k as int].end);
                        }
                    }
                    if changed_before(st@, toks@, k + 1, i) {
                        let kk = choose|kk: int|
                            0 <= kk < k + 1 && st@[kk] is Changed && (#[trigger] toks@[kk]).start
                                <= i < toks@[kk].end;
                        if kk < k {
                            assert(changed_before(st@, toks@, k as int, i));
                            assert(crate::style::in_ranges(old_r, i));
                            let q = choose|q: int|
                                0 <= q < old_r.len() && (#[trigger] old_r[q]).0 <= i < old_r[q].1;
                            assert(r@[q] == old_r[q]);
                            assert(crate::style::in_ranges(r@, i));
                        } else {
                            assert(r@[r@.len() - 1].0 <= i < r@[r@.len() - 1].1);
                            assert(crate::style::in_ranges(r@, i));
                        }
                    }
                }
            } else {
                assert forall|i: int| crate::style::in_ranges(r@, i) <==> changed_before(
                    st@,
                    toks@,
                    k + 1,
                    i,
                ) by {
                    if changed_before(st@, toks@, k + 1, i) {
                        let kk = choose|kk: int|
                            0 <= kk < k + 1 && st@[kk] is Changed && (#[trigger] toks@[kk]).start
                                <= i < toks@[kk].end;
                        assert(kk < k);
                        assert(changed_before(st@, toks@, k as int, i));
                    }
                }
            }
            if k + 1 < n {
                if r@.len() > 0 {
                    assert(toks@[k as int].end == toks@[k + 1].start);
                }
            }
        }
        k = k + 1;
    }
    r
}

/// The whole-line fallback guard: token-level highlighting is suppressed
/// when the changed fraction of the two sides' tokens together exceeds
/// `max_num / max_den`.
pub fn use_whole_line(
    changed_a: usize,
    changed_b: usize,
    total_a: usize,
    total_b: usize,
    max_num: u32,
    max_den: u32,
) -> (r: bool)
    ensures
        r == ((changed_a + changed_b) * (max_den as int) > (total_a + total_b) * (
        max_num as int)),
{
    proof {
        assert(((changed_a + changed_b) as int) * (max_den as int) < u128::MAX && 0 <= ((changed_a
            + changed_b) as int) * (max_den as int) && ((total_a + total_b) as int) * (
        max_num as int) < u128::MAX && 0 <= ((total_a + total_b) as int) * (max_num as int))
            by (nonlinear_arith)
            requires
                changed_a <= usize::MAX && changed_b <= usize::MAX && total_a <= usize::MAX
                    && total_b <= usize::MAX && max_den <= u32::MAX && max_num <= u32::MAX,
        ;
    }
    let l: u128 = ((changed_a as u128) + (changed_b as u128)) * (max_den as u128);
    let rr: u128 = ((total_a as u128) + (total_b as u128)) * (max_num as u128);
    l > rr
}

/// Token partitions are unique: the maximal-run structure of a line is
/// determined by its bytes.
pub proof fn lemma_tokens_unique(t1: Seq<TokenRange>, t2: Seq<TokenRange>, s: Seq<u8>, n: int)
    requires
        tokens_upto(t1, s, n),
        tokens_upto(t2, s, n),
        n <= s.len(),
    ensures
        t1 == t2,
    decreases t1.len(),
{
    if n == 0 {
        assert(t1.len() == 0) by {
            if t1.len() > 0 {
                assert(t1[t1.len() - 1].end == 0);
                assert(t1[t1.len() - 1].start < t1[t1.len() - 1].end);
            }
        }
        assert(t2.len() == 0) by {
            if t2.len() > 0 {
                assert(t2[t2.len() - 1].end == 0);
                assert(t2[t2.len() - 1].start < t2[t2.len() - 1].end);
            }
        }
        assert(t1 =~= t2);
    } else {
        assert(t1.len() > 0 && t2.len() > 0);
        lemma_last_token_start(t1, t2, s, n);
        lemma_last_token_start(t2, t1, s, n);
        let l1 = t1[t1.len() - 1];
        let l2 = t2[t2.len() - 1];
        assert(l1.start == l2.start && l1.end == l2.end);
        assert(l1 == l2);
        assert(tokens_upto(t1.drop_last(), s, l1.start as int)) by {
            if t1.len() >= 2 {
                assert(t1.drop_last()[t1.len() - 2].end == l1.start);
            }
        }
        assert(tokens_upto(t2.drop_last(), s, l1.start as int)) by {
            if t2.len() >= 2 {
                assert(t2.drop_last()[t2.len() - 2].end == l1.start);
            }
        }
        lemma_tokens_unique(t1.drop_last(), t2.drop_last(), s, l1.start as int);
        assert forall|i: int| 0 <= i < t1.len() implies t1[i] == t2[i] by {
            if i < t1.len() - 1 {
                assert(t1[i] == t1.drop_last()[i]);
                assert(t2[i] == t2.drop_last()[i]);
            }
        }
        assert(t1 =~= t2);
    }
}

/// In the setting of `lemma_tokens_unique`, the last run of `t1` starts no
/// earlier than the last run of `t2`.
proof fn lemma_last_token_start(t1: Seq<TokenRange>, t2: Seq<TokenRange>, s: Seq<u8>, n: int)
    requires
        tokens_upto(t1, s, n),
        tokens_upto(t2, s, n),
        0 < n <= s.len(),
        t1.len() > 0,
        t2.len() > 0,
    ensures
        t1[t1.len() - 1].start >= t2[t2.len() - 1].start,
{
    let l1 = t1[t1.len() - 1];
    let l2 = t2[t2.len() - 1];
    if l1.start < l2.start {
        // `l2.start - 1` and `l2.start` lie in the same run of `t1`, so
        // they share a whitespace class; in `t2` they straddle a run
        // boundary, so their classes differ: contradiction.
        assert(l2.start > 0);
        assert(is_ws(s[l2.start - 1]) == is_ws(s[l1.start as int]));
        assert(is_ws(s[l2.start as int]) == is_ws(s[l1.start as int]));
        assert(t2.len() >= 2) by {
            if t2.len() == 1 {
                assert(t2[0].start == 0);
            }
        }
        let p2 = t2[t2.len() - 2];
        assert(p2.end == l2.start);
        assert(is_ws(s[l2.start - 1]) == is_ws(s[p2.start as int]));
        assert(is_ws(s[l2.start as int]) != is_ws(s[p2.start as int]));
        assert(false);
    }
}

/// The tokenization of a line, as a mathematical value: the unique maximal
/// whitespace / non-whitespace run partition of its bytes.
pub open spec fn line_tokens(s: Seq<u8>) -> Seq<TokenRange> {
    choose|t: Seq<TokenRange>| token_partition(t, s)
}

/// `tokenize` computes `line_tokens`.
pub proof fn lemma_tokenize_is_line_tokens(t: Seq<TokenRange>, s: Seq<u8>)
    requires
        token_partition(t, s),
    ensures
        line_tokens(s) == t,
{
    assert(token_partition(line_tokens(s), s));
    lemma_tokens_unique(line_tokens(s), t, s, s.len() as int);
}


} // verus!
