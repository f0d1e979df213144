//! Classified edit spans over a line's token range.
//!
//! Per-token statuses group into spans of consecutive equally-classified
//! tokens. The spans of a side always partition its full token range —
//! gap-free, non-overlapping, their union the whole range — and each token
//! keeps its own classification.

use vstd::prelude::*;
use crate::edits::EditStatus;

verus! {

/// A classified span of token indices `[start, end)`.
#[derive(Clone, Copy, Debug, PartialEq, Eq, Structural)]
pub struct EditSpan {
    pub start: usize,
    pub end: usize,
    pub status: EditStatus,
}

/// The edit spans cover `[0, len)` exactly: non-empty, contiguous, in
/// order, gap-free and non-overlapping.
pub open spec fn edit_partition(s: Seq<EditSpan>, len: int) -> bool {
    &&& (s.len() == 0 ==> len == 0)
    &&& (s.len() > 0 ==> s[0].start == 0 && s[s.len() - 1].end == len)
    &&& (forall|i: int| 0 <= i < s.len() ==> (#[trigger] s[i]).start < s[i].end)
    &&& (forall|i: int| 0 <= i < s.len() - 1 ==> (#[trigger] s[i]).end == s[i + 1].start)
}

/// Adjacent spans carry different statuses (the merged normal form).
pub open spec fn edit_normalized(s: Seq<EditSpan>) -> bool {
    forall|i: int| 0 <= i < s.len() - 1 ==> (#[trigger] s[i]).status != s[i + 1].status
}

/// Every token inside a span has the span's status.
pub open spec fn spans_match_statuses(s: Seq<EditSpan>, st: Seq<EditStatus>) -> bool {
    forall|p: int, i: int|
        0 <= p < s.len() && (#[trigger] s[p]).start <= i < s[p].end && 0 <= i < st.len() ==> (
        #[trigger] st[i]) == s[p].status
}

/// Group per-token statuses into classified spans.
///
/// The spans partition the side's full token range `[0, statuses.len())`
/// with no gaps or overlaps, adjacent spans differ in status, and every
/// token lies in a span of its own status.
#[verifier::rlimit(100)]
pub fn spans_of_statuses(st: &Vec<EditStatus>) -> (out: Vec<EditSpan>)
    ensures
        edit_partition(out@, st@.len() as int),
        edit_normalized(out@),
        spans_match_statuses(out@, st@),
{
    let mut out: Vec<EditSpan> = Vec::new();
    let n = st.len();
    let mut pos: usize = 0;
    while pos < n
        invariant
            n == st@.len(),
            pos <= n,
            edit_partition(out@, pos as int),
            edit_normalized(out@),
            spans_match_statuses(out@, st@),
            out@.len() > 0 ==> out@[out@.len() - 1].end == pos,
            out@.len() > 0 && pos < n ==> out@[out@.len() - 1].status != st@[pos as int],
        decreases n - pos,
    {
        let stt = st[pos];
        let mut j: usize = pos + 1;
        while j < n && st[j] == stt
            invariant
                n == st@.len(),
                pos < j <= n,
                forall|q: int| pos <= q < j ==> (#[trigger] st@[q]) == stt,
            decreases n - j,
        {
            j = j + 1;
        }
        let ghost old_out = out@;
        out.push(EditSpan { start: pos, end: j, status: stt });
        proof {
            assert forall|p: int, i: int|
                0 <= p < out@.len() && (#[trigger] out@[p]).start <= i < out@[p].end && 0 <= i
                    < st@.len() implies (#[trigger] st@[i]) == out@[p].status by {
                if p < out@.len() - 1 {
                    assert(out@[p] == old_out[p]);
                }
            }
        }
        pos = j;
    }
    out
}

} // verus!
