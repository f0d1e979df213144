//! Parsing a raw diff line stream into typed events.
//!
//! The parser is a two-state machine: outside any hunk (`Preamble`) it
//! recognizes file-metadata lines and hunk headers; inside a hunk body it
//! classifies lines by their first byte as removed, added or context, and
//! tracks the running old/new line numbers that the hunk header reset. A
//! line matching neither rule ends the hunk and is passed through opaque.
//! A malformed hunk header — the `@@` shape with unparsable numbers — is a
//! non-fatal anomaly: the line is passed through, no hunk body is entered.

use vstd::prelude::*;

verus! {

/// A decimal digit.
pub open spec fn is_digit(b: u8) -> bool {
    48 <= b <= 57
}

/// The value of a digit string.
pub open spec fn digits_val(s: Seq<u8>) -> int
    decreases s.len(),
{
    if s.len() == 0 {
        0
    } else {
        digits_val(s.drop_last()) * 10 + (s[s.len() - 1] - 48)
    }
}

/// Where the maximal digit run starting at `pos` ends.
pub open spec fn digit_run_end(s: Seq<u8>, pos: int) -> int
    decreases s.len() - pos,
    when 0 <= pos <= s.len()
{
    if pos < s.len() && is_digit(s[pos]) {
        digit_run_end(s, pos + 1)
    } else {
        pos
    }
}

/// The maximal digit run ends within the line, after only digits.
pub proof fn lemma_digit_run(s: Seq<u8>, pos: int)
    requires
        0 <= pos <= s.len(),
    ensures
        pos <= digit_run_end(s, pos) <= s.len(),
        forall|q: int| pos <= q < digit_run_end(s, pos) ==> is_digit(#[trigger] s[q]),
        digit_run_end(s, pos) < s.len() ==> !is_digit(s[digit_run_end(s, pos)]),
    decreases s.len() - pos,
{
    if pos < s.len() && is_digit(s[pos]) {
        lemma_digit_run(s, pos + 1);
    }
}

/// A longer digit prefix has a value at least as large.
proof fn lemma_digits_monotone(s: Seq<u8>, k: int, e: int)
    requires
        0 <= k <= e <= s.len(),
        forall|q: int| 0 <= q < e ==> is_digit(#[trigger] s[q]),
    ensures
        0 <= digits_val(s.subrange(0, k)) <= digits_val(s.subrange(0, e)),
    decreases e - k,
{
    if k == 0 {
        assert(s.subrange(0, 0) =~= Seq::empty());
        lemma_sub_digits(s, e);
        lemma_digits_nonneg(s.subrange(0, e));
    } else if k < e {
        lemma_digits_monotone(s, k, e - 1);
        let w = s.subrange(0, e);
        assert(w.drop_last() =~= s.subrange(0, e - 1));
        assert(is_digit(s[e - 1]));
        assert(digits_val(w) == digits_val(s.subrange(0, e - 1)) * 10 + (s[e - 1] - 48));
        lemma_sub_digits(s, e - 1);
        lemma_digits_nonneg(s.subrange(0, e - 1));
        assert(digits_val(s.subrange(0, e - 1)) * 10 >= digits_val(s.subrange(0, e - 1)));
    } else {
        lemma_sub_digits(s, e);
        lemma_digits_nonneg(s.subrange(0, e));
    }
}

/// A prefix of a digit string is all digits.
proof fn lemma_sub_digits(s: Seq<u8>, e: int)
    requires
        0 <= e <= s.len(),
        forall|q: int| 0 <= q < e ==> is_digit(#[trigger] s[q]),
    ensures
        forall|q: int| 0 <= q < e ==> is_digit(#[trigger] s.subrange(0, e)[q]),
{
    assert forall|q: int| 0 <= q < e implies is_digit(#[trigger] s.subrange(0, e)[q]) by {
        assert(s.subrange(0, e)[q] == s[q]);
    }
}

/// A digit string's value is non-negative.
proof fn lemma_digits_nonneg(s: Seq<u8>)
    requires
        forall|q: int| 0 <= q < s.len() ==> is_digit(#[trigger] s[q]),
    ensures
        digits_val(s) >= 0,
    decreases s.len(),
{
    if s.len() > 0 {
        assert(is_digit(s[s.len() - 1]));
        lemma_digits_nonneg(s.drop_last());
    }
}

/// Parse the maximal digit run starting at `pos`.
///
/// Returns the run's value and its end exactly when the run is non-empty
/// and its value fits in `u64`; returns nothing when no digit stands at
/// `pos` or the value overflows.
#[verifier::rlimit(100)]
#[verifier::loop_isolation(false)]
pub fn parse_u64(s: &[u8], pos: usize) -> (r: Option<(u64, usize)>)
    requires
        pos <= s@.len(),
    ensures
        match r {
            Some(v) => pos < s@.len() && is_digit(s@[pos as int]) && v.1 == digit_run_end(
                s@,
                pos as int,
            ) && v.0 == digits_val(s@.subrange(pos as int, v.1 as int)),
            None => pos == s@.len() || !is_digit(s@[pos as int]) || digits_val(
                s@.subrange(pos as int, digit_run_end(s@, pos as int)),
            ) > u64::MAX,
        },
{
    proof {
        lemma_digit_run(s@, pos as int);
    }
    let len = s.len();
    if pos == len || !(48 <= s[pos] && s[pos] <= 57) {
        return None;
    }
    let ghost run_end = digit_run_end(s@, pos as int);
    let mut v: u64 = 0;
    let mut q: usize = pos;
    while q < len && 48 <= s[q] && s[q] <= 57
        invariant
            pos <= q <= run_end,
            v == digits_val(s@.subrange(pos as int, q as int)),
        decreases len - q,
    {
        proof {
            if q >= run_end {
                assert(!is_digit(s@[q as int]));
            }
        }
        let d: u64 = (s[q] - 48) as u64;
        if v > (u64::MAX - d) / 10 {
            // The run's full value can only be larger still.
            proof {
                let full = s@.subrange(pos as int, run_end);
                let herep = s@.subrange(pos as int, q + 1);
                assert(herep.drop_last() =~= s@.subrange(pos as int, q as int));
                assert(digits_val(herep) == v * 10 + d);
                assert forall|p: int| 0 <= p < run_end - pos implies is_digit(
                    #[trigger] full[p],
                ) by {
                    assert(full[p] == s@[pos + p]);
                }
                lemma_digits_monotone(full, q + 1 - pos, run_end - pos);
                assert(full.subrange(0, q + 1 - pos) =~= herep);
                assert(full.subrange(0, run_end - pos) =~= full);
                assert(v * 10 + d > u64::MAX) by (nonlinear_arith)
                    requires
                        v > (u64::MAX - d) / 10 && 0 <= d <= 9 && v <= u64::MAX,
                ;
            }
            return None;
        }
        v = v * 10 + d;
        q = q + 1;
        proof {
            assert(s@.subrange(pos as int, q as int).drop_last() =~= s@.subrange(
                pos as int,
                q - 1,
            ));
        }
    }
    proof {
        assert(q == run_end);
    }
    Some((v, q))
}

/// What a hunk header line of the shape `@@ -a,b +c,d @@` denotes, if it
/// has that shape: the old-range start and length and the new-range start
/// and length.
pub open spec fn hunk_vals(s: Seq<u8>) -> Option<(int, int, int, int)> {
    if s.len() < 4 || s[0] != 64 || s[1] != 64 || s[2] != 32 || s[3] != 45 {
        None
    } else {
        let e1 = digit_run_end(s, 4);
        if e1 == 4 || e1 >= s.len() || s[e1] != 44 {
            None
        } else {
            let e2 = digit_run_end(s, e1 + 1);
            if e2 == e1 + 1 || e2 + 1 >= s.len() || s[e2] != 32 || s[e2 + 1] != 43 {
                None
            } else {
                let e3 = digit_run_end(s, e2 + 2);
                if e3 == e2 + 2 || e3 >= s.len() || s[e3] != 44 {
                    None
                } else {
                    let e4 = digit_run_end(s, e3 + 1);
                    if e4 == e3 + 1 || e4 + 2 >= s.len() || s[e4] != 32 || s[e4 + 1] != 64 || s[e4
                        + 2] != 64 {
                        None
                    } else {
                        Some(
                            (
                                digits_val(s.subrange(4, e1)),
                                digits_val(s.subrange(e1 + 1, e2)),
                                digits_val(s.subrange(e2 + 2, e3)),
                                digits_val(s.subrange(e3 + 1, e4)),
                            ),
                        )
                    }
                }
            }
        }
    }
}

/// Parse a hunk header `@@ -a,b +c,d @@ ...`.
///
/// Returns the four numbers exactly when the line has the header shape and
/// all four fit in `u64`; a line of the header shape whose numbers do not
/// parse yields nothing, and the caller passes it through.
#[verifier::rlimit(100)]
pub fn parse_hunk_header(line: &[u8]) -> (r: Option<(u64, u64, u64, u64)>)
    ensures
        match r {
            Some(v) => hunk_vals(line@) == Some(
                (v.0 as int, v.1 as int, v.2 as int, v.3 as int),
            ),
            None => match hunk_vals(line@) {
                Some(w) => w.0 > u64::MAX || w.1 > u64::MAX || w.2 > u64::MAX || w.3 > u64::MAX,
                None => true,
            },
        },
{
    let len = line.len();
    if len < 4 || line[0] != 64 || line[1] != 64 || line[2] != 32 || line[3] != 45 {
        return None;
    }
    proof {
        lemma_digit_run(line@, 4);
    }
    let r1 = parse_u64(line, 4);
    let (a, e1) = match r1 {
        Some(v) => v,
        None => {
            return None;
        },
    };
    if e1 >= len || line[e1] != 44 {
        return None;
    }
    proof {
        lemma_digit_run(line@, e1 + 1);
    }
    let r2 = parse_u64(line, e1 + 1);
    let (b, e2) = match r2 {
        Some(v) => v,
        None => {
            return None;
        },
    };
    if e2 >= len || line[e2] != 32 {
        return None;
    }
    if e2 + 1 >= len || line[e2 + 1] != 43 {
        return None;
    }
    proof {
        lemma_digit_run(line@, e2 + 2);
    }
    let r3 = parse_u64(line, e2 + 2);
    let (c, e3) = match r3 {
        Some(v) => v,
        None => {
            return None;
        },
    };
    if e3 >= len || line[e3] != 44 {
        return None;
    }
    proof {
        lemma_digit_run(line@, e3 + 1);
    }
    let r4 = parse_u64(line, e3 + 1);
    let (d, e4) = match r4 {
        Some(v) => v,
        None => {
            return None;
        },
    };
    if e4 >= len || line[e4] != 32 {
        return None;
    }
    if e4 + 1 >= len || line[e4 + 1] != 64 {
        return None;
    }
    if e4 + 2 >= len || line[e4 + 2] != 64 {
        return None;
    }
    Some((a, b, c, d))
}

/// The diff role of a classified line.
#[derive(Clone, Copy, Debug, PartialEq, Eq, Structural)]
pub enum LineRole {
    Context,
    Removed,
    Added,
    HunkHeader,
    FileHeader,
}

/// The parser's running state: whether a hunk body is open, and the old
/// and new line numbers the next body lines carry.
#[derive(Clone, Copy, Debug, PartialEq, Eq, Structural)]
pub struct ParserState {
    pub in_hunk: bool,
    pub old_no: u64,
    pub new_no: u64,
}

/// The classification of one input line.
#[derive(Clone, Copy, Debug, PartialEq, Eq, Structural)]
pub struct Classified {
    pub role: LineRole,
    pub old_no: Option<u64>,
    pub new_no: Option<u64>,
}

/// A line number counter advance that cannot wrap.
pub open spec fn sat_inc(x: u64) -> u64 {
    if x < u64::MAX {
        (x + 1) as u64
    } else {
        x
    }
}

/// Whether a line is file metadata: it starts with `diff `, `index `,
/// `--- ` or `+++ `.
pub open spec fn is_file_meta(s: Seq<u8>) -> bool {
    ||| (s.len() >= 5 && s[0] == 100 && s[1] == 105 && s[2] == 102 && s[3] == 102 && s[4] == 32)
    ||| (s.len() >= 6 && s[0] == 105 && s[1] == 110 && s[2] == 100 && s[3] == 101 && s[4] == 120
        && s[5] == 32)
    ||| (s.len() >= 4 && s[0] == 45 && s[1] == 45 && s[2] == 45 && s[3] == 32)
    ||| (s.len() >= 4 && s[0] == 43 && s[1] == 43 && s[2] == 43 && s[3] == 32)
}

/// One step of the parser state machine.
///
/// A well-formed hunk header opens a hunk body and resets both counters; in
/// an open body, `-`, `+` and ` ` classify the line and advance the
/// matching counters; any other line — a malformed header included — closes
/// the body and passes through as a header line, and outside a body every
/// non-header line passes through the same way.
pub open spec fn step_spec(st: ParserState, line: Seq<u8>) -> (ParserState, Classified) {
    match hunk_vals(line) {
        Some(v) => {
            if v.0 <= u64::MAX && v.1 <= u64::MAX && v.2 <= u64::MAX && v.3 <= u64::MAX {
                (
                    ParserState { in_hunk: true, old_no: v.0 as u64, new_no: v.2 as u64 },
                    Classified { role: LineRole::HunkHeader, old_no: None, new_no: None },
                )
            } else {
                step_body(st, line)
            }
        },
        None => step_body(st, line),
    }
}

/// The non-header part of one parser step.
pub open spec fn step_body(st: ParserState, line: Seq<u8>) -> (ParserState, Classified) {
    if st.in_hunk && line.len() > 0 && line[0] == 45 {
        (
            ParserState { in_hunk: true, old_no: sat_inc(st.old_no), new_no: st.new_no },
            Classified { role: LineRole::Removed, old_no: Some(st.old_no), new_no: None },
        )
    } else if st.in_hunk && line.len() > 0 && line[0] == 43 {
        (
            ParserState { in_hunk: true, old_no: st.old_no, new_no: sat_inc(st.new_no) },
            Classified { role: LineRole::Added, old_no: None, new_no: Some(st.new_no) },
        )
    } else if st.in_hunk && line.len() > 0 && line[0] == 32 {
        (
            ParserState { in_hunk: true, old_no: sat_inc(st.old_no), new_no: sat_inc(st.new_no) },
            Classified {
                role: LineRole::Context,
                old_no: Some(st.old_no),
                new_no: Some(st.new_no),
            },
        )
    } else {
        (
            ParserState { in_hunk: false, old_no: st.old_no, new_no: st.new_no },
            Classified { role: LineRole::FileHeader, old_no: None, new_no: None },
        )
    }
}

/// Classify one input line and advance the parser state.
pub fn step(st: ParserState, line: &[u8]) -> (r: (ParserState, Classified))
    ensures
        r == step_spec(st, line@),
{
    match parse_hunk_header(line) {
        Some((a, b, c, d)) => {
            (
                ParserState { in_hunk: true, old_no: a, new_no: c },
                Classified { role: LineRole::HunkHeader, old_no: None, new_no: None },
            )
        },
        None => {
            let first: u8 = if line.len() > 0 {
                line[0]
            } else {
                0
            };
            if st.in_hunk && line.len() > 0 && first == 45 {
                let next = if st.old_no < u64::MAX {
                    st.old_no + 1
                } else {
                    st.old_no
                };
                (
                    ParserState { in_hunk: true, old_no: next, new_no: st.new_no },
                    Classified { role: LineRole::Removed, old_no: Some(st.old_no), new_no: None },
                )
            } else if st.in_hunk && line.len() > 0 && first == 43 {
                let next = if st.new_no < u64::MAX {
                    st.new_no + 1
                } else {
                    st.new_no
                };
                (
                    ParserState { in_hunk: true, old_no: st.old_no, new_no: next },
                    Classified { role: LineRole::Added, old_no: None, new_no: Some(st.new_no) },
                )
            } else if st.in_hunk && line.len() > 0 && first == 32 {
                let n_old = if st.old_no < u64::MAX {
                    st.old_no + 1
                } else {
                    st.old_no
                };
                let n_new = if st.new_no < u64::MAX {
                    st.new_no + 1
                } else {
                    st.new_no
                };
                (
                    ParserState { in_hunk: true, old_no: n_old, new_no: n_new },
                    Classified {
                        role: LineRole::Context,
                        old_no: Some(st.old_no),
                        new_no: Some(st.new_no),
                    },
                )
            } else {
                (
                    ParserState { in_hunk: false, old_no: st.old_no, new_no: st.new_no },
                    Classified { role: LineRole::FileHeader, old_no: None, new_no: None },
                )
            }
        },
    }
}

/// Whether a line is file metadata (`diff `, `index `, `--- `, `+++ `).
pub fn file_meta(line: &[u8]) -> (r: bool)
    ensures
        r == is_file_meta(line@),
{
    let n = line.len();
    (n >= 5 && line[0] == 100 && line[1] == 105 && line[2] == 102 && line[3] == 102 && line[4]
        == 32) || (n >= 6 && line[0] == 105 && line[1] == 110 && line[2] == 100 && line[3] == 101
        && line[4] == 120 && line[5] == 32) || (n >= 4 && line[0] == 45 && line[1] == 45 && line[2]
        == 45 && line[3] == 32) || (n >= 4 && line[0] == 43 && line[1] == 43 && line[2] == 43
        && line[3] == 32)
}

/// A change block under assembly: the removed lines, then the added lines,
/// of one maximal removed-then-added run of a hunk body. The shape itself
/// keeps the block invariant: removed lines never follow added ones.
pub struct ChangeBlock {
    pub removed: Vec<Vec<u8>>,
    pub added: Vec<Vec<u8>>,
}

impl ChangeBlock {
    /// An empty block.
    pub fn new() -> (r: ChangeBlock)
        ensures
            r.removed@.len() == 0,
            r.added@.len() == 0,
    {
        ChangeBlock { removed: Vec::new(), added: Vec::new() }
    }

    /// Whether the block holds no lines yet.
    pub fn is_empty(&self) -> (r: bool)
        ensures
            r == (self.removed@.len() == 0 && self.added@.len() == 0),
    {
        self.removed.len() == 0 && self.added.len() == 0
    }

    /// Whether the block already holds added lines: a removed line arriving
    /// now belongs to the next block.
    pub fn has_added(&self) -> (r: bool)
        ensures
            r == (self.added@.len() > 0),
    {
        self.added.len() > 0
    }

    /// Buffer one removed line (without its `-` marker).
    pub fn push_removed(&mut self, line: Vec<u8>)
        ensures
            final(self).removed@ == old(self).removed@.push(line),
            final(self).added@ == old(self).added@,
    {
        self.removed.push(line);
    }

    /// Buffer one added line (without its `+` marker).
    pub fn push_added(&mut self, line: Vec<u8>)
        ensures
            final(self).added@ == old(self).added@.push(line),
            final(self).removed@ == old(self).removed@,
    {
        self.added.push(line);
    }
}

} // verus!
