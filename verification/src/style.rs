//! Styled spans and the compositor.
//!
//! A `StyleSpan` assigns one `Style` to a byte range `[start, end)` of a
//! line. The spans attached to a line always partition `[0, len)`. The
//! compositor overlays, on top of the syntax-highlighter's spans, the
//! background implied by the line's diff role and by the token-level edit
//! classification: foreground always comes from syntax, background from the
//! role, and the emphasis background from the edit ranges.

use vstd::prelude::*;
use crate::color::Color;

verus! {

/// A resolved text style: foreground, background, and whether the range is
/// an emphasized (precisely-changed) region.
#[derive(Clone, Copy, Debug, PartialEq, Eq, Structural)]
pub struct Style {
    pub fg: Color,
    pub bg: Color,
    pub emphasis: bool,
}

/// One byte range `[start, end)` of a line together with its style.
#[derive(Clone, Copy, Debug, PartialEq, Eq, Structural)]
pub struct StyleSpan {
    pub start: usize,
    pub end: usize,
    pub style: Style,
}

/// The spans cover `[0, len)` exactly: non-empty, contiguous, in order,
/// beginning at 0 and ending at `len`.
pub open spec fn is_partition(s: Seq<StyleSpan>, len: int) -> bool {
    &&& (s.len() == 0 ==> len == 0)
    &&& (s.len() > 0 ==> s[0].start == 0 && s[s.len() - 1].end == len)
    &&& (forall|i: int| 0 <= i < s.len() ==> (#[trigger] s[i]).start < s[i].end)
    &&& (forall|i: int| 0 <= i < s.len() - 1 ==> (#[trigger] s[i]).end == s[i + 1].start)
}

/// No two adjacent spans carry the same style (the merged normal form).
pub open spec fn is_normalized(s: Seq<StyleSpan>) -> bool {
    forall|i: int| 0 <= i < s.len() - 1 ==> (#[trigger] s[i]).style != s[i + 1].style
}

/// The style a span list assigns to byte `i` (meaningful when some span
/// contains `i`).
pub open spec fn style_at(s: Seq<StyleSpan>, i: int) -> Style
    decreases s.len(),
{
    if s.len() == 0 {
        arbitrary()
    } else if i >= s[s.len() - 1].start {
        s[s.len() - 1].style
    } else {
        style_at(s.drop_last(), i)
    }
}

/// Whether byte `i` lies inside one of the ranges.
pub open spec fn in_ranges(r: Seq<(usize, usize)>, i: int) -> bool {
    exists|k: int| 0 <= k < r.len() && (#[trigger] r[k]).0 <= i < r[k].1
}

/// The ranges are ordered, pairwise disjoint, and lie within `[0, len]`.
pub open spec fn ranges_wf(r: Seq<(usize, usize)>, len: int) -> bool {
    &&& (forall|k: int| 0 <= k < r.len() ==> (#[trigger] r[k]).0 <= r[k].1 <= len)
    &&& (forall|a: int, b: int| 0 <= a < b < r.len() ==> (#[trigger] r[a]).1 <= (#[trigger] r[b]).0)
}

/// The compositor's per-byte rule: the foreground comes from the syntax
/// style, the background is the emphasis background inside an edit range and
/// the plain role background elsewhere.
pub open spec fn composite(st: Style, emph: bool, plain_bg: Color, emph_bg: Color) -> Style {
    Style { fg: st.fg, bg: if emph { emph_bg } else { plain_bg }, emphasis: emph }
}

/// How a composed span list relates to its syntax spans: a normalized
/// partition of the line assigning every byte the composite of the syntax
/// style at that byte.
pub open spec fn composed_rel(
    syn: Seq<StyleSpan>,
    out: Seq<StyleSpan>,
    len: int,
    plain_bg: Color,
    emph_bg: Color,
    emph: Seq<(usize, usize)>,
) -> bool {
    &&& is_partition(out, len)
    &&& is_normalized(out)
    &&& forall|i: int|
        0 <= i < len ==> (#[trigger] style_at(out, i)) == composite(
            style_at(syn, i),
            in_ranges(emph, i),
            plain_bg,
            emph_bg,
        )
}

/// Within a partition, later spans end no earlier.
proof fn lemma_end_le(s: Seq<StyleSpan>, len: int, i: int, j: int)
    requires
        is_partition(s, len),
        0 <= i <= j < s.len(),
    ensures
        s[i].end <= s[j].end,
        s[i].end <= s[j].start || i == j,
    decreases j - i,
{
    if i < j {
        lemma_end_le(s, len, i, j - 1);
        assert(s[j - 1].end == s[j].start);
    }
}

/// Every span of a partition ends within `[0, len]`.
proof fn lemma_end_le_len(s: Seq<StyleSpan>, len: int, i: int)
    requires
        is_partition(s, len),
        0 <= i < s.len(),
    ensures
        s[i].end <= len,
        0 <= s[i].start,
{
    lemma_end_le(s, len, i, s.len() - 1);
    if i > 0 {
        lemma_end_le(s, len, 0, i);
    }
}

/// Every span of a partition lies within `[0, len]`.
pub proof fn lemma_partition_bounds(s: Seq<StyleSpan>, len: int, i: int)
    requires
        is_partition(s, len),
        0 <= i < s.len(),
    ensures
        s[i].end <= len,
        0 <= s[i].start,
{
    lemma_end_le_len(s, len, i);
}

/// Dropping the last span of a partition leaves a partition of the dropped
/// span's start.
proof fn lemma_drop_last_partition(s: Seq<StyleSpan>, len: int)
    requires
        is_partition(s, len),
        s.len() > 0,
    ensures
        is_partition(s.drop_last(), s[s.len() - 1].start as int),
{
    let t = s.drop_last();
    if t.len() > 0 {
        assert(t[t.len() - 1].end == s[s.len() - 1].start);
    } else {
        assert(s[s.len() - 1].start == 0);
    }
}

/// The style at a byte is the style of the span that contains it.
pub proof fn lemma_style_at_span(s: Seq<StyleSpan>, len: int, k: int, i: int)
    requires
        is_partition(s, len),
        0 <= k < s.len(),
        s[k].start <= i < s[k].end,
    ensures
        style_at(s, i) == s[k].style,
    decreases s.len(),
{
    if k == s.len() - 1 {
        assert(i >= s[s.len() - 1].start);
    } else {
        lemma_end_le(s, len, k, s.len() - 1);
        assert(i < s[s.len() - 1].start);
        lemma_drop_last_partition(s, len);
        lemma_style_at_span(s.drop_last(), s[s.len() - 1].start as int, k, i);
    }
}

/// Two normalized partitions of the same range that agree on the style of
/// every byte are the same span list.
#[verifier::rlimit(100)]
pub proof fn lemma_partition_unique(a: Seq<StyleSpan>, b: Seq<StyleSpan>, len: int)
    requires
        is_partition(a, len),
        is_partition(b, len),
        is_normalized(a),
        is_normalized(b),
        forall|i: int| 0 <= i < len ==> style_at(a, i) == style_at(b, i),
    ensures
        a == b,
    decreases a.len(),
{
    if len == 0 {
        if a.len() > 0 {
            lemma_end_le_len(a, len, 0);
            assert(false);
        }
        if b.len() > 0 {
            lemma_end_le_len(b, len, 0);
            assert(false);
        }
        assert(a =~= b);
    } else {
        assert(a.len() > 0 && b.len() > 0);
        let la = a[a.len() - 1];
        let lb = b[b.len() - 1];
        lemma_last_start_eq(a, b, len);
        lemma_last_start_eq(b, a, len);
        assert(la.start == lb.start);
        lemma_style_at_span(a, len, a.len() - 1, la.start as int);
        lemma_style_at_span(b, len, b.len() - 1, la.start as int);
        assert(la.style == lb.style);
        assert(la == lb);
        lemma_drop_last_partition(a, len);
        lemma_drop_last_partition(b, len);
        assert(forall|i: int|
            0 <= i < la.start ==> style_at(a.drop_last(), i) == style_at(b.drop_last(), i)) by {
            assert forall|i: int| 0 <= i < la.start implies style_at(a.drop_last(), i) == style_at(
                b.drop_last(),
                i,
            ) by {
                assert(style_at(a, i) == style_at(a.drop_last(), i));
                assert(style_at(b, i) == style_at(b.drop_last(), i));
            }
        }
        lemma_partition_unique(a.drop_last(), b.drop_last(), la.start as int);
        assert(a.drop_last() == b.drop_last());
        assert(a.len() == b.len());
        assert forall|i: int| 0 <= i < a.len() implies a[i] == b[i] by {
            if i < a.len() - 1 {
                assert(a[i] == a.drop_last()[i]);
                assert(b[i] == b.drop_last()[i]);
            }
        }
        assert(a =~= b);
    }
}

/// In the setting of `lemma_partition_unique`, the last span of `a` starts
/// no earlier than the last span of `b`.
proof fn lemma_last_start_eq(a: Seq<StyleSpan>, b: Seq<StyleSpan>, len: int)
    requires
        is_partition(a, len),
        is_partition(b, len),
        is_normalized(b),
        len > 0,
        forall|i: int| 0 <= i < len ==> style_at(a, i) == style_at(b, i),
    ensures
        a[a.len() - 1].start >= b[b.len() - 1].start,
{
    let la = a[a.len() - 1];
    let lb = b[b.len() - 1];
    if la.start < lb.start {
        // Then `lb.start - 1` and `lb.start` both lie in `a`'s last span,
        // so their styles agree in `a`; in `b` they straddle a span
        // boundary between spans of different styles: contradiction.
        lemma_end_le_len(a, len, a.len() - 1);
        lemma_end_le_len(b, len, b.len() - 1);
        lemma_style_at_span(a, len, a.len() - 1, lb.start - 1);
        lemma_style_at_span(a, len, a.len() - 1, lb.start as int);
        lemma_style_at_span(b, len, b.len() - 1, lb.start as int);
        assert(style_at(b, lb.start - 1) == la.style);
        assert(lb.start > 0);
        assert(b.len() >= 2) by {
            if b.len() == 1 {
                assert(b[0].start == 0);
            }
        }
        let pb = b[b.len() - 2];
        assert(pb.end == lb.start);
        lemma_end_le_len(b, len, b.len() - 2);
        lemma_style_at_span(b, len, b.len() - 2, lb.start - 1);
        assert(pb.style == la.style);
        assert(pb.style != lb.style);
        assert(style_at(b, lb.start as int) == lb.style);
        assert(la.style == lb.style);
        assert(false);
    }
}

/// Compose a line's syntax spans with its diff-role background and its
/// emphasized (token-changed) byte ranges.
///
/// The result partitions the line, is in merged normal form, and assigns to
/// every byte exactly `composite` of the syntax style at that byte. If the
/// input already is a normalized fixed point of that rule — as every output
/// of this function is — the output is the input itself, unchanged: the
/// compositor is idempotent, and a no-op overlay where the role background
/// is unset and no ranges are emphasized.
#[verifier::rlimit(100)]
pub fn compose_line(
    spans: &Vec<StyleSpan>,
    len: usize,
    plain_bg: Color,
    emph_bg: Color,
    emph: &Vec<(usize, usize)>,
) -> (out: Vec<StyleSpan>)
    requires
        is_partition(spans@, len as int),
        ranges_wf(emph@, len as int),
    ensures
        is_partition(out@, len as int),
        is_normalized(out@),
        forall|i: int|
            0 <= i < len ==> style_at(out@, i) == composite(
                style_at(spans@, i),
                in_ranges(emph@, i),
                plain_bg,
                emph_bg,
            ),
        composed_rel(spans@, out@, len as int, plain_bg, emph_bg, emph@),
        (is_normalized(spans@) && (forall|i: int|
            0 <= i < len ==> style_at(spans@, i) == composite(
                style_at(spans@, i),
                in_ranges(emph@, i),
                plain_bg,
                emph_bg,
            ))) ==> out@ == spans@,
{
    let mut out: Vec<StyleSpan> = Vec::new();
    let mut pos: usize = 0;
    let mut idx: usize = 0;
    let mut k: usize = 0;
    while pos < len
        invariant
            is_partition(spans@, len as int),
            ranges_wf(emph@, len as int),
            pos <= len,
            is_partition(out@, pos as int),
            is_normalized(out@),
            forall|i: int|
                0 <= i < pos ==> style_at(out@, i) == composite(
                    style_at(spans@, i),
                    in_ranges(emph@, i),
                    plain_bg,
                    emph_bg,
                ),
            idx < spans@.len() || spans@.len() == 0,
            spans@.len() > 0 ==> spans@[idx as int].start <= pos,
            k <= emph@.len(),
            forall|j: int| 0 <= j < k ==> (#[trigger] emph@[j]).1 <= pos,
        decreases len - pos,
    {
        let ghost prev_out = out@;
        compose_step(spans, len, plain_bg, emph_bg, emph, &mut out, &mut idx, &mut k, pos);
        proof {
            assert forall|i: int| 0 <= i < pos + 1 implies style_at(out@, i) == composite(
                style_at(spans@, i),
                in_ranges(emph@, i),
                plain_bg,
                emph_bg,
            ) by {
                if i < pos {
                    assert(style_at(out@, i) == style_at(prev_out, i));
                }
            }
        }
        pos = pos + 1;
    }
    proof {
        if is_normalized(spans@) && (forall|i: int|
            0 <= i < len ==> style_at(spans@, i) == composite(
                style_at(spans@, i),
                in_ranges(emph@, i),
                plain_bg,
                emph_bg,
            )) {
            lemma_partition_unique(out@, spans@, len as int);
        }
    }
    out
}

/// One byte of compositing: locate the syntax span and emphasis range that
/// contain `pos`, and append the composite style for that byte.
#[verifier::rlimit(100)]
fn compose_step(
    spans: &Vec<StyleSpan>,
    len: usize,
    plain_bg: Color,
    emph_bg: Color,
    emph: &Vec<(usize, usize)>,
    out: &mut Vec<StyleSpan>,
    idx: &mut usize,
    k: &mut usize,
    pos: usize,
)
    requires
        is_partition(spans@, len as int),
        ranges_wf(emph@, len as int),
        pos < len,
        is_partition(old(out)@, pos as int),
        is_normalized(old(out)@),
        *old(idx) < spans@.len(),
        spans@[*old(idx) as int].start <= pos,
        *old(k) <= emph@.len(),
        forall|j: int| 0 <= j < *old(k) ==> (#[trigger] emph@[j]).1 <= pos,
    ensures
        is_partition(final(out)@, pos + 1),
        is_normalized(final(out)@),
        forall|i: int| 0 <= i < pos ==> style_at(final(out)@, i) == style_at(old(out)@, i),
        style_at(final(out)@, pos as int) == composite(
            style_at(spans@, pos as int),
            in_ranges(emph@, pos as int),
            plain_bg,
            emph_bg,
        ),
        *final(idx) < spans@.len(),
        spans@[*final(idx) as int].start <= pos,
        *final(k) <= emph@.len(),
        forall|j: int| 0 <= j < *final(k) ==> (#[trigger] emph@[j]).1 <= pos,
{
    let nspans: usize = spans.len();
    let mut cur: usize = *idx;
    while spans[cur].end <= pos
        invariant
            is_partition(spans@, len as int),
            pos < len,
            nspans == spans@.len(),
            cur < spans@.len(),
            spans@[cur as int].start <= pos,
        decreases spans@.len() - cur,
    {
        proof {
            if cur + 1 >= spans@.len() {
                assert(spans@[spans@.len() - 1].end == len);
                assert(false);
            }
        }
        cur = cur + 1;
    }
    *idx = cur;
    proof {
        lemma_style_at_span(spans@, len as int, cur as int, pos as int);
    }
    let nemph: usize = emph.len();
    let mut kk: usize = *k;
    while kk < emph.len() && emph[kk].1 <= pos
        invariant
            kk <= emph@.len(),
            nemph == emph@.len(),
            forall|j: int| 0 <= j < kk ==> (#[trigger] emph@[j]).1 <= pos,
        decreases emph@.len() - kk,
    {
        kk = kk + 1;
    }
    *k = kk;
    let e: bool = kk < emph.len() && emph[kk].0 <= pos;
    proof {
        if e {
            assert(emph@[kk as int].0 <= pos < emph@[kk as int].1);
            assert(in_ranges(emph@, pos as int));
        } else if in_ranges(emph@, pos as int) {
            let j = choose|j: int|
                0 <= j < emph@.len() && (#[trigger] emph@[j]).0 <= pos < emph@[j].1;
            assert(j >= kk);
            if j > kk {
                assert(emph@[kk as int].1 <= emph@[j].0);
            }
            assert(false);
        }
    }
    let sty = spans[cur].style;
    let st = Style {
        fg: sty.fg,
        bg: if e {
            emph_bg
        } else {
            plain_bg
        },
        emphasis: e,
    };
    push_run(out, pos, st);
}

/// Extend a partition of `[0, pos)` by one byte carrying style `st`,
/// merging with the last span when the style is unchanged.
fn push_run(out: &mut Vec<StyleSpan>, pos: usize, st: Style)
    requires
        is_partition(old(out)@, pos as int),
        is_normalized(old(out)@),
        pos < usize::MAX,
    ensures
        is_partition(final(out)@, pos + 1),
        is_normalized(final(out)@),
        forall|i: int| 0 <= i < pos ==> style_at(final(out)@, i) == style_at(old(out)@, i),
        style_at(final(out)@, pos as int) == st,
{
    let olen = out.len();
    if olen > 0 && out[olen - 1].style == st {
        let ghost old_out = out@;
        let mut last = out.pop().unwrap();
        last.end = pos + 1;
        out.push(last);
        proof {
            assert(out@.drop_last() =~= old_out.drop_last());
            assert(out@[out@.len() - 1] == last);
            assert forall|i: int| 0 <= i <= pos implies style_at(out@, i) == (if i < pos {
                style_at(old_out, i)
            } else {
                st
            }) by {
                if i < last.start {
                    assert(style_at(out@, i) == style_at(out@.drop_last(), i));
                    assert(style_at(old_out, i) == style_at(old_out.drop_last(), i));
                } else if i < pos {
                    assert(style_at(old_out, i) == old_out[old_out.len() - 1].style);
                }
            }
        }
    } else {
        let sp = StyleSpan { start: pos, end: pos + 1, style: st };
        let ghost old_out = out@;
        out.push(sp);
        proof {
            assert(out@.drop_last() =~= old_out);
            assert forall|i: int| 0 <= i <= pos implies style_at(out@, i) == (if i < pos {
                style_at(old_out, i)
            } else {
                st
            }) by {
                if i < pos {
                    assert(style_at(out@, i) == style_at(old_out, i));
                }
            }
        }
    }
}

/// Re-composing a compositor output with the same role and edit inputs
/// changes nothing: byte for byte, `composite` is idempotent, so a span list
/// that already assigns `composite` of some syntax style to every byte is a
/// fixed point of the rule.
pub proof fn lemma_composite_idempotent(
    out: Seq<StyleSpan>,
    orig: Seq<StyleSpan>,
    len: int,
    emph: Seq<(usize, usize)>,
    plain_bg: Color,
    emph_bg: Color,
)
    requires
        forall|i: int|
            0 <= i < len ==> style_at(out, i) == composite(
                style_at(orig, i),
                in_ranges(emph, i),
                plain_bg,
                emph_bg,
            ),
    ensures
        forall|i: int|
            0 <= i < len ==> style_at(out, i) == composite(
                style_at(out, i),
                in_ranges(emph, i),
                plain_bg,
                emph_bg,
            ),
{
}

/// On a context line — role background unset, no emphasized ranges — the
/// compositor rule is the identity on every plain syntax style, so by
/// `compose_line`'s fixed-point guarantee the syntax spans come back
/// unchanged.
pub proof fn lemma_compose_context_noop(spans: Seq<StyleSpan>, len: int, emph_bg: Color)
    requires
        forall|i: int|
            0 <= i < len ==> (#[trigger] style_at(spans, i)).bg == Color::Unset && !style_at(
                spans,
                i,
            ).emphasis,
    ensures
        forall|i: int|
            0 <= i < len ==> style_at(spans, i) == composite(
                style_at(spans, i),
                in_ranges(Seq::<(usize, usize)>::empty(), i),
                Color::Unset,
                emph_bg,
            ),
{
}

} // verus!
