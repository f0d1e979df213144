//! Serializing styled spans to ANSI escape sequences, and the decorative
//! elements around them: horizontal rules, underlined file headers, the
//! width cut, and the background-color swatch.
//!
//! Every function states its output byte for byte: a styled span renders
//! as its foreground code, its background code, its slice of the line, and
//! a reset; an unstyled span renders as its bare text.

use vstd::prelude::*;
use crate::color::{degrade, degrades_to, representable, Color, ColorCapability};
use crate::style::{is_partition, StyleSpan};

verus! {

/// The decimal digits of a byte value.
pub open spec fn dec_u8(n: u8) -> Seq<u8> {
    if n < 10 {
        seq![(48 + n) as u8]
    } else if n < 100 {
        seq![(48 + n / 10) as u8, (48 + n % 10) as u8]
    } else {
        seq![(48 + n / 100) as u8, (48 + (n / 10) % 10) as u8, (48 + n % 10) as u8]
    }
}

/// The SGR code selecting a foreground color (empty for an unset color).
pub open spec fn sgr_fg(c: Color) -> Seq<u8> {
    match c {
        Color::Unset => Seq::empty(),
        Color::Rgb(r, g, b) => seq![27u8, 91, 51, 56, 59, 50, 59] + dec_u8(r) + seq![59u8] + dec_u8(
            g,
        ) + seq![59u8] + dec_u8(b) + seq![109u8],
        Color::Indexed(i) => seq![27u8, 91, 51, 56, 59, 53, 59] + dec_u8(i) + seq![109u8],
    }
}

/// The SGR code selecting a background color (empty for an unset color).
pub open spec fn sgr_bg(c: Color) -> Seq<u8> {
    match c {
        Color::Unset => Seq::empty(),
        Color::Rgb(r, g, b) => seq![27u8, 91, 52, 56, 59, 50, 59] + dec_u8(r) + seq![59u8] + dec_u8(
            g,
        ) + seq![59u8] + dec_u8(b) + seq![109u8],
        Color::Indexed(i) => seq![27u8, 91, 52, 56, 59, 53, 59] + dec_u8(i) + seq![109u8],
    }
}

/// The SGR reset code.
pub open spec fn sgr_reset() -> Seq<u8> {
    seq![27u8, 91, 48, 109]
}

/// How one span renders: color codes, the span's slice of the line, and a
/// reset — or the bare slice when the span sets no color.
pub open spec fn span_bytes(text: Seq<u8>, sp: StyleSpan) -> Seq<u8> {
    if sp.style.fg is Unset && sp.style.bg is Unset {
        text.subrange(sp.start as int, sp.end as int)
    } else {
        sgr_fg(sp.style.fg) + sgr_bg(sp.style.bg) + text.subrange(sp.start as int, sp.end as int)
            + sgr_reset()
    }
}

/// How a whole line renders: its spans in order.
pub open spec fn render_spans_spec(spans: Seq<StyleSpan>, text: Seq<u8>) -> Seq<u8>
    decreases spans.len(),
{
    if spans.len() == 0 {
        Seq::empty()
    } else {
        render_spans_spec(spans.drop_last(), text) + span_bytes(text, spans[spans.len() - 1])
    }
}

/// Append the decimal digits of `n`.
fn push_dec_u8(v: &mut Vec<u8>, n: u8)
    ensures
        final(v)@ == old(v)@ + dec_u8(n),
{
    let ghost base = v@;
    if n < 10 {
        v.push(48 + n);
    } else if n < 100 {
        v.push(48 + n / 10);
        v.push(48 + n % 10);
    } else {
        v.push(48 + n / 100);
        v.push(48 + (n / 10) % 10);
        v.push(48 + n % 10);
    }
    proof {
        assert(v@ =~= base + dec_u8(n));
    }
}

/// Append the foreground code of `c`.
fn push_fg(v: &mut Vec<u8>, c: Color)
    ensures
        final(v)@ == old(v)@ + sgr_fg(c),
{
    let ghost base = v@;
    match c {
        Color::Unset => {
            proof {
                assert(v@ =~= base + sgr_fg(c));
            }
        },
        Color::Rgb(r, g, b) => {
            v.push(27);
            v.push(91);
            v.push(51);
            v.push(56);
            v.push(59);
            v.push(50);
            v.push(59);
            push_dec_u8(v, r);
            v.push(59);
            push_dec_u8(v, g);
            v.push(59);
            push_dec_u8(v, b);
            v.push(109);
            proof {
                assert(v@ =~= base + sgr_fg(c));
            }
        },
        Color::Indexed(i) => {
            v.push(27);
            v.push(91);
            v.push(51);
            v.push(56);
            v.push(59);
            v.push(53);
            v.push(59);
            push_dec_u8(v, i);
            v.push(109);
            proof {
                assert(v@ =~= base + sgr_fg(c));
            }
        },
    }
}

/// Append the background code of `c`.
fn push_bg(v: &mut Vec<u8>, c: Color)
    ensures
        final(v)@ == old(v)@ + sgr_bg(c),
{
    let ghost base = v@;
    match c {
        Color::Unset => {
            proof {
                assert(v@ =~= base + sgr_bg(c));
            }
        },
        Color::Rgb(r, g, b) => {
            v.push(27);
            v.push(91);
            v.push(52);
            v.push(56);
            v.push(59);
            v.push(50);
            v.push(59);
            push_dec_u8(v, r);
            v.push(59);
            push_dec_u8(v, g);
            v.push(59);
            push_dec_u8(v, b);
            v.push(109);
            proof {
                assert(v@ =~= base + sgr_bg(c));
            }
        },
        Color::Indexed(i) => {
            v.push(27);
            v.push(91);
            v.push(52);
            v.push(56);
            v.push(59);
            v.push(53);
            v.push(59);
            push_dec_u8(v, i);
            v.push(109);
            proof {
                assert(v@ =~= base + sgr_bg(c));
            }
        },
    }
}

/// Append a slice of the line.
fn push_text_range(v: &mut Vec<u8>, text: &[u8], start: usize, end: usize)
    requires
        start <= end <= text@.len(),
    ensures
        final(v)@ == old(v)@ + text@.subrange(start as int, end as int),
{
    let ghost base = v@;
    let mut q: usize = start;
    while q < end
        invariant
            start <= q <= end <= text@.len(),
            v@ == base + text@.subrange(start as int, q as int),
        decreases end - q,
    {
        v.push(text[q]);
        q = q + 1;
        proof {
            assert(v@ =~= base + text@.subrange(start as int, q as int));
        }
    }
    proof {
        assert(v@ =~= base + text@.subrange(start as int, end as int));
    }
}

/// Render one line's spans as escape-coded bytes, exactly as
/// `render_spans_spec` lays them out.
#[verifier::rlimit(100)]
#[verifier::loop_isolation(false)]
pub fn render_line(text: &[u8], spans: &Vec<StyleSpan>) -> (out: Vec<u8>)
    requires
        forall|p: int|
            0 <= p < spans@.len() ==> (#[trigger] spans@[p]).start <= spans@[p].end <= text@.len(),
    ensures
        out@ == render_spans_spec(spans@, text@),
{
    let mut out: Vec<u8> = Vec::new();
    let n = spans.len();
    let mut i: usize = 0;
    proof {
        assert(spans@.take(0) =~= Seq::<StyleSpan>::empty());
    }
    while i < n
        invariant
            i <= n,
            out@ == render_spans_spec(spans@.take(i as int), text@),
        decreases n - i,
    {
        let sp = spans[i];
        let ghost base = out@;
        let plain: bool = match (sp.style.fg, sp.style.bg) {
            (Color::Unset, Color::Unset) => true,
            _ => false,
        };
        if plain {
            push_text_range(&mut out, text, sp.start, sp.end);
        } else {
            push_fg(&mut out, sp.style.fg);
            push_bg(&mut out, sp.style.bg);
            push_text_range(&mut out, text, sp.start, sp.end);
            out.push(27);
            out.push(91);
            out.push(48);
            out.push(109);
        }
        proof {
            assert(out@ =~= base + span_bytes(text@, sp));
            assert(spans@.take(i + 1).drop_last() =~= spans@.take(i as int));
            assert(spans@.take(i + 1)[i as int] == sp);
        }
        i = i + 1;
    }
    proof {
        assert(spans@.take(n as int) =~= spans@);
    }
    out
}

/// How degraded spans relate to their originals: the same ranges and
/// emphasis, and each color degraded exactly — unchanged where
/// representable, else the first nearest palette entry (`degrades_to` pins
/// each color uniquely).
pub open spec fn degraded_rel(spans: Seq<StyleSpan>, out: Seq<StyleSpan>, cap: ColorCapability) -> bool {
    &&& out.len() == spans.len()
    &&& forall|p: int|
        0 <= p < spans.len() ==> {
            let o = #[trigger] out[p];
            let s = spans[p];
            o.start == s.start && o.end == s.end && o.style.emphasis == s.style.emphasis
                && degrades_to(s.style.fg, cap, o.style.fg) && degrades_to(
                s.style.bg,
                cap,
                o.style.bg,
            )
        }
}

/// Degrade every span's colors to the terminal's capability; ranges and
/// emphasis are untouched, and each color is pinned by `degrades_to`.
pub fn degrade_spans(spans: &Vec<StyleSpan>, cap: ColorCapability) -> (out: Vec<StyleSpan>)
    ensures
        degraded_rel(spans@, out@, cap),
{
    let mut out: Vec<StyleSpan> = Vec::new();
    let n = spans.len();
    let mut i: usize = 0;
    while i < n
        invariant
            i <= n,
            n == spans@.len(),
            out@.len() == i,
            forall|p: int|
                0 <= p < i ==> {
                    let o = #[trigger] out@[p];
                    let s = spans@[p];
                    o.start == s.start && o.end == s.end && o.style.emphasis == s.style.emphasis
                        && degrades_to(s.style.fg, cap, o.style.fg) && degrades_to(
                        s.style.bg,
                        cap,
                        o.style.bg,
                    )
                },
        decreases n - i,
    {
        let sp = spans[i];
        let fg = degrade(sp.style.fg, cap);
        let bg = degrade(sp.style.bg, cap);
        out.push(
            StyleSpan {
                start: sp.start,
                end: sp.end,
                style: crate::style::Style { fg, bg, emphasis: sp.style.emphasis },
            },
        );
        i = i + 1;
    }
    out
}

/// A horizontal rule: `width` dashes.
pub fn horizontal_rule(width: usize) -> (out: Vec<u8>)
    ensures
        out@.len() == width,
        forall|p: int| 0 <= p < width ==> (#[trigger] out@[p]) == 45,
{
    let mut out: Vec<u8> = Vec::new();
    let mut i: usize = 0;
    while i < width
        invariant
            i <= width,
            out@.len() == i,
            forall|p: int| 0 <= p < i ==> (#[trigger] out@[p]) == 45,
        decreases width - i,
    {
        out.push(45);
        i = i + 1;
    }
    out
}

/// A file-header decoration: the header text, a newline, and a rule as
/// wide as the larger of the text and the configured minimum.
pub fn underline_header(text: &[u8], min_width: usize) -> (out: Vec<u8>)
    ensures
        out@.len() == text@.len() + 1 + (if text@.len() >= min_width {
            text@.len() as int
        } else {
            min_width as int
        }),
        out@.subrange(0, text@.len() as int) == text@,
        out@[text@.len() as int] == 10,
        forall|p: int| text@.len() + 1 <= p < out@.len() ==> (#[trigger] out@[p]) == 45,
{
    let mut out: Vec<u8> = Vec::new();
    push_text_range(&mut out, text, 0, text.len());
    proof {
        assert(text@.subrange(0, text@.len() as int) =~= text@);
    }
    out.push(10);
    let w = if text.len() >= min_width {
        text.len()
    } else {
        min_width
    };
    let mut i: usize = 0;
    while i < w
        invariant
            i <= w,
            out@.len() == text@.len() + 1 + i,
            out@.subrange(0, text@.len() as int) == text@,
            out@[text@.len() as int] == 10,
            forall|p: int| text@.len() + 1 <= p < out@.len() ==> (#[trigger] out@[p]) == 45,
        decreases w - i,
    {
        let ghost base = out@;
        out.push(45);
        proof {
            assert(out@.subrange(0, text@.len() as int) =~= base.subrange(
                0,
                text@.len() as int,
            ));
        }
        i = i + 1;
    }
    out
}

/// How cut spans relate to their originals: the line unchanged when it
/// fits the width, else a partition of the width keeping each span's start
/// and style, every kept span ending no later than its original.
pub open spec fn truncated_rel(
    spans: Seq<StyleSpan>,
    out: Seq<StyleSpan>,
    len: int,
    width: int,
    w: int,
) -> bool {
    &&& (len <= width ==> out == spans && w == len)
    &&& w == (if len <= width {
        len
    } else {
        width
    })
    &&& is_partition(out, w)
    &&& forall|p: int|
        0 <= p < out.len() ==> (#[trigger] out[p]).start == spans[p].start && out[p].style
            == spans[p].style && out[p].end <= spans[p].end
}

/// Cut a line's spans at the terminal width: a line that fits comes back
/// unchanged; a longer one keeps the spans left of the cut, the span
/// straddling it clipped, every kept span keeping its start and style.
#[verifier::rlimit(100)]
#[verifier::loop_isolation(false)]
pub fn truncate_spans(spans: &Vec<StyleSpan>, len: usize, width: usize) -> (r: (
    Vec<StyleSpan>,
    usize,
))
    requires
        is_partition(spans@, len as int),
    ensures
        truncated_rel(spans@, r.0@, len as int, width as int, r.1 as int),
        len <= width ==> r.0@ == spans@ && r.1 == len,
        r.1 == (if len <= width {
            len as int
        } else {
            width as int
        }),
        is_partition(r.0@, r.1 as int),
        forall|p: int|
            0 <= p < r.0@.len() ==> (#[trigger] r.0@[p]).start == spans@[p].start && r.0@[p].style
                == spans@[p].style && r.0@[p].end <= spans@[p].end,
{
    let mut out: Vec<StyleSpan> = Vec::new();
    let n = spans.len();
    let cut = if len <= width {
        len
    } else {
        width
    };
    let mut i: usize = 0;
    while i < n && spans[i].end <= cut
        invariant
            is_partition(spans@, len as int),
            cut <= len,
            i <= n,
            n == spans@.len(),
            out@ == spans@.take(i as int),
            forall|p: int| 0 <= p < i ==> (#[trigger] spans@[p]).end <= cut,
            i < n ==> spans@[i as int].start == (if i == 0 {
                0int
            } else {
                spans@[i - 1].end as int
            }),
        decreases n - i,
    {
        out.push(spans[i]);
        proof {
            assert(out@ =~= spans@.take(i + 1));
        }
        i = i + 1;
    }
    let ghost prefix = out@;
    let mut clipped: bool = false;
    if i < n && spans[i].start < cut {
        let sp = spans[i];
        out.push(StyleSpan { start: sp.start, end: cut, style: sp.style });
        clipped = true;
    }
    proof {
        if len <= width {
            if i < n {
                crate::style::lemma_partition_bounds(spans@, len as int, i as int);
                assert(false);
            }
            assert(prefix =~= spans@);
            assert(out@ =~= spans@);
        } else {
            if i < n {
                crate::style::lemma_partition_bounds(spans@, len as int, i as int);
            } else {
                if n > 0 {
                    assert(spans@[n - 1].end == len);
                    assert(false);
                } else {
                    assert(false);
                }
            }
            if !clipped {
                // Nothing straddles the cut: it falls exactly on a span
                // boundary (or at zero).
                if i == 0 {
                    assert(spans@[0].start == 0);
                    assert(cut == 0);
                } else {
                    assert(out@[i - 1].end == spans@[i - 1].end);
                    assert(spans@[i - 1].end == spans@[i as int].start);
                    assert(cut == spans@[i - 1].end);
                }
            }
        }
        assert forall|p: int| 0 <= p < out@.len() implies (#[trigger] out@[p]).start
            == spans@[p].start && out@[p].style == spans@[p].style && out@[p].end
            <= spans@[p].end by {
            if p < i {
                assert(out@[p] == spans@.take(i as int)[p]);
            }
        }
    }
    (out, cut)
}

/// The digits of a byte in lowercase hexadecimal.
pub open spec fn hex_u8(n: u8) -> Seq<u8> {
    seq![hex_digit((n / 16) as u8), hex_digit((n % 16) as u8)]
}

/// One lowercase hexadecimal digit.
pub open spec fn hex_digit(d: u8) -> u8 {
    if d < 10 {
        (48 + d) as u8
    } else {
        (87 + d) as u8
    }
}

/// The text of a color swatch: `#` and the six hex digits of the color.
pub open spec fn swatch_text(r: u8, g: u8, b: u8) -> Seq<u8> {
    seq![35u8] + hex_u8(r) + hex_u8(g) + hex_u8(b)
}

/// A painted color swatch: the color's hex code on a background of exactly
/// that color degraded to the terminal's capability, then a reset.
///
/// `degrades_to` pins the background uniquely
/// (`crate::color::lemma_degrades_to_unique`), so equal arguments always
/// yield equal output bytes.
pub fn painted_rgb_swatch(r: u8, g: u8, b: u8, cap: ColorCapability) -> (out: Vec<u8>)
    ensures
        exists|c: Color|
            (#[trigger] crate::color::degrades_to(Color::Rgb(r, g, b), cap, c)) && out@ == sgr_bg(c)
                + swatch_text(r, g, b) + sgr_reset(),
{
    let c = degrade(Color::Rgb(r, g, b), cap);
    let mut out: Vec<u8> = Vec::new();
    push_bg(&mut out, c);
    let ghost after_bg = out@;
    out.push(35);
    push_hex_u8(&mut out, r);
    push_hex_u8(&mut out, g);
    push_hex_u8(&mut out, b);
    out.push(27);
    out.push(91);
    out.push(48);
    out.push(109);
    proof {
        assert(out@ =~= sgr_bg(c) + swatch_text(r, g, b) + sgr_reset());
    }
    out
}

/// Append the two hex digits of `n`.
fn push_hex_u8(v: &mut Vec<u8>, n: u8)
    ensures
        final(v)@ == old(v)@ + hex_u8(n),
{
    let ghost base = v@;
    let hi = n / 16;
    let lo = n % 16;
    v.push(
        if hi < 10 {
            48 + hi
        } else {
            87 + hi
        },
    );
    v.push(
        if lo < 10 {
            48 + lo
        } else {
            87 + lo
        },
    );
    proof {
        assert(v@ =~= base + hex_u8(n));
    }
}

} // verus!
