//! Per-line painting: syntax spans, diff-role backgrounds and token-level
//! emphasis, composed into final styled spans.
//!
//! Syntax highlighting is delegated to the syntect engine behind a narrow
//! trusted boundary: a highlighter handle produces, per line, colored
//! pieces whose concatenation is the line. Everything downstream of that
//! call — normalizing the pieces into a span partition, computing the edit
//! emphasis, compositing — is verified.

use vstd::prelude::*;
use crate::color::{Color, ColorCapability};
use crate::edits::{
    changed_at, changed_byte_ranges, count_unchanged, edit_statuses, lcs_suf, line_tokens,
    token_texts, tokenize, unchanged_texts, use_whole_line, EditStatus,
};
use crate::parse::LineRole;
use crate::style::{compose_line, in_ranges, is_partition, ranges_wf, Style, StyleSpan};
use syntect::highlighting::{HighlightState, Theme};
use syntect::parsing::{ParseState, SyntaxSet};

verus! {

/// The resolved settings the pipeline works under: role backgrounds, the
/// terminal's color capability, the pairing threshold, the whole-line
/// fallback bound, and the terminal width.
#[derive(Clone, Copy, Debug)]
pub struct Config {
    pub minus_bg: Color,
    pub minus_emph_bg: Color,
    pub plus_bg: Color,
    pub plus_emph_bg: Color,
    pub capability: ColorCapability,
    pub threshold_num: u32,
    pub threshold_den: u32,
    pub max_changed_num: u32,
    pub max_changed_den: u32,
    pub terminal_width: usize,
    pub min_rule_width: usize,
    pub mark_truncation: bool,
}

impl Default for Config {
    /// The stock configuration: light-theme backgrounds, true color, a 0.3
    /// pairing threshold, a 0.7 whole-line fallback bound, an 80-column
    /// terminal, truncation marked.
    fn default() -> (r: Config)
        ensures
            r.mark_truncation == true,
            r.minus_bg == Color::Rgb(255, 208, 208),
            r.minus_emph_bg == Color::Rgb(255, 176, 176),
            r.plus_bg == Color::Rgb(208, 255, 208),
            r.plus_emph_bg == Color::Rgb(160, 239, 160),
            r.capability == ColorCapability::TrueColor,
            r.threshold_num == 3 && r.threshold_den == 10,
            r.max_changed_num == 7 && r.max_changed_den == 10,
            r.terminal_width == 80,
            r.min_rule_width == 32,
    {
        Config {
            minus_bg: Color::Rgb(255, 208, 208),
            minus_emph_bg: Color::Rgb(255, 176, 176),
            plus_bg: Color::Rgb(208, 255, 208),
            plus_emph_bg: Color::Rgb(160, 239, 160),
            capability: ColorCapability::TrueColor,
            threshold_num: 3,
            threshold_den: 10,
            max_changed_num: 7,
            max_changed_den: 10,
            terminal_width: 80,
            min_rule_width: 32,
            mark_truncation: true,
        }
    }
}

/// The plain and emphasis backgrounds a diff role paints under: removed
/// lines the minus pair, added lines the plus pair, all other roles none.
pub open spec fn role_bgs(cfg: Config, role: LineRole) -> (Color, Color) {
    match role {
        LineRole::Removed => (cfg.minus_bg, cfg.minus_emph_bg),
        LineRole::Added => (cfg.plus_bg, cfg.plus_emph_bg),
        _ => (Color::Unset, Color::Unset),
    }
}

/// The backgrounds for a role, as `role_bgs` gives them.
pub fn role_backgrounds(cfg: &Config, role: LineRole) -> (r: (Color, Color))
    ensures
        r == role_bgs(*cfg, role),
{
    match role {
        LineRole::Removed => (cfg.minus_bg, cfg.minus_emph_bg),
        LineRole::Added => (cfg.plus_bg, cfg.plus_emph_bg),
        _ => (Color::Unset, Color::Unset),
    }
}

#[verifier::external_type_specification]
#[verifier::external_body]
pub struct ExSyntaxSet(SyntaxSet);

#[verifier::external_type_specification]
#[verifier::external_body]
pub struct ExTheme(Theme);

#[verifier::external_type_specification]
#[verifier::external_body]
pub struct ExParseState(ParseState);

#[verifier::external_type_specification]
#[verifier::external_body]
pub struct ExHighlightState(HighlightState);

/// The library's handle on the syntax-highlighting engine: the grammar
/// set, the theme, and the running parse and highlight states, always the
/// ones built together by `LineHighlighter::new` from the engine's
/// bundled, fully-linked defaults. The fields are private, so verified
/// code can never hand the engine a parse state from one grammar set
/// paired with another set — the pairing under which the engine's internal
/// context lookups are total.
pub struct LineHighlighter {
    syntax_set: SyntaxSet,
    theme: Theme,
    parse_state: ParseState,
    highlight_state: HighlightState,
}

/// The total byte length of a list of colored pieces.
pub open spec fn sum_lens(v: Seq<(u8, u8, u8, usize)>) -> int
    decreases v.len(),
{
    if v.len() == 0 {
        0
    } else {
        sum_lens(v.drop_last()) + v[v.len() - 1].3
    }
}

/// Relies on syntect's `SyntaxSet::load_defaults_newlines`: the bundled,
/// fully-linked grammar set, whose context references all resolve and
/// whose patterns ship pre-tested with the engine.
#[verifier::external_body]
fn load_default_syntaxes() -> SyntaxSet {
    SyntaxSet::load_defaults_newlines()
}

/// Relies on syntect's `ThemeSet::load_defaults`: the named bundled theme,
/// or the default theme when no bundled theme carries the name.
#[verifier::external_body]
fn lookup_default_theme(name: &[u8]) -> Theme {
    let themes = syntect::highlighting::ThemeSet::load_defaults();
    match std::str::from_utf8(name).ok().and_then(|n| themes.themes.get(n)) {
        Some(t) => t.clone(),
        None => Theme::default(),
    }
}

/// Relies on syntect's `SyntaxSet::find_syntax_by_extension`,
/// `find_syntax_plain_text` and `ParseState::new`: the initial parse state
/// for the grammar of the given file extension, falling back to the
/// plain-text grammar, which the defaults always contain. The state refers
/// only to contexts of `ss`.
#[verifier::external_body]
fn parse_state_for(ss: &SyntaxSet, extension: &[u8]) -> ParseState {
    let syntax = std::str::from_utf8(extension)
        .ok()
        .and_then(|e| ss.find_syntax_by_extension(e))
        .unwrap_or_else(|| ss.find_syntax_plain_text());
    ParseState::new(syntax)
}

/// Relies on syntect's `HighlightState::new` (with `Highlighter::new` and
/// an empty `ScopeStack` as its arguments): the initial highlight state
/// for a theme.
#[verifier::external_body]
fn initial_highlight_state(theme: &Theme) -> HighlightState {
    let highlighter = syntect::highlighting::Highlighter::new(theme);
    HighlightState::new(&highlighter, syntect::parsing::ScopeStack::new())
}

/// Relies on syntect's `HighlightLines::from_state`, `highlight_line` and
/// `state` for the colored pieces of a line, each reduced to its
/// foreground color and byte length; the advanced states are written back.
/// Nothing is assumed of the result: the caller checks in verified code
/// that the piece lengths cover the line, and falls back otherwise.
/// `LineHighlighter` keeps the states paired with the set and theme they
/// were built from, so the engine's context lookups are total here; the
/// residual risk is the engine's lazy regex compilation, which panics on a
/// pattern the active regex engine rejects — the bundled default grammars
/// this library loads are shipped and tested against it.
#[verifier::external_body]
fn highlight_line_raw(
    ps: &mut ParseState,
    hs: &mut HighlightState,
    ss: &SyntaxSet,
    theme: &Theme,
    line: &[u8],
) -> (r: Option<Vec<(u8, u8, u8, usize)>>)
{
    let text = std::str::from_utf8(line).ok()?;
    let mut hl = syntect::easy::HighlightLines::from_state(theme, hs.clone(), ps.clone());
    match hl.highlight_line(text, ss) {
        Ok(regions) => {
            let pieces = regions.iter().map(
                |p: &(syntect::highlighting::Style, &str)|
                    (p.0.foreground.r, p.0.foreground.g, p.0.foreground.b, p.1.len()),
            ).collect();
            let (nhs, nps) = hl.state();
            *hs = nhs;
            *ps = nps;
            Some(pieces)
        },
        Err(_) => None,
    }
}

impl LineHighlighter {
    /// Build the highlighter for one file from plain values: the file's
    /// extension and a theme name, resolved against the engine's bundled
    /// defaults.
    pub fn new(extension: &[u8], theme_name: &[u8]) -> LineHighlighter {
        let syntax_set = load_default_syntaxes();
        let theme = lookup_default_theme(theme_name);
        let parse_state = parse_state_for(&syntax_set, extension);
        let highlight_state = initial_highlight_state(&theme);
        LineHighlighter { syntax_set, theme, parse_state, highlight_state }
    }
}

/// Every span carries no background and no emphasis.
pub open spec fn all_plain(s: Seq<StyleSpan>) -> bool {
    forall|p: int|
        0 <= p < s.len() ==> (#[trigger] s[p]).style.bg == Color::Unset && !s[p].style.emphasis
}

/// One unstyled span covering the whole line (none at all when it is
/// empty).
pub fn unstyled_spans(len: usize) -> (out: Vec<StyleSpan>)
    ensures
        is_partition(out@, len as int),
        all_plain(out@),
        forall|p: int| 0 <= p < out@.len() ==> (#[trigger] out@[p]).style.fg == Color::Unset,
{
    let mut out: Vec<StyleSpan> = Vec::new();
    if len > 0 {
        out.push(
            StyleSpan {
                start: 0,
                end: len,
                style: Style { fg: Color::Unset, bg: Color::Unset, emphasis: false },
            },
        );
    }
    out
}

/// The span list the highlighter's pieces denote: one span per non-empty
/// piece, carrying that piece's foreground color over that piece's byte
/// range, with boundaries at the running length sums.
pub open spec fn pieces_spans(pieces: Seq<(u8, u8, u8, usize)>) -> Seq<StyleSpan>
    decreases pieces.len(),
{
    if pieces.len() == 0 {
        Seq::empty()
    } else {
        let rest = pieces_spans(pieces.drop_last());
        let pc = pieces[pieces.len() - 1];
        if pc.3 == 0 {
            rest
        } else {
            rest.push(
                StyleSpan {
                    start: sum_lens(pieces.drop_last()) as usize,
                    end: (sum_lens(pieces.drop_last()) + pc.3) as usize,
                    style: Style {
                        fg: Color::Rgb(pc.0, pc.1, pc.2),
                        bg: Color::Unset,
                        emphasis: false,
                    },
                },
            )
        }
    }
}

/// Turn the highlighter's colored pieces into a span partition of the
/// line: exactly the spans the pieces denote — each non-empty piece's
/// color over its own byte range — with no backgrounds and no emphasis.
#[verifier::rlimit(100)]
#[verifier::loop_isolation(false)]
pub fn spans_from_pieces(pieces: &Vec<(u8, u8, u8, usize)>, len: usize) -> (out: Vec<StyleSpan>)
    requires
        sum_lens(pieces@) == len,
    ensures
        out@ == pieces_spans(pieces@),
        is_partition(out@, len as int),
        all_plain(out@),
{
    let mut out: Vec<StyleSpan> = Vec::new();
    let mut pos: usize = 0;
    let n = pieces.len();
    let mut i: usize = 0;
    proof {
        assert(pieces@.take(0) =~= Seq::empty());
        lemma_sum_lens_bounds(pieces@, 0);
    }
    while i < n
        invariant
            n == pieces@.len(),
            i <= n,
            sum_lens(pieces@) == len,
            pos == sum_lens(pieces@.take(i as int)),
            pos <= len,
            out@ == pieces_spans(pieces@.take(i as int)),
            is_partition(out@, pos as int),
            all_plain(out@),
            out@.len() > 0 ==> out@[out@.len() - 1].end == pos,
        decreases n - i,
    {
        let (r, g, b, l) = pieces[i];
        proof {
            assert(pieces@.take(i + 1).drop_last() =~= pieces@.take(i as int));
            assert(pieces@.take(i + 1)[i as int] == pieces@[i as int]);
            assert(sum_lens(pieces@.take(i + 1)) == pos + l);
            lemma_sum_lens_bounds(pieces@, i + 1);
        }
        if l > 0 {
            let ghost old_out = out@;
            out.push(
                StyleSpan {
                    start: pos,
                    end: pos + l,
                    style: Style { fg: Color::Rgb(r, g, b), bg: Color::Unset, emphasis: false },
                },
            );
            proof {
                assert forall|p: int| 0 <= p < out@.len() implies (#[trigger] out@[p]).style.bg
                    == Color::Unset && !out@[p].style.emphasis by {
                    if p < out@.len() - 1 {
                        assert(out@[p] == old_out[p]);
                    }
                }
            }
            pos = pos + l;
        }
        i = i + 1;
    }
    proof {
        assert(pieces@.take(n as int) =~= pieces@);
    }
    out
}

/// Whether the pieces' byte lengths sum to exactly `len`.
fn pieces_cover(pieces: &Vec<(u8, u8, u8, usize)>, len: usize) -> (r: bool)
    ensures
        r == (sum_lens(pieces@) == len),
{
    let mut acc: usize = 0;
    let n = pieces.len();
    let mut i: usize = 0;
    proof {
        assert(pieces@.take(0) =~= Seq::<(u8, u8, u8, usize)>::empty());
    }
    while i < n
        invariant
            n == pieces@.len(),
            i <= n,
            acc <= len,
            acc == sum_lens(pieces@.take(i as int)),
        decreases n - i,
    {
        let l = pieces[i].3;
        proof {
            assert(pieces@.take(i + 1).drop_last() =~= pieces@.take(i as int));
            assert(pieces@.take(i + 1)[i as int] == pieces@[i as int]);
        }
        if l > len - acc {
            proof {
                lemma_sum_lens_bounds(pieces@, i + 1);
            }
            return false;
        }
        acc = acc + l;
        i = i + 1;
    }
    proof {
        assert(pieces@.take(n as int) =~= pieces@);
    }
    acc == len
}

/// A prefix of the pieces accounts for no more than the total length.
proof fn lemma_sum_lens_bounds(v: Seq<(u8, u8, u8, usize)>, k: int)
    requires
        0 <= k <= v.len(),
    ensures
        sum_lens(v.take(k)) <= sum_lens(v),
        sum_lens(v.take(k)) >= 0,
    decreases v.len() - k, v.len(),
{
    if k == v.len() {
        assert(v.take(k) =~= v);
        if v.len() > 0 {
            lemma_sum_lens_bounds(v.drop_last(), v.len() - 1);
            assert(v.drop_last().take(v.len() - 1) =~= v.drop_last());
            assert(sum_lens(v) == sum_lens(v.drop_last()) + v[v.len() - 1].3);
        }
    } else {
        lemma_sum_lens_bounds(v, k + 1);
        assert(v.take(k + 1).drop_last() =~= v.take(k));
        assert(sum_lens(v.take(k + 1)) == sum_lens(v.take(k)) + v[k].3);
        lemma_sum_lens_nonneg(v.take(k));
    }
}

/// Piece lengths sum to a non-negative total.
proof fn lemma_sum_lens_nonneg(v: Seq<(u8, u8, u8, usize)>)
    ensures
        sum_lens(v) >= 0,
    decreases v.len(),
{
    if v.len() > 0 {
        lemma_sum_lens_nonneg(v.drop_last());
    }
}

/// Highlight one line: the engine's pieces as a span partition, or a
/// single unstyled span when the engine fails on the line.
pub fn syntax_spans(h: &mut LineHighlighter, line: &[u8]) -> (out: Vec<StyleSpan>)
    ensures
        is_partition(out@, line@.len() as int),
        all_plain(out@),
{
    let len = line.len();
    match highlight_line_raw(
        &mut h.parse_state,
        &mut h.highlight_state,
        &h.syntax_set,
        &h.theme,
        line,
    ) {
        Some(pieces) => {
            if pieces_cover(&pieces, len) {
                spans_from_pieces(&pieces, len)
            } else {
                unstyled_spans(len)
            }
        },
        None => unstyled_spans(len),
    }
}

/// How many tokens are classified `Changed`.
pub fn count_changed(st: &Vec<EditStatus>) -> (r: usize)
    ensures
        r == st@.len() - count_unchanged(st@),
        r <= st@.len(),
{
    let mut cnt: usize = 0;
    let n = st.len();
    let mut i: usize = 0;
    proof {
        assert(st@.take(0) =~= Seq::empty());
    }
    while i < n
        invariant
            n == st@.len(),
            i <= n,
            cnt == i - count_unchanged(st@.take(i as int)),
            count_unchanged(st@.take(i as int)) >= 0,
        decreases n - i,
    {
        proof {
            assert(st@.take(i + 1).drop_last() =~= st@.take(i as int));
            assert(st@.take(i + 1)[i as int] == st@[i as int]);
        }
        if st[i] == EditStatus::Changed {
            cnt = cnt + 1;
        }
        i = i + 1;
    }
    proof {
        assert(st@.take(n as int) =~= st@);
    }
    cnt
}

/// A valid token-level classification of the two lines: one status per
/// token of each side, the unchanged tokens reading off as the same
/// sequence of texts on both sides, and their number the
/// longest-common-subsequence length of the two token-text sequences (the
/// minimal edit script).
pub open spec fn edit_classification(
    a: Seq<u8>,
    b: Seq<u8>,
    sa: Seq<EditStatus>,
    sb: Seq<EditStatus>,
) -> bool {
    &&& sa.len() == line_tokens(a).len()
    &&& sb.len() == line_tokens(b).len()
    &&& unchanged_texts(sa, token_texts(a, line_tokens(a))) == unchanged_texts(
        sb,
        token_texts(b, line_tokens(b)),
    )
    &&& count_unchanged(sa) == lcs_suf(
        token_texts(a, line_tokens(a)),
        token_texts(b, line_tokens(b)),
        0,
        0,
    )
    &&& count_unchanged(sb) == count_unchanged(sa)
}

/// What the emphasis ranges of a paired line's sides are, under a given
/// classification: exactly the bytes of the changed tokens of each side —
/// or no ranges at all when the changed fraction of all tokens exceeds
/// `max_num / max_den` (the whole-line fallback).
pub open spec fn emphasis_of(
    a: Seq<u8>,
    b: Seq<u8>,
    sa: Seq<EditStatus>,
    sb: Seq<EditStatus>,
    max_num: int,
    max_den: int,
    ra: Seq<(usize, usize)>,
    rb: Seq<(usize, usize)>,
) -> bool {
    let changed = (sa.len() - count_unchanged(sa)) + (sb.len() - count_unchanged(sb));
    if changed * max_den > (sa.len() + sb.len()) * max_num {
        ra.len() == 0 && rb.len() == 0
    } else {
        &&& (forall|i: int|
            0 <= i < a.len() ==> ((#[trigger] in_ranges(ra, i)) <==> changed_at(
                sa,
                line_tokens(a),
                i,
            )))
        &&& (forall|i: int|
            0 <= i < b.len() ==> ((#[trigger] in_ranges(rb, i)) <==> changed_at(
                sb,
                line_tokens(b),
                i,
            )))
    }
}

/// A syntax span list: a partition of the line carrying only foregrounds.
pub open spec fn syntax_plain(s: Seq<StyleSpan>, len: int) -> bool {
    is_partition(s, len) && all_plain(s)
}

/// The emphasis ranges of a paired line's two sides, pinned up to the
/// classification: for some minimal token classification of the two lines,
/// the ranges are exactly its changed tokens' bytes (or empty under the
/// whole-line fallback).
#[verifier::opaque]
pub open spec fn pair_emphasis(
    a: Seq<u8>,
    b: Seq<u8>,
    max_num: int,
    max_den: int,
    ra: Seq<(usize, usize)>,
    rb: Seq<(usize, usize)>,
) -> bool {
    exists|sa: Seq<EditStatus>, sb: Seq<EditStatus>|
        (#[trigger] edit_classification(a, b, sa, sb)) && emphasis_of(
            a,
            b,
            sa,
            sb,
            max_num,
            max_den,
            ra,
            rb,
        )
}

/// The emphasis byte ranges of a paired line's two sides.
///
/// Tokenizes both sides, classifies every token minimally, and returns the
/// byte ranges of the changed tokens of each side — unless the fraction of
/// changed tokens over both sides exceeds the configured bound, in which
/// case both sides fall back to whole-line painting and no range is
/// emphasized. The result is pinned up to the classification: there is a
/// minimal classification of the two lines whose changed-token bytes are
/// exactly the returned ranges.
#[verifier::rlimit(100)]
pub fn emphasis_ranges(a: &[u8], b: &[u8], max_num: u32, max_den: u32) -> (r: (
    Vec<(usize, usize)>,
    Vec<(usize, usize)>,
))
    requires
        a@.len() < usize::MAX,
        b@.len() < usize::MAX,
    ensures
        ranges_wf(r.0@, a@.len() as int),
        ranges_wf(r.1@, b@.len() as int),
        pair_emphasis(a@, b@, max_num as int, max_den as int, r.0@, r.1@),
{
    let ta = tokenize(a);
    let tb = tokenize(b);
    proof {
        crate::edits::lemma_tokenize_is_line_tokens(ta@, a@);
        crate::edits::lemma_tokenize_is_line_tokens(tb@, b@);
        crate::edits::lemma_token_count_le(ta@, a@, a@.len() as int);
        crate::edits::lemma_token_count_le(tb@, b@, b@.len() as int);
    }
    let (sa, sb) = edit_statuses(a, &ta, b, &tb);
    let ca = count_changed(&sa);
    let cb = count_changed(&sb);
    proof {
        assert(ca + cb <= ta@.len() + tb@.len());
        assert(edit_classification(a@, b@, sa@, sb@));
    }
    if use_whole_line(ca, cb, ta.len(), tb.len(), max_num, max_den) {
        let ra: Vec<(usize, usize)> = Vec::new();
        let rb: Vec<(usize, usize)> = Vec::new();
        proof {
            reveal(pair_emphasis);
            assert(emphasis_of(a@, b@, sa@, sb@, max_num as int, max_den as int, ra@, rb@));
        }
        (ra, rb)
    } else {
        let ra = changed_byte_ranges(&sa, &ta, a.len());
        let rb = changed_byte_ranges(&sb, &tb, b.len());
        proof {
            reveal(pair_emphasis);
            assert(emphasis_of(a@, b@, sa@, sb@, max_num as int, max_den as int, ra@, rb@));
        }
        (ra, rb)
    }
}

/// Compose the final spans of one line: syntax foregrounds, the role's
/// background, and the emphasis background on the given byte ranges.
pub fn paint_line(
    syntax: &Vec<StyleSpan>,
    len: usize,
    cfg: &Config,
    role: LineRole,
    emph: &Vec<(usize, usize)>,
) -> (out: Vec<StyleSpan>)
    requires
        is_partition(syntax@, len as int),
        ranges_wf(emph@, len as int),
    ensures
        is_partition(out@, len as int),
        crate::style::is_normalized(out@),
        forall|i: int|
            0 <= i < len ==> crate::style::style_at(out@, i) == crate::style::composite(
                crate::style::style_at(syntax@, i),
                in_ranges(emph@, i),
                role_bgs(*cfg, role).0,
                role_bgs(*cfg, role).1,
            ),
        crate::style::composed_rel(
            syntax@,
            out@,
            len as int,
            role_bgs(*cfg, role).0,
            role_bgs(*cfg, role).1,
            emph@,
        ),
{
    let (plain_bg, emph_bg) = role_backgrounds(cfg, role);
    compose_line(syntax, len, plain_bg, emph_bg, emph)
}

} // verus!
