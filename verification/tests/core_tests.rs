use delta::align::{align_lines, pair_accepts, LinePair};
use delta::color::{degrade, Color, ColorCapability};
use delta::draw::{horizontal_rule, painted_rgb_swatch, render_line, truncate_spans, underline_header};
use delta::edit_spans::spans_of_statuses;
use delta::edits::{edit_statuses, tokenize, use_whole_line, EditStatus, TokenRange};
use delta::paint::count_changed;
use delta::parse::{parse_hunk_header, step, Classified, LineRole, ParserState};
use delta::style::{compose_line, Style, StyleSpan};
use delta::themes::is_light_theme;

fn plain(fg: Color) -> Style {
    Style { fg, bg: Color::Unset, emphasis: false }
}

#[test]
fn tokenize_splits_runs() {
    let toks = tokenize(b"a  bc");
    assert_eq!(
        toks,
        vec![
            TokenRange { start: 0, end: 1 },
            TokenRange { start: 1, end: 3 },
            TokenRange { start: 3, end: 5 },
        ]
    );
}

#[test]
fn tokenize_empty_line() {
    assert_eq!(tokenize(b""), vec![]);
}

#[test]
fn edit_statuses_mark_single_change() {
    let a = b"a b c";
    let b = b"a x c";
    let ta = tokenize(a);
    let tb = tokenize(b);
    let (sa, sb) = edit_statuses(a, &ta, b, &tb);
    assert_eq!(sa.len(), 5);
    assert_eq!(sb.len(), 5);
    assert_eq!(count_changed(&sa), 1);
    assert_eq!(count_changed(&sb), 1);
    assert_eq!(sa[2], EditStatus::Changed);
    assert_eq!(sb[2], EditStatus::Changed);
}

#[test]
fn edit_spans_partition_token_range() {
    // The partition invariant: gap-free, non-overlapping, full coverage.
    let st = vec![
        EditStatus::Unchanged,
        EditStatus::Unchanged,
        EditStatus::Changed,
        EditStatus::Unchanged,
    ];
    let spans = spans_of_statuses(&st);
    assert_eq!(spans.len(), 3);
    assert_eq!(spans[0].start, 0);
    for w in spans.windows(2) {
        assert_eq!(w[0].end, w[1].start);
        assert_ne!(w[0].status, w[1].status);
    }
    assert_eq!(spans[spans.len() - 1].end, st.len());
}

#[test]
fn alignment_is_monotonic() {
    // The order invariant: pairs never invert the order of either side.
    let removed: Vec<Vec<u8>> = vec![b"alpha one".to_vec(), b"beta two".to_vec()];
    let added: Vec<Vec<u8>> = vec![b"alpha 1".to_vec(), b"beta 2".to_vec()];
    let pairs = align_lines(&removed, &added, 3, 10);
    let mut last: Option<(usize, usize)> = None;
    for p in &pairs {
        if let LinePair::Paired { removed: r, added: a } = p {
            if let Some((lr, la)) = last {
                assert!(lr < *r && la < *a);
            }
            last = Some((*r, *a));
        }
    }
    assert_eq!(
        pairs,
        vec![
            LinePair::Paired { removed: 0, added: 0 },
            LinePair::Paired { removed: 1, added: 1 },
        ]
    );
}

#[test]
fn threshold_boundary_exact_and_below() {
    // Similarity of "a b" vs "a c" is 2 * 2 / 6 = 2/3: accepted at exactly
    // 2/3, rejected strictly below (threshold slightly above 2/3).
    assert!(pair_accepts(b"a b", b"a c", 2, 3));
    assert!(!pair_accepts(b"a b", b"a c", 6667, 10000));
}

#[test]
fn one_one_block_pairs_exactly_at_threshold() {
    // Similarity of "a b" vs "a c" is 2/3: at threshold 2/3 the single
    // removed/added combination is paired; just above it, both lines stay
    // unpaired.
    let removed: Vec<Vec<u8>> = vec![b"a b".to_vec()];
    let added: Vec<Vec<u8>> = vec![b"a c".to_vec()];
    assert_eq!(
        align_lines(&removed, &added, 2, 3),
        vec![LinePair::Paired { removed: 0, added: 0 }]
    );
    assert_eq!(
        align_lines(&removed, &added, 6667, 10000),
        vec![LinePair::RemovedOnly { removed: 0 }, LinePair::AddedOnly { added: 0 }]
    );
}

#[test]
fn swatch_background_is_degraded_input_color() {
    // Under a 256-color terminal the swatch's background is the input
    // color degraded to the nearest palette entry: black maps to index 16.
    let out = painted_rgb_swatch(0, 0, 0, ColorCapability::Ansi256);
    assert_eq!(out, b"\x1b[48;5;16m#000000\x1b[0m".to_vec());
    // Determinism: equal arguments give equal bytes.
    assert_eq!(out, painted_rgb_swatch(0, 0, 0, ColorCapability::Ansi256));
}

#[test]
fn alignment_takes_improving_pairs() {
    // The chosen alignment reaches the maximal total similarity: the added
    // line pairs with its near-identical partner, not with nothing.
    let removed: Vec<Vec<u8>> = vec![b"zzz qqq".to_vec(), b"common words here".to_vec()];
    let added: Vec<Vec<u8>> = vec![b"common words here!".to_vec()];
    let pairs = align_lines(&removed, &added, 3, 10);
    assert_eq!(
        pairs,
        vec![
            LinePair::RemovedOnly { removed: 0 },
            LinePair::Paired { removed: 1, added: 0 },
        ]
    );
}

#[test]
fn whole_line_guard_formula() {
    // (3 + 4) * 10 > (5 + 5) * 7 is false: 70 > 70 fails.
    assert!(!use_whole_line(3, 4, 5, 5, 7, 10));
    assert!(use_whole_line(4, 4, 5, 5, 7, 10));
}

#[test]
fn hunk_header_parses_exact_values() {
    assert_eq!(parse_hunk_header(b"@@ -1,5 +1,5 @@"), Some((1, 5, 1, 5)));
    assert_eq!(parse_hunk_header(b"@@ -10,2 +30,4 @@ fn main()"), Some((10, 2, 30, 4)));
}

#[test]
fn hunk_header_rejects_malformed() {
    assert_eq!(parse_hunk_header(b"@@ -a,b +c,d @@"), None);
    assert_eq!(parse_hunk_header(b"@@ -1,5 +1,5"), None);
    assert_eq!(parse_hunk_header(b"not a header"), None);
    // A count too large for u64 is a recoverable anomaly, not a value.
    assert_eq!(parse_hunk_header(b"@@ -99999999999999999999,1 +1,1 @@"), None);
}

#[test]
fn parser_classifies_hunk_body() {
    let st = ParserState { in_hunk: false, old_no: 0, new_no: 0 };
    let (st, ev) = step(st, b"@@ -3,2 +7,2 @@");
    assert_eq!(ev.role, LineRole::HunkHeader);
    assert!(st.in_hunk);
    assert_eq!((st.old_no, st.new_no), (3, 7));
    let (st, ev) = step(st, b"-removed line");
    assert_eq!(
        ev,
        Classified { role: LineRole::Removed, old_no: Some(3), new_no: None }
    );
    let (st, ev) = step(st, b"+added line");
    assert_eq!(
        ev,
        Classified { role: LineRole::Added, old_no: None, new_no: Some(7) }
    );
    let (st, ev) = step(st, b" context");
    assert_eq!(
        ev,
        Classified { role: LineRole::Context, old_no: Some(4), new_no: Some(8) }
    );
    assert_eq!((st.old_no, st.new_no), (5, 9));
}

#[test]
fn degrade_passes_truecolor_through() {
    let c = Color::Rgb(12, 34, 56);
    assert_eq!(degrade(c, ColorCapability::TrueColor), c);
    assert_eq!(degrade(Color::Unset, ColorCapability::Ansi256), Color::Unset);
}

#[test]
fn degrade_finds_nearest_palette_entry() {
    assert_eq!(degrade(Color::Rgb(0, 0, 0), ColorCapability::Ansi256), Color::Indexed(16));
    assert_eq!(degrade(Color::Rgb(255, 255, 255), ColorCapability::Ansi256), Color::Indexed(231));
    assert_eq!(degrade(Color::Rgb(8, 8, 8), ColorCapability::Ansi256), Color::Indexed(232));
    assert_eq!(degrade(Color::Rgb(255, 0, 0), ColorCapability::Ansi16), Color::Indexed(9));
}

#[test]
fn compose_context_line_is_noop() {
    // Round-trip rendering: zero diff role, zero edit classification.
    let spans = vec![
        StyleSpan { start: 0, end: 2, style: plain(Color::Rgb(1, 2, 3)) },
        StyleSpan { start: 2, end: 5, style: plain(Color::Rgb(4, 5, 6)) },
    ];
    let emph: Vec<(usize, usize)> = vec![];
    let out = compose_line(&spans, 5, Color::Unset, Color::Rgb(9, 9, 9), &emph);
    assert_eq!(out, spans);
}

#[test]
fn compose_twice_is_identical() {
    // Idempotent re-render: composing final spans again changes nothing.
    let spans = vec![
        StyleSpan { start: 0, end: 2, style: plain(Color::Rgb(1, 2, 3)) },
        StyleSpan { start: 2, end: 5, style: plain(Color::Rgb(4, 5, 6)) },
    ];
    let emph: Vec<(usize, usize)> = vec![(1, 3)];
    let mbg = Color::Rgb(255, 208, 208);
    let ebg = Color::Rgb(255, 176, 176);
    let once = compose_line(&spans, 5, mbg, ebg, &emph);
    let twice = compose_line(&once, 5, mbg, ebg, &emph);
    assert_eq!(once, twice);
}

#[test]
fn render_line_escapes_exactly() {
    let spans = vec![StyleSpan { start: 0, end: 2, style: plain(Color::Rgb(1, 2, 3)) }];
    let out = render_line(b"hi", &spans);
    assert_eq!(out, b"\x1b[38;2;1;2;3mhi\x1b[0m".to_vec());
    let unstyled = vec![StyleSpan { start: 0, end: 2, style: plain(Color::Unset) }];
    assert_eq!(render_line(b"hi", &unstyled), b"hi".to_vec());
}

#[test]
fn swatch_paints_own_color() {
    let out = painted_rgb_swatch(255, 0, 0, ColorCapability::TrueColor);
    assert_eq!(out, b"\x1b[48;2;255;0;0m#ff0000\x1b[0m".to_vec());
}

#[test]
fn rules_and_boxes() {
    assert_eq!(horizontal_rule(5), b"-----".to_vec());
    assert_eq!(underline_header(b"foo", 5), b"foo\n-----".to_vec());
    assert_eq!(underline_header(b"longheader", 5), b"longheader\n----------".to_vec());
}

#[test]
fn truncation_cuts_at_width() {
    let spans = vec![StyleSpan { start: 0, end: 10, style: plain(Color::Unset) }];
    let (kept, w) = truncate_spans(&spans, 10, 4);
    assert_eq!(w, 4);
    assert_eq!(kept, vec![StyleSpan { start: 0, end: 4, style: plain(Color::Unset) }]);
    let (kept, w) = truncate_spans(&spans, 10, 80);
    assert_eq!(w, 10);
    assert_eq!(kept, spans);
}

#[test]
fn light_theme_names() {
    assert!(is_light_theme(b"GitHub"));
    assert!(is_light_theme(b"Solarized (light)"));
    assert!(!is_light_theme(b"Nord"));
    assert!(!is_light_theme(b"Monokai Extended"));
}
