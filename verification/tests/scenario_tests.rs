use delta::align::{align_lines, LinePair};
use delta::color::Color;
use delta::paint::{emphasis_ranges, paint_line, unstyled_spans, Config};
use delta::parse::{step, LineRole, ParserState};
use delta::pipeline::{after_write, NextAction, WriteOutcome};
use delta::style::{Style, StyleSpan};

#[test]
fn signature_change_pairs_and_emphasizes_token() {
    // A hunk replacing the square function's signature with the cube one:
    // the two signature lines pair, and only the changed token region is
    // emphasized.
    let removed: Vec<Vec<u8>> = vec![b"fn print_square(num: f64) {".to_vec()];
    let added: Vec<Vec<u8>> = vec![b"fn print_cube(num: f64) {".to_vec()];
    let cfg = Config::default();
    let pairs = align_lines(&removed, &added, cfg.threshold_num, cfg.threshold_den);
    assert_eq!(pairs, vec![LinePair::Paired { removed: 0, added: 0 }]);

    let (ra, rb) = emphasis_ranges(&removed[0], &added[0], cfg.max_changed_num, cfg.max_changed_den);
    // `print_square(num:` vs `print_cube(num:` is the sole changed token.
    assert_eq!(ra, vec![(3, 20)]);
    assert_eq!(rb, vec![(3, 18)]);

    let syn = unstyled_spans(removed[0].len());
    let out = paint_line(&syn, removed[0].len(), &cfg, LineRole::Removed, &ra);
    assert_eq!(
        out,
        vec![
            StyleSpan {
                start: 0,
                end: 3,
                style: Style { fg: Color::Unset, bg: cfg.minus_bg, emphasis: false },
            },
            StyleSpan {
                start: 3,
                end: 20,
                style: Style { fg: Color::Unset, bg: cfg.minus_emph_bg, emphasis: true },
            },
            StyleSpan {
                start: 20,
                end: removed[0].len(),
                style: Style { fg: Color::Unset, bg: cfg.minus_bg, emphasis: false },
            },
        ]
    );
}

#[test]
fn pure_deletions_stay_unpaired() {
    // A block of three removed lines and no added ones: three RemovedOnly
    // pairs, plain minus background across each full line.
    let removed: Vec<Vec<u8>> = vec![b"one".to_vec(), b"two".to_vec(), b"three".to_vec()];
    let added: Vec<Vec<u8>> = vec![];
    let cfg = Config::default();
    let pairs = align_lines(&removed, &added, cfg.threshold_num, cfg.threshold_den);
    assert_eq!(
        pairs,
        vec![
            LinePair::RemovedOnly { removed: 0 },
            LinePair::RemovedOnly { removed: 1 },
            LinePair::RemovedOnly { removed: 2 },
        ]
    );
    let no_emph: Vec<(usize, usize)> = vec![];
    for line in &removed {
        let syn = unstyled_spans(line.len());
        let out = paint_line(&syn, line.len(), &cfg, LineRole::Removed, &no_emph);
        assert_eq!(
            out,
            vec![StyleSpan {
                start: 0,
                end: line.len(),
                style: Style { fg: Color::Unset, bg: cfg.minus_bg, emphasis: false },
            }]
        );
    }
}

#[test]
fn malformed_hunk_header_passes_through() {
    // An unparsable hunk header is an opaque header event; no hunk body is
    // entered, and later lines parse normally.
    let st = ParserState { in_hunk: false, old_no: 0, new_no: 0 };
    let (st, ev) = step(st, b"@@ -x,y +1,2 @@");
    assert_eq!(ev.role, LineRole::FileHeader);
    assert!(!st.in_hunk);
    // Processing continues: a well-formed header still opens a hunk.
    let (st, ev) = step(st, b"@@ -1,1 +1,1 @@");
    assert_eq!(ev.role, LineRole::HunkHeader);
    assert!(st.in_hunk);
    let (_, ev) = step(st, b"-gone");
    assert_eq!(ev.role, LineRole::Removed);
}

#[test]
fn broken_pipe_stops_cleanly() {
    // The sink reports a broken pipe on the second write: no further line
    // is written and the run ends as a success.
    let lines: Vec<&[u8]> = vec![b"first", b"second", b"third"];
    let outcomes = [WriteOutcome::Done, WriteOutcome::PipeClosed, WriteOutcome::Done];
    let mut written = 0;
    let mut status: Option<NextAction> = None;
    for (i, _line) in lines.iter().enumerate() {
        written += 1;
        match after_write(outcomes[i]) {
            NextAction::Continue => continue,
            a => {
                status = Some(a);
                break;
            },
        }
    }
    assert_eq!(written, 2);
    assert_eq!(status, Some(NextAction::StopSuccess));
    assert_eq!(after_write(WriteOutcome::Done), NextAction::Continue);
    assert_eq!(after_write(WriteOutcome::Failed), NextAction::StopFailure);
}
