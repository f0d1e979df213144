use delta::paint::{syntax_spans, Config, LineHighlighter};
use delta::parse::LineRole;
use delta::pipeline::{process_block, process_plain_line};

#[test]
fn syntax_spans_partition_the_line() {
    let mut h = LineHighlighter::new(b"rs", b"base16-ocean.dark");
    let line = b"fn main() { let x = 1; }";
    let spans = syntax_spans(&mut h, line);
    assert!(!spans.is_empty());
    assert_eq!(spans[0].start, 0);
    assert_eq!(spans[spans.len() - 1].end, line.len());
    for w in spans.windows(2) {
        assert_eq!(w[0].end, w[1].start);
    }
    // A real grammar colors a `fn` keyword differently from plain text: the
    // highlighter boundary hands real pieces through, not its input.
    assert!(spans.len() > 1);
}

#[test]
fn unknown_grammar_and_theme_still_highlight_plainly() {
    let mut h = LineHighlighter::new(b"no-such-extension", b"no such theme");
    let line = b"some text";
    let spans = syntax_spans(&mut h, line);
    assert!(!spans.is_empty());
    assert_eq!(spans[0].start, 0);
    assert_eq!(spans[spans.len() - 1].end, line.len());
}

#[test]
fn truncated_line_carries_a_marker() {
    let mut h = LineHighlighter::new(b"", b"base16-ocean.dark");
    let mut cfg = Config::default();
    cfg.terminal_width = 4;
    let out = process_plain_line(b"0123456789", LineRole::Context, &cfg, &mut h);
    assert_eq!(out.last(), Some(&b'>'));
    let fits = process_plain_line(b"012", LineRole::Context, &cfg, &mut h);
    assert_ne!(fits.last(), Some(&b'>'));
}

#[test]
fn process_block_emits_one_line_per_input_line() {
    let mut h = LineHighlighter::new(b"rs", b"base16-ocean.dark");
    let cfg = Config::default();
    let removed: Vec<Vec<u8>> = vec![b"let a = 1;".to_vec(), b"let gone = 0;".to_vec()];
    let added: Vec<Vec<u8>> = vec![b"let a = 2;".to_vec()];
    let out = process_block(&removed, &added, &cfg, &mut h);
    assert_eq!(out.len(), 3);
    // The paired line carries the emphasis background of the changed token.
    let joined: Vec<u8> = out.concat();
    let emph_code = b"\x1b[48;2;255;176;176m";
    assert!(joined
        .windows(emph_code.len())
        .any(|w| w == emph_code));
}
