//! The per-block pipeline, and the output-sink policy.
//!
//! A change block's removed and added lines are aligned, each paired line
//! gets its token-level emphasis, every line is syntax-highlighted,
//! composed with its role background, degraded to the terminal's colors,
//! cut at the terminal width and serialized — one output line per input
//! line, in alignment order. Each stage's relation to the next is a named
//! predicate, and every output line is pinned through the whole chain up
//! to the highlighter's pieces.
//!
//! Writing is the caller's job; the policy for a failed write is fixed
//! here: a closed pipe ends the run cleanly as a success, any other write
//! failure ends it as an error, and no further line is written either way.

use vstd::prelude::*;
use crate::align::{
    added_indices, align_lines, align_weight, aligned_block, best_weight, index_run,
    removed_indices, LinePair,
};
use crate::draw::{
    degrade_spans, degraded_rel, render_line, render_spans_spec, truncate_spans, truncated_rel,
};
use crate::paint::{
    emphasis_ranges, paint_line, pair_emphasis, role_bgs, syntax_plain, syntax_spans, Config,
    LineHighlighter,
};
use crate::parse::LineRole;
use crate::style::{composed_rel, is_partition, ranges_wf, StyleSpan};

verus! {

/// What one write to the output sink came to.
#[derive(Clone, Copy, Debug, PartialEq, Eq, Structural)]
pub enum WriteOutcome {
    Done,
    PipeClosed,
    Failed,
}

/// What the pipeline does after a write.
#[derive(Clone, Copy, Debug, PartialEq, Eq, Structural)]
pub enum NextAction {
    Continue,
    StopSuccess,
    StopFailure,
}

/// The sink policy: carry on after a successful write; stop cleanly, with
/// a success status and no error message, when the pipe closed; stop with
/// a failure on any other write error.
pub fn after_write(w: WriteOutcome) -> (r: NextAction)
    ensures
        r == (match w {
            WriteOutcome::Done => NextAction::Continue,
            WriteOutcome::PipeClosed => NextAction::StopSuccess,
            WriteOutcome::Failed => NextAction::StopFailure,
        }),
{
    match w {
        WriteOutcome::Done => NextAction::Continue,
        WriteOutcome::PipeClosed => NextAction::StopSuccess,
        WriteOutcome::Failed => NextAction::StopFailure,
    }
}

/// The visual marker a cut line ends with when the configuration asks for
/// one: a single `>` after the reset.
pub open spec fn cut_marker(cfg: Config, len: int, w: int) -> Seq<u8> {
    if cfg.mark_truncation && w < len {
        seq![62u8]
    } else {
        Seq::empty()
    }
}

/// The bytes are some width cut of the spans, serialized: for some cut
/// span list related to `spans` by `truncated_rel` at the configured
/// width, the bytes are exactly its escape serialization — followed by the
/// truncation marker when the line was cut and the policy asks for one.
#[verifier::opaque]
pub open spec fn cut_rendered(
    bytes: Seq<u8>,
    line: Seq<u8>,
    spans: Seq<StyleSpan>,
    cfg: Config,
) -> bool {
    exists|cut: Seq<StyleSpan>, w: int|
        (#[trigger] truncated_rel(spans, cut, line.len() as int, cfg.terminal_width as int, w))
            && bytes == render_spans_spec(cut, line) + cut_marker(cfg, line.len() as int, w)
}

/// The bytes are the spans degraded to the terminal's capability, cut at
/// its width, and serialized.
#[verifier::opaque]
pub open spec fn rendered_from(
    bytes: Seq<u8>,
    line: Seq<u8>,
    spans: Seq<StyleSpan>,
    cfg: Config,
) -> bool {
    exists|degraded: Seq<StyleSpan>|
        (#[trigger] degraded_rel(spans, degraded, cfg.capability)) && cut_rendered(
            bytes,
            line,
            degraded,
            cfg,
        )
}

/// The bytes render the line under `role` with the given emphasis, on top
/// of the syntax spans `syn`.
#[verifier::opaque]
pub open spec fn composed_rendered(
    bytes: Seq<u8>,
    line: Seq<u8>,
    syn: Seq<StyleSpan>,
    role: LineRole,
    emph: Seq<(usize, usize)>,
    cfg: Config,
) -> bool {
    exists|composed: Seq<StyleSpan>|
        (#[trigger] composed_rel(
            syn,
            composed,
            line.len() as int,
            role_bgs(cfg, role).0,
            role_bgs(cfg, role).1,
            emph,
        )) && rendered_from(bytes, line, composed, cfg)
}

/// The bytes render the line under `role` with the given emphasis: for
/// some plain syntax span partition of the line (the highlighter's pieces,
/// or the unstyled fallback), the bytes are exactly that partition
/// composed with the role's backgrounds and the emphasis ranges, degraded,
/// cut at the width and serialized.
#[verifier::opaque]
pub open spec fn line_rendered(
    bytes: Seq<u8>,
    line: Seq<u8>,
    role: LineRole,
    emph: Seq<(usize, usize)>,
    cfg: Config,
) -> bool {
    exists|syn: Seq<StyleSpan>|
        (#[trigger] syntax_plain(syn, line.len() as int)) && composed_rendered(
            bytes,
            line,
            syn,
            role,
            emph,
            cfg,
        )
}

/// Degrade, cut and serialize one line's composed spans, marking the cut
/// when the line did not fit and the policy asks for a marker.
///
/// The escape-minimizing merge happens at composition (the composed spans
/// are in merged normal form); two spans whose colors coincide only after
/// degradation stay separate — a deliberate choice that keeps the cut
/// relation index-aligned with the composed spans, at the cost of an
/// occasional redundant escape code.
fn render_full(text: &[u8], spans: &Vec<StyleSpan>, cfg: &Config) -> (out: Vec<u8>)
    requires
        is_partition(spans@, text@.len() as int),
    ensures
        rendered_from(out@, text@, spans@, *cfg),
{
    let degraded = degrade_spans(spans, cfg.capability);
    proof {
        assert forall|p: int| 0 <= p < degraded@.len() implies (#[trigger] degraded@[p]).start
            < degraded@[p].end by {
            assert(spans@[p].start < spans@[p].end);
        }
        assert(is_partition(degraded@, text@.len() as int));
    }
    let (cut, w) = truncate_spans(&degraded, text.len(), cfg.terminal_width);
    proof {
        assert forall|p: int| 0 <= p < cut@.len() implies (#[trigger] cut@[p]).start <= cut@[p].end
            <= text@.len() by {
            crate::style::lemma_partition_bounds(cut@, w as int, p);
        }
    }
    let mut out = render_line(text, &cut);
    let ghost rendered = out@;
    if cfg.mark_truncation && w < text.len() {
        out.push(62);
    }
    proof {
        reveal(cut_rendered);
        reveal(rendered_from);
        assert(out@ =~= rendered + cut_marker(*cfg, text@.len() as int, w as int));
        assert(cut_rendered(out@, text@, degraded@, *cfg)) by {
            assert(truncated_rel(
                degraded@,
                cut@,
                text@.len() as int,
                cfg.terminal_width as int,
                w as int,
            ) && out@ == render_spans_spec(cut@, text@) + cut_marker(
                *cfg,
                text@.len() as int,
                w as int,
            ));
        }
        assert(rendered_from(out@, text@, spans@, *cfg)) by {
            assert(degraded_rel(spans@, degraded@, cfg.capability) && cut_rendered(
                out@,
                text@,
                degraded@,
                *cfg,
            ));
        }
    }
    out
}

/// Highlight, compose and serialize one line under a role, with emphasis
/// on the given byte ranges.
fn finish_line(
    line: &[u8],
    role: LineRole,
    emph: &Vec<(usize, usize)>,
    cfg: &Config,
    h: &mut LineHighlighter,
) -> (out: Vec<u8>)
    requires
        ranges_wf(emph@, line@.len() as int),
    ensures
        line_rendered(out@, line@, role, emph@, *cfg),
{
    let syn = syntax_spans(h, line);
    let composed = paint_line(&syn, line.len(), cfg, role, emph);
    let out = render_full(line, &composed, cfg);
    proof {
        reveal(composed_rendered);
        reveal(line_rendered);
        assert(composed_rendered(out@, line@, syn@, role, emph@, *cfg)) by {
            assert(composed_rel(
                syn@,
                composed@,
                line@.len() as int,
                role_bgs(*cfg, role).0,
                role_bgs(*cfg, role).1,
                emph@,
            ) && rendered_from(out@, line@, composed@, *cfg));
        }
        assert(line_rendered(out@, line@, role, emph@, *cfg)) by {
            assert(syntax_plain(syn@, line@.len() as int) && composed_rendered(
                out@,
                line@,
                syn@,
                role,
                emph@,
                *cfg,
            ));
        }
    }
    out
}

/// Highlight, compose and serialize one line outside any change block — a
/// context line or a pass-through line, with no emphasis: the output is
/// exactly the line's syntax spans under the role's backgrounds, degraded,
/// cut at the width and serialized.
pub fn process_plain_line(
    line: &[u8],
    role: LineRole,
    cfg: &Config,
    h: &mut LineHighlighter,
) -> (out: Vec<u8>)
    ensures
        line_rendered(out@, line@, role, Seq::<(usize, usize)>::empty(), *cfg),
{
    let emph: Vec<(usize, usize)> = Vec::new();
    let out = finish_line(line, role, &emph, cfg, h);
    proof {
        assert(emph@ =~= Seq::<(usize, usize)>::empty());
    }
    out
}

/// One output position of a processed block: the removed or added side of
/// an aligned element, with its partner where the element is a pair.
pub enum RenderJob {
    RemovedSide { line: usize, partner: Option<usize> },
    AddedSide { line: usize, partner: Option<usize> },
}

/// The output positions an alignment produces, in order: a pair yields its
/// removed side then its added side; an unmatched line yields its own side.
pub open spec fn jobs_of(pairs: Seq<LinePair>) -> Seq<RenderJob>
    decreases pairs.len(),
{
    if pairs.len() == 0 {
        Seq::empty()
    } else {
        jobs_of(pairs.drop_last()) + (match pairs[pairs.len() - 1] {
            LinePair::Paired { removed, added } => seq![
                RenderJob::RemovedSide { line: removed, partner: Some(added) },
                RenderJob::AddedSide { line: added, partner: Some(removed) },
            ],
            LinePair::RemovedOnly { removed } => seq![
                RenderJob::RemovedSide { line: removed, partner: None },
            ],
            LinePair::AddedOnly { added } => seq![RenderJob::AddedSide { line: added, partner: None }],
        })
    }
}

/// An alignment produces one output position per line of the block.
pub proof fn lemma_jobs_count(pairs: Seq<LinePair>)
    ensures
        jobs_of(pairs).len() == removed_indices(pairs).len() + added_indices(pairs).len(),
    decreases pairs.len(),
{
    if pairs.len() > 0 {
        lemma_jobs_count(pairs.drop_last());
    }
}

/// The emphasis of a pair's removed side: some partner ranges complete it
/// to a full `pair_emphasis` of the two lines.
#[verifier::opaque]
pub open spec fn pair_ranges_left(
    a: Seq<u8>,
    b: Seq<u8>,
    cfg: Config,
    ra: Seq<(usize, usize)>,
) -> bool {
    exists|rb: Seq<(usize, usize)>|
        #[trigger] pair_emphasis(
            a,
            b,
            cfg.max_changed_num as int,
            cfg.max_changed_den as int,
            ra,
            rb,
        )
}

/// The emphasis of a pair's added side, as `pair_ranges_left`.
#[verifier::opaque]
pub open spec fn pair_ranges_right(
    a: Seq<u8>,
    b: Seq<u8>,
    cfg: Config,
    rb: Seq<(usize, usize)>,
) -> bool {
    exists|ra: Seq<(usize, usize)>|
        #[trigger] pair_emphasis(
            a,
            b,
            cfg.max_changed_num as int,
            cfg.max_changed_den as int,
            ra,
            rb,
        )
}

/// The removed side of a pair, rendered: for some emphasis ranges that
/// complete to a full pair classification against the partner line, the
/// bytes render the line under the removed role with that emphasis.
#[verifier::opaque]
pub open spec fn removed_side_rendered(bytes: Seq<u8>, a: Seq<u8>, b: Seq<u8>, cfg: Config) -> bool {
    exists|ra: Seq<(usize, usize)>|
        (#[trigger] line_rendered(bytes, a, LineRole::Removed, ra, cfg)) && pair_ranges_left(
            a,
            b,
            cfg,
            ra,
        )
}

/// The added side of a pair, rendered, as `removed_side_rendered`.
#[verifier::opaque]
pub open spec fn added_side_rendered(bytes: Seq<u8>, a: Seq<u8>, b: Seq<u8>, cfg: Config) -> bool {
    exists|rb: Seq<(usize, usize)>|
        (#[trigger] line_rendered(bytes, b, LineRole::Added, rb, cfg)) && pair_ranges_right(
            a,
            b,
            cfg,
            rb,
        )
}

/// What one output position holds: the named line of the block, rendered
/// under its side's role — with the changed-token emphasis against its
/// partner where the position belongs to a pair, with no emphasis where it
/// stands alone.
#[verifier::opaque]
pub open spec fn rendered_job(
    bytes: Seq<u8>,
    job: RenderJob,
    removed: Seq<Vec<u8>>,
    added: Seq<Vec<u8>>,
    cfg: Config,
) -> bool {
    match job {
        RenderJob::RemovedSide { line: ri, partner: opt } => ri < removed.len() && (match opt {
            Some(ai) => ai < added.len() && removed_side_rendered(
                bytes,
                removed[ri as int]@,
                added[ai as int]@,
                cfg,
            ),
            None => line_rendered(
                bytes,
                removed[ri as int]@,
                LineRole::Removed,
                Seq::<(usize, usize)>::empty(),
                cfg,
            ),
        }),
        RenderJob::AddedSide { line: ai, partner: opt } => ai < added.len() && (match opt {
            Some(ri) => ri < removed.len() && added_side_rendered(
                bytes,
                removed[ri as int]@,
                added[ai as int]@,
                cfg,
            ),
            None => line_rendered(
                bytes,
                added[ai as int]@,
                LineRole::Added,
                Seq::<(usize, usize)>::empty(),
                cfg,
            ),
        }),
    }
}

/// Render both sides of an aligned pair: each side under its role, with
/// the changed-token emphasis of one classification of the two lines.
#[verifier::rlimit(100)]
#[verifier::spinoff_prover]
fn render_pair_lines(
    a: &Vec<u8>,
    b: &Vec<u8>,
    cfg: &Config,
    h: &mut LineHighlighter,
) -> (r: (Vec<u8>, Vec<u8>))
    requires
        a@.len() < usize::MAX,
        b@.len() < usize::MAX,
    ensures
        removed_side_rendered(r.0@, a@, b@, *cfg),
        added_side_rendered(r.1@, a@, b@, *cfg),
{
    let asl = a.as_slice();
    let bsl = b.as_slice();
    let (ra, rb) = emphasis_ranges(asl, bsl, cfg.max_changed_num, cfg.max_changed_den);
    let la = finish_line(asl, LineRole::Removed, &ra, cfg, h);
    let lb = finish_line(bsl, LineRole::Added, &rb, cfg, h);
    proof {
        reveal(pair_ranges_left);
        reveal(pair_ranges_right);
        assert(asl@ == a@ && bsl@ == b@);
        assert(line_rendered(la@, a@, LineRole::Removed, ra@, *cfg));
        assert(line_rendered(lb@, b@, LineRole::Added, rb@, *cfg));
        assert(pair_ranges_left(a@, b@, *cfg, ra@)) by {
            assert(pair_emphasis(
                a@,
                b@,
                cfg.max_changed_num as int,
                cfg.max_changed_den as int,
                ra@,
                rb@,
            ));
        }
        assert(pair_ranges_right(a@, b@, *cfg, rb@)) by {
            assert(pair_emphasis(
                a@,
                b@,
                cfg.max_changed_num as int,
                cfg.max_changed_den as int,
                ra@,
                rb@,
            ));
        }
        assert(removed_side_rendered(la@, a@, b@, *cfg)) by {
            reveal(removed_side_rendered);
            assert(line_rendered(la@, a@, LineRole::Removed, ra@, *cfg) && pair_ranges_left(
                a@,
                b@,
                *cfg,
                ra@,
            ));
        }
        assert(added_side_rendered(lb@, a@, b@, *cfg)) by {
            reveal(added_side_rendered);
            assert(line_rendered(lb@, b@, LineRole::Added, rb@, *cfg) && pair_ranges_right(
                a@,
                b@,
                *cfg,
                rb@,
            ));
        }
    }
    (la, lb)
}

/// Appending an element appends its output positions.
proof fn lemma_jobs_push(pairs: Seq<LinePair>, k: int)
    requires
        0 <= k < pairs.len(),
    ensures
        jobs_of(pairs.take(k + 1)) == jobs_of(pairs.take(k)) + (match pairs[k] {
            LinePair::Paired { removed, added } => seq![
                RenderJob::RemovedSide { line: removed, partner: Some(added) },
                RenderJob::AddedSide { line: added, partner: Some(removed) },
            ],
            LinePair::RemovedOnly { removed } => seq![
                RenderJob::RemovedSide { line: removed, partner: None },
            ],
            LinePair::AddedOnly { added } => seq![RenderJob::AddedSide { line: added, partner: None }],
        }),
{
    assert(pairs.take(k + 1).drop_last() =~= pairs.take(k));
    assert(pairs.take(k + 1)[pairs.take(k + 1).len() - 1] == pairs[k]);
}

/// Serialize every line an alignment names, in order.
#[verifier::rlimit(100)]
#[verifier::spinoff_prover]
#[verifier::loop_isolation(false)]
fn emit_jobs(
    pairs: &Vec<LinePair>,
    removed: &Vec<Vec<u8>>,
    added: &Vec<Vec<u8>>,
    cfg: &Config,
    h: &mut LineHighlighter,
) -> (out: Vec<Vec<u8>>)
    requires
        forall|i: int| 0 <= i < removed@.len() ==> (#[trigger] removed@[i])@.len() < usize::MAX,
        forall|j: int| 0 <= j < added@.len() ==> (#[trigger] added@[j])@.len() < usize::MAX,
        forall|p: int|
            0 <= p < pairs@.len() ==> match #[trigger] pairs@[p] {
                LinePair::Paired { removed: ri, added: ai } => ri < removed@.len() && ai
                    < added@.len(),
                LinePair::RemovedOnly { removed: ri } => ri < removed@.len(),
                LinePair::AddedOnly { added: ai } => ai < added@.len(),
            },
    ensures
        out@.len() == jobs_of(pairs@).len(),
        forall|p: int|
            0 <= p < out@.len() ==> rendered_job(
                (#[trigger] out@[p])@,
                jobs_of(pairs@)[p],
                removed@,
                added@,
                *cfg,
            ),
{
    let mut out: Vec<Vec<u8>> = Vec::new();
    let np = pairs.len();
    let mut k: usize = 0;
    proof {
        assert(pairs@.take(0) =~= Seq::<LinePair>::empty());
    }
    while k < np
        invariant
            k <= np,
            out@.len() == jobs_of(pairs@.take(k as int)).len(),
            forall|p: int|
                0 <= p < out@.len() ==> rendered_job(
                    (#[trigger] out@[p])@,
                    jobs_of(pairs@.take(k as int))[p],
                    removed@,
                    added@,
                    *cfg,
                ),
        decreases np - k,
    {
        let empty_emph: Vec<(usize, usize)> = Vec::new();
        let ghost tk = pairs@.take(k as int);
        let ghost tk1 = pairs@.take(k + 1);
        proof {
            lemma_jobs_push(pairs@, k as int);
            assert(empty_emph@ =~= Seq::<(usize, usize)>::empty());
        }
        let ghost before = out@;
        match pairs[k] {
            LinePair::Paired { removed: ri, added: ai } => {
                let av = &removed[ri];
                let bv = &added[ai];
                let (la, lb) = render_pair_lines(av, bv, cfg, h);
                proof {
                    assert(av@ == removed@[ri as int]@ && bv@ == added@[ai as int]@);
                    assert(removed_side_rendered(la@, removed@[ri as int]@, added@[ai as int]@, *cfg));
                    assert(added_side_rendered(lb@, removed@[ri as int]@, added@[ai as int]@, *cfg));
                    assert(rendered_job(
                        la@,
                        RenderJob::RemovedSide { line: ri, partner: Some(ai) },
                        removed@,
                        added@,
                        *cfg,
                    )) by {
                        reveal(rendered_job);
                    }
                    assert(rendered_job(
                        lb@,
                        RenderJob::AddedSide { line: ai, partner: Some(ri) },
                        removed@,
                        added@,
                        *cfg,
                    )) by {
                        reveal(rendered_job);
                    }
                }
                out.push(la);
                out.push(lb);
            },
            LinePair::RemovedOnly { removed: ri } => {
                let asl = removed[ri].as_slice();
                let la = finish_line(asl, LineRole::Removed, &empty_emph, cfg, h);
                proof {
                    assert(asl@ == removed@[ri as int]@);
                    assert(line_rendered(
                        la@,
                        removed@[ri as int]@,
                        LineRole::Removed,
                        Seq::<(usize, usize)>::empty(),
                        *cfg,
                    ));
                    assert(rendered_job(
                        la@,
                        RenderJob::RemovedSide { line: ri, partner: None },
                        removed@,
                        added@,
                        *cfg,
                    )) by {
                        reveal(rendered_job);
                    }
                }
                out.push(la);
            },
            LinePair::AddedOnly { added: ai } => {
                let bsl = added[ai].as_slice();
                let lb = finish_line(bsl, LineRole::Added, &empty_emph, cfg, h);
                proof {
                    assert(bsl@ == added@[ai as int]@);
                    assert(line_rendered(
                        lb@,
                        added@[ai as int]@,
                        LineRole::Added,
                        Seq::<(usize, usize)>::empty(),
                        *cfg,
                    ));
                    assert(rendered_job(
                        lb@,
                        RenderJob::AddedSide { line: ai, partner: None },
                        removed@,
                        added@,
                        *cfg,
                    )) by {
                        reveal(rendered_job);
                    }
                }
                out.push(lb);
            },
        }
        proof {
            assert(out@.len() == jobs_of(tk1).len());
            assert forall|p: int| 0 <= p < out@.len() implies rendered_job(
                (#[trigger] out@[p])@,
                jobs_of(tk1)[p],
                removed@,
                added@,
                *cfg,
            ) by {
                if p < before.len() {
                    assert(out@[p] == before[p]);
                    assert(jobs_of(tk1)[p] == jobs_of(tk)[p]);
                }
            }
        }
        k = k + 1;
    }
    proof {
        assert(pairs@.take(np as int) =~= pairs@);
    }
    out
}

/// Process one change block: align its removed and added lines, compute
/// the token-level emphasis of each pair, and serialize every line —
/// exactly one output line per line of the block, in alignment order,
/// each position rendering its own line under its side's role with its
/// pair's emphasis.
#[verifier::rlimit(100)]
#[verifier::spinoff_prover]
pub fn process_block(
    removed: &Vec<Vec<u8>>,
    added: &Vec<Vec<u8>>,
    cfg: &Config,
    h: &mut LineHighlighter,
) -> (out: Vec<Vec<u8>>)
    requires
        removed@.len() < usize::MAX,
        added@.len() < usize::MAX,
        forall|i: int| 0 <= i < removed@.len() ==> (#[trigger] removed@[i])@.len() < usize::MAX,
        forall|j: int| 0 <= j < added@.len() ==> (#[trigger] added@[j])@.len() < usize::MAX,
    ensures
        out@.len() == removed@.len() + added@.len(),
        exists|pairs: Seq<LinePair>|
            (#[trigger] aligned_block(
                pairs,
                removed@,
                added@,
                cfg.threshold_num as int,
                cfg.threshold_den as int,
            )) && align_weight(pairs, removed@, added@) == best_weight(
                removed@,
                added@,
                cfg.threshold_num as int,
                cfg.threshold_den as int,
                0,
                0,
            ) && out@.len() == jobs_of(pairs).len() && (forall|p: int|
                0 <= p < out@.len() ==> rendered_job(
                    (#[trigger] out@[p])@,
                    jobs_of(pairs)[p],
                    removed@,
                    added@,
                    *cfg,
                )),
{
    let pairs = align_lines(removed, added, cfg.threshold_num, cfg.threshold_den);
    let out = emit_jobs(&pairs, removed, added, cfg, h);
    proof {
        lemma_jobs_count(pairs@);
        assert(removed_indices(pairs@) == index_run(removed@.len() as int));
        assert(added_indices(pairs@) == index_run(added@.len() as int));
        assert(aligned_block(
            pairs@,
            removed@,
            added@,
            cfg.threshold_num as int,
            cfg.threshold_den as int,
        ));
    }
    out
}

} // verus!
