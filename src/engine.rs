//! One pass over a file: every marked line, in order, until one fails.
use crate::config::{bytes_of, repeated, Config, FileConfig};
use crate::directive::{directive_in, parse_directive, Directive, DirectiveView};
use crate::errors::{DotfilesError, ErrorView};
use crate::functions::{ran, run_function, Outcome, OutcomeView};
use crate::scanner::{halves, marked_from, marked_lines, scan_marked_lines};
use crate::text::{
    applied, apply_edit, disjoint, independent_edits, lemma_applied_pointwise, MatchedText, Span,
};
use vstd::prelude::*;

verus! {

/// One directive read from a marked line, and what carrying it out led to.
#[derive(Debug)]
pub struct Step {
    pub directive: Directive,
    pub outcome: Outcome,
}

pub struct StepView {
    pub directive: DirectiveView,
    pub outcome: OutcomeView,
}

impl View for Step {
    type V = StepView;

    open spec fn view(&self) -> StepView {
        StepView { directive: self.directive@, outcome: self.outcome@ }
    }
}

/// The steps of a pass over one file, and the error that ended it early,
/// if one did.
#[derive(Debug)]
pub struct FileRun {
    pub steps: Vec<Step>,
    pub error: Option<DotfilesError>,
}

/// The views of a list of steps.
pub open spec fn views(steps: Seq<Step>) -> Seq<StepView> {
    steps.map_values(|s: Step| s@)
}

impl FileRun {
    pub open spec fn step_views(&self) -> Seq<StepView> {
        views(self.steps@)
    }
}

/// The spans the steps write, in order.
pub open spec fn writes(steps: Seq<StepView>) -> Seq<Span>
    decreases steps.len(),
{
    if steps.len() == 0 {
        Seq::empty()
    } else {
        let before = writes(steps.drop_last());
        match steps.last().outcome {
            OutcomeView::Write(w) => before.push(w),
            _ => before,
        }
    }
}

/// What one marked line leads to: the directive after the marker, carried
/// out on the text before it, for the first match of its pattern.
pub open spec fn line_result(config: &Config, content: Span, directive: Seq<u8>) -> Result<
    StepView,
    ErrorView,
> {
    match directive_in(directive) {
        None => Err(ErrorView::DirectiveNotFound { hay: directive }),
        Some(d) => match ran(config, d.name, d.args, content, 0) {
            Err(e) => Err(e),
            Ok(o) => Ok(StepView { directive: d, outcome: o }),
        },
    }
}

/// The marker of a file under `config`.
pub open spec fn marker_of(config: &Config, file: &FileConfig) -> Seq<u8> {
    repeated(bytes_of(file.marker_char), config.marker_repetition_num as nat)
}

/// Reads the directive in `function_code_text` and carries it out on
/// `actual_text`, the text before the marker on the same line.
pub fn parse_and_run_function(
    config: &Config,
    function_code_text: &MatchedText,
    actual_text: &MatchedText,
) -> (r: Result<Step, DotfilesError>)
    requires
        config.wf(),
        actual_text@.wf(),
    ensures
        match r {
            Ok(s) => line_result(config, actual_text@, function_code_text.text@) == Ok::<
                StepView,
                ErrorView,
            >(s@),
            Err(e) => line_result(config, actual_text@, function_code_text.text@) == Err::<
                StepView,
                ErrorView,
            >(e@),
        },
        r matches Ok(s) ==> (s.outcome matches Outcome::Write(w) ==> w@.wf() && w@.within(
            actual_text@,
        )),
{
    let directive = match parse_directive(function_code_text) {
        Ok(d) => d,
        Err(e) => {
            return Err(e);
        },
    };
    match run_function(config, &directive.name, &directive.args, actual_text, 0) {
        Ok(outcome) => Ok(Step { directive, outcome }),
        Err(e) => Err(e),
    }
}

proof fn lemma_marked_from_ordered(s: Seq<u8>, m: Seq<u8>, ls: int, i: int)
    requires
        0 <= ls <= i <= s.len(),
    ensures
        forall|k: int|
            0 <= k < marked_from(s, m, ls, i).len() ==> {
                let t = #[trigger] marked_from(s, m, ls, i)[k];
                ls <= t.0 <= t.1 && t.1 + m.len() <= t.2 <= s.len()
            },
        forall|k: int, l: int|
            0 <= k < l < marked_from(s, m, ls, i).len() ==> (#[trigger] marked_from(
                s,
                m,
                ls,
                i,
            )[k]).2 < (#[trigger] marked_from(s, m, ls, i)[l]).0,
    decreases s.len() - i,
{
    let r = marked_from(s, m, ls, i);
    if 0 <= i < s.len() && s[i] != crate::scanner::NEWLINE {
        lemma_marked_from_ordered(s, m, ls, i + 1);
        assert(r == marked_from(s, m, ls, i + 1));
    } else {
        let here = match crate::scanner::first_occurrence(s, m, ls, i) {
            Some(p) => seq![(ls, p, i)],
            None => Seq::<(int, int, int)>::empty(),
        };
        if crate::scanner::first_occurrence(s, m, ls, i) is Some {
            crate::scanner::lemma_first_occurrence_found(s, m, ls, i);
        }
        assert forall|k: int| 0 <= k < here.len() implies {
            let t = #[trigger] here[k];
            ls <= t.0 <= t.1 && t.1 + m.len() <= t.2 <= s.len()
        } by {}
        if 0 <= i < s.len() {
            let rest = marked_from(s, m, i + 1, i + 1);
            lemma_marked_from_ordered(s, m, i + 1, i + 1);
            assert(r == here + rest);
            assert forall|k: int, l: int| 0 <= k < l < r.len() implies (#[trigger] r[k]).2 < (
            #[trigger] r[l]).0 by {
                if k < here.len() {
                    assert(r[l] == rest[l - here.len()]);
                } else {
                    assert(r[k] == rest[k - here.len()]);
                    assert(r[l] == rest[l - here.len()]);
                }
            }
            assert forall|k: int| 0 <= k < r.len() implies {
                let t = #[trigger] r[k];
                ls <= t.0 <= t.1 && t.1 + m.len() <= t.2 <= s.len()
            } by {
                if k >= here.len() {
                    assert(r[k] == rest[k - here.len()]);
                }
            }
        } else {
            assert(r == here);
        }
    }
}

/// One pass over the text of a file: every marked line in file order, the
/// directive after its marker carried out on the text before it, until
/// the first error. The spans to write all lie in the text before the
/// markers, keep their lengths, and do not overlap.
pub fn process_file(config: &Config, file: &FileConfig, contents: &[u8]) -> (r: FileRun)
    requires
        config.wf(),
    ensures
        ({
            let lines = marked_lines(contents@, marker_of(config, file));
            let steps = r.step_views();
            &&& steps.len() <= lines.len()
            &&& forall|k: int|
                0 <= k < steps.len() ==> {
                    let (content, directive) = halves(
                        contents@,
                        marker_of(config, file),
                        #[trigger] lines[k],
                    );
                    &&& line_result(config, content, directive.text) == Ok::<StepView, ErrorView>(
                        steps[k],
                    )
                    &&& steps[k].outcome matches OutcomeView::Write(w) ==> w.wf() && w.within(
                        content,
                    )
                }
            &&& match r.error {
                None => steps.len() == lines.len(),
                Some(e) => steps.len() < lines.len() && {
                    let (content, directive) = halves(
                        contents@,
                        marker_of(config, file),
                        lines[steps.len() as int],
                    );
                    line_result(config, content, directive.text) == Err::<StepView, ErrorView>(
                        e@,
                    )
                },
            }
            &&& independent_edits(contents@.len() as int, writes(steps))
        }),
{
    let marker = file.marker(config.marker_repetition_num);
    let ghost m = marker@;
    let ghost s = contents@;
    let ghost lines = marked_lines(s, m);
    let found = scan_marked_lines(contents, &marker);
    proof {
        lemma_marked_from_ordered(s, m, 0, 0);
    }
    let mut steps: Vec<Step> = Vec::new();
    let ghost mut prev_end: int = 0;
    let mut k: usize = 0;
    while k < found.len()
        invariant
            config.wf(),
            m == marker_of(config, file),
            s == contents@,
            lines == marked_lines(s, m),
            found@.len() == lines.len(),
            forall|j: int|
                0 <= j < found@.len() ==> (#[trigger] found@[j].0@, found@[j].1@) == halves(
                    s,
                    m,
                    lines[j],
                ),
            forall|j: int|
                0 <= j < lines.len() ==> {
                    let t = #[trigger] lines[j];
                    0 <= t.0 <= t.1 && t.1 + m.len() <= t.2 <= s.len()
                },
            forall|j: int, l: int|
                0 <= j < l < lines.len() ==> (#[trigger] lines[j]).2 < (#[trigger] lines[l]).0,
            k <= found@.len(),
            steps@.len() == k,
            forall|j: int|
                0 <= j < k ==> {
                    let (content, directive) = halves(s, m, #[trigger] lines[j]);
                    &&& line_result(config, content, directive.text) == Ok::<StepView, ErrorView>(
                        steps@[j]@,
                    )
                    &&& steps@[j]@.outcome matches OutcomeView::Write(w) ==> w.wf() && w.within(
                        content,
                    )
                },
            independent_edits(s.len() as int, writes(views(steps@))),
            forall|j: int|
                0 <= j < writes(views(steps@)).len() ==> (#[trigger] writes(
                    views(steps@),
                )[j]).end <= prev_end,
            0 <= prev_end <= s.len(),
            k == 0 ==> prev_end == 0,
            k > 0 ==> prev_end == lines[k - 1].2,
        decreases found@.len() - k,
    {
        let (content, directive) = &found[k];
        assert((content@, directive@) == halves(s, m, lines[k as int]));
        match parse_and_run_function(config, directive, content) {
            Ok(step) => {
                let ghost before = views(steps@);
                let ghost w_before = writes(before);
                proof {
                    if k > 0 {
                        assert(lines[k - 1].2 < lines[k as int].0);
                    }
                }
                steps.push(step);
                let ghost after = views(steps@);
                assert(after.drop_last() =~= before);
                assert(after.last() == steps@[k as int]@);
                let ghost w_after = writes(after);
                proof {
                    assert forall|i: int| 0 <= i < w_after.len() implies (#[trigger] w_after[i]).wf()
                        && w_after[i].end <= s.len() by {
                        if i < w_before.len() {
                            assert(w_after[i] == w_before[i]);
                        }
                    }
                    assert forall|i: int, j: int|
                        0 <= i < w_after.len() && 0 <= j < w_after.len() && i != j implies disjoint(
                        #[trigger] w_after[i],
                        #[trigger] w_after[j],
                    ) by {
                        if i < w_before.len() && j < w_before.len() {
                            assert(w_after[i] == w_before[i]);
                            assert(w_after[j] == w_before[j]);
                        } else if i < w_before.len() {
                            assert(w_after[i] == w_before[i]);
                        } else if j < w_before.len() {
                            assert(w_after[j] == w_before[j]);
                        }
                    }
                    prev_end = lines[k as int].2;
                    assert forall|i: int| 0 <= i < w_after.len() implies (#[trigger] w_after[i]).end
                        <= prev_end by {
                        if i < w_before.len() {
                            assert(w_after[i] == w_before[i]);
                        }
                    }
                    assert forall|j: int| 0 <= j < k + 1 implies {
                        let (content, directive) = halves(s, m, #[trigger] lines[j]);
                        &&& line_result(config, content, directive.text) == Ok::<
                            StepView,
                            ErrorView,
                        >(steps@[j]@)
                        &&& steps@[j]@.outcome matches OutcomeView::Write(w) ==> w.wf()
                            && w.within(content)
                    } by {}
                }
            },
            Err(e) => {
                assert(views(steps@).len() == k);
                return FileRun { steps, error: Some(e) };
            },
        }
        k = k + 1;
    }
    FileRun { steps, error: None }
}

proof fn lemma_writes_prefix(steps: Seq<StepView>, k: int)
    requires
        0 <= k <= steps.len(),
    ensures
        writes(steps.subrange(0, k)).len() <= writes(steps).len(),
        forall|i: int|
            0 <= i < writes(steps.subrange(0, k)).len() ==> #[trigger] writes(
                steps.subrange(0, k),
            )[i] == writes(steps)[i],
    decreases steps.len() - k,
{
    if k == steps.len() {
        assert(steps.subrange(0, k) =~= steps);
    } else {
        let shorter = steps.drop_last();
        assert(shorter.subrange(0, k) =~= steps.subrange(0, k));
        lemma_writes_prefix(shorter, k);
    }
}

/// Applies the writes of a pass to the text the pass was made over, in
/// order.
pub fn apply_writes(contents: &mut Vec<u8>, run: &FileRun)
    requires
        independent_edits(old(contents)@.len() as int, writes(run.step_views())),
    ensures
        final(contents)@ == applied(old(contents)@, writes(run.step_views())),
{
    let ghost start = contents@;
    let ghost all = run.step_views();
    let mut k: usize = 0;
    while k < run.steps.len()
        invariant
            k <= run.steps@.len(),
            all == run.step_views(),
            all.len() == run.steps@.len(),
            independent_edits(start.len() as int, writes(all)),
            contents@ == applied(start, writes(all.subrange(0, k as int))),
        decreases run.steps@.len() - k,
    {
        let ghost pre = all.subrange(0, k as int);
        let ghost post = all.subrange(0, k + 1);
        assert(post.drop_last() =~= pre);
        assert(post.last() == run.steps@[k as int]@);
        proof {
            lemma_writes_prefix(all, k + 1);
            lemma_writes_prefix(all, k as int);
            let wp = writes(pre);
            let wa = writes(all);
            assert forall|i: int| 0 <= i < wp.len() implies (#[trigger] wp[i]).wf() && wp[i].end
                <= start.len() by {
                assert(wp[i] == wa[i]);
            }
            assert forall|i: int, j: int|
                0 <= i < wp.len() && 0 <= j < wp.len() && i != j implies disjoint(
                #[trigger] wp[i],
                #[trigger] wp[j],
            ) by {
                assert(wp[i] == wa[i] && wp[j] == wa[j]);
            }
            lemma_applied_pointwise(start, wp);
        }
        match &run.steps[k].outcome {
            Outcome::Write(w) => {
                assert(writes(post) == writes(pre).push(w@));
                assert(writes(post)[writes(pre).len() as int] == w@);
                assert(writes(all)[writes(pre).len() as int] == w@);
                apply_edit(contents, w);
                assert(writes(pre).push(w@).drop_last() =~= writes(pre));
            },
            _ => {
                assert(writes(post) == writes(pre));
            },
        }
        k = k + 1;
    }
    assert(all.subrange(0, k as int) =~= all);
}

} // verus!
