//! The directive functions, and how one of them rewrites a span.
use crate::arguments::{
    matches_keyword_or_string, matches_pattern, parse_argument, resolved, unquoted,
};
use crate::config::Config;
use crate::errors::{ArgumentKind, DotfilesError, ErrorView};
use crate::matching::{get_nth_match, get_single_match, nth_match};
use crate::text::{bytes_equal, copy_range, to_vec, MatchedText, Span};
use vstd::prelude::*;

verus! {

/// The functions a directive can call.
#[derive(Debug, Clone, Copy, PartialEq, Eq, Structural)]
pub enum FunctionKind {
    /// `replace(pattern, value)`
    Replace,
    /// `replace-col(value)`, also spelt `replace-colour`
    ReplaceCol,
    /// `replace-pattern(pattern, value, narrowing pattern)`
    ReplacePattern,
    /// `replace-pattern-col(value, narrowing pattern)`
    ReplacePatternCol,
}

/// The source of the regular expression for a colour code:
/// `#[A-Za-z0-9]{6}`.
pub open spec fn hex_colour_regex() -> Seq<u8> {
    seq![35u8, 91, 65, 45, 90, 97, 45, 122, 48, 45, 57, 93, 123, 54, 125]
}

/// The source of the regular expression for a colour code.
pub fn hex_colour_regex_exec() -> (r: Vec<u8>)
    ensures
        r@ == hex_colour_regex(),
{
    vec![35u8, 91, 65, 45, 90, 97, 45, 122, 48, 45, 57, 93, 123, 54, 125]
}

/// `replace`
pub open spec fn replace_name() -> Seq<u8> {
    seq![114u8, 101, 112, 108, 97, 99, 101]
}

/// `-col`
pub open spec fn col_suffix() -> Seq<u8> {
    seq![45u8, 99, 111, 108]
}

/// `our`, which turns `-col` into `-colour`
pub open spec fn our_suffix() -> Seq<u8> {
    seq![111u8, 117, 114]
}

/// `-pattern`
pub open spec fn pattern_suffix() -> Seq<u8> {
    seq![45u8, 112, 97, 116, 116, 101, 114, 110]
}

/// The function a name calls, if any.
pub open spec fn function_kind(name: Seq<u8>) -> Option<FunctionKind> {
    if name == replace_name() {
        Some(FunctionKind::Replace)
    } else if name == replace_name() + col_suffix() || name == replace_name() + col_suffix()
        + our_suffix() {
        Some(FunctionKind::ReplaceCol)
    } else if name == replace_name() + pattern_suffix() {
        Some(FunctionKind::ReplacePattern)
    } else if name == replace_name() + pattern_suffix() + col_suffix() {
        Some(FunctionKind::ReplacePatternCol)
    } else {
        None
    }
}

/// The shape each argument of a function must have, in order; their
/// number is the function's arity.
pub open spec fn shapes(kind: FunctionKind) -> Seq<ArgumentKind> {
    match kind {
        FunctionKind::Replace => seq![ArgumentKind::Pattern, ArgumentKind::KeywordOrString],
        FunctionKind::ReplaceCol => seq![ArgumentKind::KeywordOrString],
        FunctionKind::ReplacePattern => seq![
            ArgumentKind::Pattern,
            ArgumentKind::KeywordOrString,
            ArgumentKind::Pattern,
        ],
        FunctionKind::ReplacePatternCol => seq![
            ArgumentKind::KeywordOrString,
            ArgumentKind::Pattern,
        ],
    }
}

pub open spec fn has_shape(kind: ArgumentKind, arg: Seq<u8>) -> bool {
    match kind {
        ArgumentKind::Pattern => crate::arguments::is_pattern(arg),
        ArgumentKind::KeywordOrString => crate::arguments::is_keyword_or_string(arg),
    }
}

/// The first argument from `i` on that lacks the shape its position asks
/// for.
pub open spec fn first_misshapen(wanted: Seq<ArgumentKind>, args: Seq<Seq<u8>>, i: int) -> Option<
    int,
>
    decreases args.len() - i,
{
    if i < 0 || i >= args.len() || i >= wanted.len() {
        None
    } else if !has_shape(wanted[i], args[i]) {
        Some(i)
    } else {
        first_misshapen(wanted, args, i + 1)
    }
}

/// What a directive of this kind searches for, what it puts in, and what
/// it narrows both to, read from its (well-shaped) arguments.
pub open spec fn operands(kind: FunctionKind, args: Seq<Seq<u8>>) -> (Seq<u8>, Seq<u8>, Option<
    Seq<u8>,
>) {
    match kind {
        FunctionKind::Replace => (unquoted(args[0]), args[1], None),
        FunctionKind::ReplaceCol => (hex_colour_regex(), args[0], None),
        FunctionKind::ReplacePattern => (unquoted(args[0]), args[1], Some(unquoted(args[2]))),
        FunctionKind::ReplacePatternCol => (hex_colour_regex(), args[0], Some(unquoted(args[1]))),
    }
}

/// The last step of a replacement: `value` must be as long as the located
/// `target`; when the two already agree nothing is written, otherwise
/// `value` is written over the target's range.
pub open spec fn planned(target: Span, value: Seq<u8>) -> Result<Option<Span>, ErrorView> {
    if target.text.len() != value.len() {
        Err(ErrorView::ReplaceTextDifferentLength { text_to_replace: target.text, replace_text: value })
    } else if target.text == value {
        Ok(None)
    } else {
        Ok(Some(Span { start: target.start, end: target.end, text: value }))
    }
}

/// Where a replacement in `text` lands and what it puts there: resolve
/// the value; find the `nth` match of `pattern`; when there is a narrowing
/// pattern, take its first match inside that match and inside the value.
pub open spec fn settled(
    config: &Config,
    pattern: Seq<u8>,
    value_arg: Seq<u8>,
    narrow: Option<Seq<u8>>,
    text: Span,
    nth: nat,
) -> Result<(Span, Seq<u8>), ErrorView> {
    match resolved(config, value_arg) {
        Err(e) => Err(e),
        Ok(value) => match nth_match(pattern, text, nth) {
            Err(e) => Err(e),
            Ok(target) => match narrow {
                None => Ok((target, value)),
                Some(inner) => match nth_match(inner, target, 0) {
                    Err(e) => Err(e),
                    Ok(narrowed) => match nth_match(
                        inner,
                        Span { start: 0, end: value.len() as int, text: value },
                        0,
                    ) {
                        Err(e) => Err(e),
                        Ok(narrowed_value) => Ok((narrowed, narrowed_value.text)),
                    },
                },
            },
        },
    }
}

/// A replacement in `text`: where it lands (see [`settled`]), then the
/// write it plans there (see [`planned`]).
pub open spec fn replaced(
    config: &Config,
    pattern: Seq<u8>,
    value_arg: Seq<u8>,
    narrow: Option<Seq<u8>>,
    text: Span,
    nth: nat,
) -> Result<Option<Span>, ErrorView> {
    match settled(config, pattern, value_arg, narrow, text, nth) {
        Err(e) => Err(e),
        Ok((target, value)) => planned(target, value),
    }
}

/// A replacement that succeeds writes the resolved (and narrowed) value
/// over the located span, and the two have the same length in bytes.
pub proof fn lemma_replacement_keeps_length(
    config: &Config,
    pattern: Seq<u8>,
    value_arg: Seq<u8>,
    narrow: Option<Seq<u8>>,
    text: Span,
    nth: nat,
)
    requires
        replaced(config, pattern, value_arg, narrow, text, nth) is Ok,
    ensures
        settled(config, pattern, value_arg, narrow, text, nth) is Ok,
        ({
            let (target, value) = settled(config, pattern, value_arg, narrow, text, nth)->Ok_0;
            &&& target.text.len() == value.len()
            &&& replaced(config, pattern, value_arg, narrow, text, nth) matches Ok(Some(w)) ==> (w
                == Span { start: target.start, end: target.end, text: value })
        }),
{
}

/// `text` after the write `w`, which lies inside it.
pub open spec fn rewritten(text: Span, w: Span) -> Span {
    Span {
        start: text.start,
        end: text.end,
        text: text.text.subrange(0, w.start - text.start) + w.text + text.text.subrange(
            w.end - text.start,
            text.text.len() as int,
        ),
    }
}

/// A second run over a rewritten text makes no further write, as long as
/// its search lands on the span that the first run wrote (`w`).
pub proof fn lemma_second_run_writes_nothing(
    config: &Config,
    pattern: Seq<u8>,
    value_arg: Seq<u8>,
    narrow: Option<Seq<u8>>,
    text: Span,
    nth: nat,
    w: Span,
)
    requires
        text.wf(),
        w.wf(),
        w.within(text),
        replaced(config, pattern, value_arg, narrow, text, nth) == Ok::<Option<Span>, ErrorView>(
            Some(w),
        ),
        settled(config, pattern, value_arg, narrow, rewritten(text, w), nth) is Ok,
        settled(config, pattern, value_arg, narrow, rewritten(text, w), nth)->Ok_0.0 == (Span {
            start: w.start,
            end: w.end,
            text: rewritten(text, w).text.subrange(w.start - text.start, w.end - text.start),
        }),
    ensures
        replaced(config, pattern, value_arg, narrow, rewritten(text, w), nth) == Ok::<
            Option<Span>,
            ErrorView,
        >(None),
{
    let again = rewritten(text, w);
    assert(again.text.subrange(w.start - text.start, w.end - text.start) =~= w.text);
}

/// What carrying out one directive leads to.
#[derive(Debug)]
pub enum Outcome {
    /// The function name is unknown; the directive is passed over.
    Skipped,
    /// The text already holds the value; nothing is written.
    Unchanged,
    /// This span is to be written into the file.
    Write(MatchedText),
}

pub enum OutcomeView {
    Skipped,
    Unchanged,
    Write(Span),
}

impl View for Outcome {
    type V = OutcomeView;

    open spec fn view(&self) -> OutcomeView {
        match self {
            Outcome::Skipped => OutcomeView::Skipped,
            Outcome::Unchanged => OutcomeView::Unchanged,
            Outcome::Write(m) => OutcomeView::Write(m@),
        }
    }
}

/// What the directive `name(args)` does to `text`.
pub open spec fn ran(config: &Config, name: Seq<u8>, args: Seq<Seq<u8>>, text: Span, nth: nat) -> Result<
    OutcomeView,
    ErrorView,
> {
    match function_kind(name) {
        None => Ok(OutcomeView::Skipped),
        Some(kind) => if args.len() != shapes(kind).len() {
            Err(ErrorView::FuncArgumentError { name, needed: shapes(kind).len(), args })
        } else {
            match first_misshapen(shapes(kind), args, 0) {
                Some(i) => Err(ErrorView::ArgumentShapeError { kind: shapes(kind)[i], arg: args[i] }),
                None => {
                    let (pattern, value_arg, narrow) = operands(kind, args);
                    match replaced(config, pattern, value_arg, narrow, text, nth) {
                        Err(e) => Err(e),
                        Ok(None) => Ok(OutcomeView::Unchanged),
                        Ok(Some(w)) => Ok(OutcomeView::Write(w)),
                    }
                },
            }
        },
    }
}

/// Carrying a directive out again over the text its first run rewrote
/// leaves that text alone, as long as the second search lands on the span
/// that the first run wrote (`w`).
pub proof fn lemma_directive_second_run_unchanged(
    config: &Config,
    name: Seq<u8>,
    args: Seq<Seq<u8>>,
    text: Span,
    nth: nat,
    w: Span,
)
    requires
        text.wf(),
        w.wf(),
        w.within(text),
        ran(config, name, args, text, nth) == Ok::<OutcomeView, ErrorView>(OutcomeView::Write(w)),
        ({
            let (pattern, value_arg, narrow) = operands(function_kind(name)->0, args);
            &&& settled(config, pattern, value_arg, narrow, rewritten(text, w), nth) is Ok
            &&& settled(config, pattern, value_arg, narrow, rewritten(text, w), nth)->Ok_0.0 == (
            Span {
                start: w.start,
                end: w.end,
                text: rewritten(text, w).text.subrange(w.start - text.start, w.end - text.start),
            })
        }),
    ensures
        ran(config, name, args, rewritten(text, w), nth) == Ok::<OutcomeView, ErrorView>(
            OutcomeView::Unchanged,
        ),
{
    let kind = function_kind(name)->0;
    let (pattern, value_arg, narrow) = operands(kind, args);
    assert(replaced(config, pattern, value_arg, narrow, text, nth) == Ok::<
        Option<Span>,
        ErrorView,
    >(Some(w)));
    lemma_second_run_writes_nothing(config, pattern, value_arg, narrow, text, nth, w);
}

/// `replace(pattern, keyword)` where the active theme does not define the
/// keyword fails with `ArgNotFound` before any search is made.
pub proof fn lemma_replace_with_unknown_keyword_fails(
    config: &Config,
    pattern_arg: Seq<u8>,
    arg: Seq<u8>,
    text: Span,
    nth: nat,
    t: int,
)
    requires
        crate::arguments::is_pattern(pattern_arg),
        config.active_theme() == Ok::<int, ErrorView>(t),
        crate::arguments::is_keyword(arg),
        forall|i: int|
            0 <= i < config.themes@[t].variables@.len() ==> crate::config::bytes_of(
                #[trigger] config.themes@[t].variables@[i].0,
            ) != arg,
    ensures
        ran(config, replace_name(), seq![pattern_arg, arg], text, nth) == Err::<
            OutcomeView,
            ErrorView,
        >(ErrorView::ArgNotFound { arg, theme: config.themes@[t].variables.deep_view() }),
{
    crate::arguments::lemma_unknown_keyword_is_an_error(config, arg, t);
    let args = seq![pattern_arg, arg];
    assert(function_kind(replace_name()) == Some(FunctionKind::Replace));
    assert(has_shape(ArgumentKind::Pattern, args[0]));
    assert(has_shape(ArgumentKind::KeywordOrString, args[1]));
    assert(first_misshapen(shapes(FunctionKind::Replace), args, 2) is None);
    assert(first_misshapen(shapes(FunctionKind::Replace), args, 1) is None);
    assert(first_misshapen(shapes(FunctionKind::Replace), args, 0) is None);
}

pub open spec fn option_view(o: Option<MatchedText>) -> Option<Span> {
    match o {
        Some(m) => Some(m@),
        None => None,
    }
}

/// Decides the write for a located `target` and the `value` to put there
/// (see [`planned`]).
pub fn plan_replacement(target: MatchedText, value: Vec<u8>) -> (r: Result<Option<MatchedText>, DotfilesError>)
    requires
        target@.wf(),
    ensures
        match r {
            Ok(w) => planned(target@, value@) == Ok::<Option<Span>, ErrorView>(option_view(w)),
            Err(e) => planned(target@, value@) == Err::<Option<Span>, ErrorView>(e@),
        },
        r matches Ok(Some(w)) ==> w@.wf() && w@.start == target@.start && w@.end == target@.end,
{
    if target.range.end - target.range.start != value.len() {
        return Err(
            DotfilesError::ReplaceTextDifferentLength {
                text_to_replace: target.text,
                replace_text: value,
            },
        );
    }
    if bytes_equal(&target.text, &value) {
        Ok(None)
    } else {
        Ok(Some(MatchedText { range: target.range.start..target.range.end, text: value }))
    }
}

/// Carries out a replacement in `text` (see [`replaced`]).
pub fn replace_fn(
    config: &Config,
    pattern: &[u8],
    value_arg: &[u8],
    narrow: Option<&[u8]>,
    text: &MatchedText,
    nth: usize,
) -> (r: Result<Option<MatchedText>, DotfilesError>)
    requires
        config.wf(),
        text@.wf(),
    ensures
        match r {
            Ok(w) => replaced(
                config,
                pattern@,
                value_arg@,
                match narrow {
                    Some(p) => Some(p@),
                    None => None,
                },
                text@,
                nth as nat,
            ) == Ok::<Option<Span>, ErrorView>(option_view(w)),
            Err(e) => replaced(
                config,
                pattern@,
                value_arg@,
                match narrow {
                    Some(p) => Some(p@),
                    None => None,
                },
                text@,
                nth as nat,
            ) == Err::<Option<Span>, ErrorView>(e@),
        },
        r matches Ok(Some(w)) ==> w@.wf() && w@.within(text@),
{
    let value = match parse_argument(config, value_arg) {
        Ok(v) => v,
        Err(e) => {
            return Err(e);
        },
    };
    let target = match get_nth_match(pattern, text, nth) {
        Ok(t) => t,
        Err(e) => {
            return Err(e);
        },
    };
    match narrow {
        None => plan_replacement(target, value),
        Some(inner) => {
            let narrowed = match get_single_match(inner, &target) {
                Ok(t) => t,
                Err(e) => {
                    return Err(e);
                },
            };
            let value_len = value.len();
            let whole_value = MatchedText { range: 0..value_len, text: value };
            let narrowed_value = match get_single_match(inner, &whole_value) {
                Ok(v) => v,
                Err(e) => {
                    return Err(e);
                },
            };
            plan_replacement(narrowed, narrowed_value.text)
        },
    }
}

/// Which function `name` calls (see [`function_kind`]).
pub fn function_kind_exec(name: &[u8]) -> (r: Option<FunctionKind>)
    ensures
        r == function_kind(name@),
{
    let replace = vec![114u8, 101, 112, 108, 97, 99, 101];
    let replace_col = vec![114u8, 101, 112, 108, 97, 99, 101, 45, 99, 111, 108];
    let replace_colour = vec![114u8, 101, 112, 108, 97, 99, 101, 45, 99, 111, 108, 111, 117, 114];
    let replace_pattern = vec![114u8, 101, 112, 108, 97, 99, 101, 45, 112, 97, 116, 116, 101, 114, 110];
    let replace_pattern_col = vec![
        114u8, 101, 112, 108, 97, 99, 101, 45, 112, 97, 116, 116, 101, 114, 110, 45, 99, 111, 108,
    ];
    assert(replace@ =~= replace_name());
    assert(replace_col@ =~= replace_name() + col_suffix());
    assert(replace_colour@ =~= replace_name() + col_suffix() + our_suffix());
    assert(replace_pattern@ =~= replace_name() + pattern_suffix());
    assert(replace_pattern_col@ =~= replace_name() + pattern_suffix() + col_suffix());
    if bytes_equal(name, &replace) {
        Some(FunctionKind::Replace)
    } else if bytes_equal(name, &replace_col) || bytes_equal(name, &replace_colour) {
        Some(FunctionKind::ReplaceCol)
    } else if bytes_equal(name, &replace_pattern) {
        Some(FunctionKind::ReplacePattern)
    } else if bytes_equal(name, &replace_pattern_col) {
        Some(FunctionKind::ReplacePatternCol)
    } else {
        None
    }
}

fn shapes_exec(kind: FunctionKind) -> (r: Vec<ArgumentKind>)
    ensures
        r@ == shapes(kind),
{
    match kind {
        FunctionKind::Replace => vec![ArgumentKind::Pattern, ArgumentKind::KeywordOrString],
        FunctionKind::ReplaceCol => vec![ArgumentKind::KeywordOrString],
        FunctionKind::ReplacePattern => vec![
            ArgumentKind::Pattern,
            ArgumentKind::KeywordOrString,
            ArgumentKind::Pattern,
        ],
        FunctionKind::ReplacePatternCol => vec![
            ArgumentKind::KeywordOrString,
            ArgumentKind::Pattern,
        ],
    }
}

/// A copy of a list of arguments.
pub fn copy_args(args: &Vec<Vec<u8>>) -> (r: Vec<Vec<u8>>)
    ensures
        r.deep_view() == args.deep_view(),
{
    let mut r: Vec<Vec<u8>> = Vec::new();
    let mut k: usize = 0;
    while k < args.len()
        invariant
            k <= args@.len(),
            r@.len() == k,
            forall|j: int| 0 <= j < k ==> (#[trigger] r@[j])@ == args@[j]@,
        decreases args@.len() - k,
    {
        r.push(to_vec(&args[k]));
        k = k + 1;
    }
    assert(r.deep_view() =~= args.deep_view()) by {
        assert forall|j: int| 0 <= j < k implies #[trigger] r.deep_view()[j]
            == args.deep_view()[j] by {
            assert(r.deep_view()[j] == r@[j]@);
            assert(args.deep_view()[j] == args@[j]@);
        }
    }
    r
}

fn unquote_exec(arg: &[u8]) -> (r: Vec<u8>)
    requires
        arg@.len() >= 2,
    ensures
        r@ == unquoted(arg@),
{
    copy_range(arg, 1, arg.len() - 1)
}

/// Carries out the directive `name(args)` on `text` (see [`ran`]); `nth`
/// picks which match of the pattern is replaced, from zero.
pub fn run_function(
    config: &Config,
    name: &[u8],
    args: &Vec<Vec<u8>>,
    text: &MatchedText,
    nth: usize,
) -> (r: Result<Outcome, DotfilesError>)
    requires
        config.wf(),
        text@.wf(),
    ensures
        match r {
            Ok(o) => ran(config, name@, args.deep_view(), text@, nth as nat) == Ok::<
                OutcomeView,
                ErrorView,
            >(o@),
            Err(e) => ran(config, name@, args.deep_view(), text@, nth as nat) == Err::<
                OutcomeView,
                ErrorView,
            >(e@),
        },
        r matches Ok(Outcome::Write(w)) ==> w@.wf() && w@.within(text@),
{
    let ghost a = args.deep_view();
    let kind = match function_kind_exec(name) {
        None => {
            return Ok(Outcome::Skipped);
        },
        Some(k) => k,
    };
    let wanted = shapes_exec(kind);
    if args.len() != wanted.len() {
        return Err(
            DotfilesError::FuncArgumentError {
                name: to_vec(name),
                needed: wanted.len(),
                args: copy_args(args),
            },
        );
    }
    let mut i: usize = 0;
    while i < wanted.len()
        invariant
            a == args.deep_view(),
            a.len() == args@.len(),
            function_kind(name@) == Some(kind),
            wanted@ == shapes(kind),
            args@.len() == wanted@.len(),
            i <= wanted@.len(),
            first_misshapen(shapes(kind), a, 0) == first_misshapen(shapes(kind), a, i as int),
        decreases wanted@.len() - i,
    {
        assert(a[i as int] == args@[i as int]@);
        let checked = match wanted[i] {
            ArgumentKind::Pattern => matches_pattern(&args[i]),
            ArgumentKind::KeywordOrString => matches_keyword_or_string(&args[i]),
        };
        if let Err(e) = checked {
            assert(first_misshapen(shapes(kind), a, i as int) == Some(i as int));
            return Err(e);
        }
        i = i + 1;
    }
    assert(first_misshapen(shapes(kind), a, 0) is None);
    proof {
        assert forall|j: int| 0 <= j < a.len() implies has_shape(shapes(kind)[j], a[j]) by {
            lemma_no_misshapen(shapes(kind), a, 0, j);
        }
    }
    let result = match kind {
        FunctionKind::Replace => {
            assert(a[0] == args@[0]@ && a[1] == args@[1]@);
            replace_fn(config, &unquote_exec(&args[0]), &args[1], None, text, nth)
        },
        FunctionKind::ReplaceCol => {
            assert(a[0] == args@[0]@);
            replace_fn(config, &hex_colour_regex_exec(), &args[0], None, text, nth)
        },
        FunctionKind::ReplacePattern => {
            assert(a[0] == args@[0]@ && a[1] == args@[1]@ && a[2] == args@[2]@);
            let inner = unquote_exec(&args[2]);
            replace_fn(config, &unquote_exec(&args[0]), &args[1], Some(inner.as_slice()), text, nth)
        },
        FunctionKind::ReplacePatternCol => {
            assert(a[0] == args@[0]@ && a[1] == args@[1]@);
            let inner = unquote_exec(&args[1]);
            replace_fn(config, &hex_colour_regex_exec(), &args[0], Some(inner.as_slice()), text, nth)
        },
    };
    match result {
        Ok(None) => Ok(Outcome::Unchanged),
        Ok(Some(w)) => Ok(Outcome::Write(w)),
        Err(e) => Err(e),
    }
}

proof fn lemma_no_misshapen(wanted: Seq<ArgumentKind>, args: Seq<Seq<u8>>, i: int, j: int)
    requires
        first_misshapen(wanted, args, i) is None,
        0 <= i <= j < args.len(),
        j < wanted.len(),
    ensures
        has_shape(wanted[j], args[j]),
    decreases j - i,
{
    if i < j {
        lemma_no_misshapen(wanted, args, i + 1, j);
    }
}

} // verus!
