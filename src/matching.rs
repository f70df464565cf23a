//! Finding where a regular expression matches inside a span.
use crate::errors::{DotfilesError, ErrorView};
use crate::text::{to_vec, MatchedText, Span};
use vstd::prelude::*;

verus! {

/// Whether the regular expression whose source is `pattern` can be built.
pub uninterp spec fn regex_accepts(pattern: Seq<u8>) -> bool;

/// The byte range of the `n`-th (from zero) of the successive,
/// non-overlapping, leftmost-first matches of `pattern` in `hay`.
pub uninterp spec fn regex_nth_match(pattern: Seq<u8>, hay: Seq<u8>, n: nat) -> Option<(int, int)>;

/// Relies on `regex::bytes::Regex::new`, which builds the expression from
/// the pattern (its bytes read as UTF-8) or returns why it cannot, and on
/// `Regex::find_iter`, which yields the successive non-overlapping
/// leftmost-first matches, each a range `start <= end` inside the haystack.
#[verifier::external_body]
fn find_nth_match(pattern: &[u8], hay: &[u8], n: usize) -> (r: Result<
    Option<(usize, usize)>,
    regex::Error,
>)
    ensures
        r is Ok <==> regex_accepts(pattern@),
        match r {
            Ok(Some((s, e))) => regex_nth_match(pattern@, hay@, n as nat) == Some(
                (s as int, e as int),
            ) && s <= e <= hay@.len(),
            Ok(None) => regex_nth_match(pattern@, hay@, n as nat) is None,
            Err(_) => true,
        },
{
    let re = regex::bytes::Regex::new(&String::from_utf8_lossy(pattern))?;
    let found = re.find_iter(hay).nth(n).map(|m| (m.start(), m.end()));
    Ok(found)
}

/// What searching `text` for the `n`-th match of `pattern` gives: the
/// matched part, placed where it lies in the file, or the reason there is
/// none.
pub open spec fn nth_match(pattern: Seq<u8>, text: Span, n: nat) -> Result<Span, ErrorView> {
    if !regex_accepts(pattern) {
        Err(ErrorView::RegexFail { regex_str: pattern })
    } else {
        located(pattern, text, n, regex_nth_match(pattern, text.text, n))
    }
}

/// The matched part of `text` for a search whose outcome was `found`.
pub open spec fn located(pattern: Seq<u8>, text: Span, n: nat, found: Option<(int, int)>) -> Result<
    Span,
    ErrorView,
> {
    match found {
        Some((s, e)) => Ok(
            Span { start: text.start + s, end: text.start + e, text: text.text.subrange(s, e) },
        ),
        None => if n == 0 {
            Err(ErrorView::RegexMatchError { regex_str: pattern, hay: text.text })
        } else {
            Err(ErrorView::RegexNthMatchError { regex_str: pattern, hay: text.text, capture_index: n })
        },
    }
}

/// Turns the outcome `found` of a search for the `n`-th match of
/// `pattern` in `text` into the matched span, or into the error that says
/// there were too few matches.
pub fn locate_match(pattern: &[u8], text: &MatchedText, n: usize, found: Option<(usize, usize)>) -> (r: Result<MatchedText, DotfilesError>)
    requires
        text@.wf(),
        found matches Some((s, e)) ==> s <= e <= text.text@.len(),
    ensures
        match r {
            Ok(m) => located(pattern@, text@, n as nat, match found {
                Some((s, e)) => Some((s as int, e as int)),
                None => None,
            }) == Ok::<Span, ErrorView>(m@) && m@.wf() && m@.within(text@),
            Err(e) => located(pattern@, text@, n as nat, match found {
                Some((s, e)) => Some((s as int, e as int)),
                None => None,
            }) == Err::<Span, ErrorView>(e@),
        },
{
    match found {
        Some((s, e)) => Ok(MatchedText::sub_span(text, s, e)),
        None => if n == 0 {
            Err(DotfilesError::RegexMatchError { regex_str: to_vec(pattern), hay: to_vec(&text.text) })
        } else {
            Err(
                DotfilesError::RegexNthMatchError {
                    regex_str: to_vec(pattern),
                    hay: to_vec(&text.text),
                    capture_index: n,
                },
            )
        },
    }
}

/// The `n`-th (from zero) match of the regular expression `pattern` in
/// `text`, with its offsets in the file.
pub fn get_nth_match(pattern: &[u8], text: &MatchedText, n: usize) -> (r: Result<MatchedText, DotfilesError>)
    requires
        text@.wf(),
    ensures
        match r {
            Ok(m) => nth_match(pattern@, text@, n as nat) == Ok::<Span, ErrorView>(m@) && m@.wf()
                && m@.within(text@),
            Err(e) => nth_match(pattern@, text@, n as nat) == Err::<Span, ErrorView>(e@),
        },
{
    match find_nth_match(pattern, &text.text, n) {
        Ok(found) => locate_match(pattern, text, n, found),
        Err(error) => Err(DotfilesError::RegexFail { regex_str: to_vec(pattern), error }),
    }
}

/// The first match of the regular expression `pattern` in `text`.
pub fn get_single_match(pattern: &[u8], text: &MatchedText) -> (r: Result<MatchedText, DotfilesError>)
    requires
        text@.wf(),
    ensures
        match r {
            Ok(m) => nth_match(pattern@, text@, 0) == Ok::<Span, ErrorView>(m@) && m@.wf()
                && m@.within(text@),
            Err(e) => nth_match(pattern@, text@, 0) == Err::<Span, ErrorView>(e@),
        },
{
    get_nth_match(pattern, text, 0)
}

} // verus!
