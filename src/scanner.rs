//! Finds the marked lines of a file and splits each at its marker.
use crate::text::{MatchedText, Span};
use vstd::prelude::*;

verus! {

pub const NEWLINE: u8 = 10;

/// `pat` stands in `s` at offset `j`.
pub open spec fn occurs_at(s: Seq<u8>, pat: Seq<u8>, j: int) -> bool {
    0 <= j && j + pat.len() <= s.len() && s.subrange(j, j + pat.len()) == pat
}

/// The first offset in `from..to` at which `pat` stands wholly before `to`.
pub open spec fn first_occurrence(s: Seq<u8>, pat: Seq<u8>, from: int, to: int) -> Option<int>
    decreases to - from,
{
    if from < 0 || from + pat.len() > to {
        None
    } else if occurs_at(s, pat, from) {
        Some(from)
    } else if from >= to {
        None
    } else {
        first_occurrence(s, pat, from + 1, to)
    }
}

/// The marked lines of `s` from offset `i` on, where the current line began
/// at `line_start`: for each, where the line starts, where its first marker
/// stands, and where the line ends (at a newline or at the end of `s`).
pub open spec fn marked_from(s: Seq<u8>, marker: Seq<u8>, line_start: int, i: int) -> Seq<
    (int, int, int),
>
    decreases s.len() - i,
{
    if 0 <= i < s.len() && s[i] != NEWLINE {
        marked_from(s, marker, line_start, i + 1)
    } else {
        let here = match first_occurrence(s, marker, line_start, i) {
            Some(p) => seq![(line_start, p, i)],
            None => Seq::empty(),
        };
        if 0 <= i < s.len() {
            here + marked_from(s, marker, i + 1, i + 1)
        } else {
            here
        }
    }
}

/// Every line of `s` that holds `marker`, in file order.
pub open spec fn marked_lines(s: Seq<u8>, marker: Seq<u8>) -> Seq<(int, int, int)> {
    marked_from(s, marker, 0, 0)
}

/// The two halves of a marked line: what precedes the marker, and what
/// follows it up to the end of the line.
pub open spec fn halves(s: Seq<u8>, marker: Seq<u8>, line: (int, int, int)) -> (Span, Span) {
    let (start, at, end) = line;
    (
        Span { start, end: at, text: s.subrange(start, at) },
        Span { start: at + marker.len(), end, text: s.subrange(at + marker.len(), end) },
    )
}

/// Whether `pat` stands in `s` at offset `j`.
fn occurs_at_exec(s: &[u8], pat: &[u8], j: usize) -> (r: bool)
    requires
        j + pat@.len() <= s@.len(),
    ensures
        r == occurs_at(s@, pat@, j as int),
{
    let n = s.len();
    let mut k: usize = 0;
    while k < pat.len()
        invariant
            n == s@.len(),
            j + pat@.len() <= s@.len(),
            k <= pat@.len(),
            s@.subrange(j as int, j + k) == pat@.subrange(0, k as int),
        decreases pat@.len() - k,
    {
        if s[j + k] != pat[k] {
            assert(s@.subrange(j as int, j + pat@.len())[k as int] != pat@[k as int]);
            return false;
        }
        assert(s@.subrange(j as int, j + k + 1) =~= s@.subrange(j as int, j + k).push(
            s@[j + k],
        ));
        assert(pat@.subrange(0, k + 1) =~= pat@.subrange(0, k as int).push(pat@[k as int]));
        k = k + 1;
    }
    assert(pat@.subrange(0, k as int) =~= pat@);
    true
}

/// The first offset in `from..to` at which `pat` stands wholly before `to`.
pub fn find_first(s: &[u8], pat: &[u8], from: usize, to: usize) -> (r: Option<usize>)
    requires
        from <= to <= s@.len(),
    ensures
        match r {
            Some(p) => first_occurrence(s@, pat@, from as int, to as int) == Some(p as int),
            None => first_occurrence(s@, pat@, from as int, to as int) is None,
        },
{
    let mut j: usize = from;
    while pat.len() <= to - j
        invariant
            from <= j <= to,
            to <= s@.len(),
            first_occurrence(s@, pat@, from as int, to as int) == first_occurrence(
                s@,
                pat@,
                j as int,
                to as int,
            ),
        decreases to + 1 - j,
    {
        if occurs_at_exec(s, pat, j) {
            return Some(j);
        }
        if j == to {
            return None;
        }
        j = j + 1;
    }
    None
}

/// Every line of `contents` that holds `marker`, split at the first marker
/// of the line into the text before it and the text after it, each with
/// its offsets in `contents`. Lines end at a newline byte.
pub fn scan_marked_lines(contents: &[u8], marker: &[u8]) -> (r: Vec<(MatchedText, MatchedText)>)
    ensures
        r@.len() == marked_lines(contents@, marker@).len(),
        forall|k: int|
            0 <= k < r@.len() ==> (#[trigger] r@[k].0@, r@[k].1@) == halves(
                contents@,
                marker@,
                marked_lines(contents@, marker@)[k],
            ),
{
    let ghost s = contents@;
    let ghost m = marker@;
    let mut r: Vec<(MatchedText, MatchedText)> = Vec::new();
    let mut line_start: usize = 0;
    let mut i: usize = 0;
    let len = contents.len();
    loop
        invariant
            len == s.len(),
            s == contents@,
            m == marker@,
            line_start <= i <= len,
            r@.len() + marked_from(s, m, line_start as int, i as int).len() == marked_lines(
                s,
                m,
            ).len(),
            forall|k: int|
                0 <= k < r@.len() ==> (#[trigger] r@[k].0@, r@[k].1@) == halves(
                    s,
                    m,
                    marked_lines(s, m)[k],
                ),
            forall|k: int|
                0 <= k < marked_from(s, m, line_start as int, i as int).len() ==> marked_lines(
                    s,
                    m,
                )[r@.len() + k] == #[trigger] marked_from(s, m, line_start as int, i as int)[k],
        decreases len - i,
    {
        if i < len && contents[i] != NEWLINE {
            i = i + 1;
        } else {
            let ghost before = marked_from(s, m, line_start as int, i as int);
            let found = find_first(contents, marker, line_start, i);
            let ghost rest = if i < len {
                marked_from(s, m, i + 1, i + 1)
            } else {
                Seq::<(int, int, int)>::empty()
            };
            match found {
                Some(p) => {
                    proof {
                        lemma_first_occurrence_found(s, m, line_start as int, i as int);
                    }
                    let content = MatchedText::of_file(contents, line_start, p);
                    let directive = MatchedText::of_file(contents, p + marker.len(), i);
                    assert(before[0] == (line_start as int, p as int, i as int));
                    let ghost old_len = r@.len();
                    r.push((content, directive));
                    assert(before == seq![(line_start as int, p as int, i as int)] + rest);
                    assert(marked_lines(s, m)[old_len as int] == before[0]);
                    assert forall|k: int| 0 <= k < rest.len() implies marked_lines(s, m)[r@.len() + k]
                        == #[trigger] rest[k] by {
                        assert(before[1 + k] == rest[k]);
                    }
                },
                None => {
                    assert(before == rest);
                },
            }
            if i < len {
                i = i + 1;
                line_start = i;
            } else {
                assert(rest.len() == 0);
                return r;
            }
        }
    }
}

/// An occurrence that the search finds is one, and lies in the searched
/// range.
pub proof fn lemma_first_occurrence_found(s: Seq<u8>, pat: Seq<u8>, from: int, to: int)
    requires
        first_occurrence(s, pat, from, to) is Some,
        0 <= from,
        to <= s.len(),
    ensures
        occurs_at(s, pat, first_occurrence(s, pat, from, to)->0),
        from <= first_occurrence(s, pat, from, to)->0,
        first_occurrence(s, pat, from, to)->0 + pat.len() <= to,
    decreases to - from,
{
    if from < 0 || from + pat.len() > to {
    } else if occurs_at(s, pat, from) {
    } else if from >= to {
    } else {
        lemma_first_occurrence_found(s, pat, from + 1, to);
    }
}

} // verus!
