//! Reads the function call that follows a marker: `name(arg, arg, ...)`.
use crate::errors::{DotfilesError, ErrorView};
use crate::text::{copy_range, MatchedText};
use vstd::prelude::*;

verus! {

pub const OPEN_PAREN: u8 = 40;
pub const CLOSE_PAREN: u8 = 41;
pub const BACKSLASH: u8 = 92;
pub const COMMA: u8 = 44;
pub const SINGLE_QUOTE: u8 = 39;
pub const DOUBLE_QUOTE: u8 = 34;
pub const AT_SIGN: u8 = 64;

pub open spec fn is_letter(b: u8) -> bool {
    (65 <= b <= 90) || (97 <= b <= 122)
}

pub open spec fn is_digit(b: u8) -> bool {
    48 <= b <= 57
}

/// A byte that may follow the first letter of a name.
pub open spec fn is_name_byte(b: u8) -> bool {
    is_letter(b) || is_digit(b) || b == 95 || b == 45
}

/// Space, tab, line feed, vertical tab, form feed or carriage return.
pub open spec fn is_space(b: u8) -> bool {
    b == 32 || (9 <= b <= 13)
}

/// Where the run of name bytes that starts at `i` ends.
pub open spec fn name_end(s: Seq<u8>, i: int) -> int
    decreases s.len() - i,
{
    if 0 <= i < s.len() && is_name_byte(s[i]) {
        name_end(s, i + 1)
    } else {
        i
    }
}

/// The first `)` at or after `i` that no backslash protects.
pub open spec fn closing_paren(s: Seq<u8>, i: int) -> Option<int>
    decreases s.len() - i,
{
    if i < 0 || i >= s.len() {
        None
    } else if s[i] == BACKSLASH {
        if i + 1 < s.len() {
            closing_paren(s, i + 2)
        } else {
            None
        }
    } else if s[i] == CLOSE_PAREN {
        Some(i)
    } else {
        closing_paren(s, i + 1)
    }
}

/// A call that starts at `p`: the offsets of its `(` and of its `)`.
pub open spec fn call_at(s: Seq<u8>, p: int) -> Option<(int, int)> {
    if 0 <= p < s.len() && is_letter(s[p]) {
        let q = name_end(s, p + 1);
        if q < s.len() && s[q] == OPEN_PAREN {
            match closing_paren(s, q + 1) {
                Some(c) => Some((q, c)),
                None => None,
            }
        } else {
            None
        }
    } else {
        None
    }
}

/// The leftmost directive `@name(...)` whose `@` stands at or after `p`:
/// where its name starts (just after the `@`), its `(` and its `)`.
pub open spec fn first_call(s: Seq<u8>, p: int) -> Option<(int, int, int)>
    decreases s.len() - p,
{
    if p < 0 || p >= s.len() {
        None
    } else if s[p] == AT_SIGN && call_at(s, p + 1) is Some {
        let (q, c) = call_at(s, p + 1)->0;
        Some((p + 1, q, c))
    } else {
        first_call(s, p + 1)
    }
}

/// Whether the reader is just after a backslash, and which quote it is
/// inside (0 outside quotes), having read `s` up to `i`.
pub open spec fn split_state(s: Seq<u8>, i: int) -> (bool, u8)
    decreases i,
{
    if i <= 0 || i > s.len() {
        (false, 0u8)
    } else {
        next_state(split_state(s, i - 1), s[i - 1])
    }
}

pub open spec fn next_state(st: (bool, u8), b: u8) -> (bool, u8) {
    let (escaped, quote) = st;
    if escaped {
        (false, quote)
    } else if b == BACKSLASH {
        (true, quote)
    } else if quote == 0 {
        if b == SINGLE_QUOTE || b == DOUBLE_QUOTE {
            (false, b)
        } else {
            (false, 0u8)
        }
    } else if b == quote {
        (false, 0u8)
    } else {
        (false, quote)
    }
}

/// A comma that is neither escaped nor inside quotes.
pub open spec fn is_separator(s: Seq<u8>, i: int) -> bool {
    s[i] == COMMA && split_state(s, i) == (false, 0u8)
}

/// The pieces of `s` between separators, where the current piece began at
/// `from` and reading has reached `i`.
pub open spec fn pieces_from(s: Seq<u8>, from: int, i: int) -> Seq<Seq<u8>>
    decreases s.len() - i,
{
    if 0 <= i < s.len() && !is_separator(s, i) {
        pieces_from(s, from, i + 1)
    } else if 0 <= i < s.len() {
        seq![s.subrange(from, i)] + pieces_from(s, i + 1, i + 1)
    } else {
        seq![s.subrange(from, s.len() as int)]
    }
}

/// `s` split at its separators.
pub open spec fn pieces(s: Seq<u8>) -> Seq<Seq<u8>> {
    pieces_from(s, 0, 0)
}

/// `t` is the UTF-8 encoding of a white-space character: U+0009 to
/// U+000D, U+0020, U+0085, U+00A0, U+1680, U+2000 to U+200A, U+2028,
/// U+2029, U+202F, U+205F or U+3000.
pub open spec fn is_space_char(t: Seq<u8>) -> bool {
    ||| t.len() == 1 && is_space(t[0])
    ||| t.len() == 2 && t[0] == 0xC2 && (t[1] == 0x85 || t[1] == 0xA0)
    ||| t.len() == 3 && t[0] == 0xE1 && t[1] == 0x9A && t[2] == 0x80
    ||| t.len() == 3 && t[0] == 0xE2 && t[1] == 0x80 && ((0x80 <= t[2] <= 0x8A) || t[2] == 0xA8
        || t[2] == 0xA9 || t[2] == 0xAF)
    ||| t.len() == 3 && t[0] == 0xE2 && t[1] == 0x81 && t[2] == 0x9F
    ||| t.len() == 3 && t[0] == 0xE3 && t[1] == 0x80 && t[2] == 0x80
}

/// How many bytes the white-space character that starts at `i` takes, or
/// 0 when none starts there.
pub open spec fn space_after(s: Seq<u8>, i: int) -> int {
    if 0 <= i && i + 1 <= s.len() && is_space_char(s.subrange(i, i + 1)) {
        1
    } else if 0 <= i && i + 2 <= s.len() && is_space_char(s.subrange(i, i + 2)) {
        2
    } else if 0 <= i && i + 3 <= s.len() && is_space_char(s.subrange(i, i + 3)) {
        3
    } else {
        0
    }
}

/// How many bytes the white-space character that ends at `j`, and starts
/// no earlier than `lo`, takes, or 0 when none ends there.
pub open spec fn space_before(s: Seq<u8>, lo: int, j: int) -> int {
    if lo <= j - 1 && j <= s.len() && is_space_char(s.subrange(j - 1, j)) {
        1
    } else if lo <= j - 2 && j <= s.len() && is_space_char(s.subrange(j - 2, j)) {
        2
    } else if lo <= j - 3 && j <= s.len() && is_space_char(s.subrange(j - 3, j)) {
        3
    } else {
        0
    }
}

pub open spec fn leading_space_end(s: Seq<u8>, i: int) -> int
    decreases s.len() - i,
{
    if space_after(s, i) > 0 {
        leading_space_end(s, i + space_after(s, i))
    } else {
        i
    }
}

pub open spec fn trailing_space_start(s: Seq<u8>, lo: int, j: int) -> int
    decreases j - lo,
{
    if space_before(s, lo, j) > 0 {
        trailing_space_start(s, lo, j - space_before(s, lo, j))
    } else {
        j
    }
}

/// `s` without the white space at either end.
pub open spec fn trimmed(s: Seq<u8>) -> Seq<u8> {
    let lo = leading_space_end(s, 0);
    s.subrange(lo, trailing_space_start(s, lo, s.len() as int))
}

/// The mathematical picture of a [`Directive`].
pub struct DirectiveView {
    pub name: Seq<u8>,
    pub args: Seq<Seq<u8>>,
}

/// The directive that `s` holds, if any: the leftmost call, its name, and
/// its arguments split at separators and trimmed.
pub open spec fn directive_in(s: Seq<u8>) -> Option<DirectiveView> {
    match first_call(s, 0) {
        Some((p, q, c)) => Some(
            DirectiveView {
                name: s.subrange(p, q),
                args: pieces(s.subrange(q + 1, c)).map_values(|a: Seq<u8>| trimmed(a)),
            },
        ),
        None => None,
    }
}

/// A function call read from a marked line.
#[derive(Debug)]
pub struct Directive {
    pub name: Vec<u8>,
    pub args: Vec<Vec<u8>>,
}

impl View for Directive {
    type V = DirectiveView;

    open spec fn view(&self) -> DirectiveView {
        DirectiveView { name: self.name@, args: self.args.deep_view() }
    }
}

fn name_end_exec(s: &[u8], i: usize) -> (r: usize)
    requires
        i <= s@.len(),
    ensures
        r == name_end(s@, i as int),
{
    let mut j: usize = i;
    while j < s.len() && (is_letter_exec(s[j]) || is_digit_exec(s[j]) || s[j] == 95 || s[j] == 45)
        invariant
            i <= j <= s@.len(),
            name_end(s@, i as int) == name_end(s@, j as int),
        decreases s@.len() - j,
    {
        j = j + 1;
    }
    j
}

pub fn is_letter_exec(b: u8) -> (r: bool)
    ensures
        r == is_letter(b),
{
    (65 <= b && b <= 90) || (97 <= b && b <= 122)
}

pub fn is_digit_exec(b: u8) -> (r: bool)
    ensures
        r == is_digit(b),
{
    48 <= b && b <= 57
}

fn closing_paren_exec(s: &[u8], i: usize) -> (r: Option<usize>)
    requires
        i <= s@.len(),
    ensures
        match r {
            Some(c) => closing_paren(s@, i as int) == Some(c as int),
            None => closing_paren(s@, i as int) is None,
        },
{
    let mut j: usize = i;
    while j < s.len()
        invariant
            i <= j <= s@.len() + 1,
            closing_paren(s@, i as int) == closing_paren(s@, j as int),
        decreases s@.len() + 1 - j,
    {
        if s[j] == BACKSLASH {
            if j + 1 < s.len() {
                j = j + 2;
            } else {
                return None;
            }
        } else if s[j] == CLOSE_PAREN {
            return Some(j);
        } else {
            j = j + 1;
        }
    }
    None
}

fn call_at_exec(s: &[u8], p: usize) -> (r: Option<(usize, usize)>)
    requires
        p < s@.len(),
    ensures
        match r {
            Some((q, c)) => call_at(s@, p as int) == Some((q as int, c as int)),
            None => call_at(s@, p as int) is None,
        },
{
    if !is_letter_exec(s[p]) {
        return None;
    }
    let q = name_end_exec(s, p + 1);
    if q < s.len() && s[q] == OPEN_PAREN {
        match closing_paren_exec(s, q + 1) {
            Some(c) => Some((q, c)),
            None => None,
        }
    } else {
        None
    }
}

/// Splits the argument text of a call at its separators and trims each
/// piece.
pub fn split_arguments(s: &[u8]) -> (r: Vec<Vec<u8>>)
    ensures
        r.deep_view() == pieces(s@).map_values(|a: Seq<u8>| trimmed(a)),
{
    let ghost whole = pieces(s@);
    let mut r: Vec<Vec<u8>> = Vec::new();
    let mut from: usize = 0;
    let mut i: usize = 0;
    let mut escaped = false;
    let mut quote: u8 = 0;
    while i < s.len()
        invariant
            from <= i <= s@.len(),
            (escaped, quote) == split_state(s@, i as int),
            r@.len() + pieces_from(s@, from as int, i as int).len() == whole.len(),
            forall|k: int| 0 <= k < r@.len() ==> (#[trigger] r@[k])@ == trimmed(whole[k]),
            forall|k: int|
                0 <= k < pieces_from(s@, from as int, i as int).len() ==> whole[r@.len() + k]
                    == #[trigger] pieces_from(s@, from as int, i as int)[k],
        decreases s@.len() - i,
    {
        let b = s[i];
        let separator = b == COMMA && !escaped && quote == 0;
        assert(separator == is_separator(s@, i as int));
        if separator {
            let ghost before = pieces_from(s@, from as int, i as int);
            let piece = trim_bytes(s, from, i);
            let ghost old_len = r@.len();
            r.push(piece);
            assert(before == seq![s@.subrange(from as int, i as int)] + pieces_from(
                s@,
                i + 1,
                i + 1,
            ));
            assert(whole[old_len as int] == before[0]);
            assert forall|k: int|
                0 <= k < pieces_from(s@, i + 1, i + 1).len() implies whole[r@.len() + k]
                == #[trigger] pieces_from(s@, i + 1, i + 1)[k] by {
                assert(before[1 + k] == pieces_from(s@, i + 1, i + 1)[k]);
            }
            from = i + 1;
        }
        let ghost st = (escaped, quote);
        if escaped {
            escaped = false;
        } else if b == BACKSLASH {
            escaped = true;
        } else if quote == 0 {
            if b == SINGLE_QUOTE || b == DOUBLE_QUOTE {
                quote = b;
            }
        } else if b == quote {
            quote = 0;
        }
        assert((escaped, quote) == next_state(st, s@[i as int]));
        i = i + 1;
    }
    let ghost before = pieces_from(s@, from as int, i as int);
    let piece = trim_bytes(s, from, i);
    let ghost old_len = r@.len();
    r.push(piece);
    assert(whole[old_len as int] == before[0]);
    assert(r.deep_view() =~= whole.map_values(|a: Seq<u8>| trimmed(a))) by {
        assert forall|k: int| 0 <= k < r@.len() implies #[trigger] r.deep_view()[k] == trimmed(
            whole[k],
        ) by {
            assert(r.deep_view()[k] == r@[k]@);
        }
    }
    r
}

/// The bytes of `s` from `from` up to `to`, without the white space at
/// either end.
pub fn trim_bytes(s: &[u8], from: usize, to: usize) -> (r: Vec<u8>)
    requires
        from <= to <= s@.len(),
    ensures
        r@ == trimmed(s@.subrange(from as int, to as int)),
{
    let t = copy_range(s, from, to);
    let n = t.len();
    let mut lo: usize = 0;
    loop
        invariant
            lo <= n,
            n == t@.len(),
            leading_space_end(t@, 0) == leading_space_end(t@, lo as int),
        ensures
            lo <= n,
            leading_space_end(t@, 0) == lo,
        decreases n - lo,
    {
        let w = space_after_exec(&t, lo);
        if w == 0 {
            assert(leading_space_end(t@, lo as int) == lo);
            break;
        }
        lo = lo + w;
    }
    let mut hi: usize = n;
    loop
        invariant
            lo <= hi <= n,
            n == t@.len(),
            leading_space_end(t@, 0) == lo,
            trailing_space_start(t@, lo as int, n as int) == trailing_space_start(
                t@,
                lo as int,
                hi as int,
            ),
        ensures
            lo <= hi <= n,
            trailing_space_start(t@, lo as int, n as int) == hi,
        decreases hi - lo,
    {
        let w = space_before_exec(&t, lo, hi);
        if w == 0 {
            assert(trailing_space_start(t@, lo as int, hi as int) == hi);
            break;
        }
        hi = hi - w;
    }
    assert(trailing_space_start(t@, lo as int, n as int) == hi);
    copy_range(&t, lo, hi)
}

pub fn is_space_exec(b: u8) -> (r: bool)
    ensures
        r == is_space(b),
{
    b == 32 || (9 <= b && b <= 13)
}

fn is_space_char_exec(s: &[u8], i: usize, w: usize) -> (r: bool)
    requires
        1 <= w <= 3,
        i + w <= s@.len(),
    ensures
        r == is_space_char(s@.subrange(i as int, i + w)),
{
    let ghost t = s@.subrange(i as int, i + w);
    assert(forall|k: int| 0 <= k < w ==> t[k] == s@[i + k]);
    if w == 1 {
        is_space_exec(s[i])
    } else if w == 2 {
        s[i] == 0xC2 && (s[i + 1] == 0x85 || s[i + 1] == 0xA0)
    } else {
        let (a, b, c) = (s[i], s[i + 1], s[i + 2]);
        (a == 0xE1 && b == 0x9A && c == 0x80) || (a == 0xE2 && b == 0x80 && ((0x80 <= c && c
            <= 0x8A) || c == 0xA8 || c == 0xA9 || c == 0xAF)) || (a == 0xE2 && b == 0x81 && c
            == 0x9F) || (a == 0xE3 && b == 0x80 && c == 0x80)
    }
}

fn space_after_exec(s: &[u8], i: usize) -> (r: usize)
    requires
        i <= s@.len(),
    ensures
        r == space_after(s@, i as int),
        i + r <= s@.len(),
{
    let n = s.len();
    if n - i >= 1 && is_space_char_exec(s, i, 1) {
        1
    } else if n - i >= 2 && is_space_char_exec(s, i, 2) {
        2
    } else if n - i >= 3 && is_space_char_exec(s, i, 3) {
        3
    } else {
        0
    }
}

fn space_before_exec(s: &[u8], lo: usize, j: usize) -> (r: usize)
    requires
        lo <= j <= s@.len(),
    ensures
        r == space_before(s@, lo as int, j as int),
        lo + r <= j,
{
    if j - lo >= 1 && is_space_char_exec(s, j - 1, 1) {
        1
    } else if j - lo >= 2 && is_space_char_exec(s, j - 2, 2) {
        2
    } else if j - lo >= 3 && is_space_char_exec(s, j - 3, 3) {
        3
    } else {
        0
    }
}

/// Reads the leftmost directive `@name(...)` in the text after a marker.
/// Fails with `DirectiveNotFound` when there is none.
pub fn parse_directive(directive: &MatchedText) -> (r: Result<Directive, DotfilesError>)
    ensures
        match r {
            Ok(d) => directive_in(directive.text@) == Some(d@),
            Err(e) => directive_in(directive.text@) is None && e@ == ErrorView::DirectiveNotFound {
                hay: directive.text@,
            },
        },
{
    let s = &directive.text;
    let mut p: usize = 0;
    while p < s.len()
        invariant
            s@ == directive.text@,
            p <= s@.len(),
            first_call(s@, 0) == first_call(s@, p as int),
        decreases s@.len() - p,
    {
        if s[p] == AT_SIGN && p + 1 < s.len() {
            match call_at_exec(s.as_slice(), p + 1) {
                Some((q, c)) => {
                    proof {
                        lemma_name_end_bounds(s@, p + 2);
                        lemma_closing_paren_bounds(s@, q + 1);
                    }
                    let name = copy_range(s.as_slice(), p + 1, q);
                    let inner = copy_range(s.as_slice(), q + 1, c);
                    let args = split_arguments(&inner);
                    assert(first_call(s@, p as int) == Some((p + 1, q as int, c as int)));
                    let d = Directive { name, args };
                    assert(d@ == DirectiveView {
                        name: s@.subrange(p + 1, q as int),
                        args: pieces(s@.subrange(q + 1, c as int)).map_values(
                            |a: Seq<u8>| trimmed(a),
                        ),
                    });
                    return Ok(d);
                },
                None => {},
            }
        }
        p = p + 1;
    }
    assert(s@.subrange(0, s@.len() as int) =~= s@);
    Err(DotfilesError::DirectiveNotFound { hay: copy_range(s.as_slice(), 0, s.len()) })
}

proof fn lemma_name_end_bounds(s: Seq<u8>, i: int)
    requires
        0 <= i <= s.len(),
    ensures
        i <= name_end(s, i) <= s.len(),
    decreases s.len() - i,
{
    if 0 <= i < s.len() && is_name_byte(s[i]) {
        lemma_name_end_bounds(s, i + 1);
    }
}

proof fn lemma_closing_paren_bounds(s: Seq<u8>, i: int)
    requires
        closing_paren(s, i) is Some,
    ensures
        i <= closing_paren(s, i)->0 < s.len(),
    decreases s.len() - i,
{
    if i < 0 || i >= s.len() {
    } else if s[i] == BACKSLASH {
        if i + 1 < s.len() {
            lemma_closing_paren_bounds(s, i + 2);
        }
    } else if s[i] == CLOSE_PAREN {
    } else {
        lemma_closing_paren_bounds(s, i + 1);
    }
}

} // verus!
