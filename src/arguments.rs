//! The shapes of a directive's arguments, and what a keyword stands for.
use crate::config::{bytes_of, copy_variables, first_variable, string_bytes, Config};
use crate::directive::{
    is_digit, is_digit_exec, is_letter, is_letter_exec, is_name_byte, BACKSLASH, DOUBLE_QUOTE,
    SINGLE_QUOTE,
};
use crate::errors::{ArgumentKind, DotfilesError, ErrorView};
use crate::text::{bytes_equal, copy_range, to_vec};
use vstd::prelude::*;

verus! {

pub const HASH: u8 = 35;

/// From offset `i` on, `s` holds no quote `q` that a backslash does not
/// protect, and does not end in a lone backslash.
pub open spec fn quoted_body_ok(s: Seq<u8>, q: u8, i: int) -> bool
    decreases s.len() - i,
{
    if i < 0 || i >= s.len() {
        true
    } else if s[i] == BACKSLASH {
        i + 1 < s.len() && quoted_body_ok(s, q, i + 2)
    } else if s[i] == q {
        false
    } else {
        quoted_body_ok(s, q, i + 1)
    }
}

/// What lies between the first and the last byte of `s`.
pub open spec fn unquoted(s: Seq<u8>) -> Seq<u8> {
    s.subrange(1, s.len() - 1)
}

/// `s` is a non-empty text between two quotes `q`.
pub open spec fn is_quoted(s: Seq<u8>, q: u8) -> bool {
    s.len() >= 3 && s[0] == q && s[s.len() - 1] == q && quoted_body_ok(unquoted(s), q, 0)
}

/// A pattern argument: a single-quoted regular expression.
pub open spec fn is_pattern(s: Seq<u8>) -> bool {
    is_quoted(s, SINGLE_QUOTE)
}

/// A quoted literal, in single or double quotes.
pub open spec fn is_literal(s: Seq<u8>) -> bool {
    is_quoted(s, SINGLE_QUOTE) || is_quoted(s, DOUBLE_QUOTE)
}

/// A bare keyword: a letter, then letters, digits, `_` or `-`.
pub open spec fn is_keyword(s: Seq<u8>) -> bool {
    s.len() >= 1 && is_letter(s[0]) && forall|i: int| 1 <= i < s.len() ==> is_name_byte(#[trigger] s[i])
}

pub open spec fn is_keyword_or_string(s: Seq<u8>) -> bool {
    is_literal(s) || is_keyword(s)
}

/// A colour code: `#` and six letters or digits.
pub open spec fn is_hex_colour(s: Seq<u8>) -> bool {
    s.len() == 7 && s[0] == HASH && forall|i: int| 1 <= i < 7 ==> is_letter(#[trigger] s[i]) || is_digit(s[i])
}

/// What an argument stands for under `config`: a literal stands for what
/// is between its quotes; a keyword for its value in the active theme, or
/// for itself when it is no variable there but a colour code. In a
/// well-formed configuration (see [`Config::wf`]) the variable found is
/// the only one with that keyword.
pub open spec fn resolved(config: &Config, arg: Seq<u8>) -> Result<Seq<u8>, ErrorView> {
    if is_literal(arg) {
        Ok(unquoted(arg))
    } else {
        match config.active_theme() {
            Err(e) => Err(e),
            Ok(t) => {
                let vars = config.themes@[t].variables@;
                match first_variable(vars, arg, 0) {
                    Some(v) => Ok(bytes_of(vars[v].1)),
                    None => if is_hex_colour(arg) {
                        Ok(arg)
                    } else {
                        Err(
                            ErrorView::ArgNotFound {
                                arg,
                                theme: config.themes@[t].variables.deep_view(),
                            },
                        )
                    },
                }
            },
        }
    }
}

fn is_quoted_exec(s: &[u8], q: u8) -> (r: bool)
    ensures
        r == is_quoted(s@, q),
{
    let n = s.len();
    if n < 3 || s[0] != q || s[n - 1] != q {
        return false;
    }
    let ghost body = unquoted(s@);
    let mut i: usize = 1;
    while i < n - 1
        invariant
            n == s@.len(),
            n >= 3,
            1 <= i <= n,
            body == unquoted(s@),
            quoted_body_ok(body, q, 0) == quoted_body_ok(body, q, i - 1),
        decreases n - i,
    {
        assert(body[i - 1] == s@[i as int]);
        if s[i] == BACKSLASH {
            if i + 1 < n - 1 {
                i = i + 2;
            } else {
                return false;
            }
        } else if s[i] == q {
            return false;
        } else {
            i = i + 1;
        }
    }
    true
}

fn is_keyword_exec(s: &[u8]) -> (r: bool)
    ensures
        r == is_keyword(s@),
{
    if s.len() == 0 || !is_letter_exec(s[0]) {
        return false;
    }
    let mut i: usize = 1;
    while i < s.len()
        invariant
            1 <= i <= s@.len(),
            forall|j: int| 1 <= j < i ==> is_name_byte(#[trigger] s@[j]),
        decreases s@.len() - i,
    {
        let b = s[i];
        if !(is_letter_exec(b) || is_digit_exec(b) || b == 95 || b == 45) {
            return false;
        }
        i = i + 1;
    }
    true
}

/// Whether `s` is a colour code: `#` and six letters or digits.
pub fn is_hex_colour_exec(s: &[u8]) -> (r: bool)
    ensures
        r == is_hex_colour(s@),
{
    if s.len() != 7 || s[0] != HASH {
        return false;
    }
    let mut i: usize = 1;
    while i < 7
        invariant
            s@.len() == 7,
            1 <= i <= 7,
            forall|j: int| 1 <= j < i ==> is_letter(#[trigger] s@[j]) || is_digit(s@[j]),
        decreases 7 - i,
    {
        if !(is_letter_exec(s[i]) || is_digit_exec(s[i])) {
            return false;
        }
        i = i + 1;
    }
    true
}

/// Checks that `arg` is a pattern: a non-empty single-quoted text with no
/// unescaped single quote inside.
pub fn matches_pattern(arg: &[u8]) -> (r: Result<(), DotfilesError>)
    ensures
        r is Ok <==> is_pattern(arg@),
        r matches Err(e) ==> e@ == (ErrorView::ArgumentShapeError {
            kind: ArgumentKind::Pattern,
            arg: arg@,
        }),
{
    if is_quoted_exec(arg, SINGLE_QUOTE) {
        Ok(())
    } else {
        Err(
            DotfilesError::ArgumentShapeError {
                kind: ArgumentKind::Pattern,
                arg: to_vec(arg),
            },
        )
    }
}

/// Checks that `arg` is a bare keyword or a quoted literal.
pub fn matches_keyword_or_string(arg: &[u8]) -> (r: Result<(), DotfilesError>)
    ensures
        r is Ok <==> is_keyword_or_string(arg@),
        r matches Err(e) ==> e@ == (ErrorView::ArgumentShapeError {
            kind: ArgumentKind::KeywordOrString,
            arg: arg@,
        }),
{
    if is_quoted_exec(arg, SINGLE_QUOTE) || is_quoted_exec(arg, DOUBLE_QUOTE) || is_keyword_exec(
        arg,
    ) {
        Ok(())
    } else {
        Err(
            DotfilesError::ArgumentShapeError {
                kind: ArgumentKind::KeywordOrString,
                arg: to_vec(arg),
            },
        )
    }
}

proof fn lemma_no_variable(vars: Seq<(String, String)>, key: Seq<u8>, from: int)
    requires
        0 <= from,
        forall|i: int| 0 <= i < vars.len() ==> bytes_of(#[trigger] vars[i].0) != key,
    ensures
        first_variable(vars, key, from) is None,
    decreases vars.len() - from,
{
    if from < vars.len() {
        lemma_no_variable(vars, key, from + 1);
    }
}

/// A bare keyword that the active theme does not define is an error that
/// names the keyword and carries the theme's variables; a keyword is never
/// a colour code, so it is not taken as itself.
pub proof fn lemma_unknown_keyword_is_an_error(config: &Config, arg: Seq<u8>, t: int)
    requires
        config.active_theme() == Ok::<int, ErrorView>(t),
        is_keyword(arg),
        forall|i: int|
            0 <= i < config.themes@[t].variables@.len() ==> bytes_of(
                #[trigger] config.themes@[t].variables@[i].0,
            ) != arg,
    ensures
        resolved(config, arg) == Err::<Seq<u8>, ErrorView>(
            ErrorView::ArgNotFound { arg, theme: config.themes@[t].variables.deep_view() },
        ),
{
    lemma_no_variable(config.themes@[t].variables@, arg, 0);
}

/// Turns an argument into the text it stands for (see [`resolved`]).
pub fn parse_argument(config: &Config, arg: &[u8]) -> (r: Result<Vec<u8>, DotfilesError>)
    requires
        config.wf(),
    ensures
        match r {
            Ok(v) => resolved(config, arg@) == Ok::<Seq<u8>, ErrorView>(v@),
            Err(e) => resolved(config, arg@) == Err::<Seq<u8>, ErrorView>(e@),
        },
{
    if is_quoted_exec(arg, SINGLE_QUOTE) || is_quoted_exec(arg, DOUBLE_QUOTE) {
        return Ok(copy_range(arg, 1, arg.len() - 1));
    }
    let t = match config.find_active_theme() {
        Ok(t) => t,
        Err(e) => {
            return Err(e);
        },
    };
    let vars = &config.themes[t].variables;
    let mut i: usize = 0;
    while i < vars.len()
        invariant
            t < config.themes@.len(),
            config.active_theme() == Ok::<int, ErrorView>(t as int),
            !is_literal(arg@),
            vars == config.themes@[t as int].variables,
            i <= vars@.len(),
            first_variable(vars@, arg@, 0) == first_variable(vars@, arg@, i as int),
        decreases vars@.len() - i,
    {
        let key = string_bytes(&vars[i].0);
        if bytes_equal(key, arg) {
            let value = string_bytes(&vars[i].1);
            assert(first_variable(vars@, arg@, i as int) == Some(i as int));
            assert(value@ == bytes_of(vars@[i as int].1));
            return Ok(to_vec(value));
        }
        i = i + 1;
    }
    if is_hex_colour_exec(arg) {
        Ok(to_vec(arg))
    } else {
        Err(
            DotfilesError::ArgNotFound {
                arg: to_vec(arg),
                theme_hashmap: copy_variables(vars),
            },
        )
    }
}

} // verus!
