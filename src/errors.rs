//! What can go wrong while a directive is read, checked and carried out.
use vstd::prelude::*;

verus! {

#[verifier::external_type_specification]
#[verifier::external_body]
pub struct ExRegexError(regex::Error);

/// The two shapes an argument of a directive can be required to have.
#[derive(Debug, Clone, Copy, PartialEq, Eq, Structural)]
pub enum ArgumentKind {
    /// A single-quoted regular expression.
    Pattern,
    /// A bare keyword, or a single- or double-quoted literal.
    KeywordOrString,
}

/// Every way a directive can fail. Texts are carried as the bytes they
/// were read from.
#[allow(inconsistent_fields)]
#[derive(Debug)]
pub enum DotfilesError {
    /// The pattern is not a regular expression that can be built.
    RegexFail { regex_str: Vec<u8>, error: regex::Error },
    /// The pattern has no match in the searched text.
    RegexMatchError { regex_str: Vec<u8>, hay: Vec<u8> },
    /// The pattern has fewer than `capture_index + 1` matches.
    RegexNthMatchError { regex_str: Vec<u8>, hay: Vec<u8>, capture_index: usize },
    /// A marked line holds no function call after its marker.
    DirectiveNotFound { hay: Vec<u8> },
    /// An argument does not have the shape its position asks for.
    ArgumentShapeError { kind: ArgumentKind, arg: Vec<u8> },
    /// A function was given the wrong number of arguments.
    FuncArgumentError { name: Vec<u8>, needed: usize, args: Vec<Vec<u8>> },
    /// The text to replace and its replacement differ in length.
    ReplaceTextDifferentLength { text_to_replace: Vec<u8>, replace_text: Vec<u8> },
    /// No theme carries the configured name.
    ThemeNotFound { name: String, themes: Vec<String> },
    /// More than one theme carries the configured name.
    ThemeDefinedTwice { name: String },
    /// A keyword is neither a variable of the active theme nor a colour code.
    ArgNotFound { arg: Vec<u8>, theme_hashmap: Vec<(String, String)> },
}

/// The mathematical picture of a [`DotfilesError`].
#[allow(inconsistent_fields)]
pub enum ErrorView {
    RegexFail { regex_str: Seq<u8> },
    RegexMatchError { regex_str: Seq<u8>, hay: Seq<u8> },
    RegexNthMatchError { regex_str: Seq<u8>, hay: Seq<u8>, capture_index: nat },
    DirectiveNotFound { hay: Seq<u8> },
    ArgumentShapeError { kind: ArgumentKind, arg: Seq<u8> },
    FuncArgumentError { name: Seq<u8>, needed: nat, args: Seq<Seq<u8>> },
    ReplaceTextDifferentLength { text_to_replace: Seq<u8>, replace_text: Seq<u8> },
    ThemeNotFound { name: Seq<char>, themes: Seq<Seq<char>> },
    ThemeDefinedTwice { name: Seq<char> },
    ArgNotFound { arg: Seq<u8>, theme: Seq<(Seq<char>, Seq<char>)> },
}

impl View for DotfilesError {
    type V = ErrorView;

    open spec fn view(&self) -> ErrorView {
        match self {
            DotfilesError::RegexFail { regex_str, .. } => ErrorView::RegexFail {
                regex_str: regex_str@,
            },
            DotfilesError::RegexMatchError { regex_str, hay } => ErrorView::RegexMatchError {
                regex_str: regex_str@,
                hay: hay@,
            },
            DotfilesError::RegexNthMatchError { regex_str, hay, capture_index } =>
                ErrorView::RegexNthMatchError {
                regex_str: regex_str@,
                hay: hay@,
                capture_index: *capture_index as nat,
            },
            DotfilesError::DirectiveNotFound { hay } => ErrorView::DirectiveNotFound { hay: hay@ },
            DotfilesError::ArgumentShapeError { kind, arg } => ErrorView::ArgumentShapeError {
                kind: *kind,
                arg: arg@,
            },
            DotfilesError::FuncArgumentError { name, needed, args } =>
                ErrorView::FuncArgumentError {
                name: name@,
                needed: *needed as nat,
                args: args.deep_view(),
            },
            DotfilesError::ReplaceTextDifferentLength { text_to_replace, replace_text } =>
                ErrorView::ReplaceTextDifferentLength {
                text_to_replace: text_to_replace@,
                replace_text: replace_text@,
            },
            DotfilesError::ThemeNotFound { name, themes } => ErrorView::ThemeNotFound {
                name: name@,
                themes: themes.deep_view(),
            },
            DotfilesError::ThemeDefinedTwice { name } => ErrorView::ThemeDefinedTwice {
                name: name@,
            },
            DotfilesError::ArgNotFound { arg, theme_hashmap } => ErrorView::ArgNotFound {
                arg: arg@,
                theme: theme_hashmap.deep_view(),
            },
        }
    }
}

} // verus!
