//! Token categories, tokens, and the reader's error type.

use vstd::prelude::*;

verus! {

/// The lexical categories of the language.
///
/// `WS` and `NL` are transient: the tokenizer consumes them internally
/// while tracking line/column and never hands them to the parser.
/// `EOF` matches only the empty remainder of the input.
#[derive(Clone, Copy, PartialEq, Eq, Structural, Debug)]
pub enum TokType {
    EOF,
    WS,
    NL,
    LPAREN,
    RPAREN,
    COMMA,
    AT,
    DOT,
    BTICK,
    DQUOTE,
    SQUOTE,
    POUND,
    IDENT,
    BOOLEAN,
    NUMBER,
    CHARACTER,
    STRING,
}

/// A token: its category, the matched text, and the line and column
/// (both counted from zero) at which the match starts.
#[derive(Debug)]
pub struct Token {
    pub t: TokType,
    pub text: Vec<u8>,
    pub line: usize,
    pub col: usize,
}

/// The mathematical image of a token.
pub struct TokenModel {
    pub t: TokType,
    pub text: Seq<u8>,
    pub line: nat,
    pub col: nat,
}

impl View for Token {
    type V = TokenModel;

    open spec fn view(&self) -> TokenModel {
        TokenModel {
            t: self.t,
            text: self.text@,
            line: self.line as nat,
            col: self.col as nat,
        }
    }
}

/// Everything that can go wrong while reading a form.
///
/// Lexical trouble (`LexicalError`, `UnterminatedString`) is reported at
/// the position where scanning stopped; syntactic trouble carries the
/// position of the offending token, or of the end of input.
#[derive(Clone, Copy, PartialEq, Eq, Structural, Debug)]
pub enum ReadError {
    /// No token pattern matches at the current position.
    LexicalError { line: usize, col: usize },
    /// A string was still open when the input ended.
    UnterminatedString { line: usize, col: usize },
    /// A list was still open when the input ended.
    UnterminatedList { line: usize, col: usize },
    /// Matched number text does not fit the reader's exact decimals.
    InvalidNumber { line: usize, col: usize },
    /// A token appeared in a position the grammar does not allow.
    UnexpectedToken { t: TokType, line: usize, col: usize },
}

} // verus!
