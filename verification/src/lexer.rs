//! The tokenizer: a cursor over the input that repeatedly asks the
//! matcher for the best match, consumes whitespace and newlines while
//! tracking line and column, and hands out the remaining tokens.

use vstd::prelude::*;

use crate::matcher::Matcher;
use crate::matcher::best_match;
use crate::matcher::lemma_best_from_pos;
use crate::matcher::tok_priority;
use crate::token::ReadError;
use crate::token::TokType;
use crate::token::Token;
use crate::token::TokenModel;
use crate::val::push_bytes;

verus! {

/// The ghost state of a scan position: the whole input, the cursor,
/// and the line/column of the cursor.
pub struct LexState {
    pub input: Seq<u8>,
    pub pos: nat,
    pub line: nat,
    pub col: nat,
}

/// The scan state at the start of an input.
pub open spec fn init_state(input: Seq<u8>) -> LexState {
    LexState { input, pos: 0, line: 0, col: 0 }
}

/// Bytes left to scan; the measure of the skip-and-match recursion.
pub open spec fn lex_measure(st: LexState) -> int {
    if st.pos <= st.input.len() {
        st.input.len() - st.pos
    } else {
        0
    }
}

/// What one pull on the tokenizer yields.
pub enum LexStep {
    /// End of input, with the final line/column.
    End { line: nat, col: nat },
    /// A token, and the state after it.
    Tok { tok: TokenModel, next: LexState },
    /// A lexical error.
    Fail { err: ReadError },
}

/// One pull on the tokenizer: skip whitespace and newlines (advancing
/// line/column), then either report end of input, fail on a byte no
/// pattern matches or on an unterminated string, or yield the
/// maximal-munch token at the cursor.
pub open spec fn next_token_spec(st: LexState) -> LexStep
    decreases lex_measure(st),
{
    if st.pos >= st.input.len() {
        LexStep::End { line: st.line, col: st.col }
    } else {
        let m = best_match(st.input.skip(st.pos as int));
        if m.1 == 0 {
            LexStep::Fail {
                err: ReadError::LexicalError { line: st.line as usize, col: st.col as usize },
            }
        } else if m.0 == TokType::WS {
            next_token_spec(
                LexState {
                    input: st.input,
                    pos: st.pos + m.1,
                    line: st.line,
                    col: st.col + m.1,
                },
            )
        } else if m.0 == TokType::NL {
            next_token_spec(
                LexState { input: st.input, pos: st.pos + m.1, line: st.line + m.1, col: 0 },
            )
        } else if m.0 == TokType::DQUOTE {
            LexStep::Fail {
                err: ReadError::UnterminatedString {
                    line: st.line as usize,
                    col: st.col as usize,
                },
            }
        } else {
            LexStep::Tok {
                tok: TokenModel {
                    t: m.0,
                    text: st.input.subrange(st.pos as int, (st.pos + m.1) as int),
                    line: st.line,
                    col: st.col,
                },
                next: LexState {
                    input: st.input,
                    pos: st.pos + m.1,
                    line: st.line,
                    col: st.col + m.1,
                },
            }
        }
    }
}

/// The lexer: the owner of a matcher table.
pub struct Lexer {
    m: Matcher,
}

impl Lexer {
    pub closed spec fn wf(&self) -> bool {
        self.m.wf()
    }

    pub fn new() -> (l: Lexer)
        ensures
            l.wf(),
    {
        Lexer { m: Matcher::new() }
    }

    /// The best match at position `from` of `s`, straight from the
    /// matcher table.
    pub fn match_str(&self, s: &[u8], from: usize) -> (r: (TokType, usize))
        requires
            self.wf(),
            from <= s@.len(),
        ensures
            (r.0, r.1 as nat) == best_match(s@.skip(from as int)),
            from + r.1 <= s@.len(),
    {
        self.m.match_str(s, from)
    }

    /// Start scanning `input` from its beginning.
    pub fn lex(&self, input: &[u8]) -> (it: LexIter)
        requires
            self.wf(),
        ensures
            it.wf(),
            it.state() == init_state(input@),
    {
        let mut buf: Vec<u8> = Vec::new();
        push_bytes(&mut buf, input);
        LexIter { m: Matcher::new(), input: buf, pos: 0, line: 0, col: 0 }
    }
}

/// A tokenizing cursor: the input, the cursor position, and the
/// line/column counters used for diagnostics.
pub struct LexIter {
    m: Matcher,
    input: Vec<u8>,
    pos: usize,
    line: usize,
    col: usize,
}

impl LexIter {
    pub closed spec fn wf(&self) -> bool {
        &&& self.m.wf()
        &&& self.pos <= self.input@.len()
        &&& self.line <= self.pos
        &&& self.col <= self.pos
    }

    pub closed spec fn state(&self) -> LexState {
        LexState {
            input: self.input@,
            pos: self.pos as nat,
            line: self.line as nat,
            col: self.col as nat,
        }
    }

    /// The line and column of the cursor.
    pub fn position(&self) -> (r: (usize, usize))
        ensures
            r.0 as nat == self.state().line,
            r.1 as nat == self.state().col,
    {
        (self.line, self.col)
    }

    /// The next non-trivial token, `Ok(None)` at end of input, or the
    /// error scanning ran into.  Errors are sticky: the cursor stops
    /// just before the offending position.
    pub fn next(&mut self) -> (r: Result<Option<Token>, ReadError>)
        requires
            old(self).wf(),
        ensures
            final(self).wf(),
            final(self).state().input == old(self).state().input,
            match next_token_spec(old(self).state()) {
                LexStep::End { line, col } => r == Ok::<Option<Token>, ReadError>(None)
                    && next_token_spec(final(self).state()) == (LexStep::End { line, col })
                    && final(self).state().line == line && final(self).state().col == col,
                LexStep::Tok { tok, next } => (r matches Ok(Some(tk)) && tk@ == tok)
                    && final(self).state() == next,
                LexStep::Fail { err } => r == Err::<Option<Token>, ReadError>(err)
                    && next_token_spec(final(self).state()) == (LexStep::Fail { err }),
            },
    {
        loop
            invariant
                self.wf(),
                self.state().input == old(self).state().input,
                next_token_spec(self.state()) == next_token_spec(old(self).state()),
            decreases self.input@.len() - self.pos,
        {
            if self.pos >= self.input.len() {
                return Ok(None);
            }
            let (t, l) = self.m.match_str(self.input.as_slice(), self.pos);
            if l == 0 {
                return Err(ReadError::LexicalError { line: self.line, col: self.col });
            }
            if t == TokType::WS {
                self.pos = self.pos + l;
                self.col = self.col + l;
            } else if t == TokType::NL {
                self.pos = self.pos + l;
                self.line = self.line + l;
                self.col = 0;
            } else if t == TokType::DQUOTE {
                return Err(ReadError::UnterminatedString { line: self.line, col: self.col });
            } else {
                proof {
                    if t == TokType::EOF {
                        lemma_best_from_pos(self.input@.skip(self.pos as int), tok_priority());
                        assert(false);
                    }
                }
                let text = copy_range(self.input.as_slice(), self.pos, self.pos + l);
                let tok = Token { t, text, line: self.line, col: self.col };
                self.pos = self.pos + l;
                self.col = self.col + l;
                return Ok(Some(tok));
            }
        }
    }
}

/// The bytes `s[a..b]` as a fresh vector.
pub fn copy_range(s: &[u8], a: usize, b: usize) -> (v: Vec<u8>)
    requires
        a <= b <= s@.len(),
    ensures
        v@ == s@.subrange(a as int, b as int),
{
    let mut v: Vec<u8> = Vec::new();
    let mut i = a;
    while i < b
        invariant
            a <= i <= b <= s@.len(),
            v@ == s@.subrange(a as int, i as int),
        decreases b - i,
    {
        proof {
            assert(s@.subrange(a as int, i as int + 1) =~= s@.subrange(a as int, i as int).push(
                s@[i as int],
            ));
        }
        v.push(s[i]);
        i = i + 1;
    }
    v
}

} // verus!
