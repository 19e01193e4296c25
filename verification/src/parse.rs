//! The parser: a one-token-lookahead recursive descent over the token
//! stream, yielding one top-level form per pull.
//!
//! The grammar is stated over `TokStream`, the mathematical image of
//! everything the tokenizer will still produce: `form_of` reads one
//! form, `list_of` a parenthesised list, and `pair_of` the elements
//! of a list, including the dotted-pair tail.  The executable parser
//! is proved to follow those functions step for step.

use vstd::prelude::*;

use crate::lexer::LexIter;
use crate::lexer::LexState;
use crate::lexer::LexStep;
use crate::lexer::Lexer;
use crate::lexer::init_state;
use crate::lexer::lex_measure;
use crate::lexer::next_token_spec;
use crate::matcher::B_HASH;
use crate::matcher::B_LOWER_E;
use crate::matcher::B_LOWER_O;
use crate::matcher::B_LOWER_Q;
use crate::matcher::B_LOWER_T;
use crate::matcher::B_LOWER_U;
use crate::matcher::B_UPPER_T;
use crate::matcher::cat_len;
use crate::matcher::lemma_best_from_pos;
use crate::matcher::lemma_str_len_bounds;
use crate::matcher::tok_priority;
use crate::token::ReadError;
use crate::token::TokType;
use crate::token::Token;
use crate::token::TokenModel;
use crate::val::Val;
use crate::val::ValModel;
use crate::val::num_model;
use crate::val::parse_number;

verus! {

// ----------------------------------------------------------------------
// The token stream a scan position denotes.
// ----------------------------------------------------------------------
/// How a token stream ends: cleanly at end of input (with the final
/// line/column), or in a lexical error.
#[verifier::ext_equal]
pub enum StreamEnd {
    Done { line: nat, col: nat },
    Fail { err: ReadError },
}

/// Every token still ahead of a scan position, and how the stream
/// ends after them.
#[verifier::ext_equal]
pub struct TokStream {
    pub toks: Seq<TokenModel>,
    pub end: StreamEnd,
}

/// A produced token moves the cursor strictly forward.
pub proof fn lemma_next_token_advances(st: LexState)
    ensures
        match next_token_spec(st) {
            LexStep::Tok { tok, next } => next.input == st.input && next.pos > st.pos,
            _ => true,
        },
    decreases lex_measure(st),
{
    if st.pos < st.input.len() {
        let m = crate::matcher::best_match(st.input.skip(st.pos as int));
        if m.1 > 0 && m.0 == TokType::WS {
            lemma_next_token_advances(
                LexState { input: st.input, pos: st.pos + m.1, line: st.line, col: st.col + m.1 },
            );
        } else if m.1 > 0 && m.0 == TokType::NL {
            lemma_next_token_advances(
                LexState { input: st.input, pos: st.pos + m.1, line: st.line + m.1, col: 0 },
            );
        }
    }
}

/// The stream of tokens ahead of `st`.
pub open spec fn stream_of(st: LexState) -> TokStream
    decreases lex_measure(st),
    via stream_of_dec
{
    match next_token_spec(st) {
        LexStep::End { line, col } => TokStream {
            toks: Seq::empty(),
            end: StreamEnd::Done { line, col },
        },
        LexStep::Fail { err } => TokStream { toks: Seq::empty(), end: StreamEnd::Fail { err } },
        LexStep::Tok { tok, next } => {
            let rest = stream_of(next);
            TokStream { toks: seq![tok] + rest.toks, end: rest.end }
        },
    }
}

#[via_fn]
proof fn stream_of_dec(st: LexState) {
    lemma_next_token_advances(st);
}

/// The stream after its first token.
pub open spec fn tail_stream(ts: TokStream) -> TokStream {
    TokStream { toks: ts.toks.drop_first(), end: ts.end }
}

/// A lexer-produced string token always carries its two quotes.
pub open spec fn token_wf(tok: TokenModel) -> bool {
    tok.t == TokType::STRING ==> tok.text.len() >= 2
}

pub open spec fn stream_wf(ts: TokStream) -> bool {
    forall|i: int| 0 <= i < ts.toks.len() ==> token_wf(#[trigger] ts.toks[i])
}

/// Every token the tokenizer produces is well formed.
pub proof fn lemma_stream_of_wf(st: LexState)
    ensures
        stream_wf(stream_of(st)),
    decreases lex_measure(st),
{
    if st.pos < st.input.len() {
        let sfx = st.input.skip(st.pos as int);
        let m = crate::matcher::best_match(sfx);
        if m.1 == 0 {
        } else if m.0 == TokType::WS {
            let st2 = LexState {
                input: st.input,
                pos: st.pos + m.1,
                line: st.line,
                col: st.col + m.1,
            };
            lemma_stream_of_wf(st2);
            assert(stream_of(st) == stream_of(st2));
        } else if m.0 == TokType::NL {
            let st2 = LexState { input: st.input, pos: st.pos + m.1, line: st.line + m.1, col: 0 };
            lemma_stream_of_wf(st2);
            assert(stream_of(st) == stream_of(st2));
        } else if m.0 == TokType::DQUOTE {
        } else {
            match next_token_spec(st) {
                LexStep::Tok { tok, next } => {
                    lemma_stream_of_wf(next);
                    if tok.t == TokType::STRING {
                        lemma_best_from_pos(sfx, tok_priority());
                        assert(cat_len(m.0, sfx) == m.1);
                        lemma_str_len_bounds(sfx);
                        assert(2 <= m.1 <= sfx.len());
                        assert(tok.text.len() == m.1);
                    }
                    assert forall|i: int| 0 <= i < stream_of(st).toks.len() implies token_wf(
                        #[trigger] stream_of(st).toks[i],
                    ) by {
                        if i > 0 {
                            assert(stream_of(st).toks[i] == stream_of(next).toks[i - 1]);
                        }
                    }
                },
                _ => {
                    assert(false);
                },
            }
        }
    }
}

// ----------------------------------------------------------------------
// The grammar.
// ----------------------------------------------------------------------
/// What reading one form yields: end of input, a value and the stream
/// after it, or an error.
#[verifier::ext_equal]
pub enum FormRes {
    End,
    Found { v: ValModel, rest: TokStream },
    Fail { err: ReadError },
}

/// The spelling of the identifier that quote sugar expands to.
pub open spec fn quote_word() -> Seq<u8> {
    seq![B_LOWER_Q, B_LOWER_U, B_LOWER_O, B_LOWER_T, B_LOWER_E]
}

/// `'v` reads as the two-element list `(quote v)`.
pub open spec fn quoted(v: ValModel) -> ValModel {
    ValModel::Pair(
        Box::new(ValModel::Ident(quote_word())),
        Box::new(ValModel::Pair(Box::new(v), Box::new(ValModel::Nil))),
    )
}

/// The error for running out of tokens inside a list: the pending
/// lexical error if there is one, else an unterminated list at the
/// position where the input ended.
pub open spec fn end_err(end: StreamEnd) -> ReadError {
    match end {
        StreamEnd::Done { line, col } => ReadError::UnterminatedList {
            line: line as usize,
            col: col as usize,
        },
        StreamEnd::Fail { err } => err,
    }
}

/// The error for a quote with nothing after it.
pub open spec fn eof_err(end: StreamEnd) -> ReadError {
    match end {
        StreamEnd::Done { line, col } => ReadError::UnexpectedToken {
            t: TokType::EOF,
            line: line as usize,
            col: col as usize,
        },
        StreamEnd::Fail { err } => err,
    }
}

/// The error for a token the grammar does not allow here.
pub open spec fn tok_err(tok: TokenModel) -> ReadError {
    ReadError::UnexpectedToken { t: tok.t, line: tok.line as usize, col: tok.col as usize }
}

/// Boolean text reads as true exactly for `#t` and `#T`.
pub open spec fn bool_value(text: Seq<u8>) -> bool {
    text == seq![B_HASH, B_LOWER_T] || text == seq![B_HASH, B_UPPER_T]
}

/// Read one form: an atom from one token, a list from a paren, or a
/// quote expansion; a comma, at-sign, backtick, pound, character
/// literal, stray dot or stray closing paren is an error, never
/// silently skipped.
pub open spec fn form_of(ts: TokStream) -> FormRes
    decreases ts.toks.len(), 1int,
{
    if ts.toks.len() == 0 {
        match ts.end {
            StreamEnd::Done { .. } => FormRes::End,
            StreamEnd::Fail { err } => FormRes::Fail { err },
        }
    } else {
        let t0 = ts.toks[0];
        let rest = tail_stream(ts);
        match t0.t {
            TokType::LPAREN => list_of(ts),
            TokType::IDENT => FormRes::Found { v: ValModel::Ident(t0.text), rest },
            TokType::STRING => FormRes::Found {
                v: ValModel::Str(t0.text.subrange(1, t0.text.len() - 1)),
                rest,
            },
            TokType::BOOLEAN => FormRes::Found { v: ValModel::Bool(bool_value(t0.text)), rest },
            TokType::NUMBER => match num_model(t0.text) {
                Some(d) => FormRes::Found { v: ValModel::Num(d), rest },
                None => FormRes::Fail {
                    err: ReadError::InvalidNumber {
                        line: t0.line as usize,
                        col: t0.col as usize,
                    },
                },
            },
            TokType::SQUOTE => match form_of(rest) {
                FormRes::Found { v, rest: r2 } => FormRes::Found { v: quoted(v), rest: r2 },
                FormRes::End => FormRes::Fail { err: eof_err(rest.end) },
                FormRes::Fail { err } => FormRes::Fail { err },
            },
            _ => FormRes::Fail { err: tok_err(t0) },
        }
    }
}

/// Read a list: consume the opening paren; an immediate closing paren
/// yields the empty list, otherwise the elements are read by
/// `pair_of` and the closing paren is required.
pub open spec fn list_of(ts: TokStream) -> FormRes
    decreases ts.toks.len(), 0int,
{
    if ts.toks.len() == 0 {
        FormRes::End
    } else {
        let rest = tail_stream(ts);
        if rest.toks.len() > 0 && rest.toks[0].t == TokType::RPAREN {
            FormRes::Found { v: ValModel::Nil, rest: tail_stream(rest) }
        } else {
            match pair_of(rest) {
                FormRes::Found { v, rest: r2 } => {
                    if r2.toks.len() > 0 && r2.toks[0].t == TokType::RPAREN {
                        FormRes::Found { v, rest: tail_stream(r2) }
                    } else if r2.toks.len() > 0 {
                        FormRes::Fail { err: tok_err(r2.toks[0]) }
                    } else {
                        FormRes::Fail { err: end_err(r2.end) }
                    }
                },
                FormRes::End => FormRes::End,
                FormRes::Fail { err } => FormRes::Fail { err },
            }
        }
    }
}

/// Read list elements: one form as the head, then either the closing
/// paren (the list ends, tail `Nil`), a dot and exactly one more form
/// (the dotted tail), or recursively the remaining elements.  Running
/// out of tokens anywhere here is an unterminated list.
pub open spec fn pair_of(ts: TokStream) -> FormRes
    decreases ts.toks.len(), 2int,
{
    match form_of(ts) {
        FormRes::End => FormRes::Fail { err: end_err(ts.end) },
        FormRes::Fail { err } => FormRes::Fail { err },
        FormRes::Found { v: head, rest: r } => {
            if r.toks.len() >= ts.toks.len() {
                // never reached: a form consumes at least one token
                FormRes::Fail { err: end_err(r.end) }
            } else if r.toks.len() == 0 {
                FormRes::Fail { err: end_err(r.end) }
            } else if r.toks[0].t == TokType::RPAREN {
                FormRes::Found {
                    v: ValModel::Pair(Box::new(head), Box::new(ValModel::Nil)),
                    rest: r,
                }
            } else if r.toks[0].t == TokType::DOT {
                let r1 = tail_stream(r);
                match form_of(r1) {
                    FormRes::Found { v: tl, rest: r2 } => FormRes::Found {
                        v: ValModel::Pair(Box::new(head), Box::new(tl)),
                        rest: r2,
                    },
                    FormRes::End => FormRes::Fail { err: end_err(r1.end) },
                    FormRes::Fail { err } => FormRes::Fail { err },
                }
            } else {
                match pair_of(r) {
                    FormRes::Found { v: tl, rest: r2 } => FormRes::Found {
                        v: ValModel::Pair(Box::new(head), Box::new(tl)),
                        rest: r2,
                    },
                    FormRes::End => FormRes::End,
                    FormRes::Fail { err } => FormRes::Fail { err },
                }
            }
        },
    }
}

/// A found form consumes at least one token and leaves the end alone.
pub proof fn lemma_form_consumes(ts: TokStream)
    ensures
        match form_of(ts) {
            FormRes::Found { v, rest } => rest.toks.len() < ts.toks.len() && rest.end == ts.end,
            _ => true,
        },
    decreases ts.toks.len(), 1int,
{
    if ts.toks.len() > 0 {
        match ts.toks[0].t {
            TokType::LPAREN => lemma_list_consumes(ts),
            TokType::SQUOTE => lemma_form_consumes(tail_stream(ts)),
            _ => {},
        }
    }
}

pub proof fn lemma_list_consumes(ts: TokStream)
    ensures
        match list_of(ts) {
            FormRes::Found { v, rest } => rest.toks.len() < ts.toks.len() && rest.end == ts.end,
            _ => true,
        },
    decreases ts.toks.len(), 0int,
{
    if ts.toks.len() > 0 {
        let rest = tail_stream(ts);
        if !(rest.toks.len() > 0 && rest.toks[0].t == TokType::RPAREN) {
            lemma_pair_consumes(rest);
        }
    }
}

pub proof fn lemma_pair_consumes(ts: TokStream)
    ensures
        match pair_of(ts) {
            FormRes::Found { v, rest } => rest.toks.len() < ts.toks.len() && rest.end == ts.end,
            _ => true,
        },
    decreases ts.toks.len(), 2int,
{
    lemma_form_consumes(ts);
    match form_of(ts) {
        FormRes::Found { v: head, rest: r } => {
            if r.toks.len() >= ts.toks.len() {
            } else if r.toks.len() == 0 {
            } else if r.toks[0].t == TokType::RPAREN {
            } else if r.toks[0].t == TokType::DOT {
                lemma_form_consumes(tail_stream(r));
            } else {
                lemma_pair_consumes(r);
            }
        },
        _ => {},
    }
}

/// Reading list elements never reports a clean end of input.
pub proof fn lemma_pair_never_end(ts: TokStream)
    ensures
        !(pair_of(ts) is End),
    decreases ts.toks.len(), 2int,
{
    lemma_form_consumes(ts);
    match form_of(ts) {
        FormRes::Found { v: head, rest: r } => {
            if r.toks.len() < ts.toks.len() && r.toks.len() > 0 && r.toks[0].t != TokType::RPAREN
                && r.toks[0].t != TokType::DOT {
                lemma_pair_never_end(r);
            }
        },
        _ => {},
    }
}

/// Reading a list never reports a clean end of input when a paren has
/// been seen.
pub proof fn lemma_list_never_end(ts: TokStream)
    requires
        ts.toks.len() > 0,
    ensures
        !(list_of(ts) is End),
    decreases ts.toks.len(), 3int,
{
    lemma_pair_never_end(tail_stream(ts));
}


// ----------------------------------------------------------------------
// The executable parser.
// ----------------------------------------------------------------------
/// Fold a run of parsed heads onto a tail value: the right-nested
/// pair chain the grammar builds.
pub open spec fn wrap(hs: Seq<Val>, t: ValModel) -> ValModel
    decreases hs.len(),
{
    if hs.len() == 0 {
        t
    } else {
        ValModel::Pair(Box::new(hs[0]@), Box::new(wrap(hs.drop_first(), t)))
    }
}

/// What the rest of a list means once some heads are already read.
pub open spec fn wrap_res(hs: Seq<Val>, fr: FormRes) -> FormRes {
    match fr {
        FormRes::Found { v, rest } => FormRes::Found { v: wrap(hs, v), rest },
        _ => fr,
    }
}

/// Appending a head at the back folds into the tail.
proof fn lemma_wrap_push(hs: Seq<Val>, h: Val, t: ValModel)
    ensures
        wrap(hs.push(h), t) == wrap(hs, ValModel::Pair(Box::new(h@), Box::new(t))),
    decreases hs.len(),
{
    if hs.len() == 0 {
        assert(hs.push(h)[0] == h);
        assert(hs.push(h).drop_first() =~= hs);
        assert(wrap(hs.push(h), t) == ValModel::Pair(Box::new(h@), Box::new(wrap(hs, t))));
        assert(wrap(hs, t) == t);
        assert(wrap(hs, ValModel::Pair(Box::new(h@), Box::new(t))) == ValModel::Pair(
            Box::new(h@),
            Box::new(t),
        ));
    } else {
        assert(hs.push(h)[0] == hs[0]);
        assert(hs.push(h).drop_first() =~= hs.drop_first().push(h));
        lemma_wrap_push(hs.drop_first(), h, t);
        assert(wrap(hs.push(h), t) == ValModel::Pair(
            Box::new(hs[0]@),
            Box::new(wrap(hs.drop_first().push(h), t)),
        ));
        assert(wrap(hs, ValModel::Pair(Box::new(h@), Box::new(t))) == ValModel::Pair(
            Box::new(hs[0]@),
            Box::new(wrap(hs.drop_first(), ValModel::Pair(Box::new(h@), Box::new(t)))),
        ));
    }
}

/// Build the pair chain of `heads` ending in `tail`.
fn wrap_exec(heads: Vec<Val>, tail: Val) -> (v: Val)
    ensures
        v@ == wrap(heads@, tail@),
{
    let ghost hs0 = heads@;
    let ghost t0 = tail@;
    let mut hs = heads;
    let mut acc = tail;
    while hs.len() > 0
        invariant
            wrap(hs0, t0) == wrap(hs@, acc@),
        decreases hs@.len(),
    {
        let ghost before = hs@;
        let h = match hs.pop() {
            Some(h) => h,
            None => vstd::pervasive::unreached(),
        };
        proof {
            assert(before =~= hs@.push(h));
            lemma_wrap_push(hs@, h, acc@);
        }
        acc = Val::cons(h, acc);
    }
    acc
}

/// The parser: it owns the lexer it drives.
pub struct Parser {
    lx: Lexer,
}

impl Parser {
    pub closed spec fn wf(&self) -> bool {
        self.lx.wf()
    }

    pub fn new() -> (p: Parser)
        ensures
            p.wf(),
    {
        Parser { lx: Lexer::new() }
    }

    /// Read `input` lazily: the returned iterator yields one
    /// top-level form per pull.
    pub fn parse(&self, input: &[u8]) -> (it: ParseIter)
        requires
            self.wf(),
        ensures
            it.wf(),
            it.stream() == stream_of(init_state(input@)),
    {
        self.lx.lex(input).parse()
    }
}

impl Lexer {
    /// Hand this lexer to a parser that will drive it.
    pub fn parse(self) -> (p: Parser)
        requires
            self.wf(),
        ensures
            p.wf(),
    {
        Parser { lx: self }
    }
}

impl LexIter {
    /// Wrap this token source in a parser with one-token lookahead.
    pub fn parse(self) -> (it: ParseIter)
        requires
            self.wf(),
        ensures
            it.wf(),
            it.stream() == stream_of(self.state()),
    {
        proof {
            lemma_stream_of_wf(self.state());
        }
        ParseIter { lx: self, peeked: None }
    }
}

/// The pull-based form reader: the tokenizer plus one token of
/// lookahead.
pub struct ParseIter {
    lx: LexIter,
    peeked: Option<Token>,
}

impl ParseIter {
    pub closed spec fn wf(&self) -> bool {
        &&& self.lx.wf()
        &&& stream_wf(self.stream())
    }

    /// The tokens this reader has not consumed yet.
    pub closed spec fn stream(&self) -> TokStream {
        let base = stream_of(self.lx.state());
        match self.peeked {
            Some(t) => TokStream { toks: seq![t@] + base.toks, end: base.end },
            None => base,
        }
    }

    /// The line/column the tokenizer has reached.
    pub closed spec fn end_pos(&self) -> (nat, nat) {
        (self.lx.state().line, self.lx.state().col)
    }

    /// The line and column the tokenizer has reached.
    fn position(&self) -> (r: (usize, usize))
        ensures
            r.0 as nat == self.end_pos().0,
            r.1 as nat == self.end_pos().1,
    {
        self.lx.position()
    }

    /// Make sure the lookahead is filled and report the category of
    /// the next token, `Ok(None)` at a clean end of input.
    fn peek_kind(&mut self) -> (r: Result<Option<TokType>, ReadError>)
        requires
            old(self).wf(),
        ensures
            final(self).wf(),
            final(self).stream() == old(self).stream(),
            match r {
                Ok(Some(t)) => final(self).stream().toks.len() > 0
                    && final(self).stream().toks[0].t == t && final(self).peeked is Some,
                Ok(None) => final(self).stream().toks.len() == 0 && final(self).stream().end == (
                StreamEnd::Done { line: final(self).end_pos().0, col: final(self).end_pos().1 }),
                Err(e) => final(self).stream().toks.len() == 0 && final(self).stream().end == (
                StreamEnd::Fail { err: e }),
            },
    {
        if self.peeked.is_none() {
            let ghost st0 = self.lx.state();
            match self.lx.next() {
                Ok(Some(t)) => {
                    proof {
                        assert(stream_of(st0).toks.len() > 0);
                    }
                    self.peeked = Some(t);
                },
                Ok(None) => {
                    return Ok(None);
                },
                Err(e) => {
                    return Err(e);
                },
            }
        }
        match &self.peeked {
            Some(t) => Ok(Some(t.t)),
            None => {
                proof {
                    assert(false);
                }
                Ok(None)
            },
        }
    }

    /// Consume the token in the lookahead.
    fn take(&mut self) -> (tok: Token)
        requires
            old(self).wf(),
            old(self).peeked is Some,
        ensures
            final(self).wf(),
            old(self).stream().toks.len() > 0,
            tok@ == old(self).stream().toks[0],
            final(self).stream() == tail_stream(old(self).stream()),
            final(self).peeked is None,
            final(self).end_pos() == old(self).end_pos(),
    {
        let o = self.peeked.take();
        match o {
            Some(t) => {
                proof {
                    assert(final(self).stream().toks =~= tail_stream(old(self).stream()).toks);
                    assert(final(self).stream() =~= tail_stream(old(self).stream()));
                    assert forall|i: int|
                        0 <= i < final(self).stream().toks.len() implies token_wf(
                        #[trigger] final(self).stream().toks[i],
                    ) by {
                        assert(final(self).stream().toks[i] == old(self).stream().toks[i + 1]);
                    }
                }
                t
            },
            None => vstd::pervasive::unreached(),
        }
    }

    /// Pull one top-level form: `Ok(Some(..))` with the parsed value,
    /// `Ok(None)` at a clean end of input, or the first error of the
    /// current form.  After an error of the grammar the reader is
    /// positioned after the offending token, so further pulls read
    /// the following forms; after a lexical error pulls keep
    /// reporting it.
    pub fn next(&mut self) -> (r: Result<Option<Val>, ReadError>)
        requires
            old(self).wf(),
        ensures
            final(self).wf(),
            match form_of(old(self).stream()) {
                FormRes::End => r == Ok::<Option<Val>, ReadError>(None) && final(self).stream()
                    == old(self).stream() && final(self).stream().end == (StreamEnd::Done {
                    line: final(self).end_pos().0,
                    col: final(self).end_pos().1,
                }),
                FormRes::Found { v, rest } => (r matches Ok(w) && w matches Some(x) && x@ == v)
                    && final(self).stream() == rest,
                FormRes::Fail { err } => r == Err::<Option<Val>, ReadError>(err),
            },
        decreases old(self).stream().toks.len(), 1int,
    {
        let kind = match self.peek_kind() {
            Ok(Some(t)) => t,
            Ok(None) => {
                return Ok(None);
            },
            Err(e) => {
                return Err(e);
            },
        };
        match kind {
            TokType::LPAREN => {
                match self.parse_list() {
                    Ok(v) => Ok(Some(v)),
                    Err(e) => Err(e),
                }
            },
            TokType::IDENT => {
                let tok = self.take();
                Ok(Some(Val::Ident(tok.text)))
            },
            TokType::STRING => {
                let tok = self.take();
                let body = crate::lexer::copy_range(tok.text.as_slice(), 1, tok.text.len() - 1);
                Ok(Some(Val::Str(body)))
            },
            TokType::BOOLEAN => {
                let tok = self.take();
                let tv = tok.text.len() == 2 && tok.text[0] == B_HASH && (tok.text[1] == B_LOWER_T
                    || tok.text[1] == B_UPPER_T);
                proof {
                    if tv {
                        if tok.text[1] == B_LOWER_T {
                            assert(tok.text@ =~= seq![B_HASH, B_LOWER_T]);
                        } else {
                            assert(tok.text@ =~= seq![B_HASH, B_UPPER_T]);
                        }
                    } else {
                        assert(tok.text@ != seq![B_HASH, B_LOWER_T] && tok.text@ != seq![
                            B_HASH,
                            B_UPPER_T,
                        ]) by {
                            if tok.text@ == seq![B_HASH, B_LOWER_T] || tok.text@ == seq![
                                B_HASH,
                                B_UPPER_T,
                            ] {
                                assert(tok.text@.len() == 2);
                                assert(tok.text@[0] == B_HASH);
                            }
                        }
                    }
                }
                Ok(Some(Val::Bool(tv)))
            },
            TokType::NUMBER => {
                let tok = self.take();
                match parse_number(tok.text.as_slice(), tok.line, tok.col) {
                    Ok(d) => Ok(Some(Val::Num(d))),
                    Err(e) => Err(e),
                }
            },
            TokType::SQUOTE => {
                let _q = self.take();
                match self.next() {
                    Ok(Some(v)) => {
                        let mut qw: Vec<u8> = Vec::new();
                        qw.push(B_LOWER_Q);
                        qw.push(B_LOWER_U);
                        qw.push(B_LOWER_O);
                        qw.push(B_LOWER_T);
                        qw.push(B_LOWER_E);
                        proof {
                            assert(qw@ =~= quote_word());
                        }
                        let inner = Val::cons(v, Val::Nil);
                        Ok(Some(Val::cons(Val::Ident(qw), inner)))
                    },
                    Ok(None) => {
                        let (line, col) = self.position();
                        Err(ReadError::UnexpectedToken { t: TokType::EOF, line, col })
                    },
                    Err(e) => Err(e),
                }
            },
            _ => {
                let tok = self.take();
                Err(ReadError::UnexpectedToken { t: tok.t, line: tok.line, col: tok.col })
            },
        }
    }

    /// Read one parenthesised list, the opening paren being the next
    /// token.
    fn parse_list(&mut self) -> (r: Result<Val, ReadError>)
        requires
            old(self).wf(),
            old(self).stream().toks.len() > 0,
            old(self).stream().toks[0].t == TokType::LPAREN,
            old(self).peeked is Some,
        ensures
            final(self).wf(),
            match list_of(old(self).stream()) {
                FormRes::Found { v, rest } => (r matches Ok(w) && w@ == v) && final(self).stream()
                    == rest,
                FormRes::Fail { err } => r == Err::<Val, ReadError>(err),
                FormRes::End => false,
            },
        decreases old(self).stream().toks.len(), 0int,
    {
        proof {
            lemma_list_never_end(old(self).stream());
        }
        let _lp = self.take();
        match self.peek_kind() {
            Ok(Some(TokType::RPAREN)) => {
                let _rp = self.take();
                Ok(Val::Nil)
            },
            Ok(None) => {
                let (line, col) = self.position();
                Err(ReadError::UnterminatedList { line, col })
            },
            Err(e) => Err(e),
            Ok(Some(_)) => {
                match self.parse_pair() {
                    Err(e) => Err(e),
                    Ok(v) => {
                        match self.peek_kind() {
                            Ok(Some(TokType::RPAREN)) => {
                                let _rp = self.take();
                                Ok(v)
                            },
                            Ok(Some(_)) => {
                                let tok = self.take();
                                Err(ReadError::UnexpectedToken {
                                    t: tok.t,
                                    line: tok.line,
                                    col: tok.col,
                                })
                            },
                            Ok(None) => {
                                let (line, col) = self.position();
                                Err(ReadError::UnterminatedList { line, col })
                            },
                            Err(e) => Err(e),
                        }
                    },
                }
            },
        }
    }

    /// Read the elements of a list up to, but not including, its
    /// closing paren.  The heads are collected iteratively and folded
    /// into a chain at the end, so a long flat list does not deepen
    /// the call stack.
    fn parse_pair(&mut self) -> (r: Result<Val, ReadError>)
        requires
            old(self).wf(),
        ensures
            final(self).wf(),
            match pair_of(old(self).stream()) {
                FormRes::Found { v, rest } => (r matches Ok(w) && w@ == v) && final(self).stream()
                    == rest,
                FormRes::Fail { err } => r == Err::<Val, ReadError>(err),
                FormRes::End => false,
            },
        decreases old(self).stream().toks.len(), 2int,
    {
        let ghost ts0 = old(self).stream();
        proof {
            lemma_pair_never_end(ts0);
        }
        let mut heads: Vec<Val> = Vec::new();
        loop
            invariant
                self.wf(),
                ts0 == old(self).stream(),
                pair_of(ts0) == wrap_res(heads@, pair_of(self.stream())),
                self.stream().toks.len() <= ts0.toks.len(),
                heads@.len() > 0 ==> self.stream().toks.len() < ts0.toks.len(),
            decreases self.stream().toks.len(),
        {
            let ghost cur = self.stream();
            proof {
                lemma_pair_never_end(cur);
                lemma_form_consumes(cur);
            }
            let head = match self.next() {
                Ok(Some(v)) => v,
                Ok(None) => {
                    let (line, col) = self.position();
                    return Err(ReadError::UnterminatedList { line, col });
                },
                Err(e) => {
                    return Err(e);
                },
            };
            let ghost r = self.stream();
            match self.peek_kind() {
                Err(e) => {
                    return Err(e);
                },
                Ok(None) => {
                    let (line, col) = self.position();
                    return Err(ReadError::UnterminatedList { line, col });
                },
                Ok(Some(TokType::RPAREN)) => {
                    let chain = wrap_exec(heads, Val::cons(head, Val::Nil));
                    return Ok(chain);
                },
                Ok(Some(TokType::DOT)) => {
                    let _dot = self.take();
                    proof {
                        lemma_form_consumes(self.stream());
                    }
                    match self.next() {
                        Ok(Some(tl)) => {
                            let chain = wrap_exec(heads, Val::cons(head, tl));
                            return Ok(chain);
                        },
                        Ok(None) => {
                            let (line, col) = self.position();
                            return Err(ReadError::UnterminatedList { line, col });
                        },
                        Err(e) => {
                            return Err(e);
                        },
                    }
                },
                Ok(Some(_)) => {
                    proof {
                        match pair_of(r) {
                            FormRes::Found { v: tl, rest: r2 } => {
                                lemma_wrap_push(heads@, head, tl);
                            },
                            _ => {},
                        }
                    }
                    heads.push(head);
                },
            }
        }
    }
}

} // verus!
