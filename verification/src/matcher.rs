//! The token matcher: for each category, how long a match it has at the
//! start of a byte sequence, and the maximal-munch choice among them.
//!
//! Ties between equal-length matches are broken by a fixed priority
//! order (`tok_priority`): longer literals first (boolean, character,
//! string, number, identifier), then whitespace, then the single-char
//! categories.  The double-quote category is listed after the other
//! singles so that a lone `"` is recognisable as an unterminated string.

use vstd::prelude::*;

use crate::token::TokType;

verus! {

// ----------------------------------------------------------------------
// The bytes the grammar speaks of, by name.
// ----------------------------------------------------------------------
pub const B_TAB: u8 = 9;

pub const B_NL: u8 = 10;

pub const B_SPACE: u8 = 32;

pub const B_BANG: u8 = 33;

pub const B_DQ: u8 = 34;

pub const B_HASH: u8 = 35;

pub const B_PERCENT: u8 = 37;

pub const B_SQ: u8 = 39;

pub const B_LP: u8 = 40;

pub const B_RP: u8 = 41;

pub const B_STAR: u8 = 42;

pub const B_PLUS: u8 = 43;

pub const B_COMMA: u8 = 44;

pub const B_MINUS: u8 = 45;

pub const B_DOT: u8 = 46;

pub const B_D0: u8 = 48;

pub const B_D9: u8 = 57;

pub const B_LT: u8 = 60;

pub const B_EQ: u8 = 61;

pub const B_GT: u8 = 62;

pub const B_AT: u8 = 64;

pub const B_UPPER_A: u8 = 65;

pub const B_UPPER_F: u8 = 70;

pub const B_UPPER_T: u8 = 84;

pub const B_UPPER_Z: u8 = 90;

pub const B_BSLASH: u8 = 92;

pub const B_UNDER: u8 = 95;

pub const B_BTICK: u8 = 96;

pub const B_LOWER_A: u8 = 97;

pub const B_LOWER_C: u8 = 99;

pub const B_LOWER_E: u8 = 101;

pub const B_LOWER_F: u8 = 102;

pub const B_LOWER_I: u8 = 105;

pub const B_LOWER_L: u8 = 108;

pub const B_LOWER_N: u8 = 110;

pub const B_LOWER_O: u8 = 111;

pub const B_LOWER_P: u8 = 112;

pub const B_LOWER_Q: u8 = 113;

pub const B_LOWER_S: u8 = 115;

pub const B_LOWER_T: u8 = 116;

pub const B_LOWER_U: u8 = 117;

pub const B_LOWER_W: u8 = 119;

pub const B_LOWER_Z: u8 = 122;

// ----------------------------------------------------------------------
// Character classes.
// ----------------------------------------------------------------------
pub open spec fn is_space_char(c: u8) -> bool {
    c == B_SPACE || c == B_TAB
}

pub open spec fn is_nl_char(c: u8) -> bool {
    c == B_NL
}

pub open spec fn is_digit_char(c: u8) -> bool {
    B_D0 <= c <= B_D9
}

pub open spec fn is_letter_char(c: u8) -> bool {
    (B_LOWER_A <= c <= B_LOWER_Z) || (B_UPPER_A <= c <= B_UPPER_Z)
}

pub open spec fn is_symbol_char(c: u8) -> bool {
    c == B_PLUS || c == B_BANG || c == B_STAR || c == B_PERCENT || c == B_EQ || c == B_LT || c == B_GT
        || c == B_UNDER || c == B_MINUS
}

pub open spec fn is_ident_start_char(c: u8) -> bool {
    is_letter_char(c) || is_symbol_char(c)
}

pub open spec fn is_ident_char(c: u8) -> bool {
    is_ident_start_char(c) || is_digit_char(c)
}

pub open spec fn is_bool_suffix_char(c: u8) -> bool {
    c == B_LOWER_T || c == B_UPPER_T || c == B_LOWER_F || c == B_UPPER_F
}

// ----------------------------------------------------------------------
// Per-category match lengths.  A length of zero means "no match".
// ----------------------------------------------------------------------
/// Length of the longest prefix of `s` whose bytes all satisfy `p`.
pub open spec fn run_len(s: Seq<u8>, p: spec_fn(u8) -> bool) -> nat
    decreases s.len(),
{
    if s.len() > 0 && p(s[0]) {
        1 + run_len(s.drop_first(), p)
    } else {
        0
    }
}

/// `run_len` equals `n` exactly when the first `n` bytes satisfy `p`
/// and the byte after them (if any) does not.
pub proof fn lemma_run_len_is(s: Seq<u8>, p: spec_fn(u8) -> bool, n: nat)
    requires
        n <= s.len(),
        forall|i: int| 0 <= i < n ==> p(s[i]),
        n < s.len() ==> !p(s[n as int]),
    ensures
        run_len(s, p) == n,
    decreases n,
{
    if n == 0 {
    } else {
        assert(p(s[0]));
        lemma_run_len_is(s.drop_first(), p, (n - 1) as nat);
    }
}

pub open spec fn single_char_len(c: u8, s: Seq<u8>) -> nat {
    if s.len() > 0 && s[0] == c {
        1
    } else {
        0
    }
}

pub open spec fn ws_len(s: Seq<u8>) -> nat {
    run_len(s, |c: u8| is_space_char(c))
}

pub open spec fn nl_len(s: Seq<u8>) -> nat {
    run_len(s, |c: u8| is_nl_char(c))
}

/// An identifier: a letter or symbol character followed by any run of
/// letters, symbol characters and digits.
pub open spec fn ident_len(s: Seq<u8>) -> nat {
    if s.len() > 0 && is_ident_start_char(s[0]) {
        1 + run_len(s.drop_first(), |c: u8| is_ident_char(c))
    } else {
        0
    }
}

/// A number: an optional integer digit run, then an optional `.` with a
/// required digit run after it; at least one digit overall.  The longest
/// of the admissible shapes wins, so `42.` matches only `42`.
pub open spec fn num_len(s: Seq<u8>) -> nat {
    let d = run_len(s, |c: u8| is_digit_char(c));
    if d + 1 < s.len() && s[d as int] == B_DOT && is_digit_char(s[d as int + 1]) {
        d + 1 + run_len(s.skip(d as int + 1), |c: u8| is_digit_char(c))
    } else {
        d
    }
}

/// A boolean literal: `#` followed by one of `t T f F`.
pub open spec fn bool_len(s: Seq<u8>) -> nat {
    if s.len() >= 2 && s[0] == B_HASH && is_bool_suffix_char(s[1]) {
        2
    } else {
        0
    }
}

/// A character literal: `#\` followed by `newline`, `space`, or a single
/// letter, preferring the longest of those spellings.
pub open spec fn char_len(s: Seq<u8>) -> nat {
    if s.len() >= 2 && s[0] == B_HASH && s[1] == B_BSLASH {
        if s.len() >= 9 && s[2] == B_LOWER_N && s[3] == B_LOWER_E && s[4] == B_LOWER_W && s[5] == B_LOWER_L && s[6]
            == B_LOWER_I && s[7] == B_LOWER_N && s[8] == B_LOWER_E {
            9
        } else if s.len() >= 7 && s[2] == B_LOWER_S && s[3] == B_LOWER_P && s[4] == B_LOWER_A && s[5] == B_LOWER_C
            && s[6] == B_LOWER_E {
            7
        } else if s.len() >= 3 && is_letter_char(s[2]) {
            3
        } else {
            0
        }
    } else {
        0
    }
}

/// Scan of a string body starting at index `i` (the opening quote sits
/// at index 0).  A quote whose predecessor is not a backslash closes the
/// string; an escaped quote is remembered as `last`, since it is the
/// closing quote of a shorter admissible match and the longest match
/// ends at the last such quote if no bare quote follows.
pub open spec fn str_scan(s: Seq<u8>, i: int, last: Option<int>) -> Option<int>
    decreases s.len() - i,
{
    if i >= s.len() || i < 1 {
        last
    } else if s[i] == B_DQ {
        if s[i - 1] != B_BSLASH {
            Some(i)
        } else {
            str_scan(s, i + 1, Some(i))
        }
    } else {
        str_scan(s, i + 1, last)
    }
}

/// Wherever the scan starts, a reported closing quote is a real
/// index of the input past the opening quote.
pub proof fn lemma_str_scan_bounds(s: Seq<u8>, i: int, last: Option<int>)
    requires
        1 <= i,
        match last {
            Some(j) => 1 <= j < s.len(),
            None => true,
        },
    ensures
        match str_scan(s, i, last) {
            Some(j) => 1 <= j < s.len(),
            None => true,
        },
    decreases s.len() - i,
{
    if i >= s.len() || i < 1 {
    } else if s[i] == B_DQ {
        if s[i - 1] != B_BSLASH {
        } else {
            lemma_str_scan_bounds(s, i + 1, Some(i));
        }
    } else {
        lemma_str_scan_bounds(s, i + 1, last);
    }
}

/// A string match is never shorter than its two quotes, and never
/// longer than the input.
pub proof fn lemma_str_len_bounds(s: Seq<u8>)
    ensures
        str_len(s) == 0 || (2 <= str_len(s) && str_len(s) <= s.len()),
{
    if s.len() > 0 && s[0] == B_DQ {
        lemma_str_scan_bounds(s, 1, None);
    }
}

/// A string literal: `"`, a body of escaped quotes and non-quote bytes,
/// and a closing `"`; the longest admissible match wins.
pub open spec fn str_len(s: Seq<u8>) -> nat {
    if s.len() > 0 && s[0] == B_DQ {
        match str_scan(s, 1, None) {
            Some(j) => (j + 1) as nat,
            None => 0,
        }
    } else {
        0
    }
}

/// The match length of category `t` at the start of `s`.
pub open spec fn cat_len(t: TokType, s: Seq<u8>) -> nat {
    match t {
        TokType::EOF => 0,
        TokType::WS => ws_len(s),
        TokType::NL => nl_len(s),
        TokType::LPAREN => single_char_len(B_LP, s),
        TokType::RPAREN => single_char_len(B_RP, s),
        TokType::COMMA => single_char_len(B_COMMA, s),
        TokType::AT => single_char_len(B_AT, s),
        TokType::DOT => single_char_len(B_DOT, s),
        TokType::BTICK => single_char_len(B_BTICK, s),
        TokType::DQUOTE => single_char_len(B_DQ, s),
        TokType::SQUOTE => single_char_len(B_SQ, s),
        TokType::POUND => single_char_len(B_HASH, s),
        TokType::IDENT => ident_len(s),
        TokType::BOOLEAN => bool_len(s),
        TokType::NUMBER => num_len(s),
        TokType::CHARACTER => char_len(s),
        TokType::STRING => str_len(s),
    }
}

// ----------------------------------------------------------------------
// Maximal munch over the priority-ordered category table.
// ----------------------------------------------------------------------
/// The fixed priority order: on equal match lengths the earlier
/// category wins.  `EOF` is not listed; it stands for "no match".
pub open spec fn tok_priority() -> Seq<TokType> {
    seq![
        TokType::BOOLEAN,
        TokType::CHARACTER,
        TokType::STRING,
        TokType::NUMBER,
        TokType::IDENT,
        TokType::WS,
        TokType::NL,
        TokType::LPAREN,
        TokType::RPAREN,
        TokType::COMMA,
        TokType::AT,
        TokType::DOT,
        TokType::BTICK,
        TokType::SQUOTE,
        TokType::DQUOTE,
        TokType::POUND,
    ]
}

/// The best (longest, then highest-priority) match among `cats`.
/// `(EOF, 0)` means that no listed category matches.
pub open spec fn best_from(s: Seq<u8>, cats: Seq<TokType>) -> (TokType, nat)
    decreases cats.len(),
{
    if cats.len() == 0 {
        (TokType::EOF, 0)
    } else {
        let rest = best_from(s, cats.drop_first());
        let l = cat_len(cats[0], s);
        if l > 0 && l >= rest.1 {
            (cats[0], l)
        } else {
            rest
        }
    }
}

/// The best match at the start of `s` over the whole category table.
pub open spec fn best_match(s: Seq<u8>) -> (TokType, nat) {
    best_from(s, tok_priority())
}

/// A positive best match really has the length of its own category.
pub proof fn lemma_best_from_pos(s: Seq<u8>, cats: Seq<TokType>)
    ensures
        best_from(s, cats).1 > 0 ==> cat_len(best_from(s, cats).0, s) == best_from(s, cats).1,
    decreases cats.len(),
{
    if cats.len() > 0 {
        lemma_best_from_pos(s, cats.drop_first());
    }
}

// ----------------------------------------------------------------------
// The executable matcher.
// ----------------------------------------------------------------------
/// The matcher: the category table in priority order.
pub struct Matcher {
    order: Vec<TokType>,
}

impl Matcher {
    pub closed spec fn wf(&self) -> bool {
        self.order@ == tok_priority()
    }

    /// Build the table in its documented priority order.
    pub fn new() -> (m: Matcher)
        ensures
            m.wf(),
    {
        let mut order: Vec<TokType> = Vec::new();
        order.push(TokType::BOOLEAN);
        order.push(TokType::CHARACTER);
        order.push(TokType::STRING);
        order.push(TokType::NUMBER);
        order.push(TokType::IDENT);
        order.push(TokType::WS);
        order.push(TokType::NL);
        order.push(TokType::LPAREN);
        order.push(TokType::RPAREN);
        order.push(TokType::COMMA);
        order.push(TokType::AT);
        order.push(TokType::DOT);
        order.push(TokType::BTICK);
        order.push(TokType::SQUOTE);
        order.push(TokType::DQUOTE);
        order.push(TokType::POUND);
        proof {
            assert(order@ =~= tok_priority());
        }
        Matcher { order }
    }

    /// Find the best match at position `from` of `s`: its category and
    /// its length, `(EOF, 0)` meaning end of input or no match at all.
    pub fn match_str(&self, s: &[u8], from: usize) -> (r: (TokType, usize))
        requires
            self.wf(),
            from <= s@.len(),
        ensures
            (r.0, r.1 as nat) == best_match(s@.skip(from as int)),
            from + r.1 <= s@.len(),
    {
        proof {
            assert(self.order@.skip(0) =~= tok_priority());
        }
        best_from_exec(s, from, &self.order, 0)
    }
}

fn best_from_exec(s: &[u8], from: usize, order: &Vec<TokType>, k: usize) -> (r: (TokType, usize))
    requires
        from <= s@.len(),
        k <= order@.len(),
    ensures
        (r.0, r.1 as nat) == best_from(s@.skip(from as int), order@.skip(k as int)),
        from + r.1 <= s@.len(),
    decreases order@.len() - k,
{
    if k == order.len() {
        (TokType::EOF, 0)
    } else {
        let rest = best_from_exec(s, from, order, k + 1);
        let c = order[k];
        let l = cat_len_exec(c, s, from);
        proof {
            assert(order@.skip(k as int).drop_first() =~= order@.skip(k as int + 1));
            assert(order@.skip(k as int)[0] == order@[k as int]);
        }
        if l > 0 && l >= rest.1 {
            (c, l)
        } else {
            rest
        }
    }
}

/// Longest run of spaces and tabs from `from`.
fn space_run(s: &[u8], from: usize) -> (n: usize)
    requires
        from <= s@.len(),
    ensures
        n == ws_len(s@.skip(from as int)),
        from + n <= s@.len(),
{
    let mut i = from;
    while i < s.len() && (s[i] == B_SPACE || s[i] == B_TAB)
        invariant
            from <= i <= s@.len(),
            forall|k: int| from <= k < i ==> is_space_char(s@[k]),
        decreases s@.len() - i,
    {
        i = i + 1;
    }
    proof {
        lemma_run_len_is(s@.skip(from as int), |c: u8| is_space_char(c), (i - from) as nat);
    }
    i - from
}

/// Longest run of newlines from `from`.
fn nl_run(s: &[u8], from: usize) -> (n: usize)
    requires
        from <= s@.len(),
    ensures
        n == nl_len(s@.skip(from as int)),
        from + n <= s@.len(),
{
    let mut i = from;
    while i < s.len() && s[i] == B_NL
        invariant
            from <= i <= s@.len(),
            forall|k: int| from <= k < i ==> is_nl_char(s@[k]),
        decreases s@.len() - i,
    {
        i = i + 1;
    }
    proof {
        lemma_run_len_is(s@.skip(from as int), |c: u8| is_nl_char(c), (i - from) as nat);
    }
    i - from
}

/// Longest run of decimal digits from `from`.
pub(crate) fn digit_run(s: &[u8], from: usize) -> (n: usize)
    requires
        from <= s@.len(),
    ensures
        n == run_len(s@.skip(from as int), |c: u8| is_digit_char(c)),
        from + n <= s@.len(),
{
    let mut i = from;
    while i < s.len() && s[i] >= B_D0 && s[i] <= B_D9
        invariant
            from <= i <= s@.len(),
            forall|k: int| from <= k < i ==> is_digit_char(s@[k]),
        decreases s@.len() - i,
    {
        i = i + 1;
    }
    proof {
        lemma_run_len_is(s@.skip(from as int), |c: u8| is_digit_char(c), (i - from) as nat);
    }
    i - from
}

fn is_letter(c: u8) -> (r: bool)
    ensures
        r == is_letter_char(c),
{
    (c >= B_LOWER_A && c <= B_LOWER_Z) || (c >= B_UPPER_A && c <= B_UPPER_Z)
}

fn is_ident_start(c: u8) -> (r: bool)
    ensures
        r == is_ident_start_char(c),
{
    is_letter(c) || c == B_PLUS || c == B_BANG || c == B_STAR || c == B_PERCENT || c == B_EQ || c == B_LT
        || c == B_GT || c == B_UNDER || c == B_MINUS
}

fn is_ident(c: u8) -> (r: bool)
    ensures
        r == is_ident_char(c),
{
    is_ident_start(c) || (c >= B_D0 && c <= B_D9)
}

/// Longest run of identifier characters from `from`.
fn ident_run(s: &[u8], from: usize) -> (n: usize)
    requires
        from <= s@.len(),
    ensures
        n == run_len(s@.skip(from as int), |c: u8| is_ident_char(c)),
        from + n <= s@.len(),
{
    let mut i = from;
    while i < s.len() && is_ident(s[i])
        invariant
            from <= i <= s@.len(),
            forall|k: int| from <= k < i ==> is_ident_char(s@[k]),
        decreases s@.len() - i,
    {
        i = i + 1;
    }
    proof {
        lemma_run_len_is(s@.skip(from as int), |c: u8| is_ident_char(c), (i - from) as nat);
    }
    i - from
}

/// The match length of category `t` at position `from` of `s`.
fn cat_len_exec(t: TokType, s: &[u8], from: usize) -> (n: usize)
    requires
        from <= s@.len(),
    ensures
        n == cat_len(t, s@.skip(from as int)),
        from + n <= s@.len(),
{
    let ghost sfx = s@.skip(from as int);
    let rem = s.len() - from;
    match t {
        TokType::EOF => 0,
        TokType::WS => space_run(s, from),
        TokType::NL => nl_run(s, from),
        TokType::LPAREN => single_exec(B_LP, s, from),
        TokType::RPAREN => single_exec(B_RP, s, from),
        TokType::COMMA => single_exec(B_COMMA, s, from),
        TokType::AT => single_exec(B_AT, s, from),
        TokType::DOT => single_exec(B_DOT, s, from),
        TokType::BTICK => single_exec(B_BTICK, s, from),
        TokType::DQUOTE => single_exec(B_DQ, s, from),
        TokType::SQUOTE => single_exec(B_SQ, s, from),
        TokType::POUND => single_exec(B_HASH, s, from),
        TokType::IDENT => {
            if rem > 0 && is_ident_start(s[from]) {
                let run = ident_run(s, from + 1);
                proof {
                    assert(sfx.drop_first() =~= s@.skip(from as int + 1));
                }
                1 + run
            } else {
                0
            }
        },
        TokType::BOOLEAN => {
            if rem >= 2 && s[from] == B_HASH && (s[from + 1] == B_LOWER_T || s[from + 1] == B_UPPER_T || s[from
                + 1] == B_LOWER_F || s[from + 1] == B_UPPER_F) {
                2
            } else {
                0
            }
        },
        TokType::NUMBER => {
            let d = digit_run(s, from);
            if from + d < s.len() && s[from + d] == B_DOT && from + d + 1 < s.len() && s[from + d
                + 1] >= B_D0 && s[from + d + 1] <= B_D9 {
                let f = digit_run(s, from + d + 1);
                proof {
                    assert(sfx.skip(d as int + 1) =~= s@.skip(from as int + d as int + 1));
                }
                d + 1 + f
            } else {
                d
            }
        },
        TokType::CHARACTER => {
            if rem >= 2 && s[from] == B_HASH && s[from + 1] == B_BSLASH {
                if rem >= 9 && s[from + 2] == B_LOWER_N && s[from + 3] == B_LOWER_E && s[from + 4] == B_LOWER_W
                    && s[from + 5] == B_LOWER_L && s[from + 6] == B_LOWER_I && s[from + 7] == B_LOWER_N && s[from
                    + 8] == B_LOWER_E {
                    9
                } else if rem >= 7 && s[from + 2] == B_LOWER_S && s[from + 3] == B_LOWER_P && s[from + 4]
                    == B_LOWER_A && s[from + 5] == B_LOWER_C && s[from + 6] == B_LOWER_E {
                    7
                } else if rem >= 3 && is_letter(s[from + 2]) {
                    3
                } else {
                    0
                }
            } else {
                0
            }
        },
        TokType::STRING => str_len_exec(s, from),
    }
}

fn single_exec(c: u8, s: &[u8], from: usize) -> (n: usize)
    requires
        from <= s@.len(),
    ensures
        n == single_char_len(c, s@.skip(from as int)),
        from + n <= s@.len(),
{
    if from < s.len() && s[from] == c {
        1
    } else {
        0
    }
}

/// The string-literal match length at position `from` of `s`.
fn str_len_exec(s: &[u8], from: usize) -> (n: usize)
    requires
        from <= s@.len(),
    ensures
        n == str_len(s@.skip(from as int)),
        from + n <= s@.len(),
{
    let ghost sfx = s@.skip(from as int);
    if from < s.len() && s[from] == B_DQ {
        proof {
            assert(sfx[0] == s@[from as int]);
        }
        let mut i = from + 1;
        let mut last: Option<usize> = None;
        while i < s.len()
            invariant
                from < s@.len(),
                from + 1 <= i,
                i <= s@.len(),
                sfx == s@.skip(from as int),
                sfx.len() == s@.len() - from,
                sfx[0] == B_DQ,
                match last {
                    Some(j) => from < j < i && j < s@.len(),
                    None => true,
                },
                str_scan(sfx, 1, None) == str_scan(
                    sfx,
                    i - from,
                    match last {
                        Some(j) => Some(j - from),
                        None => None,
                    },
                ),
            decreases s@.len() - i,
        {
            proof {
                assert(sfx[i - from] == s@[i as int]);
                assert(sfx[i - from - 1] == s@[i as int - 1]);
            }
            if s[i] == B_DQ {
                if s[i - 1] != B_BSLASH {
                    proof {
                        assert(str_scan(
                            sfx,
                            i - from,
                            match last {
                                Some(j) => Some(j - from),
                                None => None,
                            },
                        ) == Some(i - from));
                        assert(str_scan(sfx, 1, None) == Some(i - from));
                        assert(sfx.len() > 0 && sfx[0] == B_DQ);
                        assert(str_len(sfx) == i - from + 1);
                    }
                    return i + 1 - from;
                }
                last = Some(i);
            }
            i = i + 1;
        }
        proof {
            assert(i - from >= sfx.len());
        }
        match last {
            Some(j) => {
                proof {
                    assert(str_scan(sfx, 1, None) == Some(j - from));
                    assert(str_len(sfx) == j - from + 1);
                }
                j + 1 - from
            },
            None => 0,
        }
    } else {
        0
    }
}

} // verus!
