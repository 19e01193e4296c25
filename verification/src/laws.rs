//! The round-trip law: printing a proper list of well-formed atoms
//! and reading the text back yields the same value.

use vstd::prelude::*;

use crate::lexer::LexState;
use crate::lexer::LexStep;
use crate::lexer::init_state;
use crate::lexer::lex_measure;
use crate::lexer::next_token_spec;
use crate::matcher::B_BSLASH;
use crate::matcher::B_D0;
use crate::matcher::B_DOT;
use crate::matcher::B_DQ;
use crate::matcher::B_HASH;
use crate::matcher::B_LOWER_F;
use crate::matcher::B_LOWER_T;
use crate::matcher::B_LP;
use crate::matcher::B_RP;
use crate::matcher::B_SPACE;
use crate::matcher::B_UPPER_T;
use crate::matcher::best_from;
use crate::matcher::best_match;
use crate::matcher::bool_len;
use crate::matcher::cat_len;
use crate::matcher::char_len;
use crate::matcher::ident_len;
use crate::matcher::is_digit_char;
use crate::matcher::is_ident_char;
use crate::matcher::is_ident_start_char;
use crate::matcher::is_nl_char;
use crate::matcher::is_space_char;
use crate::matcher::lemma_run_len_is;
use crate::matcher::num_len;
use crate::matcher::str_len;
use crate::matcher::str_scan;
use crate::matcher::tok_priority;
use crate::parse::FormRes;
use crate::parse::TokStream;
use crate::parse::form_of;
use crate::parse::list_of;
use crate::parse::pair_of;
use crate::parse::stream_of;
use crate::parse::tail_stream;
use crate::token::TokType;
use crate::token::TokenModel;
use crate::val::DecModel;
use crate::val::ValModel;
use crate::val::dec_print;
use crate::val::dec_wf;
use crate::val::digit_of;
use crate::val::digits;
use crate::val::digits_val;
use crate::val::norm;
use crate::val::num_model;
use crate::val::print_spine;
use crate::val::print_val;
use crate::val::zeroes;

verus! {

// ----------------------------------------------------------------------
// Which values the law speaks of.
// ----------------------------------------------------------------------
/// An atom whose printed text reads back as one token of the same
/// category: identifier text in the identifier grammar, a well-formed
/// decimal, and string bodies whose quotes are escaped and that do not
/// end in a backslash (a trailing backslash would escape the closing
/// quote).
pub open spec fn atom_lexable(a: ValModel) -> bool {
    match a {
        ValModel::Ident(t) => t.len() > 0 && is_ident_start_char(t[0]) && (forall|i: int|
            0 <= i < t.len() ==> is_ident_char(#[trigger] t[i])),
        ValModel::Bool(_) => true,
        ValModel::Num(d) => dec_wf(d),
        ValModel::Str(t) => (forall|i: int|
            0 <= i < t.len() && #[trigger] t[i] == B_DQ ==> i > 0 && t[i - 1] == B_BSLASH) && (
        t.len() == 0 || t[t.len() - 1] != B_BSLASH),
        _ => false,
    }
}

/// A nonempty proper list all of whose elements are lexable atoms.
pub open spec fn proper_atom_list(v: ValModel) -> bool
    decreases v,
{
    match v {
        ValModel::Pair(h, t) => atom_lexable(*h) && (*t == ValModel::Nil || proper_atom_list(*t)),
        _ => false,
    }
}

/// The elements down the spine of a proper list.
pub open spec fn spine_elems(v: ValModel) -> Seq<ValModel>
    decreases v,
{
    match v {
        ValModel::Pair(h, t) => seq![*h] + spine_elems(*t),
        _ => Seq::empty(),
    }
}

/// The token category an atom prints as.
pub open spec fn atom_cat(a: ValModel) -> TokType {
    match a {
        ValModel::Ident(_) => TokType::IDENT,
        ValModel::Bool(_) => TokType::BOOLEAN,
        ValModel::Num(_) => TokType::NUMBER,
        _ => TokType::STRING,
    }
}

/// A token that reads back as the atom `a`.
pub open spec fn atom_token_ok(tok: TokenModel, a: ValModel) -> bool {
    tok.t == atom_cat(a) && tok.text == print_val(a)
}

// ----------------------------------------------------------------------
// Evaluating the maximal-munch choice.
// ----------------------------------------------------------------------
/// No listed category beats `n`, so neither does the best match.
proof fn lemma_best_from_ub(s: Seq<u8>, cats: Seq<TokType>, n: nat)
    requires
        forall|t: TokType| cat_len(t, s) <= n,
    ensures
        best_from(s, cats).1 <= n,
    decreases cats.len(),
{
    if cats.len() > 0 {
        lemma_best_from_ub(s, cats.drop_first(), n);
    }
}

/// If the category at index `k` matches `n > 0` bytes, every earlier
/// category matches fewer, and no category matches more, then the
/// best match is that category with length `n`.
proof fn lemma_best_from_at(s: Seq<u8>, cats: Seq<TokType>, k: int, n: nat)
    requires
        0 <= k < cats.len(),
        n > 0,
        cat_len(cats[k], s) == n,
        forall|j: int| 0 <= j < k ==> cat_len(#[trigger] cats[j], s) < n,
        forall|t: TokType| cat_len(t, s) <= n,
    ensures
        best_from(s, cats) == (cats[k], n),
    decreases cats.len(),
{
    let rest = cats.drop_first();
    if k == 0 {
        lemma_best_from_ub(s, rest, n);
    } else {
        assert forall|j: int| 0 <= j < k - 1 implies cat_len(#[trigger] rest[j], s) < n by {
            assert(rest[j] == cats[j + 1]);
        }
        assert(rest[k - 1] == cats[k]);
        lemma_best_from_at(s, rest, k - 1, n);
        assert(cat_len(cats[0], s) < n);
    }
}

/// The priority table, by index.
proof fn lemma_priority_entries()
    ensures
        tok_priority().len() == 16,
        tok_priority()[0] == TokType::BOOLEAN,
        tok_priority()[1] == TokType::CHARACTER,
        tok_priority()[2] == TokType::STRING,
        tok_priority()[3] == TokType::NUMBER,
        tok_priority()[4] == TokType::IDENT,
        tok_priority()[5] == TokType::WS,
        tok_priority()[7] == TokType::LPAREN,
        tok_priority()[8] == TokType::RPAREN,
{
}


/// Digit strings print as nonempty runs of digit characters.
proof fn lemma_digits_props(m: nat)
    ensures
        digits(m).len() >= 1,
        forall|i: int| 0 <= i < digits(m).len() ==> is_digit_char(#[trigger] digits(m)[i]),
    decreases m,
{
    if m < 10 {
    } else {
        lemma_digits_props(m / 10);
        assert forall|i: int| 0 <= i < digits(m).len() implies is_digit_char(
            #[trigger] digits(m)[i],
        ) by {
            if i < digits(m).len() - 1 {
                assert(digits(m)[i] == digits(m / 10)[i]);
            }
        }
    }
}

proof fn lemma_zeroes_props(n: nat)
    ensures
        zeroes(n).len() == n,
        forall|i: int| 0 <= i < n ==> #[trigger] zeroes(n)[i] == B_D0,
    decreases n,
{
    if n > 0 {
        lemma_zeroes_props((n - 1) as nat);
        assert forall|i: int| 0 <= i < n implies #[trigger] zeroes(n)[i] == B_D0 by {
            if i < n - 1 {
                assert(zeroes(n)[i] == zeroes((n - 1) as nat)[i]);
            }
        }
    }
}

/// A scan that starts at or before a closing quote whose earlier
/// quotes are all escaped stops exactly there.
proof fn lemma_str_scan_close(s: Seq<u8>, i: int, last: Option<int>, close: int)
    requires
        1 <= i <= close < s.len(),
        s[close] == B_DQ,
        s[close - 1] != B_BSLASH,
        forall|j: int| i <= j < close && #[trigger] s[j] == B_DQ ==> s[j - 1] == B_BSLASH,
    ensures
        str_scan(s, i, last) == Some(close),
    decreases close - i,
{
    if i == close {
    } else if s[i] == B_DQ {
        lemma_str_scan_close(s, i + 1, Some(i), close);
    } else {
        lemma_str_scan_close(s, i + 1, last, close);
    }
}

/// Printed atom text followed by a space or closing paren is matched
/// back as exactly one token of the atom's category.
pub proof fn lemma_atom_token(a: ValModel, tail: Seq<u8>)
    requires
        atom_lexable(a),
        tail.len() > 0,
        tail[0] == B_SPACE || tail[0] == B_RP,
    ensures
        best_match(print_val(a) + tail) == (atom_cat(a), print_val(a).len()),
{
    let av = print_val(a);
    let s = av + tail;
    let n = av.len();
    lemma_priority_entries();
    match a {
        ValModel::Ident(t) => {
            assert(s[0] == t[0]);
            assert(s.drop_first() =~= t.drop_first() + tail);
            assert forall|i: int| 0 <= i < t.len() - 1 implies is_ident_char(
                #[trigger] s.drop_first()[i],
            ) by {
                assert(s.drop_first()[i] == t[i + 1]);
            }
            assert(s.drop_first()[t.len() - 1] == tail[0]);
            lemma_run_len_is(s.drop_first(), |c: u8| is_ident_char(c), (t.len() - 1) as nat);
            assert(ident_len(s) == t.len());
            lemma_run_len_is(s, |c: u8| is_digit_char(c), 0);
            lemma_run_len_is(s, |c: u8| is_space_char(c), 0);
            lemma_run_len_is(s, |c: u8| is_nl_char(c), 0);
            assert(num_len(s) == 0);
            assert forall|tt: TokType| cat_len(tt, s) <= n by {}
            lemma_best_from_at(s, tok_priority(), 4, n);
        },
        ValModel::Bool(b) => {
            assert(s[0] == B_HASH);
            assert(s[1] == B_LOWER_T || s[1] == B_LOWER_F);
            assert(bool_len(s) == 2);
            assert(char_len(s) == 0);
            lemma_run_len_is(s, |c: u8| is_digit_char(c), 0);
            lemma_run_len_is(s, |c: u8| is_space_char(c), 0);
            lemma_run_len_is(s, |c: u8| is_nl_char(c), 0);
            assert(num_len(s) == 0);
            assert forall|tt: TokType| cat_len(tt, s) <= 2 by {}
            lemma_best_from_at(s, tok_priority(), 0, 2);
        },
        ValModel::Num(d) => {
            let m = d.mant;
            let sc = d.scale;
            let ds = digits(m);
            lemma_digits_props(m);
            if sc == 0 {
                assert(av == ds);
                assert forall|i: int| 0 <= i < ds.len() implies is_digit_char(#[trigger] s[i]) by {
                    assert(s[i] == ds[i]);
                }
                assert(s[ds.len() as int] == tail[0]);
                lemma_run_len_is(s, |c: u8| is_digit_char(c), ds.len());
                assert(num_len(s) == n);
            } else if ds.len() <= sc {
                let pad = (sc - ds.len()) as nat;
                lemma_zeroes_props(pad);
                assert(av == seq![B_D0, B_DOT] + zeroes(pad) + ds);
                assert(av.len() == sc + 2);
                assert(s[0] == B_D0);
                assert(s[1] == B_DOT);
                lemma_run_len_is(s, |c: u8| is_digit_char(c), 1);
                let f = s.skip(2);
                assert forall|i: int| 0 <= i < sc implies is_digit_char(#[trigger] f[i]) by {
                    assert(f[i] == s[i + 2]);
                    if i < pad {
                        assert(s[i + 2] == zeroes(pad)[i]);
                    } else {
                        assert(s[i + 2] == ds[i - pad]);
                    }
                }
                assert(f[sc as int] == s[sc as int + 2]);
                assert(s[sc as int + 2] == tail[0]);
                lemma_run_len_is(f, |c: u8| is_digit_char(c), sc);
                assert(num_len(s) == 1 + 1 + sc);
                assert(num_len(s) == n);
            } else {
                let k = (ds.len() - sc) as int;
                assert(av == ds.take(k) + seq![B_DOT] + ds.skip(k));
                assert(av.len() == ds.len() + 1);
                assert forall|i: int| 0 <= i < k implies is_digit_char(#[trigger] s[i]) by {
                    assert(s[i] == ds.take(k)[i]);
                    assert(ds.take(k)[i] == ds[i]);
                }
                assert(s[k] == B_DOT);
                lemma_run_len_is(s, |c: u8| is_digit_char(c), k as nat);
                let f = s.skip(k + 1);
                assert forall|i: int| 0 <= i < sc implies is_digit_char(#[trigger] f[i]) by {
                    assert(f[i] == s[i + k + 1]);
                    assert(s[i + k + 1] == ds.skip(k)[i]);
                    assert(ds.skip(k)[i] == ds[i + k]);
                }
                assert(f[sc as int] == s[sc as int + k + 1]);
                assert(s[sc as int + k + 1] == tail[0]);
                lemma_run_len_is(f, |c: u8| is_digit_char(c), sc);
                assert(num_len(s) == k + 1 + sc);
                assert(num_len(s) == n);
            }
            assert(is_digit_char(s[0]));
            lemma_run_len_is(s, |c: u8| is_space_char(c), 0);
            lemma_run_len_is(s, |c: u8| is_nl_char(c), 0);
            assert forall|tt: TokType| cat_len(tt, s) <= n by {
                assert(n >= 1) by {
                    lemma_digits_props(m);
                }
            }
            lemma_best_from_at(s, tok_priority(), 3, n);
        },
        ValModel::Str(t) => {
            assert(av == seq![B_DQ] + t + seq![B_DQ]);
            assert(s[0] == B_DQ);
            let close = t.len() + 1;
            assert(s[close as int] == B_DQ);
            if t.len() > 0 {
                assert(s[close - 1] == t[t.len() - 1]);
            } else {
                assert(s[close - 1] == B_DQ);
            }
            assert forall|j: int| 1 <= j < close && #[trigger] s[j] == B_DQ implies s[j - 1]
                == B_BSLASH by {
                assert(s[j] == t[j - 1]);
                if t[j - 1] == B_DQ {
                    assert(t[j - 2] == B_BSLASH);
                    assert(s[j - 1] == t[j - 2]);
                }
            }
            lemma_str_scan_close(s, 1, None, close as int);
            assert(str_len(s) == t.len() + 2);
            lemma_run_len_is(s, |c: u8| is_digit_char(c), 0);
            lemma_run_len_is(s, |c: u8| is_space_char(c), 0);
            lemma_run_len_is(s, |c: u8| is_nl_char(c), 0);
            assert(num_len(s) == 0);
            assert forall|tt: TokType| cat_len(tt, s) <= n by {}
            lemma_best_from_at(s, tok_priority(), 2, n);
        },
        _ => {},
    }
}

/// A space before a non-space byte is one whitespace token.
pub proof fn lemma_space_match(s: Seq<u8>)
    requires
        s.len() >= 2,
        s[0] == B_SPACE,
        !is_space_char(s[1]),
    ensures
        best_match(s) == (TokType::WS, 1nat),
{
    lemma_priority_entries();
    lemma_run_len_is(s, |c: u8| is_space_char(c), 1);
    lemma_run_len_is(s, |c: u8| is_nl_char(c), 0);
    lemma_run_len_is(s, |c: u8| is_digit_char(c), 0);
    assert(num_len(s) == 0);
    assert forall|tt: TokType| cat_len(tt, s) <= 1 by {}
    lemma_best_from_at(s, tok_priority(), 5, 1);
}

/// An opening paren is one token.
pub proof fn lemma_lparen_match(s: Seq<u8>)
    requires
        s.len() >= 1,
        s[0] == B_LP,
    ensures
        best_match(s) == (TokType::LPAREN, 1nat),
{
    lemma_priority_entries();
    lemma_run_len_is(s, |c: u8| is_space_char(c), 0);
    lemma_run_len_is(s, |c: u8| is_nl_char(c), 0);
    lemma_run_len_is(s, |c: u8| is_digit_char(c), 0);
    assert(num_len(s) == 0);
    assert forall|tt: TokType| cat_len(tt, s) <= 1 by {}
    lemma_best_from_at(s, tok_priority(), 7, 1);
}

/// A closing paren is one token.
pub proof fn lemma_rparen_match(s: Seq<u8>)
    requires
        s.len() >= 1,
        s[0] == B_RP,
    ensures
        best_match(s) == (TokType::RPAREN, 1nat),
{
    lemma_priority_entries();
    lemma_run_len_is(s, |c: u8| is_space_char(c), 0);
    lemma_run_len_is(s, |c: u8| is_nl_char(c), 0);
    lemma_run_len_is(s, |c: u8| is_digit_char(c), 0);
    assert(num_len(s) == 0);
    assert forall|tt: TokType| cat_len(tt, s) <= 1 by {}
    lemma_best_from_at(s, tok_priority(), 8, 1);
}


// ----------------------------------------------------------------------
// Reading a printed number back.
// ----------------------------------------------------------------------
/// The digits of `m` denote `m`.
proof fn lemma_digits_val_digits(m: nat)
    ensures
        digits_val(digits(m)) == m,
    decreases m,
{
    if m < 10 {
        assert(digits(m) == seq![(m + 48) as u8]);
        assert(digits(m).drop_last() =~= Seq::<u8>::empty());
        assert(digits_val(Seq::<u8>::empty()) == 0);
        assert(digits(m).last() == (m + 48) as u8);
        assert(digit_of((m + 48) as u8) == m);
    } else {
        lemma_digits_val_digits(m / 10);
        assert(digits(m).drop_last() =~= digits(m / 10));
        assert(digits(m).last() == (m % 10 + 48) as u8);
        assert(digit_of((m % 10 + 48) as u8) == m % 10);
        assert(digits_val(digits(m)) == digits_val(digits(m).drop_last()) * 10 + digit_of(
            digits(m).last(),
        ));
    }
}

/// A run of zero digits denotes zero.
proof fn lemma_digits_val_zeros(zs: Seq<u8>)
    requires
        forall|i: int| 0 <= i < zs.len() ==> #[trigger] zs[i] == B_D0,
    ensures
        digits_val(zs) == 0,
    decreases zs.len(),
{
    if zs.len() > 0 {
        lemma_digits_val_zeros(zs.drop_last());
        assert(digit_of(zs.last()) == 0);
    }
}

/// Leading zero digits do not change the value.
proof fn lemma_digits_val_zero_prefix(zs: Seq<u8>, ds: Seq<u8>)
    requires
        forall|i: int| 0 <= i < zs.len() ==> #[trigger] zs[i] == B_D0,
    ensures
        digits_val(zs + ds) == digits_val(ds),
    decreases ds.len(),
{
    if ds.len() == 0 {
        assert(zs + ds =~= zs);
        lemma_digits_val_zeros(zs);
    } else {
        assert((zs + ds).drop_last() =~= zs + ds.drop_last());
        lemma_digits_val_zero_prefix(zs, ds.drop_last());
        assert((zs + ds).last() == ds.last());
    }
}

/// Reading the canonical text of a well-formed decimal gives back the
/// same decimal.
pub proof fn lemma_num_round_trip(d: DecModel)
    requires
        dec_wf(d),
    ensures
        num_model(dec_print(d.mant, d.scale)) == Some(d),
{
    let m = d.mant;
    let sc = d.scale;
    let ds = digits(m);
    let text = dec_print(m, sc);
    lemma_digits_props(m);
    lemma_digits_val_digits(m);
    if sc == 0 {
        assert(text == ds);
        assert forall|i: int| 0 <= i < text.len() implies is_digit_char(#[trigger] text[i]) by {}
        lemma_run_len_is(text, |c: u8| is_digit_char(c), text.len());
        assert(text.take(text.len() as int) + Seq::<u8>::empty() =~= ds);
        assert(norm(m, 0) == DecModel { mant: m, scale: 0nat });
        assert(num_model(text) == Some(d));
    } else if ds.len() <= sc {
        let pad = (sc - ds.len()) as nat;
        lemma_zeroes_props(pad);
        assert(text == seq![B_D0, B_DOT] + zeroes(pad) + ds);
        assert(text[0] == B_D0);
        assert(text[1] == B_DOT);
        lemma_run_len_is(text, |c: u8| is_digit_char(c), 1);
        let frac = text.skip(2);
        assert(frac =~= zeroes(pad) + ds);
        assert(text.take(1) =~= seq![B_D0]);
        assert(text.take(1) + frac =~= (seq![B_D0] + zeroes(pad)) + ds);
        assert forall|i: int|
            0 <= i < (seq![B_D0] + zeroes(pad)).len() implies #[trigger] (seq![B_D0] + zeroes(
            pad,
        ))[i] == B_D0 by {
            if i > 0 {
                assert((seq![B_D0] + zeroes(pad))[i] == zeroes(pad)[i - 1]);
            }
        }
        lemma_digits_val_zero_prefix(seq![B_D0] + zeroes(pad), ds);
        assert(digits_val(text.take(1) + frac) == m);
        assert(frac.len() == sc);
        assert(norm(m, sc) == DecModel { mant: m, scale: sc });
        assert(num_model(text) == Some(d));
    } else {
        let k = (ds.len() - sc) as int;
        assert(text == ds.take(k) + seq![B_DOT] + ds.skip(k));
        assert forall|i: int| 0 <= i < k implies is_digit_char(#[trigger] text[i]) by {
            assert(text[i] == ds.take(k)[i]);
            assert(ds.take(k)[i] == ds[i]);
        }
        assert(text[k] == B_DOT);
        lemma_run_len_is(text, |c: u8| is_digit_char(c), k as nat);
        let frac = text.skip(k + 1);
        assert(frac =~= ds.skip(k));
        assert(text.take(k) =~= ds.take(k));
        assert(text.take(k) + frac =~= ds);
        assert(digits_val(text.take(k) + frac) == m);
        assert(frac.len() == sc);
        assert(norm(m, sc) == DecModel { mant: m, scale: sc });
        assert(num_model(text) == Some(d));
    }
}


// ----------------------------------------------------------------------
// Reading the printed tokens back.
// ----------------------------------------------------------------------
/// A token stream that consists of the atom tokens of a proper list
/// followed by a closing paren parses back to exactly that list, with
/// the closing paren left in the stream.
pub proof fn lemma_parse_spine(ts: TokStream, v: ValModel)
    requires
        proper_atom_list(v),
        ts.toks.len() == spine_elems(v).len() + 1,
        forall|i: int|
            0 <= i < spine_elems(v).len() ==> atom_token_ok(
                #[trigger] ts.toks[i],
                spine_elems(v)[i],
            ),
        ts.toks[spine_elems(v).len() as int].t == TokType::RPAREN,
    ensures
        pair_of(ts) == (FormRes::Found {
            v,
            rest: TokStream { toks: ts.toks.skip(spine_elems(v).len() as int), end: ts.end },
        }),
    decreases v,
{
    let elems = spine_elems(v);
    match v {
        ValModel::Pair(h, t) => {
            assert(elems[0] == *h);
            let tok0 = ts.toks[0];
            assert(atom_token_ok(tok0, *h));
            let rest = tail_stream(ts);
            // the head atom reads back as itself
            match *h {
                ValModel::Ident(txt) => {
                    assert(form_of(ts) == (FormRes::Found { v: ValModel::Ident(txt), rest }));
                },
                ValModel::Bool(b) => {
                    if b {
                        assert(tok0.text =~= seq![B_HASH, B_LOWER_T]);
                        assert(crate::parse::bool_value(tok0.text));
                    } else {
                        assert(tok0.text =~= seq![B_HASH, B_LOWER_F]);
                        assert(seq![B_HASH, B_LOWER_F][1] == B_LOWER_F);
                        assert(seq![B_HASH, B_LOWER_T][1] == B_LOWER_T);
                        assert(seq![B_HASH, B_UPPER_T][1] == B_UPPER_T);
                        assert(!crate::parse::bool_value(tok0.text));
                    }
                    assert(form_of(ts) == (FormRes::Found { v: ValModel::Bool(b), rest }));
                },
                ValModel::Num(d) => {
                    lemma_num_round_trip(d);
                    assert(form_of(ts) == (FormRes::Found { v: ValModel::Num(d), rest }));
                },
                ValModel::Str(txt) => {
                    assert(tok0.text =~= seq![B_DQ] + txt + seq![B_DQ]);
                    assert(tok0.text.subrange(1, tok0.text.len() - 1) =~= txt);
                    assert(form_of(ts) == (FormRes::Found { v: ValModel::Str(txt), rest }));
                },
                _ => {
                    assert(false);
                },
            }
            assert(rest.toks.len() == elems.len());
            if *t == ValModel::Nil {
                assert(spine_elems(ValModel::Nil) =~= Seq::<ValModel>::empty());
                assert(elems =~= seq![*h]);
                assert(rest.toks[0] == ts.toks[1]);
                assert(rest.toks[0].t == TokType::RPAREN);
                assert(pair_of(ts) == (FormRes::Found {
                    v: ValModel::Pair(Box::new(*h), Box::new(ValModel::Nil)),
                    rest,
                }));
                assert(rest.toks =~= ts.toks.skip(1));
                assert(pair_of(ts) == (FormRes::Found {
                    v,
                    rest: TokStream { toks: ts.toks.skip(elems.len() as int), end: ts.end },
                }));
            } else {
                let telems = spine_elems(*t);
                assert(proper_atom_list(*t));
                match *t {
                    ValModel::Pair(h2, t2) => {
                        assert(telems == seq![*h2] + spine_elems(*t2));
                    },
                    _ => {
                        assert(false);
                    },
                }
                assert(telems.len() >= 1);
                assert(rest.toks[0] == ts.toks[1]);
                assert(elems[1] == telems[0]);
                assert(atom_token_ok(rest.toks[0], telems[0]));
                assert(rest.toks[0].t != TokType::RPAREN && rest.toks[0].t != TokType::DOT);
                assert(rest.toks.len() == telems.len() + 1);
                assert forall|i: int| 0 <= i < telems.len() implies atom_token_ok(
                    #[trigger] rest.toks[i],
                    telems[i],
                ) by {
                    assert(rest.toks[i] == ts.toks[i + 1]);
                    assert(elems[i + 1] == telems[i]);
                }
                assert(rest.toks[telems.len() as int] == ts.toks[elems.len() as int]);
                lemma_parse_spine(rest, *t);
                assert(rest.toks.skip(telems.len() as int) =~= ts.toks.skip(elems.len() as int));
                assert(pair_of(ts) == (FormRes::Found {
                    v,
                    rest: TokStream { toks: ts.toks.skip(elems.len() as int), end: ts.end },
                }));
            }
        },
        _ => {
            assert(false);
        },
    }
}


// ----------------------------------------------------------------------
// Tokenizing the printed text.
// ----------------------------------------------------------------------
/// A printed atom is nonempty and does not begin with whitespace.
proof fn lemma_atom_print_first(a: ValModel)
    requires
        atom_lexable(a),
    ensures
        print_val(a).len() > 0,
        !is_space_char(print_val(a)[0]),
{
    match a {
        ValModel::Num(d) => {
            let ds = digits(d.mant);
            lemma_digits_props(d.mant);
            if d.scale == 0 {
            } else if ds.len() <= d.scale {
                assert(print_val(a)[0] == B_D0);
            } else {
                let k = (ds.len() - d.scale) as int;
                assert(print_val(a)[0] == ds.take(k)[0]);
                assert(ds.take(k)[0] == ds[0]);
            }
        },
        _ => {},
    }
}

/// Scanning text that is exactly the printed spine of a proper list
/// yields its atom tokens, the closing paren, and a clean end.
pub proof fn lemma_scan_spine(st: LexState, v: ValModel)
    requires
        proper_atom_list(v),
        st.pos <= st.input.len(),
        st.input.skip(st.pos as int) == print_spine(v),
    ensures
        stream_of(st).end is Done,
        stream_of(st).toks.len() == spine_elems(v).len() + 1,
        forall|i: int|
            0 <= i < spine_elems(v).len() ==> atom_token_ok(
                #[trigger] stream_of(st).toks[i],
                spine_elems(v)[i],
            ),
        stream_of(st).toks[spine_elems(v).len() as int].t == TokType::RPAREN,
    decreases v,
{
    match v {
        ValModel::Pair(h, t) => {
            let sfx = st.input.skip(st.pos as int);
            let av = print_val(*h);
            let n = av.len();
            let tail0 = if *t == ValModel::Nil {
                seq![B_RP]
            } else {
                seq![B_SPACE] + print_spine(*t)
            };
            if *t == ValModel::Nil {
                assert(print_spine(v) == av + seq![B_RP]);
            } else {
                assert(proper_atom_list(*t));
                assert(*t is Pair);
                assert(print_spine(v) == av + (seq![B_SPACE] + print_spine(*t)));
            }
            assert(sfx == av + tail0);
            lemma_atom_print_first(*h);
            if *t != ValModel::Nil {
                assert(tail0[0] == B_SPACE);
            }
            lemma_atom_token(*h, tail0);
            let cat = atom_cat(*h);
            assert(cat != TokType::WS && cat != TokType::NL && cat != TokType::DQUOTE && cat
                != TokType::EOF);
            assert(sfx.len() == n + tail0.len());
            assert(st.pos < st.input.len());
            let st1 = LexState {
                input: st.input,
                pos: st.pos + n,
                line: st.line,
                col: st.col + n,
            };
            assert(next_token_spec(st) matches LexStep::Tok { tok, next } && next == st1);
            let tok0 = match next_token_spec(st) {
                LexStep::Tok { tok, next } => tok,
                _ => arbitrary(),
            };
            assert(st.input.subrange(st.pos as int, (st.pos + n) as int) =~= sfx.take(n as int));
            assert(sfx.take(n as int) =~= av);
            assert(atom_token_ok(tok0, *h));
            assert(st.input.skip(st1.pos as int) =~= sfx.skip(n as int));
            assert(sfx.skip(n as int) =~= tail0);
            if *t == ValModel::Nil {
                // the closing paren, then the end of the input
                lemma_rparen_match(st.input.skip(st1.pos as int));
                assert(st1.pos < st.input.len());
                let st2 = LexState {
                    input: st.input,
                    pos: st1.pos + 1,
                    line: st1.line,
                    col: st1.col + 1,
                };
                assert(next_token_spec(st1) matches LexStep::Tok { tok, next } && next == st2
                    && tok.t == TokType::RPAREN);
                let tok1 = match next_token_spec(st1) {
                    LexStep::Tok { tok, next } => tok,
                    _ => arbitrary(),
                };
                assert(st2.pos >= st.input.len());
                assert(stream_of(st2).toks =~= Seq::<TokenModel>::empty());
                assert(stream_of(st1).toks =~= seq![tok1]);
                assert(stream_of(st).toks =~= seq![tok0, tok1]);
                assert(spine_elems(ValModel::Nil) =~= Seq::<ValModel>::empty());
                assert(spine_elems(v) =~= seq![*h]);
                assert(stream_of(st).toks[0] == tok0);
                assert(stream_of(st).toks[1] == tok1);
            } else {
                // the separating space, then the rest of the spine
                let sp = st.input.skip(st1.pos as int);
                match *t {
                    ValModel::Pair(h2, t2) => {
                        assert(proper_atom_list(*t));
                        assert(atom_lexable(*h2));
                        lemma_atom_print_first(*h2);
                        assert(print_spine(*t)[0] == print_val(*h2)[0]);
                        assert(sp[1] == print_spine(*t)[0]);
                    },
                    _ => {
                        assert(false);
                    },
                }
                lemma_space_match(sp);
                let st1b = LexState {
                    input: st.input,
                    pos: st1.pos + 1,
                    line: st1.line,
                    col: st1.col + 1,
                };
                assert(st1.pos < st.input.len());
                assert(next_token_spec(st1) == next_token_spec(st1b));
                assert(st.input.skip(st1b.pos as int) =~= sp.skip(1));
                assert(sp.skip(1) =~= print_spine(*t));
                lemma_scan_spine(st1b, *t);
                assert(stream_of(st1) == stream_of(st1b));
                let telems = spine_elems(*t);
                assert(spine_elems(v) == seq![*h] + telems);
                assert(stream_of(st).toks =~= seq![tok0] + stream_of(st1b).toks);
                assert(stream_of(st).toks.len() == telems.len() + 2);
                assert forall|i: int| 0 <= i < spine_elems(v).len() implies atom_token_ok(
                    #[trigger] stream_of(st).toks[i],
                    spine_elems(v)[i],
                ) by {
                    if i == 0 {
                        assert(stream_of(st).toks[0] == tok0);
                        assert(spine_elems(v)[0] == *h);
                    } else {
                        assert(stream_of(st).toks[i] == stream_of(st1b).toks[i - 1]);
                        assert(spine_elems(v)[i] == telems[i - 1]);
                    }
                }
                assert(stream_of(st).toks[spine_elems(v).len() as int] == stream_of(
                    st1b,
                ).toks[telems.len() as int]);
            }
        },
        _ => {
            assert(false);
        },
    }
}

// ----------------------------------------------------------------------
// The round-trip law.
// ----------------------------------------------------------------------
/// Printing a nonempty proper list of lexable atoms and reading the
/// text back yields exactly one form, structurally equal to the
/// original value, with the input cleanly consumed.
pub proof fn lemma_print_read_round_trip(v: ValModel)
    requires
        proper_atom_list(v),
    ensures
        match form_of(stream_of(init_state(print_val(v)))) {
            FormRes::Found { v: w, rest } => w == v && rest.toks.len() == 0 && rest.end is Done,
            _ => false,
        },
{
    let input = print_val(v);
    let st0 = init_state(input);
    match v {
        ValModel::Pair(_, _) => {},
        _ => {
            assert(false);
        },
    }
    assert(input == seq![B_LP] + print_spine(v));
    assert(input[0] == B_LP);
    assert(input.skip(0) =~= input);
    lemma_lparen_match(input);
    let st1 = LexState { input, pos: 1, line: 0, col: 1 };
    assert(next_token_spec(st0) matches LexStep::Tok { tok, next } && next == st1 && tok.t
        == TokType::LPAREN);
    let lptok = match next_token_spec(st0) {
        LexStep::Tok { tok, next } => tok,
        _ => arbitrary(),
    };
    assert(input.skip(1) =~= print_spine(v));
    lemma_scan_spine(st1, v);
    let s1 = stream_of(st1);
    let ts = stream_of(st0);
    assert(ts.toks =~= seq![lptok] + s1.toks);
    assert(ts.end == s1.end);
    let elems = spine_elems(v);
    match v {
        ValModel::Pair(h, t) => {
            assert(elems == seq![*h] + spine_elems(*t));
            assert(elems.len() >= 1);
        },
        _ => {},
    }
    let rest = tail_stream(ts);
    assert(rest.toks =~= s1.toks);
    assert(rest.toks.len() == elems.len() + 1);
    assert forall|i: int| 0 <= i < elems.len() implies atom_token_ok(
        #[trigger] rest.toks[i],
        elems[i],
    ) by {
        assert(rest.toks[i] == s1.toks[i]);
    }
    assert(rest.toks[elems.len() as int] == s1.toks[elems.len() as int]);
    assert(rest.toks[0] == s1.toks[0]);
    assert(atom_token_ok(rest.toks[0], elems[0]));
    assert(rest.toks[0].t != TokType::RPAREN);
    lemma_parse_spine(rest, v);
    let r2 = TokStream { toks: rest.toks.skip(elems.len() as int), end: rest.end };
    assert(r2.toks.len() == 1);
    assert(r2.toks[0] == rest.toks[elems.len() as int]);
    assert(r2.toks[0].t == TokType::RPAREN);
    assert(list_of(ts) == (FormRes::Found { v, rest: tail_stream(r2) }));
    assert(tail_stream(r2).toks.len() == 0);
    assert(ts.toks[0] == lptok);
    assert(form_of(ts) == list_of(ts));
}


} // verus!
