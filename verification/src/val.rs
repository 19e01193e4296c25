//! The cons-cell value model: atoms, pairs and nil, with a canonical
//! printer and the exact-decimal number representation.
//!
//! Numbers are kept as exact decimals `mant / 10^scale` with the
//! trailing zeros of the fraction stripped, so printing and re-reading
//! a number is lossless.  Number text whose digits exceed 64 bits of
//! mantissa is rejected as `InvalidNumber`.

use vstd::prelude::*;

use crate::matcher::B_D0;
use crate::matcher::B_D9;
use crate::matcher::B_DOT;
use crate::matcher::B_DQ;
use crate::matcher::B_GT;
use crate::matcher::B_HASH;
use crate::matcher::B_LOWER_F;
use crate::matcher::B_LOWER_I;
use crate::matcher::B_LOWER_L;
use crate::matcher::B_LOWER_N;
use crate::matcher::B_LOWER_T;
use crate::matcher::B_LP;
use crate::matcher::B_LT;
use crate::matcher::B_RP;
use crate::matcher::B_SPACE;
use crate::matcher::is_digit_char;
use crate::matcher::run_len;
use crate::token::ReadError;

verus! {

/// An exact decimal: the value `mant / 10^scale`.
#[derive(Clone, Copy, PartialEq, Eq, Structural, Debug)]
pub struct Decimal {
    pub mant: u64,
    pub scale: u64,
}

/// The mathematical image of a `Decimal`.
#[verifier::ext_equal]
pub struct DecModel {
    pub mant: nat,
    pub scale: nat,
}

impl View for Decimal {
    type V = DecModel;

    open spec fn view(&self) -> DecModel {
        DecModel { mant: self.mant as nat, scale: self.scale as nat }
    }
}

/// A decimal is well formed when its fraction has no trailing zeros
/// (so `scale` 0 is the only representation of integers) and its
/// mantissa fits the 64 bits the reader accepts.
pub open spec fn dec_wf(d: DecModel) -> bool {
    &&& d.scale > 0 ==> d.mant % 10 != 0
    &&& d.mant < 0x1_0000_0000_0000_0000
}

/// A parsed form: an atom, a cons pair, or the empty-list sentinel.
/// Pairs own their head and tail; structure is never mutated after
/// construction.
#[derive(Debug)]
pub enum Val {
    Ident(Vec<u8>),
    Bool(bool),
    Num(Decimal),
    Str(Vec<u8>),
    Pair(Box<Val>, Box<Val>),
    Nil,
}

/// The mathematical image of a `Val`.
#[verifier::ext_equal]
pub enum ValModel {
    Ident(Seq<u8>),
    Bool(bool),
    Num(DecModel),
    Str(Seq<u8>),
    Pair(Box<ValModel>, Box<ValModel>),
    Nil,
}

pub open spec fn val_model(v: Val) -> ValModel
    decreases v,
{
    match v {
        Val::Ident(t) => ValModel::Ident(t@),
        Val::Bool(b) => ValModel::Bool(b),
        Val::Num(d) => ValModel::Num(d@),
        Val::Str(t) => ValModel::Str(t@),
        Val::Pair(h, t) => ValModel::Pair(Box::new(val_model(*h)), Box::new(val_model(*t))),
        Val::Nil => ValModel::Nil,
    }
}

impl View for Val {
    type V = ValModel;

    open spec fn view(&self) -> ValModel {
        val_model(*self)
    }
}

/// Number of constructors in `v`; a measure for spine loops.
pub open spec fn val_size(v: ValModel) -> nat
    decreases v,
{
    match v {
        ValModel::Pair(h, t) => 1 + val_size(*h) + val_size(*t),
        _ => 1,
    }
}

// ----------------------------------------------------------------------
// Reading a number.
// ----------------------------------------------------------------------
/// The numeric weight of one byte: its digit value, other bytes 0.
pub open spec fn digit_of(c: u8) -> nat {
    if is_digit_char(c) {
        (c - B_D0) as nat
    } else {
        0
    }
}

/// The number written by a digit string, most significant digit first.
pub open spec fn digits_val(ds: Seq<u8>) -> nat
    decreases ds.len(),
{
    if ds.len() == 0 {
        0
    } else {
        digits_val(ds.drop_last()) * 10 + digit_of(ds.last())
    }
}

/// Strip trailing zeros of the fraction.
pub open spec fn norm(m: nat, s: nat) -> DecModel
    decreases s,
{
    if s > 0 && m % 10 == 0 {
        norm(m / 10, (s - 1) as nat)
    } else {
        DecModel { mant: m, scale: s }
    }
}

/// The decimal denoted by matched number text: the digits around the
/// optional dot, normalised; `None` when the digits exceed 64 bits.
pub open spec fn num_model(text: Seq<u8>) -> Option<DecModel> {
    let d = run_len(text, |c: u8| is_digit_char(c));
    let frac = if d < text.len() && text[d as int] == B_DOT {
        text.skip(d as int + 1)
    } else {
        Seq::empty()
    };
    let m0 = digits_val(text.take(d as int) + frac);
    if m0 < 0x1_0000_0000_0000_0000 {
        Some(norm(m0, frac.len()))
    } else {
        None
    }
}

/// A prefix of a digit string never outweighs the whole string.
proof fn lemma_digits_val_mono(ds: Seq<u8>, i: int)
    requires
        0 <= i <= ds.len(),
    ensures
        digits_val(ds.take(i)) <= digits_val(ds),
    decreases ds.len() - i,
{
    if i == ds.len() {
        assert(ds.take(i) =~= ds);
    } else {
        assert(ds.take(i + 1).drop_last() =~= ds.take(i));
        assert(digits_val(ds.take(i + 1)) == digits_val(ds.take(i)) * 10 + digit_of(ds[i]));
        lemma_digits_val_mono(ds, i + 1);
    }
}

/// Read matched number text into a `Decimal`, reporting the token's
/// position on overflow.
pub fn parse_number(text: &[u8], line: usize, col: usize) -> (r: Result<Decimal, ReadError>)
    ensures
        match num_model(text@) {
            Some(d) => r matches Ok(dec) && dec@ == d,
            None => r matches Err(e) && e == (ReadError::InvalidNumber { line, col }),
        },
{
    let d = crate::matcher::digit_run(text, 0);
    proof {
        assert(text@.skip(0) =~= text@);
    }
    let has_frac = d < text.len() && text[d] == B_DOT;
    let ghost frac = if has_frac {
        text@.skip(d as int + 1)
    } else {
        Seq::<u8>::empty()
    };
    let ghost digs = text@.take(d as int) + frac;
    let ghost big: nat = 0x1_0000_0000_0000_0000;
    proof {
        assert(num_model(text@) == (if digits_val(digs) < big {
            Some(norm(digits_val(digs), frac.len()))
        } else {
            Option::<DecModel>::None
        }));
    }
    let mut acc: u64 = 0;
    let mut i: usize = 0;
    while i < d
        invariant
            0 <= i <= d <= text@.len(),
            big == 0x1_0000_0000_0000_0000,
            digs == text@.take(d as int) + frac,
            digs.len() == d + frac.len(),
            forall|k: int| 0 <= k < d ==> digs[k] == text@[k],
            acc == digits_val(digs.take(i as int)),
            num_model(text@) == (if digits_val(digs) < big {
                Some(norm(digits_val(digs), frac.len()))
            } else {
                Option::<DecModel>::None
            }),
        decreases d - i,
    {
        let c = text[i];
        let dig: u64 = if c >= B_D0 && c <= B_D9 {
            (c - B_D0) as u64
        } else {
            0
        };
        proof {
            assert(digs.take(i as int + 1).drop_last() =~= digs.take(i as int));
            assert(digs.take(i as int + 1).last() == text@[i as int]);
        }
        let step = match acc.checked_mul(10) {
            Some(x) => x.checked_add(dig),
            None => None,
        };
        match step {
            Some(x) => {
                acc = x;
            },
            None => {
                proof {
                    assert(digits_val(digs.take(i as int + 1)) >= 0x1_0000_0000_0000_0000);
                    lemma_digits_val_mono(digs, i as int + 1);
                }
                return Err(ReadError::InvalidNumber { line, col });
            },
        }
        i = i + 1;
    }
    let mut f: usize = 0;
    if has_frac {
        let mut j: usize = d + 1;
        while j < text.len()
            invariant
                has_frac,
                d + 1 <= j <= text@.len(),
                f == j - d - 1,
                big == 0x1_0000_0000_0000_0000,
                digs == text@.take(d as int) + frac,
                frac == text@.skip(d as int + 1),
                digs.len() == d + frac.len(),
                num_model(text@) == (if digits_val(digs) < big {
                    Some(norm(digits_val(digs), frac.len()))
                } else {
                    Option::<DecModel>::None
                }),
                forall|k: int| d <= k < digs.len() ==> digs[k] == text@[k + 1],
                acc == digits_val(digs.take(d + f)),
            decreases text@.len() - j,
        {
            let c = text[j];
            let dig: u64 = if c >= B_D0 && c <= B_D9 {
                (c - B_D0) as u64
            } else {
                0
            };
            proof {
                assert(digs.take(d + f + 1).drop_last() =~= digs.take(d + f));
                assert(digs.take(d + f + 1).last() == digs[d + f]);
                assert(digs[d + f] == text@[j as int]);
            }
            let step = match acc.checked_mul(10) {
                Some(x) => x.checked_add(dig),
                None => None,
            };
            match step {
                Some(x) => {
                    acc = x;
                },
                None => {
                    proof {
                        assert(digits_val(digs.take(d + f + 1)) >= 0x1_0000_0000_0000_0000);
                        lemma_digits_val_mono(digs, d + f + 1);
                    }
                    return Err(ReadError::InvalidNumber { line, col });
                },
            }
            f = f + 1;
            j = j + 1;
        }
    }
    proof {
        assert(digs.take(d + f) =~= digs);
        assert(f as nat == frac.len());
        assert(num_model(text@) == Some(norm(acc as nat, f as nat)));
    }
    let mut mant = acc;
    let mut scale: u64 = f as u64;
    while scale > 0 && mant % 10 == 0
        invariant
            num_model(text@) == Some(norm(mant as nat, scale as nat)),
        decreases scale,
    {
        mant = mant / 10;
        scale = scale - 1;
    }
    Ok(Decimal { mant, scale })
}

// ----------------------------------------------------------------------
// Printing.
// ----------------------------------------------------------------------
/// The decimal digits of `m`, most significant first.
pub open spec fn digits(m: nat) -> Seq<u8>
    decreases m,
{
    if m < 10 {
        seq![(m + 48) as u8]
    } else {
        digits(m / 10).push((m % 10 + 48) as u8)
    }
}

pub open spec fn zeroes(n: nat) -> Seq<u8>
    decreases n,
{
    if n == 0 {
        Seq::empty()
    } else {
        zeroes((n - 1) as nat).push(B_D0)
    }
}

/// The canonical text of the decimal `m / 10^s`: the digits of `m`
/// with a dot `s` places from the right, zero-padded below one.
pub open spec fn dec_print(m: nat, s: nat) -> Seq<u8> {
    let ds = digits(m);
    if s == 0 {
        ds
    } else if ds.len() <= s {
        seq![B_D0, B_DOT] + zeroes((s - ds.len()) as nat) + ds
    } else {
        ds.take(ds.len() - s) + seq![B_DOT] + ds.skip(ds.len() - s)
    }
}

/// The marker a bare `Nil` prints as: `<nil>`.
pub open spec fn nil_word() -> Seq<u8> {
    seq![B_LT, B_LOWER_N, B_LOWER_I, B_LOWER_L, B_GT]
}

/// The canonical text of a form.
pub open spec fn print_val(v: ValModel) -> Seq<u8>
    decreases v, 1int,
{
    match v {
        ValModel::Ident(t) => t,
        ValModel::Bool(b) => if b {
            seq![B_HASH, B_LOWER_T]
        } else {
            seq![B_HASH, B_LOWER_F]
        },
        ValModel::Num(d) => dec_print(d.mant, d.scale),
        ValModel::Str(t) => seq![B_DQ] + t + seq![B_DQ],
        ValModel::Pair(_, _) => seq![B_LP] + print_spine(v),
        ValModel::Nil => nil_word(),
    }
}

/// The text of a pair chain after its opening paren: space-separated
/// elements down the right spine, closed by `)` for a proper list and
/// by `. tail)` for a dotted one.
pub open spec fn print_spine(v: ValModel) -> Seq<u8>
    decreases v, 0int,
{
    match v {
        ValModel::Pair(h, t) => print_val(*h) + (match *t {
            ValModel::Nil => seq![B_RP],
            ValModel::Pair(_, _) => seq![B_SPACE] + print_spine(*t),
            _ => seq![B_SPACE, B_DOT, B_SPACE] + print_val(*t) + seq![B_RP],
        }),
        _ => Seq::empty(),
    }
}

/// Append the bytes of `s` to `out`.
pub fn push_bytes(out: &mut Vec<u8>, s: &[u8])
    ensures
        final(out)@ == old(out)@ + s@,
{
    let mut i: usize = 0;
    while i < s.len()
        invariant
            0 <= i <= s@.len(),
            out@ == old(out)@ + s@.take(i as int),
        decreases s@.len() - i,
    {
        proof {
            assert(s@.take(i as int + 1) =~= s@.take(i as int).push(s@[i as int]));
        }
        out.push(s[i]);
        i = i + 1;
    }
    proof {
        assert(s@.take(s@.len() as int) =~= s@);
    }
}

/// Append the digits of `m` to `out`.
fn push_digits(out: &mut Vec<u8>, m: u64)
    ensures
        final(out)@ == old(out)@ + digits(m as nat),
    decreases m,
{
    if m < 10 {
        out.push((m as u8) + 48);
        proof {
            assert(out@ =~= old(out)@ + digits(m as nat));
        }
    } else {
        push_digits(out, m / 10);
        out.push(((m % 10) as u8) + 48);
        proof {
            assert(out@ =~= old(out)@ + digits(m as nat));
        }
    }
}

/// Append the canonical text of `d` to `out`.
fn push_decimal(out: &mut Vec<u8>, d: Decimal)
    ensures
        final(out)@ == old(out)@ + dec_print(d@.mant, d@.scale),
{
    let mut ds: Vec<u8> = Vec::new();
    push_digits(&mut ds, d.mant);
    if d.scale == 0 {
        push_bytes(out, ds.as_slice());
    } else if (ds.len() as u64) <= d.scale {
        let ghost start = out@;
        out.push(B_D0);
        out.push(B_DOT);
        let mut k: u64 = d.scale - (ds.len() as u64);
        let ghost pad = k as nat;
        while k > 0
            invariant
                k <= pad,
                out@ == start + seq![B_D0, B_DOT] + zeroes((pad - k) as nat),
            decreases k,
        {
            out.push(B_D0);
            k = k - 1;
            proof {
                assert(zeroes((pad - k) as nat) =~= zeroes((pad - k - 1) as nat).push(B_D0));
                assert(start + seq![B_D0, B_DOT] + zeroes((pad - k - 1) as nat).push(B_D0) =~= (
                start + seq![B_D0, B_DOT] + zeroes((pad - k - 1) as nat)).push(B_D0));
            }
        }
        push_bytes(out, ds.as_slice());
        proof {
            assert(start + seq![B_D0, B_DOT] + zeroes(pad) + ds@ =~= start + (seq![B_D0, B_DOT]
                + zeroes(pad) + ds@));
        }
    } else {
        let cut = ds.len() - (d.scale as usize);
        let ghost start = out@;
        let mut i: usize = 0;
        while i < cut
            invariant
                0 <= i <= cut <= ds@.len(),
                out@ == start + ds@.take(i as int),
            decreases cut - i,
        {
            proof {
                assert(ds@.take(i as int + 1) =~= ds@.take(i as int).push(ds@[i as int]));
            }
            out.push(ds[i]);
            i = i + 1;
        }
        out.push(B_DOT);
        let mut j: usize = cut;
        while j < ds.len()
            invariant
                cut <= j <= ds@.len(),
                out@ == start + ds@.take(cut as int) + seq![B_DOT] + ds@.subrange(
                    cut as int,
                    j as int,
                ),
            decreases ds@.len() - j,
        {
            proof {
                assert(ds@.subrange(cut as int, j as int + 1) =~= ds@.subrange(
                    cut as int,
                    j as int,
                ).push(ds@[j as int]));
                assert(start + ds@.take(cut as int) + seq![B_DOT] + ds@.subrange(
                    cut as int,
                    j as int,
                ).push(ds@[j as int]) =~= (start + ds@.take(cut as int) + seq![B_DOT]
                    + ds@.subrange(cut as int, j as int)).push(ds@[j as int]));
            }
            out.push(ds[j]);
            j = j + 1;
        }
        proof {
            assert(ds@.subrange(cut as int, ds@.len() as int) =~= ds@.skip(cut as int));
            assert(start + ds@.take(cut as int) + seq![B_DOT] + ds@.skip(cut as int) =~= start + (
            ds@.take(cut as int) + seq![B_DOT] + ds@.skip(cut as int)));
        }
    }
}

impl Val {
    /// Build a cons pair.
    pub fn cons(head: Val, tail: Val) -> (v: Val)
        ensures
            v@ == ValModel::Pair(Box::new(head@), Box::new(tail@)),
    {
        Val::Pair(Box::new(head), Box::new(tail))
    }

    /// The canonical text of this form.
    pub fn to_text(&self) -> (out: Vec<u8>)
        ensures
            out@ == print_val(self@),
    {
        let mut out: Vec<u8> = Vec::new();
        self.write_text(&mut out);
        out
    }

    /// Append the canonical text of this form to `out`.  The right
    /// spine of a pair chain is walked by a loop, so printing a long
    /// flat list recurses only into its elements.
    fn write_text(&self, out: &mut Vec<u8>)
        ensures
            final(out)@ == old(out)@ + print_val(self@),
        decreases val_size(self@),
    {
        match self {
            Val::Ident(t) => {
                push_bytes(out, t.as_slice());
            },
            Val::Bool(b) => {
                out.push(B_HASH);
                if *b {
                    out.push(B_LOWER_T);
                } else {
                    out.push(B_LOWER_F);
                }
                proof {
                    assert(out@ =~= old(out)@ + print_val(self@));
                }
            },
            Val::Num(d) => {
                push_decimal(out, *d);
            },
            Val::Str(t) => {
                out.push(B_DQ);
                push_bytes(out, t.as_slice());
                out.push(B_DQ);
                proof {
                    assert(out@ =~= old(out)@ + print_val(self@));
                }
            },
            Val::Nil => {
                out.push(B_LT);
                out.push(B_LOWER_N);
                out.push(B_LOWER_I);
                out.push(B_LOWER_L);
                out.push(B_GT);
                proof {
                    assert(out@ =~= old(out)@ + nil_word());
                }
            },
            Val::Pair(_, _) => {
                out.push(B_LP);
                let mut cur: &Val = self;
                loop
                    invariant_except_break
                        cur@ is Pair,
                        val_size(cur@) <= val_size(self@),
                        out@ + print_spine(cur@) == old(out)@ + print_val(self@),
                    ensures
                        out@ == old(out)@ + print_val(self@),
                    decreases val_size(cur@),
                {
                    let ghost out_b = out@;
                    let ghost spine = print_spine(cur@);
                    match cur {
                        Val::Pair(h, t) => {
                            proof {
                                assert(cur@ == ValModel::Pair(Box::new(h@), Box::new(t@)));
                            }
                            h.write_text(out);
                            match &**t {
                                Val::Nil => {
                                    out.push(B_RP);
                                    proof {
                                        assert(t@ == ValModel::Nil);
                                        assert(spine == print_val(h@) + seq![B_RP]);
                                        assert(out@ =~= out_b + spine);
                                        assert(out@ == old(out)@ + print_val(self@));
                                    }
                                    break;
                                },
                                Val::Pair(_, _) => {
                                    out.push(B_SPACE);
                                    proof {
                                        assert(t@ is Pair);
                                        assert(spine == print_val(h@) + (seq![B_SPACE]
                                            + print_spine(t@)));
                                        assert(out@ + print_spine(t@) =~= out_b + spine);
                                        assert(out@ + print_spine(t@) == old(out)@ + print_val(
                                            self@,
                                        ));
                                    }
                                    cur = t;
                                },
                                _ => {
                                    out.push(B_SPACE);
                                    out.push(B_DOT);
                                    out.push(B_SPACE);
                                    t.write_text(out);
                                    out.push(B_RP);
                                    proof {
                                        assert(!(t@ is Pair) && !(t@ is Nil));
                                        assert(spine == print_val(h@) + (seq![
                                            B_SPACE,
                                            B_DOT,
                                            B_SPACE,
                                        ] + print_val(t@) + seq![B_RP]));
                                        assert(out@ =~= out_b + spine);
                                        assert(out@ == old(out)@ + print_val(self@));
                                    }
                                    break;
                                },
                            }
                        },
                        _ => {
                            proof {
                                assert(false);
                            }
                        },
                    }
                }
            },
        }
    }

    /// Structural equality of forms.
    pub fn equal_to(&self, other: &Val) -> (r: bool)
        ensures
            r == (self@ == other@),
        decreases val_size(self@),
    {
        match (self, other) {
            (Val::Ident(a), Val::Ident(b)) => bytes_eq(a, b),
            (Val::Bool(a), Val::Bool(b)) => a == b,
            (Val::Num(a), Val::Num(b)) => a.mant == b.mant && a.scale == b.scale,
            (Val::Str(a), Val::Str(b)) => bytes_eq(a, b),
            (Val::Pair(h1, t1), Val::Pair(h2, t2)) => h1.equal_to(h2) && t1.equal_to(t2),
            (Val::Nil, Val::Nil) => true,
            _ => false,
        }
    }
}

/// Byte-for-byte equality of two byte vectors.
fn bytes_eq(a: &Vec<u8>, b: &Vec<u8>) -> (r: bool)
    ensures
        r == (a@ == b@),
{
    if a.len() != b.len() {
        return false;
    }
    let mut i: usize = 0;
    while i < a.len()
        invariant
            a@.len() == b@.len(),
            0 <= i <= a@.len(),
            forall|k: int| 0 <= k < i ==> a@[k] == b@[k],
        decreases a@.len() - i,
    {
        if a[i] != b[i] {
            return false;
        }
        i = i + 1;
    }
    proof {
        assert(a@ =~= b@);
    }
    true
}

} // verus!
