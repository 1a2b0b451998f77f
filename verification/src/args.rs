//! The felt argument parser: a string of ASCII-whitespace-separated
//! tokens becomes an ordered sequence of typed VM inputs.  A bare decimal
//! token yields a single field element; a bracket-delimited run
//! `[ v1 v2 ... vn ]` yields one flat array, and a bracket may be glued
//! to its neighbouring value without separating whitespace.

use vstd::prelude::*;
use crate::felt::{
    felt_from_token, felt_of_dec, felt_val, is_felt_token, lemma_pow10_77_lt,
    lemma_two_pow_256_digits, stark_prime, two_pow_256_digits,
};
use crate::nums::{
    all_digits, dec_val, is_digit, lemma_dec_val_lex, lemma_dec_val_lower, lemma_dec_val_upper,
    lemma_dec_val_zeros, lemma_pow10_le, pow256,
};
use cairo_vm::Felt252;
use vstd::slice::{slice_subrange, slice_to_vec};
use vstd::string::StringSliceAdditionalSpecFns;

verus! {

/// A typed VM input: one field element, or a flat array of them.
#[derive(Clone, Debug)]
pub enum FuncArg {
    Single(Felt252),
    Array(Vec<Felt252>),
}

/// The ordered inputs of one VM execution.
#[derive(Clone, Debug, Default)]
pub struct FuncArgs(pub Vec<FuncArg>);

/// Parse failure, naming the offending token.
#[derive(Clone, Debug)]
pub struct ParseError {
    pub token: Vec<u8>,
}

/// The mathematical shape of a parsed input: field values only.
pub enum ArgModel {
    Single(nat),
    Array(Seq<nat>),
}

pub open spec fn arg_model(a: FuncArg) -> ArgModel {
    match a {
        FuncArg::Single(f) => ArgModel::Single(felt_val(f)),
        FuncArg::Array(v) => ArgModel::Array(v@.map(|i: int, f: Felt252| felt_val(f))),
    }
}

pub open spec fn args_model(s: Seq<FuncArg>) -> Seq<ArgModel> {
    s.map(|i: int, a: FuncArg| arg_model(a))
}

/// A lexical token: a standalone opening bracket, a standalone closing
/// bracket, or a word.
pub enum Tok {
    Open,
    Close,
    Word(Seq<u8>),
}

/// The byte is ASCII whitespace, as `char::is_ascii_whitespace` has it.
pub open spec fn is_ws(b: u8) -> bool {
    b == 32 || b == 9 || b == 10 || b == 12 || b == 13
}

/// Length of the maximal non-whitespace run at the head of `s`.
pub open spec fn word_len(s: Seq<u8>) -> nat
    decreases s.len(),
{
    if s.len() == 0 {
        0
    } else if is_ws(s[0]) {
        0
    } else {
        1 + word_len(s.skip(1))
    }
}

pub proof fn lemma_word_len(s: Seq<u8>)
    ensures
        word_len(s) <= s.len(),
        forall|i: int| 0 <= i < word_len(s) ==> !is_ws(#[trigger] s[i]),
        word_len(s) < s.len() ==> is_ws(s[word_len(s) as int]),
    decreases s.len(),
{
    if s.len() > 0 && !is_ws(s[0]) {
        lemma_word_len(s.skip(1));
        assert(forall|i: int|
            0 <= i < word_len(s) ==> !is_ws(#[trigger] s[i]) || (i >= 1 && !is_ws(
                s.skip(1)[i - 1],
            )));
    }
}

/// `word_len` is pinned by its characterisation: `k` non-whitespace bytes
/// followed by the end or a whitespace byte.
pub proof fn lemma_word_len_is(s: Seq<u8>, k: int)
    requires
        0 <= k <= s.len(),
        forall|i: int| 0 <= i < k ==> !is_ws(#[trigger] s[i]),
        k == s.len() || is_ws(s[k]),
    ensures
        word_len(s) == k,
    decreases s.len(),
{
    if s.len() > 0 && k > 0 {
        assert(!is_ws(s[0]));
        lemma_word_len_is(s.skip(1), k - 1);
    }
}

/// The input split on whitespace: the maximal non-whitespace runs, in
/// order.
pub open spec fn spec_words(s: Seq<u8>) -> Seq<Seq<u8>>
    decreases s.len(),
    via spec_words_dec
{
    if s.len() == 0 {
        Seq::empty()
    } else if is_ws(s[0]) {
        spec_words(s.skip(1))
    } else {
        seq![s.take(word_len(s) as int)] + spec_words(s.skip(word_len(s) as int))
    }
}

#[via_fn]
proof fn spec_words_dec(s: Seq<u8>) {
    lemma_word_len(s);
}

/// The tokens of one word: one leading `[` and one trailing `]` are split
/// off; what is left between them, if anything, is a word token.
pub open spec fn word_toks(w: Seq<u8>) -> Seq<Tok> {
    let opened = w.len() > 0 && w[0] == 91;
    let w1 = if opened {
        w.skip(1)
    } else {
        w
    };
    let pre: Seq<Tok> = if opened {
        seq![Tok::Open]
    } else {
        Seq::empty()
    };
    if w1.len() > 0 && w1.last() == 93 {
        let core = w1.drop_last();
        pre + (if core.len() > 0 {
            seq![Tok::Word(core)]
        } else {
            Seq::empty()
        }) + seq![Tok::Close]
    } else {
        pre + (if w1.len() > 0 {
            seq![Tok::Word(w1)]
        } else {
            Seq::empty()
        })
    }
}

pub open spec fn toks_of_words(ws: Seq<Seq<u8>>) -> Seq<Tok>
    decreases ws.len(),
{
    if ws.len() == 0 {
        Seq::empty()
    } else {
        word_toks(ws[0]) + toks_of_words(ws.skip(1))
    }
}

/// The token stream of the whole input.
pub open spec fn spec_tokens(s: Seq<u8>) -> Seq<Tok> {
    toks_of_words(spec_words(s))
}

/// Array-collection mode: values up to the first closing bracket, then
/// the rest of the stream.  A run that reaches the end of input without
/// its closing bracket is accepted as it stands.  A stray opening
/// bracket or an invalid value fails.
pub open spec fn spec_collect(toks: Seq<Tok>) -> Option<(Seq<nat>, Seq<Tok>)>
    decreases toks.len(),
{
    if toks.len() == 0 {
        Some((Seq::empty(), Seq::empty()))
    } else {
        match toks[0] {
            Tok::Close => Some((Seq::empty(), toks.skip(1))),
            Tok::Word(w) => if is_felt_token(w) {
                match spec_collect(toks.skip(1)) {
                    Some(p) => Some((seq![felt_of_dec(w)] + p.0, p.1)),
                    None => None,
                }
            } else {
                None
            },
            Tok::Open => None,
        }
    }
}

pub proof fn lemma_collect_rem(toks: Seq<Tok>)
    ensures
        spec_collect(toks) matches Some(p) ==> p.1.len() <= toks.len() && (toks.len() > 0
            ==> p.1.len() < toks.len()),
    decreases toks.len(),
{
    if toks.len() > 0 {
        lemma_collect_rem(toks.skip(1));
    }
}

/// The parse of a token stream: a word is one single value, an opening
/// bracket collects an array, a stray closing bracket fails.
pub open spec fn spec_parse(toks: Seq<Tok>) -> Option<Seq<ArgModel>>
    decreases toks.len(),
    via spec_parse_dec
{
    if toks.len() == 0 {
        Some(Seq::empty())
    } else {
        match toks[0] {
            Tok::Open => match spec_collect(toks.skip(1)) {
                Some(p) => match spec_parse(p.1) {
                    Some(rest) => Some(seq![ArgModel::Array(p.0)] + rest),
                    None => None,
                },
                None => None,
            },
            Tok::Word(w) => if is_felt_token(w) {
                match spec_parse(toks.skip(1)) {
                    Some(rest) => Some(seq![ArgModel::Single(felt_of_dec(w))] + rest),
                    None => None,
                }
            } else {
                None
            },
            Tok::Close => None,
        }
    }
}

#[via_fn]
proof fn spec_parse_dec(toks: Seq<Tok>) {
    if toks.len() > 0 {
        lemma_collect_rem(toks.skip(1));
    }
}

/// The parse of a whole input string, as bytes.
pub open spec fn spec_parse_input(s: Seq<u8>) -> Option<Seq<ArgModel>> {
    spec_parse(spec_tokens(s))
}

/// The token a failing collection fails on: the first stray opening
/// bracket or invalid value before the closing bracket.
pub open spec fn collect_offender(toks: Seq<Tok>) -> Seq<u8>
    decreases toks.len(),
{
    if toks.len() == 0 {
        Seq::empty()
    } else {
        match toks[0] {
            Tok::Close => Seq::empty(),
            Tok::Word(w) => if is_felt_token(w) {
                collect_offender(toks.skip(1))
            } else {
                w
            },
            Tok::Open => seq![91u8],
        }
    }
}

/// The token a failing parse fails on: the first token, in stream order,
/// that is not what its position expects.
pub open spec fn parse_offender(toks: Seq<Tok>) -> Seq<u8>
    decreases toks.len(),
    via parse_offender_dec
{
    if toks.len() == 0 {
        Seq::empty()
    } else {
        match toks[0] {
            Tok::Open => match spec_collect(toks.skip(1)) {
                Some(p) => parse_offender(p.1),
                None => collect_offender(toks.skip(1)),
            },
            Tok::Word(w) => if is_felt_token(w) {
                parse_offender(toks.skip(1))
            } else {
                w
            },
            Tok::Close => seq![93u8],
        }
    }
}

#[via_fn]
proof fn parse_offender_dec(toks: Seq<Tok>) {
    if toks.len() > 0 {
        lemma_collect_rem(toks.skip(1));
    }
}

/// An exec lexical token.
enum Token {
    Open,
    Close,
    Word(Vec<u8>),
}

spec fn tok_model(t: Token) -> Tok {
    match t {
        Token::Open => Tok::Open,
        Token::Close => Tok::Close,
        Token::Word(w) => Tok::Word(w@),
    }
}

spec fn toks_model(ts: Seq<Token>) -> Seq<Tok> {
    ts.map(|i: int, t: Token| tok_model(t))
}

fn is_ws_byte(x: u8) -> (r: bool)
    ensures
        r == is_ws(x),
{
    x == 32 || x == 9 || x == 10 || x == 12 || x == 13
}

/// Splits the input on ASCII whitespace and splits one leading `[` and
/// one trailing `]` off each word.
fn tokenize(b: &[u8]) -> (toks: Vec<Token>)
    ensures
        toks_model(toks@) == spec_tokens(b@),
{
    let mut toks: Vec<Token> = Vec::new();
    let mut i: usize = 0;
    let n = b.len();
    proof {
        assert(n == b@.len());
        assert(b@.skip(0) =~= b@);
        assert(toks_model(toks@) + spec_tokens(b@) =~= spec_tokens(b@));
    }
    while i < b.len()
        invariant
            0 <= i <= b@.len(),
            b@.len() <= usize::MAX,
            spec_tokens(b@) == toks_model(toks@) + toks_of_words(spec_words(b@.skip(i as int))),
        decreases b@.len() - i,
    {
        if is_ws_byte(b[i]) {
            proof {
                assert(b@.skip(i as int).skip(1) =~= b@.skip(i + 1));
            }
            i = i + 1;
        } else {
            let mut j = i + 1;
            while j < b.len() && !is_ws_byte(b[j])
                invariant
                    i < j <= b@.len(),
                    b@.len() <= usize::MAX,
                    forall|m: int| i <= m < j ==> !is_ws(#[trigger] b@[m]),
                decreases b@.len() - j,
            {
                j = j + 1;
            }
            let ghost w = b@.subrange(i as int, j as int);
            let ghost words_rest = spec_words(b@.skip(j as int));
            proof {
                assert(forall|m: int| 0 <= m < j - i ==> !is_ws(#[trigger] b@.skip(i as int)[m]));
                lemma_word_len_is(b@.skip(i as int), j - i);
                assert(b@.skip(i as int).take(j - i) =~= w);
                assert(b@.skip(i as int).skip(j - i) =~= b@.skip(j as int));
                let ws = seq![w] + words_rest;
                assert(spec_words(b@.skip(i as int)) == ws);
                assert(ws[0] == w);
                assert(ws.skip(1) =~= words_rest);
                assert(toks_of_words(ws) == word_toks(w) + toks_of_words(words_rest));
            }
            let ghost toks0 = toks_model(toks@);
            let opened = b[i] == 91;
            let w1start = if opened {
                i + 1
            } else {
                i
            };
            if opened {
                toks.push(Token::Open);
            }
            let ghost w1 = if opened {
                w.skip(1)
            } else {
                w
            };
            proof {
                assert(w1 =~= b@.subrange(w1start as int, j as int));
            }
            if w1start < j && b[j - 1] == 93 {
                if w1start < j - 1 {
                    let core = slice_to_vec(slice_subrange(b, w1start, j - 1));
                    toks.push(Token::Word(core));
                }
                toks.push(Token::Close);
                proof {
                    assert(w1.drop_last() =~= b@.subrange(w1start as int, j - 1));
                    if opened {
                        if w1start < j - 1 {
                            assert(word_toks(w) =~= seq![
                                Tok::Open,
                                Tok::Word(w1.drop_last()),
                                Tok::Close,
                            ]);
                        } else {
                            assert(word_toks(w) =~= seq![Tok::Open, Tok::Close]);
                        }
                    } else {
                        if w1start < j - 1 {
                            assert(word_toks(w) =~= seq![Tok::Word(w1.drop_last()), Tok::Close]);
                        } else {
                            assert(word_toks(w) =~= seq![Tok::Close]);
                        }
                    }
                    assert(toks_model(toks@) =~= toks0 + word_toks(w));
                }
            } else {
                if w1start < j {
                    let word = slice_to_vec(slice_subrange(b, w1start, j));
                    toks.push(Token::Word(word));
                }
                proof {
                    if opened {
                        if w1start < j {
                            assert(word_toks(w) =~= seq![Tok::Open, Tok::Word(w1)]);
                        } else {
                            assert(word_toks(w) =~= seq![Tok::Open]);
                        }
                    } else {
                        assert(w1start < j);
                        assert(word_toks(w) =~= seq![Tok::Word(w1)]);
                    }
                    assert(toks_model(toks@) =~= toks0 + word_toks(w));
                }
            }
            i = j;
        }
    }
    proof {
        assert(b@.skip(b@.len() as int) =~= Seq::<u8>::empty());
        assert(toks_model(toks@) + toks_of_words(spec_words(b@.skip(i as int))) =~= toks_model(
            toks@,
        ));
    }
    toks
}

/// Checks the shape and range a felt token must have: an optional
/// leading minus, then a non-empty run of digits denoting a value below
/// `2^256` — decided by stripping zero padding and, for a 78-digit
/// numeral, comparing it digit by digit against the spelling of `2^256`.
fn check_felt_token(w: &[u8]) -> (ok: bool)
    ensures
        ok == is_felt_token(w@),
{
    let n = w.len();
    if n == 0 {
        return false;
    }
    let neg = w[0] == 45;
    let start: usize = if neg {
        1
    } else {
        0
    };
    if n == start {
        return false;
    }
    let ghost body = if neg {
        w@.skip(1)
    } else {
        w@
    };
    proof {
        assert(body =~= w@.skip(start as int));
    }
    let mut m = start;
    while m < n
        invariant
            n == w@.len(),
            0 < n <= usize::MAX,
            start <= m <= n,
            neg == (w@[0] == 45),
            start == (if neg {
                1int
            } else {
                0int
            }),
            body == (if neg {
                w@.skip(1)
            } else {
                w@
            }),
            body == w@.skip(start as int),
            forall|k: int| start <= k < m ==> is_digit(#[trigger] w@[k]),
        decreases n - m,
    {
        if !(48 <= w[m] && w[m] <= 57) {
            proof {
                assert(!all_digits(body)) by {
                    assert(!is_digit(body[m - start]));
                }
            }
            return false;
        }
        m = m + 1;
    }
    proof {
        assert(all_digits(body)) by {
            assert(forall|k: int| 0 <= k < body.len() ==> is_digit(#[trigger] body[k]));
        }
    }
    let mut z = start;
    while z < n && w[z] == 48
        invariant
            n == w@.len(),
            start <= z <= n,
            forall|k: int| start <= k < z ==> w@[k] == 48,
        decreases n - z,
    {
        z = z + 1;
    }
    let ghost sig_digits = w@.skip(z as int);
    proof {
        assert(forall|k: int| 0 <= k < z - start ==> body[k] == 48);
        lemma_dec_val_zeros(body, z - start);
        assert(body.skip(z - start) =~= sig_digits);
        assert(all_digits(sig_digits)) by {
            assert(forall|k: int| 0 <= k < sig_digits.len() ==> is_digit(
                #[trigger] sig_digits[k],
            ));
        }
    }
    let sig = n - z;
    if sig <= 77 {
        proof {
            lemma_dec_val_upper(sig_digits);
            lemma_pow10_le(sig as nat, 77);
            lemma_pow10_77_lt();
        }
        true
    } else if sig >= 79 {
        proof {
            assert(w@[z as int] != 48);
            lemma_dec_val_lower(sig_digits);
            lemma_pow10_le(78, (sig - 1) as nat);
            lemma_pow10_77_lt();
        }
        false
    } else {
        let sp = vec![49u8, 49u8, 53u8, 55u8, 57u8, 50u8, 48u8, 56u8, 57u8, 50u8, 51u8, 55u8, 51u8, 49u8, 54u8, 49u8, 57u8, 53u8, 52u8, 50u8, 51u8, 53u8, 55u8, 48u8, 57u8, 56u8, 53u8, 48u8, 48u8, 56u8, 54u8, 56u8, 55u8, 57u8, 48u8, 55u8, 56u8, 53u8, 51u8, 50u8, 54u8, 57u8, 57u8, 56u8, 52u8, 54u8, 54u8, 53u8, 54u8, 52u8, 48u8, 53u8, 54u8, 52u8, 48u8, 51u8, 57u8, 52u8, 53u8, 55u8, 53u8, 56u8, 52u8, 48u8, 48u8, 55u8, 57u8, 49u8, 51u8, 49u8, 50u8, 57u8, 54u8, 51u8, 57u8, 57u8, 51u8, 54u8];
        proof {
            assert(sp@ =~= two_pow_256_digits());
            lemma_two_pow_256_digits();
        }
        let mut k: usize = 0;
        while k < 78
            invariant
                n == w@.len(),
                z + 78 == n,
                0 <= k <= 78,
                sp@ == two_pow_256_digits(),
                sig_digits == w@.skip(z as int),
                sig_digits.len() == 78,
                all_digits(sig_digits),
                all_digits(body),
                dec_val(body) == dec_val(sig_digits),
                neg == (w@[0] == 45),
                body == (if neg {
                    w@.skip(1)
                } else {
                    w@
                }),
                forall|t: int| 0 <= t < k ==> sig_digits[t] == sp@[t],
            decreases 78 - k,
        {
            proof {
                lemma_two_pow_256_digits();
                assert(sig_digits[k as int] == w@[z + k]);
            }
            let wa = w[z + k];
            let sb = sp[k];
            if wa < sb {
                proof {
                    assert(sig_digits.take(k as int) =~= sp@.take(k as int));
                    lemma_dec_val_lex(sig_digits, sp@, k as int);
                }
                return true;
            }
            if wa > sb {
                proof {
                    assert(sp@.take(k as int) =~= sig_digits.take(k as int));
                    lemma_dec_val_lex(sp@, sig_digits, k as int);
                }
                return false;
            }
            k = k + 1;
        }
        proof {
            lemma_two_pow_256_digits();
            assert(sig_digits =~= sp@);
        }
        false
    }
}

spec fn arr_vals(v: Seq<Felt252>) -> Seq<nat> {
    v.map(|k: int, f: Felt252| felt_val(f))
}

spec fn opt_pre(acc: Seq<ArgModel>, o: Option<Seq<ArgModel>>) -> Option<Seq<ArgModel>> {
    match o {
        Some(r) => Some(acc + r),
        None => None,
    }
}

spec fn opt_collect(acc: Seq<nat>, o: Option<(Seq<nat>, Seq<Tok>)>) -> Option<
    (Seq<nat>, Seq<Tok>),
> {
    match o {
        Some(p) => Some((acc + p.0, p.1)),
        None => None,
    }
}

/// Parses a string of ASCII-whitespace-separated values: bare decimal
/// numbers and bracket-wrapped runs of numbers.  Fails on the first
/// token, in stream order, that is neither a bracket nor a valid felt
/// where one is expected, naming exactly that token.
pub fn process_args(value: &str) -> (r: Result<FuncArgs, ParseError>)
    ensures
        r matches Ok(a) ==> spec_parse_input(value.spec_bytes()) == Some(args_model(a.0@)),
        r is Err <==> spec_parse_input(value.spec_bytes()) is None,
        r matches Err(e) ==> e.token@ == parse_offender(spec_tokens(value.spec_bytes()))
            && !is_felt_token(e.token@),
{
    let b = value.as_bytes();
    let toks = tokenize(b);
    let ghost tm = toks_model(toks@);
    let mut args: Vec<FuncArg> = Vec::new();
    let mut i: usize = 0;
    proof {
        assert(tm.skip(0) =~= tm);
        assert(opt_pre(args_model(args@), spec_parse(tm)) == spec_parse(tm)) by {
            if spec_parse(tm) is Some {
                assert(args_model(args@) + spec_parse(tm).unwrap() =~= spec_parse(tm).unwrap());
            }
        }
    }
    while i < toks.len()
        invariant
            0 <= i <= toks@.len(),
            tm == toks_model(toks@),
            tm == spec_tokens(value.spec_bytes()),
            spec_parse(tm) == opt_pre(args_model(args@), spec_parse(tm.skip(i as int))),
            spec_parse(tm.skip(i as int)) is None ==> parse_offender(tm) == parse_offender(
                tm.skip(i as int),
            ),
        decreases toks@.len() - i,
    {
        proof {
            assert(tm[i as int] == tok_model(toks@[i as int]));
            assert(tm.skip(i as int)[0] == tm[i as int]);
            assert(tm.skip(i as int).skip(1) =~= tm.skip(i + 1));
        }
        match &toks[i] {
            Token::Word(w) => {
                if !check_felt_token(w.as_slice()) {
                    proof {
                        assert(spec_parse(tm.skip(i as int)) is None);
                        assert(parse_offender(tm.skip(i as int)) == w@);
                    }
                    return Err(ParseError { token: slice_to_vec(w.as_slice()) });
                }
                let f = felt_from_token(w.as_slice());
                proof {
                    let s = ArgModel::Single(felt_of_dec(w@));
                    assert(args_model(args@.push(FuncArg::Single(f))) =~= args_model(args@).push(
                        s,
                    ));
                    if spec_parse(tm.skip(i + 1)) is Some {
                        let rest = spec_parse(tm.skip(i + 1)).unwrap();
                        assert(spec_parse(tm.skip(i as int)) == Some(seq![s] + rest));
                        assert(args_model(args@) + (seq![s] + rest) =~= args_model(args@).push(s)
                            + rest);
                    }
                }
                args.push(FuncArg::Single(f));
                i = i + 1;
            },
            Token::Close => {
                let token = vec![93u8];
                proof {
                    assert(token@ =~= seq![93u8]);
                    assert(!is_felt_token(token@)) by {
                        assert(!is_digit(token@[0]));
                    }
                    assert(spec_parse(tm.skip(i as int)) is None);
                    assert(parse_offender(tm.skip(i as int)) == seq![93u8]);
                }
                return Err(ParseError { token });
            },
            Token::Open => {
                let ghost open_pos = i as int;
                i = i + 1;
                let ghost open_rest = tm.skip(i as int);
                let mut arr: Vec<Felt252> = Vec::new();
                let mut done = false;
                proof {
                    assert(opt_collect(arr_vals(arr@), spec_collect(open_rest)) == spec_collect(
                        open_rest,
                    )) by {
                        if spec_collect(open_rest) is Some {
                            let p = spec_collect(open_rest).unwrap();
                            assert(arr_vals(arr@) + p.0 =~= p.0);
                        }
                    }
                    assert(collect_offender(open_rest) == collect_offender(open_rest));
                }
                while !done && i < toks.len()
                    invariant
                        0 <= i <= toks@.len(),
                        tm == toks_model(toks@),
                        tm == spec_tokens(value.spec_bytes()),
                        open_rest == tm.skip(open_pos + 1),
                        0 <= open_pos < open_pos + 1 <= i,
                        tm[open_pos] is Open,
                        spec_parse(tm) == opt_pre(
                            args_model(args@),
                            spec_parse(tm.skip(open_pos)),
                        ),
                        spec_parse(tm.skip(open_pos)) is None ==> parse_offender(tm)
                            == parse_offender(tm.skip(open_pos)),
                        !done ==> collect_offender(open_rest) == collect_offender(
                            tm.skip(i as int),
                        ),
                        done ==> spec_collect(open_rest) == Some(
                            (arr_vals(arr@), tm.skip(i as int)),
                        ),
                        !done ==> spec_collect(open_rest) == opt_collect(
                            arr_vals(arr@),
                            spec_collect(tm.skip(i as int)),
                        ),
                    decreases toks@.len() - i + (if done {
                        0int
                    } else {
                        1int
                    }),
                {
                    proof {
                        assert(tm[i as int] == tok_model(toks@[i as int]));
                        assert(tm.skip(i as int)[0] == tm[i as int]);
                        assert(tm.skip(i as int).skip(1) =~= tm.skip(i + 1));
                    }
                    match &toks[i] {
                        Token::Close => {
                            proof {
                                assert(spec_collect(tm.skip(i as int)) == Some(
                                    (Seq::<nat>::empty(), tm.skip(i + 1)),
                                ));
                                assert(arr_vals(arr@) + Seq::<nat>::empty() =~= arr_vals(arr@));
                            }
                            i = i + 1;
                            done = true;
                        },
                        Token::Word(w) => {
                            if !check_felt_token(w.as_slice()) {
                                proof {
                                    assert(spec_collect(tm.skip(i as int)) is None);
                                    assert(spec_collect(open_rest) is None);
                                    assert(tm.skip(open_pos)[0] == tm[open_pos]);
                                    assert(tm.skip(open_pos).skip(1) =~= open_rest);
                                    assert(spec_parse(tm.skip(open_pos)) is None);
                                    assert(collect_offender(tm.skip(i as int)) == w@);
                                    assert(parse_offender(tm.skip(open_pos)) == collect_offender(
                                        open_rest,
                                    ));
                                }
                                return Err(ParseError { token: slice_to_vec(w.as_slice()) });
                            }
                            let f = felt_from_token(w.as_slice());
                            proof {
                                let v = felt_of_dec(w@);
                                assert(arr_vals(arr@.push(f)) =~= arr_vals(arr@).push(v));
                                if spec_collect(tm.skip(i + 1)) is Some {
                                    let p = spec_collect(tm.skip(i + 1)).unwrap();
                                    assert(spec_collect(tm.skip(i as int)) == Some(
                                        (seq![v] + p.0, p.1),
                                    ));
                                    assert(arr_vals(arr@) + (seq![v] + p.0) =~= arr_vals(
                                        arr@,
                                    ).push(v) + p.0);
                                }
                            }
                            arr.push(f);
                            i = i + 1;
                        },
                        Token::Open => {
                            let token = vec![91u8];
                            proof {
                                assert(token@ =~= seq![91u8]);
                                assert(!is_felt_token(token@)) by {
                                    assert(!is_digit(token@[0]));
                                }
                                assert(spec_collect(tm.skip(i as int)) is None);
                                assert(spec_collect(open_rest) is None);
                                assert(tm.skip(open_pos)[0] == tm[open_pos]);
                                assert(tm.skip(open_pos).skip(1) =~= open_rest);
                                assert(spec_parse(tm.skip(open_pos)) is None);
                                assert(collect_offender(tm.skip(i as int)) == seq![91u8]);
                                assert(parse_offender(tm.skip(open_pos)) == collect_offender(
                                    open_rest,
                                ));
                            }
                            return Err(ParseError { token });
                        },
                    }
                }
                proof {
                    if !done {
                        assert(i == toks@.len());
                        assert(tm.skip(i as int) =~= Seq::<Tok>::empty());
                        assert(spec_collect(tm.skip(i as int)) == Some(
                            (Seq::<nat>::empty(), Seq::<Tok>::empty()),
                        ));
                        assert(arr_vals(arr@) + Seq::<nat>::empty() =~= arr_vals(arr@));
                        assert(Seq::<Tok>::empty() =~= tm.skip(i as int));
                    }
                    assert(spec_collect(open_rest) == Some((arr_vals(arr@), tm.skip(i as int))));
                    let a = ArgModel::Array(arr_vals(arr@));
                    assert(args_model(args@.push(FuncArg::Array(arr))) =~= args_model(args@).push(
                        a,
                    ));
                    assert(tm.skip(open_pos)[0] == tm[open_pos]);
                    assert(tm.skip(open_pos).skip(1) =~= tm.skip(open_pos + 1));
                    if spec_parse(tm.skip(i as int)) is None {
                        assert(spec_parse(tm.skip(open_pos)) is None);
                        assert(parse_offender(tm.skip(open_pos)) == parse_offender(
                            tm.skip(i as int),
                        ));
                    }
                    if spec_parse(tm.skip(i as int)) is Some {
                        let rest = spec_parse(tm.skip(i as int)).unwrap();
                        assert(spec_parse(tm.skip(open_pos)) == Some(seq![a] + rest));
                        assert(args_model(args@) + (seq![a] + rest) =~= args_model(args@).push(a)
                            + rest);
                    }
                }
                args.push(FuncArg::Array(arr));
            },
        }
    }
    proof {
        assert(tm.skip(i as int) =~= Seq::<Tok>::empty());
        assert(spec_parse(tm.skip(i as int)) == Some(Seq::<ArgModel>::empty()));
        assert(args_model(args@) + Seq::<ArgModel>::empty() =~= args_model(args@));
    }
    Ok(FuncArgs(args))
}


/// The word tokens of a run of words, one word token each.
pub open spec fn words_toks(vs: Seq<Seq<u8>>) -> Seq<Tok> {
    vs.map(|i: int, w: Seq<u8>| Tok::Word(w))
}

/// The field values a run of decimal words denotes.
pub open spec fn vals_of(vs: Seq<Seq<u8>>) -> Seq<nat> {
    vs.map(|i: int, w: Seq<u8>| felt_of_dec(w))
}

/// The words joined by single spaces.
pub open spec fn join_sp(ws: Seq<Seq<u8>>) -> Seq<u8>
    decreases ws.len(),
{
    if ws.len() == 0 {
        Seq::empty()
    } else if ws.len() == 1 {
        ws[0]
    } else {
        ws[0] + seq![32u8] + join_sp(ws.skip(1))
    }
}

/// A non-empty word of decimal digits denoting a value below `2^256` —
/// exactly the values the field-element parser accepts unsigned.
pub open spec fn is_digit_word(w: Seq<u8>) -> bool {
    w.len() >= 1 && all_digits(w) && dec_val(w) < pow256(32)
}

proof fn lemma_digit_word_basics(w: Seq<u8>)
    requires
        is_digit_word(w),
    ensures
        forall|i: int| 0 <= i < w.len() ==> !is_ws(#[trigger] w[i]),
        is_felt_token(w),
        w[0] != 91 && w[0] != 45 && w.last() != 93,
        word_toks(w) == seq![Tok::Word(w)],
{
    assert(forall|i: int| 0 <= i < w.len() ==> is_digit(#[trigger] w[i]));
    assert(word_toks(w) =~= seq![Tok::Word(w)]);
}

proof fn lemma_toks_of_words_concat(a: Seq<Seq<u8>>, b: Seq<Seq<u8>>)
    ensures
        toks_of_words(a + b) == toks_of_words(a) + toks_of_words(b),
    decreases a.len(),
{
    if a.len() == 0 {
        assert(a + b =~= b);
        assert(toks_of_words(a) + toks_of_words(b) =~= toks_of_words(b));
    } else {
        assert((a + b)[0] == a[0]);
        assert((a + b).skip(1) =~= a.skip(1) + b);
        lemma_toks_of_words_concat(a.skip(1), b);
        assert(toks_of_words(a + b) =~= toks_of_words(a) + toks_of_words(b));
    }
}

proof fn lemma_words_toks_of_digit_words(vs: Seq<Seq<u8>>)
    requires
        forall|i: int| 0 <= i < vs.len() ==> is_digit_word(#[trigger] vs[i]),
    ensures
        toks_of_words(vs) == words_toks(vs),
    decreases vs.len(),
{
    if vs.len() > 0 {
        lemma_digit_word_basics(vs[0]);
        lemma_words_toks_of_digit_words(vs.skip(1));
        assert(words_toks(vs.skip(1)) =~= words_toks(vs).skip(1));
        assert(toks_of_words(vs) =~= words_toks(vs));
    } else {
        assert(toks_of_words(vs) =~= words_toks(vs));
    }
}

/// Splitting the space-joined words gives the words back, for non-empty
/// words free of whitespace.
proof fn lemma_words_of_join(ws: Seq<Seq<u8>>)
    requires
        forall|i: int|
            0 <= i < ws.len() ==> (#[trigger] ws[i]).len() > 0 && (forall|k: int|
                0 <= k < ws[i].len() ==> !is_ws(#[trigger] ws[i][k])),
    ensures
        spec_words(join_sp(ws)) == ws,
    decreases ws.len(),
{
    if ws.len() == 0 {
    } else if ws.len() == 1 {
        let s = ws[0];
        assert(forall|k: int| 0 <= k < s.len() ==> !is_ws(#[trigger] s[k])) by {
            assert(forall|k: int| 0 <= k < ws[0].len() ==> !is_ws(#[trigger] ws[0][k]));
        }
        lemma_word_len_is(s, s.len() as int);
        assert(s.take(s.len() as int) =~= s);
        assert(s.skip(s.len() as int) =~= Seq::<u8>::empty());
        assert(spec_words(Seq::<u8>::empty()) == Seq::<Seq<u8>>::empty());
        assert(spec_words(join_sp(ws)) =~= ws);
    } else {
        let s = join_sp(ws);
        let w0 = ws[0];
        let rest = join_sp(ws.skip(1));
        assert(s == w0 + seq![32u8] + rest);
        assert(forall|i: int| 0 <= i < w0.len() ==> s[i] == w0[i]);
        assert(forall|k: int| 0 <= k < w0.len() ==> !is_ws(#[trigger] w0[k])) by {
            assert(forall|k: int| 0 <= k < ws[0].len() ==> !is_ws(#[trigger] ws[0][k]));
        }
        assert(s[w0.len() as int] == 32);
        assert(forall|i: int| 0 <= i < w0.len() ==> !is_ws(#[trigger] s[i]));
        lemma_word_len_is(s, w0.len() as int);
        assert(s.take(w0.len() as int) =~= w0);
        assert(s.skip(w0.len() as int)[0] == 32);
        assert(s.skip(w0.len() as int).skip(1) =~= rest);
        lemma_words_of_join(ws.skip(1));
        assert(spec_words(s.skip(w0.len() as int)) == spec_words(
            s.skip(w0.len() as int).skip(1),
        ));
        assert(spec_words(s) == seq![w0] + spec_words(rest));
        assert(seq![w0] + ws.skip(1) =~= ws);
    }
}

/// Collecting word tokens up to a closing bracket yields their values and
/// leaves the rest of the stream.
proof fn lemma_collect_words(vs: Seq<Seq<u8>>, rest: Seq<Tok>)
    requires
        forall|i: int| 0 <= i < vs.len() ==> is_digit_word(#[trigger] vs[i]),
    ensures
        spec_collect(words_toks(vs) + seq![Tok::Close] + rest) == Some((vals_of(vs), rest)),
    decreases vs.len(),
{
    let toks = words_toks(vs) + seq![Tok::Close] + rest;
    if vs.len() == 0 {
        assert(toks[0] == Tok::Close);
        assert(toks.skip(1) =~= rest);
        assert(vals_of(vs) =~= Seq::<nat>::empty());
    } else {
        lemma_digit_word_basics(vs[0]);
        assert(toks[0] == Tok::Word(vs[0]));
        assert(toks.skip(1) =~= words_toks(vs.skip(1)) + seq![Tok::Close] + rest) by {
            assert(words_toks(vs).skip(1) =~= words_toks(vs.skip(1)));
        }
        lemma_collect_words(vs.skip(1), rest);
        assert(seq![felt_of_dec(vs[0])] + vals_of(vs.skip(1)) =~= vals_of(vs));
    }
}

/// Parsing one bracketed run of word tokens yields one array argument.
proof fn lemma_parse_array_tokens(vs: Seq<Seq<u8>>)
    requires
        forall|i: int| 0 <= i < vs.len() ==> is_digit_word(#[trigger] vs[i]),
    ensures
        spec_parse(seq![Tok::Open] + words_toks(vs) + seq![Tok::Close]) == Some(
            seq![ArgModel::Array(vals_of(vs))],
        ),
{
    let toks = seq![Tok::Open] + words_toks(vs) + seq![Tok::Close];
    assert(toks[0] == Tok::Open);
    assert(toks.skip(1) =~= words_toks(vs) + seq![Tok::Close] + Seq::<Tok>::empty());
    lemma_collect_words(vs, Seq::<Tok>::empty());
    assert(spec_parse(Seq::<Tok>::empty()) == Some(Seq::<ArgModel>::empty()));
    assert(seq![ArgModel::Array(vals_of(vs))] + Seq::<ArgModel>::empty() =~= seq![
        ArgModel::Array(vals_of(vs)),
    ]);
}

/// Law: a single valid decimal string parses to one single felt, the
/// numeral's value reduced modulo the field prime.
pub proof fn lemma_parse_single_numeral(s: Seq<u8>)
    requires
        is_digit_word(s),
    ensures
        spec_parse_input(s) == Some(seq![ArgModel::Single(dec_val(s) % stark_prime())]),
{
    lemma_digit_word_basics(s);
    lemma_words_of_join(seq![s]);
    assert(join_sp(seq![s]) == s);
    assert(spec_words(s) == seq![s]);
    assert(seq![s][0] == s);
    assert(seq![s].skip(1) =~= Seq::<Seq<u8>>::empty());
    assert(toks_of_words(Seq::<Seq<u8>>::empty()) == Seq::<Tok>::empty());
    assert(spec_tokens(s) =~= seq![Tok::Word(s)]);
    let toks = seq![Tok::Word(s)];
    assert(toks[0] == Tok::Word(s));
    assert(toks.skip(1) =~= Seq::<Tok>::empty());
    assert(spec_parse(Seq::<Tok>::empty()) == Some(Seq::<ArgModel>::empty()));
    assert(felt_of_dec(s) == dec_val(s) % stark_prime());
    assert(seq![ArgModel::Single(felt_of_dec(s))] + Seq::<ArgModel>::empty() =~= seq![
        ArgModel::Single(dec_val(s) % stark_prime()),
    ]);
}

/// Law: a bracketed run of valid decimal strings, with whitespace around
/// both brackets, parses to one array of their felt values.
pub proof fn lemma_parse_array_spaced(vs: Seq<Seq<u8>>)
    requires
        forall|i: int| 0 <= i < vs.len() ==> is_digit_word(#[trigger] vs[i]),
    ensures
        spec_parse_input(join_sp(seq![seq![91u8]] + vs + seq![seq![93u8]])) == Some(
            seq![ArgModel::Array(vals_of(vs))],
        ),
{
    let ws = seq![seq![91u8]] + vs + seq![seq![93u8]];
    assert(forall|i: int|
        0 <= i < ws.len() ==> (#[trigger] ws[i]).len() > 0 && (forall|k: int|
            0 <= k < ws[i].len() ==> !is_ws(#[trigger] ws[i][k]))) by {
        assert(ws[0] == seq![91u8]);
        assert(ws[ws.len() - 1] == seq![93u8]);
        assert(forall|i: int| 1 <= i < ws.len() - 1 ==> ws[i] == vs[i - 1]);
        assert(forall|i: int, k: int|
            0 <= i < vs.len() && 0 <= k < vs[i].len() ==> is_digit(#[trigger] vs[i][k]));
    }
    lemma_words_of_join(ws);
    assert(word_toks(seq![91u8]) =~= seq![Tok::Open]);
    assert(word_toks(seq![93u8]) =~= seq![Tok::Close]);
    lemma_toks_of_words_concat(seq![seq![91u8]] + vs, seq![seq![93u8]]);
    lemma_toks_of_words_concat(seq![seq![91u8]], vs);
    assert(toks_of_words(seq![seq![91u8]]) =~= seq![Tok::Open]) by {
        assert(seq![seq![91u8]][0] == seq![91u8]);
        assert(seq![seq![91u8]].skip(1) =~= Seq::<Seq<u8>>::empty());
        assert(toks_of_words(Seq::<Seq<u8>>::empty()) == Seq::<Tok>::empty());
    }
    assert(toks_of_words(seq![seq![93u8]]) =~= seq![Tok::Close]) by {
        assert(seq![seq![93u8]][0] == seq![93u8]);
        assert(seq![seq![93u8]].skip(1) =~= Seq::<Seq<u8>>::empty());
        assert(toks_of_words(Seq::<Seq<u8>>::empty()) == Seq::<Tok>::empty());
    }
    lemma_words_toks_of_digit_words(vs);
    assert(spec_tokens(join_sp(ws)) =~= seq![Tok::Open] + words_toks(vs) + seq![Tok::Close]);
    lemma_parse_array_tokens(vs);
}

/// The words of a bracketed run whose brackets are glued to the first and
/// last value without separating whitespace.
pub open spec fn glued_words(vs: Seq<Seq<u8>>) -> Seq<Seq<u8>> {
    if vs.len() == 1 {
        seq![seq![91u8] + vs[0] + seq![93u8]]
    } else {
        seq![seq![91u8] + vs[0]] + vs.subrange(1, vs.len() - 1) + seq![
            vs[vs.len() - 1] + seq![93u8],
        ]
    }
}

/// Law: the bracketed run still parses to the same array when the
/// brackets are glued to the adjacent values.
pub proof fn lemma_parse_array_glued(vs: Seq<Seq<u8>>)
    requires
        vs.len() >= 1,
        forall|i: int| 0 <= i < vs.len() ==> is_digit_word(#[trigger] vs[i]),
    ensures
        spec_parse_input(join_sp(glued_words(vs))) == Some(seq![ArgModel::Array(vals_of(vs))]),
{
    let ws = glued_words(vs);
    assert(forall|i: int, k: int|
        0 <= i < vs.len() && 0 <= k < vs[i].len() ==> is_digit(#[trigger] vs[i][k]));
    if vs.len() == 1 {
        let w = seq![91u8] + vs[0] + seq![93u8];
        assert(ws == seq![w]);
        assert(forall|k: int| 0 <= k < w.len() ==> !is_ws(#[trigger] w[k])) by {
            assert(forall|k: int| 1 <= k < w.len() - 1 ==> w[k] == vs[0][k - 1]);
        }
        lemma_words_of_join(ws);
        assert(word_toks(w) =~= seq![Tok::Open, Tok::Word(vs[0]), Tok::Close]) by {
            assert(w[0] == 91);
            assert(w.skip(1) =~= vs[0] + seq![93u8]);
            assert((vs[0] + seq![93u8]).last() == 93);
            assert((vs[0] + seq![93u8]).drop_last() =~= vs[0]);
        }
        assert(seq![w].skip(1) =~= Seq::<Seq<u8>>::empty());
        assert(toks_of_words(Seq::<Seq<u8>>::empty()) == Seq::<Tok>::empty());
        assert(spec_tokens(join_sp(ws)) =~= seq![Tok::Open] + words_toks(vs) + seq![Tok::Close])
            by {
            assert(words_toks(vs) =~= seq![Tok::Word(vs[0])]);
        }
        lemma_parse_array_tokens(vs);
    } else {
        let n = vs.len() as int;
        let first = seq![91u8] + vs[0];
        let last = vs[n - 1] + seq![93u8];
        let mid = vs.subrange(1, n - 1);
        assert(ws == seq![first] + mid + seq![last]);
        assert(forall|i: int|
            0 <= i < ws.len() ==> (#[trigger] ws[i]).len() > 0 && (forall|k: int|
                0 <= k < ws[i].len() ==> !is_ws(#[trigger] ws[i][k]))) by {
            assert(ws[0] == first);
            assert(forall|k: int| 1 <= k < first.len() ==> first[k] == vs[0][k - 1]);
            assert(ws[ws.len() - 1] == last);
            assert(forall|k: int| 0 <= k < last.len() - 1 ==> last[k] == vs[n - 1][k]);
            assert(forall|i: int| 1 <= i < ws.len() - 1 ==> ws[i] == vs[i]);
        }
        lemma_words_of_join(ws);
        assert(word_toks(first) =~= seq![Tok::Open, Tok::Word(vs[0])]) by {
            assert(first[0] == 91);
            assert(first.skip(1) =~= vs[0]);
            lemma_digit_word_basics(vs[0]);
        }
        assert(word_toks(last) =~= seq![Tok::Word(vs[n - 1]), Tok::Close]) by {
            lemma_digit_word_basics(vs[n - 1]);
            assert(last[0] == vs[n - 1][0]);
            assert(last.last() == 93);
            assert(last.drop_last() =~= vs[n - 1]);
        }
        lemma_toks_of_words_concat(seq![first] + mid, seq![last]);
        lemma_toks_of_words_concat(seq![first], mid);
        assert(toks_of_words(seq![first]) =~= word_toks(first)) by {
            assert(seq![first][0] == first);
            assert(seq![first].skip(1) =~= Seq::<Seq<u8>>::empty());
            assert(toks_of_words(Seq::<Seq<u8>>::empty()) == Seq::<Tok>::empty());
        }
        assert(toks_of_words(seq![last]) =~= word_toks(last)) by {
            assert(seq![last][0] == last);
            assert(seq![last].skip(1) =~= Seq::<Seq<u8>>::empty());
            assert(toks_of_words(Seq::<Seq<u8>>::empty()) == Seq::<Tok>::empty());
        }
        assert(forall|i: int| 0 <= i < mid.len() ==> is_digit_word(#[trigger] mid[i])) by {
            assert(forall|i: int| 0 <= i < mid.len() ==> mid[i] == vs[i + 1]);
        }
        lemma_words_toks_of_digit_words(mid);
        assert(spec_tokens(join_sp(ws)) =~= seq![Tok::Open] + words_toks(vs) + seq![Tok::Close])
            by {
            assert(words_toks(mid) =~= words_toks(vs).subrange(1, n - 1));
            assert(words_toks(vs)[0] == Tok::Word(vs[0]));
            assert(words_toks(vs)[n - 1] == Tok::Word(vs[n - 1]));
        }
        lemma_parse_array_tokens(vs);
    }
}

} // verus!

