//! The parser: builds the expression tree from a token stream, reducing
//! operator runs group by group in precedence order.

use vstd::prelude::*;

use crate::ast::{Expr, Operator, Value};
use crate::error::Error;
use crate::lexer::{
    clone_token, lemma_toks_view, s_take_till, take_till_match, tok_view, tokenize, toks_view,
    validate, TokM, Token,
};
use crate::num::Num;

verus! {

broadcast use crate::ast::group_view_axioms;

/// A partially reduced item: a finished subtree, or a token still waiting
/// for its operands.
pub enum TempToken {
    Done(Expr),
    Wait(Token),
}

/// The ghost mirror of a partially reduced item.
pub enum TempM {
    Done(crate::ast::ExprM),
    Wait(TokM),
}

/// The model of one item.
pub open spec fn temp_view(t: TempToken) -> TempM {
    match t {
        TempToken::Done(e) => TempM::Done(crate::ast::expr_view(e)),
        TempToken::Wait(k) => TempM::Wait(tok_view(k)),
    }
}

/// The model of an item list.
pub open spec fn temps_view(s: Seq<TempToken>) -> Seq<TempM>
    decreases s,
{
    if s.len() == 0 {
        Seq::empty()
    } else {
        seq![temp_view(s[0])] + temps_view(s.drop_first())
    }
}

pub broadcast proof fn lemma_temps_view(s: Seq<TempToken>)
    ensures
        (#[trigger] temps_view(s)).len() == s.len(),
        forall|i: int| 0 <= i < s.len() ==> temps_view(s)[i] == temp_view(s[i]),
    decreases s.len(),
{
    if s.len() > 0 {
        lemma_temps_view(s.drop_first());
        assert forall|i: int| 0 <= i < s.len() implies temps_view(s)[i] == temp_view(s[i]) by {
            if i > 0 {
                assert(s.drop_first()[i - 1] == s[i]);
            }
        }
    }
}

/// The operator a word names within one precedence group: the six groups,
/// tightest first — power; product, quotient, remainder; sum, difference;
/// the comparisons; the connectives; assignment.
pub open spec fn s_group_op(gid: int, w: Seq<char>) -> Option<Operator> {
    if gid == 0 {
        if w == "^"@ {
            Some(Operator::Pow)
        } else {
            None
        }
    } else if gid == 1 {
        if w == "*"@ {
            Some(Operator::Mul)
        } else if w == "/"@ {
            Some(Operator::Div)
        } else if w == "%"@ {
            Some(Operator::Rem)
        } else {
            None
        }
    } else if gid == 2 {
        if w == "+"@ {
            Some(Operator::Add)
        } else if w == "-"@ {
            Some(Operator::Sub)
        } else {
            None
        }
    } else if gid == 3 {
        if w == "=="@ {
            Some(Operator::Eq)
        } else if w == "!="@ {
            Some(Operator::Ne)
        } else if w == ">="@ {
            Some(Operator::Ge)
        } else if w == ">"@ {
            Some(Operator::Gt)
        } else if w == "<="@ {
            Some(Operator::Le)
        } else if w == "<"@ {
            Some(Operator::Lt)
        } else {
            None
        }
    } else if gid == 4 {
        if w == "&&"@ {
            Some(Operator::And)
        } else if w == "||"@ {
            Some(Operator::Or)
        } else {
            None
        }
    } else {
        if w == "="@ {
            Some(Operator::Store)
        } else {
            None
        }
    }
}

/// One reduction step: a finished operand closing a `Done op` pair on the
/// output stack becomes one binary node; everything else is kept as is.
pub open spec fn s_reduce_step(out: Seq<TempM>, item: TempM, gid: int) -> Seq<TempM> {
    match item {
        TempM::Done(b) => {
            if out.len() >= 2 {
                let pending = match out.last() {
                    TempM::Wait(TokM::Operator(w)) => s_group_op(gid, w),
                    _ => None,
                };
                let prev_done = out[out.len() - 2] is Done;
                if prev_done {
                    match pending {
                        Some(op) => {
                            let a = out[out.len() - 2]->Done_0;
                            out.drop_last().drop_last().push(
                                TempM::Done(
                                    crate::ast::ExprM::Comp(op, Box::new(a), Box::new(b)),
                                ),
                            )
                        },
                        None => out.push(item),
                    }
                } else {
                    out.push(item)
                }
            } else {
                out.push(item)
            }
        },
        _ => out.push(item),
    }
}

/// The left-to-right reduction of one precedence group.
pub open spec fn s_reduce(items: Seq<TempM>, k: int, out: Seq<TempM>, gid: int) -> Seq<TempM>
    decreases items.len() - k,
{
    if k < 0 || k >= items.len() {
        out
    } else {
        s_reduce(items, k + 1, s_reduce_step(out, items[k], gid), gid)
    }
}

/// The six reductions in precedence order.
pub open spec fn s_reduce_all(items: Seq<TempM>, gid: int) -> Seq<TempM>
    decreases 6 - gid,
{
    if gid < 0 || gid >= 6 {
        items
    } else {
        s_reduce_all(s_reduce(items, 0, Seq::empty(), gid), gid + 1)
    }
}

/// Whether a separator stands outside every nested group, one token at a
/// time.
pub open spec fn s_has_sep(toks: Seq<TokM>, i: int, depth: int) -> bool
    decreases toks.len() - i,
{
    if i < 0 || i >= toks.len() {
        false
    } else {
        match toks[i] {
            TokM::Paren(p) => {
                let d = if p == '(' || p == '[' || p == '{' {
                    if depth < usize::MAX as int {
                        depth + 1
                    } else {
                        depth
                    }
                } else if depth > 0 {
                    depth - 1
                } else {
                    depth
                };
                s_has_sep(toks, i + 1, d)
            },
            TokM::Sep(_) => {
                if depth == 0 {
                    true
                } else {
                    s_has_sep(toks, i + 1, depth)
                }
            },
            _ => s_has_sep(toks, i + 1, depth),
        }
    }
}

/// The collection walk of the stream parser, one token at a time: a
/// grouping token collects its span and parses it (a braced span as a set
/// aggregate, a parenthesized span with top-level separators as a tuple
/// literal, any other span as one nested expression); a number token must
/// denote a representable value; `true` and `false` are the truth
/// literals; any other name is a call when an opening parenthesis follows,
/// else a reference; operators and separators wait for the reduction
/// passes.
pub open spec fn s_collect(toks: Seq<TokM>, i: int, acc: Seq<TempM>) -> Result<
    Seq<TempM>,
    crate::error::ErrM,
>
    decreases toks.len(), 4nat, toks.len() - i,
    via s_collect_decreases
{
    if i < 0 || i >= toks.len() {
        Ok(acc)
    } else {
        match toks[i] {
            TokM::Paren(p) => {
                if p == '(' || p == '[' || p == '{' {
                    let (sub, ni) = s_take_till(toks, i + 1, 1, Seq::empty());
                    let j = if ni > i {
                        ni
                    } else {
                        i + 1
                    };
                    if p == '{' {
                        match s_parse_args(sub) {
                            Ok(es) => s_collect(
                                toks,
                                j,
                                acc.push(
                                    TempM::Done(
                                        crate::ast::ExprM::Value(crate::ast::ValM::SetOf(es)),
                                    ),
                                ),
                            ),
                            Err(e) => Err(e),
                        }
                    } else if s_has_sep(sub, 0, 0) {
                        match s_parse_args(sub) {
                            Ok(es) => s_collect(
                                toks,
                                j,
                                acc.push(
                                    TempM::Done(
                                        crate::ast::ExprM::Value(crate::ast::ValM::Tuple(es)),
                                    ),
                                ),
                            ),
                            Err(e) => Err(e),
                        }
                    } else {
                        match s_parse_stream(sub) {
                            Ok(e) => s_collect(toks, j, acc.push(TempM::Done(e))),
                            Err(e) => Err(e),
                        }
                    }
                } else {
                    s_collect(toks, i + 1, acc)
                }
            },
            TokM::Number(raw) => {
                if crate::num::is_decimal(raw) && 0 <= crate::num::dec_n(raw)
                    && crate::num::dec_n(raw) <= i64::MAX as int && 1 <= crate::num::dec_d(raw)
                    && crate::num::dec_d(raw) <= i64::MAX as int {
                    s_collect(
                        toks,
                        i + 1,
                        acc.push(
                            TempM::Done(
                                crate::ast::ExprM::Value(
                                    crate::ast::ValM::Numeric(
                                        crate::num::NumM {
                                            n: crate::num::norm_num(
                                                crate::num::dec_n(raw),
                                                crate::num::dec_d(raw),
                                            ),
                                            d: crate::num::norm_den(
                                                crate::num::dec_n(raw),
                                                crate::num::dec_d(raw),
                                            ),
                                        },
                                    ),
                                ),
                            ),
                        ),
                    )
                } else {
                    Err(crate::error::ErrM::ParseError("could not parse number"@))
                }
            },
            TokM::Ident(w) => {
                if w == "true"@ {
                    s_collect(
                        toks,
                        i + 1,
                        acc.push(
                            TempM::Done(
                                crate::ast::ExprM::Value(crate::ast::ValM::Logical(true)),
                            ),
                        ),
                    )
                } else if w == "false"@ {
                    s_collect(
                        toks,
                        i + 1,
                        acc.push(
                            TempM::Done(
                                crate::ast::ExprM::Value(crate::ast::ValM::Logical(false)),
                            ),
                        ),
                    )
                } else {
                    let is_call = i + 1 < toks.len() && toks[i + 1] == TokM::Paren('(');
                    if is_call {
                        let (sub, ni) = s_take_till(toks, i + 2, 1, Seq::empty());
                        let j = if ni > i {
                            ni
                        } else {
                            i + 1
                        };
                        match s_parse_args(sub) {
                            Ok(es) => s_collect(
                                toks,
                                j,
                                acc.push(TempM::Done(crate::ast::ExprM::Func(w, Some(es)))),
                            ),
                            Err(e) => Err(e),
                        }
                    } else {
                        s_collect(
                            toks,
                            i + 1,
                            acc.push(TempM::Done(crate::ast::ExprM::Ref(w))),
                        )
                    }
                }
            },
            _ => s_collect(toks, i + 1, acc.push(TempM::Wait(toks[i]))),
        }
    }
}

#[via_fn]
proof fn s_collect_decreases(toks: Seq<TokM>, i: int, acc: Seq<TempM>) {
    if 0 <= i < toks.len() {
        crate::lexer::lemma_s_take_till_bounds(toks, i + 1, 1, Seq::empty());
        if i + 2 <= toks.len() {
            crate::lexer::lemma_s_take_till_bounds(toks, i + 2, 1, Seq::empty());
        }
    }
}

/// The model of the stream parser: collect the items, reduce each
/// precedence group in order, and accept exactly one finished tree.
pub open spec fn s_parse_stream(toks: Seq<TokM>) -> Result<crate::ast::ExprM, crate::error::ErrM>
    decreases toks.len(), 5nat, 0nat,
{
    match s_collect(toks, 0, Seq::empty()) {
        Err(e) => Err(e),
        Ok(subs) => if subs.len() == 0 {
            Err(crate::error::ErrM::ParseError("no expression given"@))
        } else {
            let items = s_reduce_all(subs, 0);
            if items.len() != 1 {
                Err(crate::error::ErrM::ParseError("expression is not well formed"@))
            } else {
                match items[0] {
                    TempM::Done(e) => Ok(e),
                    _ => Err(crate::error::ErrM::ParseError("expression is not well formed"@)),
                }
            }
        },
    }
}

/// The model of argument parsing: split at top-level separators and parse
/// each piece in order.
pub open spec fn s_parse_args(sub: Seq<TokM>) -> Result<Seq<crate::ast::ExprM>, crate::error::ErrM>
    decreases sub.len(), 9nat, 0nat,
{
    s_pieces(sub.len(), s_split(sub, 0, 0, Seq::empty(), Seq::empty()), 0, Seq::empty())
}

pub open spec fn s_pieces(
    b: nat,
    pieces: Seq<Seq<TokM>>,
    k: int,
    acc: Seq<crate::ast::ExprM>,
) -> Result<Seq<crate::ast::ExprM>, crate::error::ErrM>
    decreases b, 8nat, pieces.len() - k,
{
    if k < 0 || k >= pieces.len() {
        Ok(acc)
    } else if pieces[k].len() <= b {
        match s_parse_stream(pieces[k]) {
            Ok(e) => s_pieces(b, pieces, k + 1, acc.push(e)),
            Err(e) => Err(e),
        }
    } else {
        Err(crate::error::ErrM::ParseError("expression is not well formed"@))
    }
}

/// The model of the parser: tokenize, refuse an empty line, check the
/// stream, and parse it.
pub open spec fn s_parse(text: Seq<char>) -> Result<crate::ast::ExprM, crate::error::ErrM> {
    match crate::lexer::s_tokenize(text) {
        Err(e) => Err(e),
        Ok(toks) => if toks.len() == 0 {
            Err(crate::error::ErrM::ParseError("no expression given"@))
        } else {
            match crate::lexer::s_validate(toks, 0) {
                Err(e) => Err(e),
                Ok(_) => s_parse_stream(toks),
            }
        },
    }
}

/// Parses one line of source text into an expression, exactly as the model
/// reads it: tokenize, refuse an empty line, check the stream, parse.
pub fn parse(script: &str) -> (r: Result<Expr, Error>)
    ensures
        (match r {
            Ok(e) => Ok(crate::ast::expr_view(e)),
            Err(e) => Err::<crate::ast::ExprM, crate::error::ErrM>(e.deep_view()),
        }) == s_parse(script@),
{
    let tokens = match tokenize(script) {
        Ok(ts) => ts,
        Err(err) => {
            return Err(err);
        },
    };
    proof {
        lemma_toks_view(tokens@);
    }
    if tokens.len() == 0 {
        return Err(Error::ParseError(String::from_str("no expression given")));
    }
    let valid = match validate(tokens) {
        Ok(ts) => ts,
        Err(err) => {
            return Err(err);
        },
    };
    parse_token_stream(valid)
}

/// Whether two words are the same text.
fn string_is(a: &str, b: &str) -> (r: bool)
    ensures
        r == (a@ == b@),
{
    let na = a.unicode_len();
    let nb = b.unicode_len();
    if na != nb {
        proof {
            assert(a@.len() != b@.len());
        }
        return false;
    }
    let mut i: usize = 0;
    while i < na
        invariant
            0 <= i <= na,
            na == a@.len(),
            na == b@.len(),
            forall|j: int| 0 <= j < i ==> a@[j] == b@[j],
        decreases na - i,
    {
        let ca = a.get_char(i);
        let cb = b.get_char(i);
        if ca != cb {
            return false;
        }
        i = i + 1;
    }
    proof {
        assert(a@ =~= b@);
    }
    true
}

/// The operator a token names within one precedence group.
fn group_operator(gid: usize, s: &String) -> (r: Option<Operator>)
    ensures
        r == s_group_op(gid as int, s@),
{
    let t = s.as_str();
    match gid {
        0 => {
            if string_is(t, "^") {
                Some(Operator::Pow)
            } else {
                None
            }
        },
        1 => {
            if string_is(t, "*") {
                Some(Operator::Mul)
            } else if string_is(t, "/") {
                Some(Operator::Div)
            } else if string_is(t, "%") {
                Some(Operator::Rem)
            } else {
                None
            }
        },
        2 => {
            if string_is(t, "+") {
                Some(Operator::Add)
            } else if string_is(t, "-") {
                Some(Operator::Sub)
            } else {
                None
            }
        },
        3 => {
            if string_is(t, "==") {
                Some(Operator::Eq)
            } else if string_is(t, "!=") {
                Some(Operator::Ne)
            } else if string_is(t, ">=") {
                Some(Operator::Ge)
            } else if string_is(t, ">") {
                Some(Operator::Gt)
            } else if string_is(t, "<=") {
                Some(Operator::Le)
            } else if string_is(t, "<") {
                Some(Operator::Lt)
            } else {
                None
            }
        },
        4 => {
            if string_is(t, "&&") {
                Some(Operator::And)
            } else if string_is(t, "||") {
                Some(Operator::Or)
            } else {
                None
            }
        },
        _ => {
            if string_is(t, "=") {
                Some(Operator::Store)
            } else {
                None
            }
        },
    }
}

/// Parses a token stream into one expression.
fn parse_token_stream(tokens: Vec<Token>) -> (r: Result<Expr, Error>)
    ensures
        (match r {
            Ok(e) => Ok(crate::ast::expr_view(e)),
            Err(e) => Err::<crate::ast::ExprM, crate::error::ErrM>(e.deep_view()),
        }) == s_parse_stream(toks_view(tokens@)),
    decreases tokens@.len(), 1nat,
{
    let ghost toksv = toks_view(tokens@);
    proof {
        lemma_toks_view(tokens@);
    }
    let mut subcomps: Vec<TempToken> = Vec::new();
    let n = tokens.len();
    let mut i: usize = 0;
    proof {
        lemma_temps_view(subcomps@);
        assert(temps_view(subcomps@) =~= Seq::<TempM>::empty());
    }
    while i < n
        invariant
            0 <= i <= n,
            n == tokens@.len(),
            toksv == toks_view(tokens@),
            s_collect(toksv, 0, Seq::empty()) == s_collect(
                toksv,
                i as int,
                temps_view(subcomps@),
            ),
        decreases n - i,
    {
        proof {
            lemma_toks_view(tokens@);
            assert(toksv[i as int] == tok_view(tokens@[i as int]));
        }
        let ghost accpre = temps_view(subcomps@);
        match &tokens[i] {
            Token::Paren(p) => {
                let pc = *p;
                proof {
                    assert(tokens@[i as int] == Token::Paren(pc));
                }
                if pc == '(' || pc == '[' || pc == '{' {
                    let (sub, ni) = take_till_match(&tokens, i + 1, pc);
                    proof {
                        assert(sub@.len() < tokens@.len());
                        crate::lexer::lemma_s_take_till_bounds(
                            toksv,
                            i as int + 1,
                            1,
                            Seq::empty(),
                        );
                    }
                    if pc == '{' {
                        let elems = match parse_arguments(sub) {
                            Ok(es) => es,
                            Err(err) => {
                                return Err(err);
                            },
                        };
                        let ghost spre = subcomps@;
                        subcomps.push(
                            TempToken::Done(Expr::Value(Value::SetOf(elems))),
                        );
                        proof {
                            lemma_temps_view(subcomps@);
                            lemma_temps_view(spre);
                            assert(subcomps@.drop_last() =~= spre);
                            assert(temps_view(subcomps@) =~= accpre.push(
                                temp_view(subcomps@.last()),
                            ));
                        }
                    } else if has_toplevel_sep(&sub) {
                        // A parenthesized group with separators is a tuple
                        // literal.
                        let elems = match parse_arguments(sub) {
                            Ok(es) => es,
                            Err(err) => {
                                return Err(err);
                            },
                        };
                        let ghost spre = subcomps@;
                        subcomps.push(
                            TempToken::Done(Expr::Value(Value::Tuple(elems))),
                        );
                        proof {
                            lemma_temps_view(subcomps@);
                            lemma_temps_view(spre);
                            assert(subcomps@.drop_last() =~= spre);
                            assert(temps_view(subcomps@) =~= accpre.push(
                                temp_view(subcomps@.last()),
                            ));
                        }
                    } else {
                        let node = match parse_token_stream(sub) {
                            Ok(e) => e,
                            Err(err) => {
                                return Err(err);
                            },
                        };
                        let ghost spre = subcomps@;
                        subcomps.push(TempToken::Done(node));
                        proof {
                            lemma_temps_view(subcomps@);
                            lemma_temps_view(spre);
                            assert(subcomps@.drop_last() =~= spre);
                            assert(temps_view(subcomps@) =~= accpre.push(
                                temp_view(subcomps@.last()),
                            ));
                        }
                    }
                    if ni > i {
                        i = ni;
                    } else {
                        i = i + 1;
                    }
                } else {
                    i = i + 1;
                }
            },
            Token::Number(raw) => {
                proof {
                    assert(tokens@[i as int] matches Token::Number(w) && w@ == raw@);
                }
                match Num::from_decimal(raw.as_str()) {
                    Some(q) => {
                        let ghost spre = subcomps@;
                        subcomps.push(TempToken::Done(Expr::Value(Value::Numeric(q))));
                        proof {
                            lemma_temps_view(subcomps@);
                            lemma_temps_view(spre);
                            assert(subcomps@.drop_last() =~= spre);
                            assert(temps_view(subcomps@) =~= accpre.push(
                                temp_view(subcomps@.last()),
                            ));
                        }
                    },
                    None => {
                        return Err(Error::ParseError(String::from_str("could not parse number")));
                    },
                }
                i = i + 1;
            },
            Token::Ident(name) => {
                let nm = name.clone();
                proof {
                    assert(tokens@[i as int] matches Token::Ident(w) && w@ == nm@);
                }
                // `true` and `false` read as logical literals.
                if string_is(nm.as_str(), "true") {
                    let ghost spre = subcomps@;
                    subcomps.push(TempToken::Done(Expr::Value(Value::Logical(true))));
                    proof {
                        lemma_temps_view(subcomps@);
                        lemma_temps_view(spre);
                        assert(subcomps@.drop_last() =~= spre);
                        assert(temps_view(subcomps@) =~= accpre.push(
                            temp_view(subcomps@.last()),
                        ));
                    }
                    i = i + 1;
                } else if string_is(nm.as_str(), "false") {
                    let ghost spre = subcomps@;
                    subcomps.push(TempToken::Done(Expr::Value(Value::Logical(false))));
                    proof {
                        lemma_temps_view(subcomps@);
                        lemma_temps_view(spre);
                        assert(subcomps@.drop_last() =~= spre);
                        assert(temps_view(subcomps@) =~= accpre.push(
                            temp_view(subcomps@.last()),
                        ));
                    }
                    i = i + 1;
                } else {
                    let is_call = if i + 1 < n {
                        match &tokens[i + 1] {
                            Token::Paren(q) => *q == '(',
                            _ => false,
                        }
                    } else {
                        false
                    };
                    proof {
                        if i as int + 1 < toksv.len() {
                            assert(toksv[i as int + 1] == tok_view(tokens@[i as int + 1]));
                        }
                        assert(is_call == (i as int + 1 < toksv.len() && toksv[i as int + 1]
                            == TokM::Paren('(')));
                    }
                    if is_call {
                        let (sub, ni) = take_till_match(&tokens, i + 2, '(');
                        proof {
                            assert(sub@.len() < tokens@.len());
                            crate::lexer::lemma_s_take_till_bounds(
                                toksv,
                                i as int + 2,
                                1,
                                Seq::empty(),
                            );
                        }
                        let args = match parse_arguments(sub) {
                            Ok(es) => es,
                            Err(err) => {
                                return Err(err);
                            },
                        };
                        let ghost spre = subcomps@;
                        subcomps.push(TempToken::Done(Expr::Func(nm, Some(args))));
                        proof {
                            lemma_temps_view(subcomps@);
                            lemma_temps_view(spre);
                            assert(subcomps@.drop_last() =~= spre);
                            assert(temps_view(subcomps@) =~= accpre.push(
                                temp_view(subcomps@.last()),
                            ));
                        }
                        if ni > i {
                            i = ni;
                        } else {
                            i = i + 1;
                        }
                    } else {
                        let ghost spre = subcomps@;
                        subcomps.push(TempToken::Done(Expr::Ref(nm)));
                        proof {
                            lemma_temps_view(subcomps@);
                            lemma_temps_view(spre);
                            assert(subcomps@.drop_last() =~= spre);
                            assert(temps_view(subcomps@) =~= accpre.push(
                                temp_view(subcomps@.last()),
                            ));
                        }
                        i = i + 1;
                    }
                }
            },
            t => {
                let c = clone_token(t);
                let ghost spre = subcomps@;
                subcomps.push(TempToken::Wait(c));
                proof {
                    lemma_temps_view(subcomps@);
                    lemma_temps_view(spre);
                    assert(subcomps@.drop_last() =~= spre);
                    assert(temps_view(subcomps@) =~= accpre.push(
                        temp_view(subcomps@.last()),
                    ));
                }
                i = i + 1;
            },
        }
    }
    proof {
        assert(s_collect(toksv, n as int, temps_view(subcomps@)) == Ok::<
            Seq<TempM>,
            crate::error::ErrM,
        >(temps_view(subcomps@)));
        lemma_temps_view(subcomps@);
    }
    let ghost subs0 = temps_view(subcomps@);
    if subcomps.len() == 0 {
        return Err(Error::ParseError(String::from_str("no expression given")));
    }
    let mut items = subcomps;
    let mut gid: usize = 0;
    while gid < 6
        invariant
            gid <= 6,
            s_reduce_all(subs0, 0) == s_reduce_all(temps_view(items@), gid as int),
        decreases 6 - gid,
    {
        items = reduce(items, gid);
        gid = gid + 1;
    }
    proof {
        assert(s_reduce_all(temps_view(items@), 6) == temps_view(items@));
        lemma_temps_view(items@);
    }
    if items.len() != 1 {
        return Err(Error::ParseError(String::from_str("expression is not well formed")));
    }
    let ghost itemsv = temps_view(items@);
    match items.pop() {
        Some(TempToken::Done(e)) => {
            proof {
                assert(itemsv[0] == temp_view(TempToken::Done(e)));
            }
            Ok(e)
        },
        _ => Err(Error::ParseError(String::from_str("expression is not well formed"))),
    }
}

/// Reduces every operator of one precedence group, left to right: each
/// finished operand pair around such an operator becomes one binary node.
fn reduce(items: Vec<TempToken>, gid: usize) -> (r: Vec<TempToken>)
    ensures
        temps_view(r@) == s_reduce(temps_view(items@), 0, Seq::empty(), gid as int),
{
    let mut out: Vec<TempToken> = Vec::new();
    let mut src = items;
    let ghost items0 = src@;
    let n = src.len();
    let mut i: usize = 0;
    proof {
        lemma_temps_view(out@);
        assert(temps_view(out@) =~= Seq::<TempM>::empty());
        assert(src@ =~= items0.skip(0));
    }
    while i < n
        invariant
            0 <= i <= n,
            n == src@.len() + i,
            n == items0.len(),
            src@ == items0.skip(i as int),
            s_reduce(temps_view(items0), 0, Seq::empty(), gid as int) == s_reduce(
                temps_view(items0),
                i as int,
                temps_view(out@),
                gid as int,
            ),
        decreases n - i,
    {
        proof {
            lemma_temps_view(items0);
            assert(items0.skip(i as int)[0] == items0[i as int]);
            assert(temps_view(items0)[i as int] == temp_view(items0[i as int]));
        }
        let ghost outpre = temps_view(out@);
        let item = src.remove(0);
        proof {
            assert(src@ =~= items0.skip(i as int + 1));
            assert(item == items0[i as int]);
        }
        match item {
            TempToken::Done(b) => {
                let ghost bm = crate::ast::expr_view(b);
                let combine: Option<Operator> = if out.len() >= 2 {
                    proof {
                        lemma_temps_view(out@);
                    }
                    let op_slot = match &out[out.len() - 1] {
                        TempToken::Wait(k) => match k {
                            Token::Operator(w) => {
                                proof {
                                    assert(temp_view(out@[out@.len() - 1]) == TempM::Wait(
                                        TokM::Operator(w@),
                                    ));
                                }
                                group_operator(gid, w)
                            },
                            _ => None,
                        },
                        _ => None,
                    };
                    let prev_done = match &out[out.len() - 2] {
                        TempToken::Done(_) => true,
                        _ => false,
                    };
                    if prev_done {
                        op_slot
                    } else {
                        None
                    }
                } else {
                    None
                };
                match combine {
                    Some(op) => {
                        let ghost p1 = out@;
                        let _dropped = out.pop();
                        let ghost p2 = out@;
                        match out.pop() {
                            Some(TempToken::Done(a)) => {
                                let ghost p3 = out@;
                                out.push(
                                    TempToken::Done(Expr::Comp(op, Box::new(a), Box::new(b))),
                                );
                                proof {
                                    lemma_temps_view(p1);
                                    lemma_temps_view(p2);
                                    lemma_temps_view(p3);
                                    lemma_temps_view(out@);
                                    assert(p2 =~= p1.drop_last());
                                    assert(p3 =~= p2.drop_last());
                                    assert(out@.drop_last() =~= p3);
                                    assert(temps_view(out@) =~= outpre.drop_last().drop_last().push(
                                        temp_view(out@.last()),
                                    ));
                                    assert(temp_view(out@.last()) == TempM::Done(
                                        crate::ast::ExprM::Comp(
                                            op,
                                            Box::new(outpre[outpre.len() - 2]->Done_0),
                                            Box::new(bm),
                                        ),
                                    ));
                                }
                            },
                            Some(w) => {
                                proof {
                                    assert(false);
                                }
                                out.push(w);
                                out.push(TempToken::Done(b));
                            },
                            None => {
                                proof {
                                    assert(false);
                                }
                                out.push(TempToken::Done(b));
                            },
                        }
                    },
                    None => {
                        let ghost opre2 = out@;
                        out.push(TempToken::Done(b));
                        proof {
                            lemma_temps_view(opre2);
                            lemma_temps_view(out@);
                            assert(out@.drop_last() =~= opre2);
                            assert(temps_view(out@) =~= outpre.push(TempM::Done(bm)));
                        }
                    },
                }
            },
            other => {
                let ghost opre2 = out@;
                let ghost om = temp_view(other);
                out.push(other);
                proof {
                    lemma_temps_view(opre2);
                    lemma_temps_view(out@);
                    assert(out@.drop_last() =~= opre2);
                    assert(temps_view(out@) =~= outpre.push(om));
                }
            },
        }
        i = i + 1;
    }
    proof {
        lemma_temps_view(items0);
        assert(temps_view(items0).len() == items0.len());
        assert(s_reduce(temps_view(items0), n as int, temps_view(out@), gid as int)
            == temps_view(out@));
    }
    out
}

/// Splits an argument token stream at top-level separators and parses each
/// piece.
fn parse_arguments(sub: Vec<Token>) -> (r: Result<Vec<Expr>, Error>)
    ensures
        (match r {
            Ok(es) => Ok(crate::ast::exprs_view(es@)),
            Err(e) => Err::<Seq<crate::ast::ExprM>, crate::error::ErrM>(e.deep_view()),
        }) == s_parse_args(toks_view(sub@)),
    decreases sub@.len(), 2nat,
{
    let ghost slen = sub@.len();
    let ghost subv = toks_view(sub@);
    proof {
        lemma_toks_view(sub@);
    }
    let pieces = split_arguments(&sub);
    let ghost rows = s_split(subv, 0, 0, Seq::empty(), Seq::empty());
    let mut out: Vec<Expr> = Vec::new();
    let mut rest = pieces;
    let ghost rows0 = rest@;
    let np = rest.len();
    let mut k: usize = 0;
    proof {
        lemma_tok_rows_view(rows0);
        crate::ast::lemma_exprs_view(out@);
        assert(crate::ast::exprs_view(out@) =~= Seq::<crate::ast::ExprM>::empty());
        assert(rest@ =~= rows0.skip(0));
    }
    while k < np
        invariant
            0 <= k <= np,
            np == rest@.len() + k,
            np == rows0.len(),
            rest@ == rows0.skip(k as int),
            tok_rows_view(rows0) == rows,
            subv == toks_view(sub@),
            rows == s_split(subv, 0, 0, Seq::empty(), Seq::empty()),
            slen == sub@.len(),
            subv.len() == slen,
            forall|j: int| 0 <= j < rows0.len() ==> (#[trigger] rows0[j])@.len() <= slen,
            s_pieces(slen, rows, 0, Seq::empty()) == s_pieces(
                slen,
                rows,
                k as int,
                crate::ast::exprs_view(out@),
            ),
        decreases np - k,
    {
        proof {
            lemma_tok_rows_view(rows0);
            assert(rows0.skip(k as int)[0] == rows0[k as int]);
            assert(rows[k as int] == toks_view(rows0[k as int]@));
            crate::lexer::lemma_toks_view(rows0[k as int]@);
            assert(rows[k as int].len() <= slen);
        }
        let piece = rest.remove(0);
        proof {
            assert(rest@ =~= rows0.skip(k as int + 1));
            assert(piece == rows0[k as int]);
        }
        let e = match parse_token_stream(piece) {
            Ok(e) => e,
            Err(err) => {
                return Err(err);
            },
        };
        let ghost opre = out@;
        out.push(e);
        proof {
            crate::ast::lemma_exprs_view(out@);
            crate::ast::lemma_exprs_view(opre);
            assert(out@.drop_last() =~= opre);
            assert(crate::ast::exprs_view(out@) =~= crate::ast::exprs_view(opre).push(
                crate::ast::expr_view(out@.last()),
            ));
        }
        k = k + 1;
    }
    proof {
        lemma_tok_rows_view(rows0);
        assert(rows.len() == rows0.len());
        assert(s_pieces(slen, rows, np as int, crate::ast::exprs_view(out@)) == Ok::<
            Seq<crate::ast::ExprM>,
            crate::error::ErrM,
        >(crate::ast::exprs_view(out@)));
    }
    Ok(out)
}

/// Whether a separator stands outside every nested group.
fn has_toplevel_sep(sub: &Vec<Token>) -> (r: bool)
    ensures
        r == s_has_sep(toks_view(sub@), 0, 0),
{
    proof {
        lemma_toks_view(sub@);
    }
    let mut depth: usize = 0;
    let n = sub.len();
    let mut i: usize = 0;
    while i < n
        invariant
            0 <= i <= n,
            n == sub@.len(),
            s_has_sep(toks_view(sub@), 0, 0) == s_has_sep(
                toks_view(sub@),
                i as int,
                depth as int,
            ),
        decreases n - i,
    {
        proof {
            lemma_toks_view(sub@);
            assert(toks_view(sub@)[i as int] == tok_view(sub@[i as int]));
        }
        match &sub[i] {
            Token::Paren(c) => {
                let pc = *c;
                proof {
                    assert(sub@[i as int] == Token::Paren(pc));
                }
                if pc == '(' || pc == '[' || pc == '{' {
                    if depth < usize::MAX {
                        depth = depth + 1;
                    }
                } else if depth > 0 {
                    depth = depth - 1;
                }
            },
            Token::Sep(_) => {
                if depth == 0 {
                    return true;
                }
            },
            _ => {},
        }
        i = i + 1;
    }
    false
}

/// The split, one token at a time: a separator at nesting depth zero
/// closes the current group; every other token (grouping characters
/// included) stays in its group in order; a nonempty trailing group is
/// kept, an empty one is not.
pub open spec fn s_split(
    tokens: Seq<TokM>,
    i: int,
    depth: int,
    buffer: Seq<TokM>,
    acc: Seq<Seq<TokM>>,
) -> Seq<Seq<TokM>>
    decreases tokens.len() - i,
{
    if i < 0 || i >= tokens.len() {
        if buffer.len() > 0 {
            acc.push(buffer)
        } else {
            acc
        }
    } else {
        match tokens[i] {
            TokM::Paren(p) => {
                let d = if p == '(' || p == '[' || p == '{' {
                    if depth < usize::MAX as int {
                        depth + 1
                    } else {
                        depth
                    }
                } else if depth > 0 {
                    depth - 1
                } else {
                    depth
                };
                s_split(tokens, i + 1, d, buffer.push(tokens[i]), acc)
            },
            TokM::Sep(_) => {
                if depth == 0 {
                    s_split(tokens, i + 1, 0, Seq::empty(), acc.push(buffer))
                } else {
                    s_split(tokens, i + 1, depth, buffer.push(tokens[i]), acc)
                }
            },
            _ => s_split(tokens, i + 1, depth, buffer.push(tokens[i]), acc),
        }
    }
}

/// The view of a list of token groups.
pub open spec fn tok_rows_view(s: Seq<Vec<Token>>) -> Seq<Seq<TokM>>
    decreases s,
{
    if s.len() == 0 {
        Seq::empty()
    } else {
        seq![toks_view(s[0]@)] + tok_rows_view(s.drop_first())
    }
}

pub broadcast proof fn lemma_tok_rows_view(s: Seq<Vec<Token>>)
    ensures
        (#[trigger] tok_rows_view(s)).len() == s.len(),
        forall|i: int| 0 <= i < s.len() ==> tok_rows_view(s)[i] == toks_view(s[i]@),
    decreases s.len(),
{
    if s.len() > 0 {
        lemma_tok_rows_view(s.drop_first());
        assert forall|i: int| 0 <= i < s.len() implies tok_rows_view(s)[i] == toks_view(s[i]@) by {
            if i > 0 {
                assert(s.drop_first()[i - 1] == s[i]);
            }
        }
    }
}

/// Splits a token stream into groups at the separators standing outside
/// any nested grouping, preserving group order and the token order within
/// each group.
pub fn split_arguments(sub: &Vec<Token>) -> (r: Vec<Vec<Token>>)
    ensures
        tok_rows_view(r@) == s_split(toks_view(sub@), 0, 0, Seq::empty(), Seq::empty()),
        forall|j: int| 0 <= j < r@.len() ==> (#[trigger] r@[j])@.len() <= sub@.len(),
{
    proof {
        lemma_toks_view(sub@);
    }
    let mut depth: usize = 0;
    let mut args: Vec<Vec<Token>> = Vec::new();
    let mut buffer: Vec<Token> = Vec::new();
    let n = sub.len();
    let mut i: usize = 0;
    proof {
        lemma_tok_rows_view(args@);
        lemma_toks_view(buffer@);
        assert(tok_rows_view(args@) =~= Seq::<Seq<TokM>>::empty());
        assert(toks_view(buffer@) =~= Seq::<TokM>::empty());
    }
    while i < n
        invariant
            0 <= i <= n,
            n == sub@.len(),
            buffer@.len() <= i,
            forall|j: int| 0 <= j < args@.len() ==> (#[trigger] args@[j])@.len() <= sub@.len(),
            s_split(toks_view(sub@), 0, 0, Seq::empty(), Seq::empty()) == s_split(
                toks_view(sub@),
                i as int,
                depth as int,
                toks_view(buffer@),
                tok_rows_view(args@),
            ),
        decreases n - i,
    {
        proof {
            lemma_toks_view(sub@);
            assert(toks_view(sub@)[i as int] == tok_view(sub@[i as int]));
        }
        let ghost argspre = args@;
        let ghost bpre = buffer@;
        let push_token: bool = match &sub[i] {
            Token::Paren(c) => {
                let pc = *c;
                proof {
                    assert(sub@[i as int] == Token::Paren(pc));
                }
                if pc == '(' || pc == '[' || pc == '{' {
                    if depth < usize::MAX {
                        depth = depth + 1;
                    }
                } else if depth > 0 {
                    depth = depth - 1;
                }
                true
            },
            Token::Sep(_) => {
                if depth == 0 {
                    let done = buffer;
                    args.push(done);
                    buffer = Vec::new();
                    proof {
                        lemma_tok_rows_view(args@);
                        lemma_tok_rows_view(argspre);
                        lemma_toks_view(buffer@);
                        assert(args@.drop_last() =~= argspre);
                        assert(tok_rows_view(args@) =~= tok_rows_view(argspre).push(
                            toks_view(args@.last()@),
                        ));
                        assert(toks_view(buffer@) =~= Seq::<TokM>::empty());
                    }
                    false
                } else {
                    true
                }
            },
            _ => true,
        };
        if push_token {
            let c = clone_token(&sub[i]);
            buffer.push(c);
            proof {
                lemma_toks_view(buffer@);
                lemma_toks_view(bpre);
                assert(buffer@.drop_last() =~= bpre);
                assert(toks_view(buffer@) =~= toks_view(bpre).push(
                    tok_view(sub@[i as int]),
                ));
            }
        }
        i = i + 1;
    }
    if buffer.len() > 0 {
        let ghost argspre = args@;
        args.push(buffer);
        proof {
            lemma_tok_rows_view(args@);
            lemma_tok_rows_view(argspre);
            assert(args@.drop_last() =~= argspre);
            assert(tok_rows_view(args@) =~= tok_rows_view(argspre).push(
                toks_view(args@.last()@),
            ));
        }
    }
    args
}

} // verus!
