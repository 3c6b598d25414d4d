//! The lexer: turns source text into a token stream of numbers,
//! identifiers, operator runs, parentheses and separators.

use vstd::prelude::*;

use crate::error::Error;
use crate::num::{all_digits, is_decimal, is_digit};

verus! {

/// One token of source text.
#[derive(Debug, Clone)]
pub enum Token {
    /// A maximal run of operator characters.
    Operator(String),
    /// A decimal number literal, kept as written.
    Number(String),
    /// One of `(`, `)`, `[`, `]`, `{`, `}`.
    Paren(char),
    /// A name.
    Ident(String),
    /// `,` or `;`.
    Sep(char),
}

/// The ghost mirror of a token, with mathematical string contents.
pub enum TokM {
    Operator(Seq<char>),
    Number(Seq<char>),
    Paren(char),
    Ident(Seq<char>),
    Sep(char),
}

/// The model of one token.
pub open spec fn tok_view(t: Token) -> TokM {
    match t {
        Token::Operator(s) => TokM::Operator(s@),
        Token::Number(s) => TokM::Number(s@),
        Token::Paren(c) => TokM::Paren(c),
        Token::Ident(s) => TokM::Ident(s@),
        Token::Sep(c) => TokM::Sep(c),
    }
}

/// The model of a token stream.
pub open spec fn toks_view(s: Seq<Token>) -> Seq<TokM>
    decreases s,
{
    if s.len() == 0 {
        Seq::empty()
    } else {
        seq![tok_view(s[0])] + toks_view(s.drop_first())
    }
}

pub broadcast proof fn lemma_toks_view(s: Seq<Token>)
    ensures
        (#[trigger] toks_view(s)).len() == s.len(),
        forall|i: int| 0 <= i < s.len() ==> toks_view(s)[i] == tok_view(s[i]),
    decreases s.len(),
{
    if s.len() > 0 {
        lemma_toks_view(s.drop_first());
        assert forall|i: int| 0 <= i < s.len() implies toks_view(s)[i] == tok_view(s[i]) by {
            if i > 0 {
                assert(s.drop_first()[i - 1] == s[i]);
            }
        }
    }
}

/// An operator character.
pub open spec fn is_operator_char(c: char) -> bool {
    c == '+' || c == '-' || c == '*' || c == '/' || c == '^' || c == '=' || c == '<' || c == '>'
        || c == '!' || c == '&' || c == '|' || c == '%'
}

/// A grammar character: grouping, separators and blanks.
pub open spec fn is_grammar_char(c: char) -> bool {
    c == '(' || c == ')' || c == '[' || c == ']' || c == '{' || c == '}' || c == ',' || c == ';'
        || c == ' '
}

/// Whether a character separates words: an operator or grammar character.
pub fn is_special_char(c: &char) -> (r: bool)
    ensures
        r == (is_operator_char(*c) || is_grammar_char(*c)),
{
    let u = *c;
    u == '+' || u == '-' || u == '*' || u == '/' || u == '^' || u == '=' || u == '<' || u == '>'
        || u == '!' || u == '&' || u == '|' || u == '%' || u == '(' || u == ')' || u == '['
        || u == ']' || u == '{' || u == '}' || u == ',' || u == ';' || u == ' '
}

/// A letter of either case.
pub open spec fn is_alpha(c: char) -> bool {
    (97 <= c as int && c as int <= 122) || (65 <= c as int && c as int <= 90)
}

/// A word character: a letter, a digit, an underscore or a prime.
pub open spec fn is_word_char(c: char) -> bool {
    is_alpha(c) || is_digit(c) || c == '_' || c == '\''
}

/// A well-formed name: a letter followed by word characters.
pub open spec fn is_ident_seq(s: Seq<char>) -> bool {
    s.len() >= 1 && is_alpha(s[0]) && (forall|i: int| 1 <= i < s.len() ==> is_word_char(#[trigger] s[i]))
}

/// Whether a word is *not* a well-formed name (the sense the tokenizer
/// tests before reporting an invalid identifier).
pub fn is_valid_ident(seq: &String) -> (r: bool)
    ensures
        r == !is_ident_seq(seq@),
{
    let s = seq.as_str();
    let n = s.unicode_len();
    if n == 0 {
        return true;
    }
    let c0 = s.get_char(0);
    let u0 = c0 as u32;
    if !((97 <= u0 && u0 <= 122) || (65 <= u0 && u0 <= 90)) {
        return true;
    }
    let mut i: usize = 1;
    while i < n
        invariant
            1 <= i <= n,
            n == s@.len(),
            seq@ == s@,
            forall|j: int| 1 <= j < i ==> is_word_char(#[trigger] s@[j]),
        decreases n - i,
    {
        let c = s.get_char(i);
        let u = c as u32;
        let word = (97 <= u && u <= 122) || (65 <= u && u <= 90) || (48 <= u && u <= 57) || c == '_'
            || c == '\'';
        if !word {
            return true;
        }
        i = i + 1;
    }
    false
}

/// Whether a word has the shape of a decimal number literal: digits with
/// at most one dot, and not a lone dot. The shape alone decides the token
/// kind; whether the value fits is the parser's concern.
pub fn decimal_shape(s: &str) -> (r: bool)
    ensures
        r == is_decimal(s@),
{
    let n = s.unicode_len();
    if n == 0 {
        proof {
            assert(!all_digits(s@) || s@.len() == 0);
            assert(forall|k: int| !crate::num::dot_at(s@, k));
        }
        return false;
    }
    let mut dot: Option<usize> = None;
    let mut i: usize = 0;
    while i < n
        invariant
            0 <= i <= n,
            n == s@.len(),
            dot matches Some(k) ==> 0 <= k < i && s@[k as int] == '.' && all_digits(
                s@.take(k as int),
            ) && all_digits(s@.take(i as int).skip(k as int + 1)),
            dot is None ==> all_digits(s@.take(i as int)),
        decreases n - i,
    {
        let c = s.get_char(i);
        let u = c as u32;
        if c == '.' {
            if dot.is_some() {
                proof {
                    let k0 = dot->Some_0 as int;
                    assert forall|k: int| !crate::num::dot_at(s@, k) by {
                        if crate::num::dot_at(s@, k) {
                            if k < i as int {
                                if k < k0 {
                                    assert(s@.take(k0 as int)[k] == '.');
                                } else if k > k0 {
                                    assert(s@.take(i as int).skip(k0 + 1)[k - k0 - 1] == '.');
                                } else {
                                    assert(s@.skip(k + 1)[i - k - 1] == '.');
                                }
                            } else {
                                assert(s@.take(k)[k0] == '.');
                            }
                        }
                    }
                    assert(!all_digits(s@)) by {
                        assert(!is_digit(s@[k0]));
                    }
                }
                return false;
            }
            dot = Some(i);
        } else if 48 <= u && u <= 57 {
            proof {
                assert(s@.take(i as int + 1) =~= s@.take(i as int).push(s@[i as int]));
                if let Some(k) = dot {
                    assert(s@.take(i as int + 1).skip(k as int + 1) =~= s@.take(i as int).skip(
                        k as int + 1,
                    ).push(s@[i as int]));
                }
            }
            i = i + 1;
            continue;
        } else {
            proof {
                let bad = i as int;
                assert(!is_digit(s@[bad]) && s@[bad] != '.');
                assert forall|k: int| !crate::num::dot_at(s@, k) by {
                    if crate::num::dot_at(s@, k) {
                        if bad < k {
                            assert(s@.take(k)[bad] == s@[bad]);
                        } else if bad > k {
                            assert(s@.skip(k + 1)[bad - k - 1] == s@[bad]);
                        }
                    }
                }
                assert(!all_digits(s@)) by {
                    assert(!is_digit(s@[bad]));
                }
            }
            return false;
        }
        proof {
            assert(s@.take(i as int + 1) =~= s@.take(i as int).push(s@[i as int]));
        }
        i = i + 1;
    }
    proof {
        assert(s@.take(n as int) =~= s@);
    }
    match dot {
        None => true,
        Some(k) => {
            if n < 2 {
                proof {
                    assert(!all_digits(s@)) by {
                        assert(!is_digit(s@[k as int]));
                    }
                    assert(forall|j: int| !crate::num::dot_at(s@, j));
                }
                false
            } else {
                proof {
                    assert(crate::num::dot_at(s@, k as int)) by {
                        assert(s@.take(n as int).skip(k as int + 1) =~= s@.skip(k as int + 1));
                    }
                }
                true
            }
        },
    }
}

/// What one word becomes: a number by shape, otherwise a name, otherwise
/// the invalid-identifier fault.
pub open spec fn s_classify(w: Seq<char>) -> Result<TokM, crate::error::ErrM> {
    if is_decimal(w) {
        Ok(TokM::Number(w))
    } else if is_ident_seq(w) {
        Ok(TokM::Ident(w))
    } else {
        Err(crate::error::ErrM::ParseError("not a valid identifier"@))
    }
}

/// Flushes the pending word, if one has accumulated, onto the token list.
pub open spec fn s_flush(
    s: Seq<char>,
    bufstart: int,
    upto: int,
    acc: Seq<TokM>,
) -> Result<Seq<TokM>, crate::error::ErrM> {
    if 0 <= bufstart && bufstart < upto && upto <= s.len() {
        match s_classify(s.subrange(bufstart, upto)) {
            Ok(t) => Ok(acc.push(t)),
            Err(e) => Err(e),
        }
    } else {
        Ok(acc)
    }
}

/// The tokenizer, one character at a time. Word characters accumulate; a
/// special character first flushes the pending word, then: an operator
/// character opens a maximal operator run, one token; an opener is
/// remembered and emitted; a closer must balance the innermost remembered
/// opener in kind, else the nesting fault; a separator is emitted; a blank
/// only separates. At the end the pending word is flushed and any
/// unclosed opener is the nesting fault.
pub open spec fn s_tok_loop(
    s: Seq<char>,
    i: int,
    bufstart: int,
    stack: Seq<char>,
    acc: Seq<TokM>,
) -> Result<Seq<TokM>, crate::error::ErrM>
    decreases s.len() - i,
    via s_tok_loop_decreases
{
    if i < 0 || i >= s.len() {
        match s_flush(s, bufstart, s.len() as int, acc) {
            Err(e) => Err(e),
            Ok(a) => if stack.len() > 0 {
                Err(crate::error::ErrM::ParseError("nesting is not correct"@))
            } else {
                Ok(a)
            },
        }
    } else {
        let c = s[i];
        if is_operator_char(c) || is_grammar_char(c) {
            match s_flush(s, bufstart, i, acc) {
                Err(e) => Err(e),
                Ok(a) => {
                    if is_operator_char(c) {
                        let end = s_op_run_end(s, i + 1);
                        s_tok_loop(s, end, end, stack, a.push(TokM::Operator(s.subrange(i, end))))
                    } else if c == '(' || c == '[' || c == '{' {
                        s_tok_loop(s, i + 1, i + 1, stack.push(c), a.push(TokM::Paren(c)))
                    } else if c == ')' || c == ']' || c == '}' {
                        if stack.len() == 0 {
                            Err(crate::error::ErrM::ParseError("nesting is not correct"@))
                        } else {
                            let p = stack.last();
                            if (p == '(' && c == ')') || (p == '[' && c == ']') || (p == '{' && c
                                == '}') {
                                s_tok_loop(
                                    s,
                                    i + 1,
                                    i + 1,
                                    stack.drop_last(),
                                    a.push(TokM::Paren(c)),
                                )
                            } else {
                                Err(crate::error::ErrM::ParseError("nesting is not correct"@))
                            }
                        }
                    } else if c == ',' || c == ';' {
                        s_tok_loop(s, i + 1, i + 1, stack, a.push(TokM::Sep(c)))
                    } else {
                        s_tok_loop(s, i + 1, i + 1, stack, a)
                    }
                },
            }
        } else {
            s_tok_loop(s, i + 1, bufstart, stack, acc)
        }
    }
}

#[via_fn]
proof fn s_tok_loop_decreases(s: Seq<char>, i: int, bufstart: int, stack: Seq<char>, acc: Seq<TokM>) {
    if 0 <= i < s.len() && is_operator_char(s[i]) {
        lemma_op_run_end_bounds(s, i + 1);
    }
}

/// The model of the tokenizer: every token of the result, in order, with
/// the two fault conditions.
pub open spec fn s_tokenize(s: Seq<char>) -> Result<Seq<TokM>, crate::error::ErrM> {
    s_tok_loop(s, 0, 0, Seq::empty(), Seq::empty())
}

/// Splits source text into tokens, exactly as the model reads it: maximal
/// operator runs, numbers by shape, names, grouping characters and
/// separators; it fails precisely when a word is neither a number nor a
/// name, or when the grouping characters do not nest in matching kinds.
pub fn tokenize(script: &str) -> (r: Result<Vec<Token>, Error>)
    ensures
        (match r {
            Ok(ts) => Ok(toks_view(ts@)),
            Err(e) => Err::<Seq<TokM>, crate::error::ErrM>(e.deep_view()),
        }) == s_tokenize(script@),
{
    let n = script.unicode_len();
    let mut tokens: Vec<Token> = Vec::new();
    let mut paren_stack: Vec<char> = Vec::new();
    let mut bufstart: usize = 0;
    let mut i: usize = 0;
    proof {
        lemma_toks_view(tokens@);
        assert(toks_view(tokens@) =~= Seq::<TokM>::empty());
        assert(paren_stack@ =~= Seq::<char>::empty());
    }
    while i < n
        invariant
            0 <= bufstart <= i <= n,
            n == script@.len(),
            s_tokenize(script@) == s_tok_loop(
                script@,
                i as int,
                bufstart as int,
                paren_stack@,
                toks_view(tokens@),
            ),
        decreases n - i,
    {
        let ghost accpre = toks_view(tokens@);
        let ghost stackpre = paren_stack@;
        let c = script.get_char(i);
        if is_special_char(&c) {
            if bufstart < i {
                match push_buffer(script, bufstart, i, &mut tokens) {
                    Ok(()) => {},
                    Err(err) => {
                        return Err(err);
                    },
                }
            }
            proof {
                assert(Ok::<Seq<TokM>, crate::error::ErrM>(toks_view(tokens@)) == s_flush(
                    script@,
                    bufstart as int,
                    i as int,
                    accpre,
                ));
            }
            let ghost accflushed = toks_view(tokens@);
            let u = c;
            if u == '+' || u == '-' || u == '*' || u == '/' || u == '^' || u == '=' || u == '<'
                || u == '>' || u == '!' || u == '&' || u == '|' || u == '%' {
                let opend = take_operators(script, i + 1);
                let raw = script.substring_char(i, opend).to_owned();
                let ghost tpre = tokens@;
                tokens.push(Token::Operator(raw));
                proof {
                    lemma_toks_view(tokens@);
                    lemma_toks_view(tpre);
                    assert(tokens@.drop_last() =~= tpre);
                    assert(toks_view(tokens@) =~= accflushed.push(
                        TokM::Operator(script@.subrange(i as int, opend as int)),
                    ));
                }
                i = opend;
                bufstart = i;
                continue;
            }
            if u == '(' || u == '[' || u == '{' {
                paren_stack.push(u);
                let ghost tpre = tokens@;
                tokens.push(Token::Paren(u));
                proof {
                    lemma_toks_view(tokens@);
                    lemma_toks_view(tpre);
                    assert(tokens@.drop_last() =~= tpre);
                    assert(toks_view(tokens@) =~= accflushed.push(TokM::Paren(u)));
                    assert(paren_stack@ =~= stackpre.push(u));
                }
            } else if u == ')' || u == ']' || u == '}' {
                match paren_stack.pop() {
                    Some(popd) => {
                        let ok = (popd == '(' && u == ')') || (popd == '[' && u == ']') || (popd
                            == '{' && u == '}');
                        if !ok {
                            return Err(Error::ParseError(String::from_str(
                                "nesting is not correct",
                            )));
                        }
                        proof {
                            assert(paren_stack@ =~= stackpre.drop_last());
                        }
                    },
                    None => {
                        return Err(Error::ParseError(String::from_str("nesting is not correct")));
                    },
                }
                let ghost tpre = tokens@;
                tokens.push(Token::Paren(u));
                proof {
                    lemma_toks_view(tokens@);
                    lemma_toks_view(tpre);
                    assert(tokens@.drop_last() =~= tpre);
                    assert(toks_view(tokens@) =~= accflushed.push(TokM::Paren(u)));
                }
            } else if u == ',' || u == ';' {
                let ghost tpre = tokens@;
                tokens.push(Token::Sep(u));
                proof {
                    lemma_toks_view(tokens@);
                    lemma_toks_view(tpre);
                    assert(tokens@.drop_last() =~= tpre);
                    assert(toks_view(tokens@) =~= accflushed.push(TokM::Sep(u)));
                }
            }
            i = i + 1;
            bufstart = i;
        } else {
            i = i + 1;
        }
    }
    if bufstart < n {
        match push_buffer(script, bufstart, n, &mut tokens) {
            Ok(()) => {},
            Err(err) => {
                return Err(err);
            },
        }
    }
    if paren_stack.len() > 0 {
        return Err(Error::ParseError(String::from_str("nesting is not correct")));
    }
    Ok(tokens)
}

/// The end of the operator run starting at `from`: the first position at
/// or past `from` holding a non-operator character, or the end of the
/// text.
pub open spec fn s_op_run_end(s: Seq<char>, from: int) -> int
    decreases s.len() - from,
{
    if from < 0 || from >= s.len() {
        s.len() as int
    } else if !is_operator_char(s[from]) {
        from
    } else {
        s_op_run_end(s, from + 1)
    }
}

/// The run end lies between `from` and the end of the text.
pub proof fn lemma_op_run_end_bounds(s: Seq<char>, from: int)
    requires
        0 <= from <= s.len(),
    ensures
        from <= s_op_run_end(s, from) <= s.len(),
    decreases s.len() - from,
{
    if from < s.len() && is_operator_char(s[from]) {
        lemma_op_run_end_bounds(s, from + 1);
    }
}

/// Extends an operator run: the position after the last operator character
/// of the maximal run starting at `from`.
pub fn take_operators(script: &str, from: usize) -> (r: usize)
    requires
        from <= script@.len(),
    ensures
        r as int == s_op_run_end(script@, from as int),
        from <= r <= script@.len(),
{
    let n = script.unicode_len();
    let mut i: usize = from;
    while i < n
        invariant
            from <= i <= n,
            n == script@.len(),
            s_op_run_end(script@, from as int) == s_op_run_end(script@, i as int),
        decreases n - i,
    {
        let c = script.get_char(i);
        let w = c == '+' || c == '-' || c == '*' || c == '/' || c == '^' || c == '=' || c == '<'
            || c == '>' || c == '!' || c == '&' || c == '|' || c == '%';
        if !w {
            return i;
        }
        i = i + 1;
    }
    n
}

/// Classifies one word and appends its token: a number by shape, otherwise
/// a name, otherwise an error.
fn push_buffer(script: &str, from: usize, to: usize, tokens: &mut Vec<Token>) -> (r: Result<
    (),
    Error,
>)
    requires
        from < to <= script@.len(),
    ensures
        (match s_classify(script@.subrange(from as int, to as int)) {
            Ok(t) => r is Ok && toks_view(final(tokens)@) == toks_view(old(tokens)@).push(t),
            Err(em) => (match r {
                Err(e) => e.deep_view() == em,
                Ok(_) => false,
            }) && final(tokens)@ == old(tokens)@,
        }),
        r is Ok ==> final(tokens)@.len() == old(tokens)@.len() + 1,
        r is Err ==> final(tokens)@ == old(tokens)@,
{
    let word = script.substring_char(from, to).to_owned();
    let ghost tpre = tokens@;
    if decimal_shape(word.as_str()) {
        tokens.push(Token::Number(word));
        proof {
            lemma_toks_view(tokens@);
            lemma_toks_view(tpre);
            assert(tokens@.drop_last() =~= tpre);
            assert(toks_view(tokens@) =~= toks_view(tpre).push(
                TokM::Number(script@.subrange(from as int, to as int)),
            ));
        }
        Ok(())
    } else if !is_valid_ident(&word) {
        tokens.push(Token::Ident(word));
        proof {
            lemma_toks_view(tokens@);
            lemma_toks_view(tpre);
            assert(tokens@.drop_last() =~= tpre);
            assert(toks_view(tokens@) =~= toks_view(tpre).push(
                TokM::Ident(script@.subrange(from as int, to as int)),
            ));
        }
        Ok(())
    } else {
        Err(Error::ParseError(String::from_str("not a valid identifier")))
    }
}

/// The pair scan: the first two adjacent numbers or two adjacent operator
/// runs are the fault; a stream without such a pair passes.
pub open spec fn s_validate(toks: Seq<TokM>, j: int) -> Result<(), crate::error::ErrM>
    decreases toks.len() - j,
{
    if j < 0 || j + 1 >= toks.len() {
        Ok(())
    } else if toks[j] is Number && toks[j + 1] is Number {
        Err(crate::error::ErrM::ParseError("two numbers with no operator"@))
    } else if toks[j] is Operator && toks[j + 1] is Operator {
        Err(crate::error::ErrM::ParseError("two operators without numbers"@))
    } else {
        s_validate(toks, j + 1)
    }
}

/// Checks the token stream for adjacent numbers and adjacent operator runs,
/// which no well-formed expression contains; passes the stream through
/// unchanged.
pub fn validate(tokens: Vec<Token>) -> (r: Result<Vec<Token>, Error>)
    ensures
        (match r {
            Ok(v) => v == tokens && s_validate(toks_view(tokens@), 0) is Ok,
            Err(e) => Err::<(), crate::error::ErrM>(e.deep_view()) == s_validate(
                toks_view(tokens@),
                0,
            ),
        }),
        r matches Ok(v) ==> tokens_valid(tokens@),
        r is Err ==> !tokens_valid(tokens@),
{
    proof {
        lemma_toks_view(tokens@);
    }
    let n = tokens.len();
    if n == 0 {
        return Ok(tokens);
    }
    let mut i: usize = 0;
    while i + 1 < n
        invariant
            0 <= i < n,
            n == tokens@.len(),
            forall|j: int|
                0 <= j < i ==> !((#[trigger] tokens@[j]) is Number && tokens@[j + 1] is Number)
                    && !(tokens@[j] is Operator && tokens@[j + 1] is Operator),
            s_validate(toks_view(tokens@), 0) == s_validate(toks_view(tokens@), i as int),
        decreases n - i,
    {
        proof {
            lemma_toks_view(tokens@);
            assert(toks_view(tokens@)[i as int] == tok_view(tokens@[i as int]));
            assert(toks_view(tokens@)[i as int + 1] == tok_view(tokens@[i as int + 1]));
        }
        let bad = match (&tokens[i], &tokens[i + 1]) {
            (Token::Number(_), Token::Number(_)) => Some("two numbers with no operator"),
            (Token::Operator(_), Token::Operator(_)) => Some("two operators without numbers"),
            _ => None,
        };
        match bad {
            Some(msg) => {
                return Err(Error::ParseError(String::from_str(msg)));
            },
            None => {},
        }
        i = i + 1;
    }
    Ok(tokens)
}

/// No two numbers and no two operator runs stand side by side.
pub open spec fn tokens_valid(s: Seq<Token>) -> bool {
    forall|j: int|
        0 <= j < s.len() - 1 ==> !((#[trigger] s[j]) is Number && s[j + 1] is Number) && !(
        s[j] is Operator && s[j + 1] is Operator)
}

/// The span collection, one token at a time: openers deepen the nesting
/// and are kept, the closer that balances the group opened just before the
/// starting position ends the walk and is consumed but not kept, every
/// other token is kept; a stream that never balances yields the whole
/// remainder.
pub open spec fn s_take_till(
    tokens: Seq<TokM>,
    i: int,
    depth: int,
    buffer: Seq<TokM>,
) -> (Seq<TokM>, int)
    decreases tokens.len() - i,
{
    if i < 0 || i >= tokens.len() {
        (buffer, tokens.len() as int)
    } else {
        match tokens[i] {
            TokM::Paren(p) => {
                if p == '(' || p == '[' || p == '{' {
                    s_take_till(
                        tokens,
                        i + 1,
                        if depth < usize::MAX as int {
                            depth + 1
                        } else {
                            depth
                        },
                        buffer.push(tokens[i]),
                    )
                } else if depth == 1 {
                    (buffer, i + 1)
                } else {
                    s_take_till(tokens, i + 1, depth - 1, buffer.push(tokens[i]))
                }
            },
            _ => s_take_till(tokens, i + 1, depth, buffer.push(tokens[i])),
        }
    }
}

/// The collected span never reaches past the stop position, which itself
/// stays within the stream.
pub proof fn lemma_s_take_till_bounds(tokens: Seq<TokM>, i: int, depth: int, buffer: Seq<TokM>)
    requires
        0 <= i <= tokens.len(),
    ensures
        ({
            let (b, j) = s_take_till(tokens, i, depth, buffer);
            i <= j <= tokens.len() && b.len() <= buffer.len() + (j - i)
        }),
    decreases tokens.len() - i,
{
    if i < tokens.len() {
        match tokens[i] {
            TokM::Paren(p) => {
                if p == '(' || p == '[' || p == '{' {
                    lemma_s_take_till_bounds(
                        tokens,
                        i + 1,
                        if depth < usize::MAX as int {
                            depth + 1
                        } else {
                            depth
                        },
                        buffer.push(tokens[i]),
                    );
                } else if depth != 1 {
                    lemma_s_take_till_bounds(tokens, i + 1, depth - 1, buffer.push(tokens[i]));
                }
            },
            _ => {
                lemma_s_take_till_bounds(tokens, i + 1, depth, buffer.push(tokens[i]));
            },
        }
    }
}

/// Collects the tokens from `start` up to the closing counterpart of the
/// group opened just before `start`, honouring nested groups; returns
/// exactly that span and the position after the consumed closer.
pub fn take_till_match(tokens: &Vec<Token>, start: usize, tillc: char) -> (r: (Vec<Token>, usize))
    requires
        start <= tokens@.len(),
    ensures
        (toks_view(r.0@), r.1 as int) == s_take_till(
            toks_view(tokens@),
            start as int,
            1,
            Seq::empty(),
        ),
        start <= r.1 <= tokens@.len(),
        r.0@.len() <= r.1 - start,
{
    proof {
        lemma_toks_view(tokens@);
    }
    let mut depth: usize = 1;
    let mut buffer: Vec<Token> = Vec::new();
    let n = tokens.len();
    let mut i: usize = start;
    proof {
        lemma_toks_view(buffer@);
        assert(toks_view(buffer@) =~= Seq::<TokM>::empty());
    }
    while i < n
        invariant
            start <= i <= n,
            n == tokens@.len(),
            depth >= 1,
            buffer@.len() <= i - start,
            s_take_till(toks_view(tokens@), start as int, 1, Seq::empty()) == s_take_till(
                toks_view(tokens@),
                i as int,
                depth as int,
                toks_view(buffer@),
            ),
        decreases n - i,
    {
        proof {
            lemma_toks_view(tokens@);
            assert(toks_view(tokens@)[i as int] == tok_view(tokens@[i as int]));
        }
        let ghost bpre = buffer@;
        match &tokens[i] {
            Token::Paren(p) => {
                let pc = *p;
                proof {
                    assert(tokens@[i as int] == Token::Paren(pc));
                }
                if pc == '(' || pc == '[' || pc == '{' {
                    if depth < usize::MAX {
                        depth = depth + 1;
                    }
                    buffer.push(Token::Paren(pc));
                } else {
                    depth = depth - 1;
                    if depth == 0 {
                        return (buffer, i + 1);
                    }
                    buffer.push(Token::Paren(pc));
                }
            },
            t => {
                let c = clone_token(t);
                buffer.push(c);
            },
        }
        proof {
            lemma_toks_view(buffer@);
            lemma_toks_view(bpre);
            assert(buffer@.drop_last() =~= bpre);
            assert(toks_view(buffer@) =~= toks_view(bpre).push(
                tok_view(tokens@[i as int]),
            ));
        }
        i = i + 1;
    }
    (buffer, n)
}

/// A copy of one token.
pub fn clone_token(t: &Token) -> (r: Token)
    ensures
        r == *t,
{
    match t {
        Token::Operator(s) => Token::Operator(s.clone()),
        Token::Number(s) => Token::Number(s.clone()),
        Token::Paren(c) => Token::Paren(*c),
        Token::Ident(s) => Token::Ident(s.clone()),
        Token::Sep(c) => Token::Sep(*c),
    }
}

} // verus!
