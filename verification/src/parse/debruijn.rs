//! Tokenizer and parser for de Bruijn terms such as `λ λ 2 (1 2)`.
use vstd::prelude::*;

use crate::debruijn::Debruijn;
use crate::text::{chars_of, digit_value, is_ascii_digit, push_char};

verus! {

/// `std::num::ParseIntError`, the error of parsing an integer.
#[verifier::external_type_specification]
#[verifier::external_body]
pub struct ExParseIntError(core::num::ParseIntError);

/// The characters that parse as an integer after an optional leading `+`.
pub open spec fn unsigned_digits(s: Seq<char>) -> Seq<char> {
    if s.len() > 0 && s[0] == '+' {
        s.drop_first()
    } else {
        s
    }
}

/// The value of a run of decimal digits.
pub open spec fn digits_value(d: Seq<char>) -> nat
    decreases d.len(),
{
    if d.len() == 0 {
        0
    } else {
        digits_value(d.drop_last()) * 10 + digit_value(d.last())
    }
}

/// Whether `s` is the text of an integer that fits in a `usize`.
pub open spec fn is_usize_text(s: Seq<char>) -> bool {
    let d = unsigned_digits(s);
    &&& d.len() > 0
    &&& forall|i: int| 0 <= i < d.len() ==> is_ascii_digit(#[trigger] d[i])
    &&& digits_value(d) <= usize::MAX
}

/// Parses a `usize` (`str::parse::<usize>`). Trusted: it succeeds exactly when the text is
/// an optional `+` followed by one or more ASCII digits whose value fits, and then yields
/// that value; which failure it reports is left unsaid.
#[verifier::external_body]
fn parse_usize(s: &str) -> (r: Result<usize, core::num::ParseIntError>)
    ensures
        r is Ok <==> is_usize_text(s@),
        r matches Ok(v) ==> v as nat == digits_value(unsigned_digits(s@)),
{
    s.parse::<usize>()
}

/// Whether `c` has the Unicode `White_Space` property.
pub open spec fn is_whitespace_char(c: char) -> bool {
    ('\u{9}' <= c <= '\u{d}') || c == ' ' || c == '\u{85}' || c == '\u{a0}' || c == '\u{1680}'
        || ('\u{2000}' <= c <= '\u{200a}') || c == '\u{2028}' || c == '\u{2029}' || c
        == '\u{202f}' || c == '\u{205f}' || c == '\u{3000}'
}

/// Whether `c` is white space (as `char::is_whitespace`).
pub fn is_whitespace(c: char) -> (r: bool)
    ensures
        r == is_whitespace_char(c),
{
    ('\u{9}' <= c && c <= '\u{d}') || c == ' ' || c == '\u{85}' || c == '\u{a0}' || c
        == '\u{1680}' || ('\u{2000}' <= c && c <= '\u{200a}') || c == '\u{2028}' || c
        == '\u{2029}' || c == '\u{202f}' || c == '\u{205f}' || c == '\u{3000}'
}

/// A token of a de Bruijn term.
#[derive(Debug, Clone, Copy, PartialEq, Eq, Structural)]
pub enum Token {
    LeftParen,
    RightParen,
    Lambda,
    Index(usize),
}

/// A failure to tokenize or parse.
#[derive(Debug, PartialEq, Eq)]
pub enum ParseError {
    UnexpectedToken { expected: Vec<Token>, actual: Option<Token> },
    ParseIntError { err: core::num::ParseIntError, token: String },
    IntIsZeroError,
    Empty,
}

/// The mathematical value of a failure (the integer error is represented by its text).
pub ghost enum ParseErrorView {
    UnexpectedToken { expected: Seq<Token>, actual: Option<Token> },
    ParseIntError { token: Seq<char> },
    IntIsZeroError,
    Empty,
}

impl ParseError {
    pub open spec fn view(self) -> ParseErrorView {
        match self {
            ParseError::UnexpectedToken { expected, actual } => ParseErrorView::UnexpectedToken {
                expected: expected@,
                actual,
            },
            ParseError::ParseIntError { err, token } => ParseErrorView::ParseIntError {
                token: token@,
            },
            ParseError::IntIsZeroError => ParseErrorView::IntIsZeroError,
            ParseError::Empty => ParseErrorView::Empty,
        }
    }

    fn expected_index(actual: Option<Token>) -> (e: ParseError)
        ensures
            e.view() == expected_token_spec(Token::Index(0), actual),
    {
        let mut expected = Vec::new();
        expected.push(Token::Index(0));
        let e = ParseError::UnexpectedToken { expected, actual };
        proof {
            assert(e.view()->expected =~= seq![Token::Index(0)]);
        }
        e
    }

    fn expected_token(expected: Token, actual: Option<Token>) -> (e: ParseError)
        ensures
            e.view() == expected_token_spec(expected, actual),
    {
        let mut tokens = Vec::new();
        tokens.push(expected);
        let e = ParseError::UnexpectedToken { expected: tokens, actual };
        proof {
            assert(e.view()->expected =~= seq![expected]);
        }
        e
    }
}

pub open spec fn expected_token_spec(expected: Token, actual: Option<Token>) -> ParseErrorView {
    ParseErrorView::UnexpectedToken { expected: seq![expected], actual }
}

/// Whether `c` ends a pending integer.
pub open spec fn is_cut(c: char) -> bool {
    c == 'λ' || c == 'y' || c == '\\' || c == '(' || c == ')' || is_whitespace_char(c)
}

pub open spec fn cut_token(c: char) -> Option<Token> {
    if c == 'λ' || c == 'y' || c == '\\' {
        Some(Token::Lambda)
    } else if c == '(' {
        Some(Token::LeftParen)
    } else if c == ')' {
        Some(Token::RightParen)
    } else {
        None
    }
}

/// Tokens after flushing a pending integer text, or the failing text.
pub open spec fn flush(toks: Seq<Token>, cur: Seq<char>) -> Result<Seq<Token>, Seq<char>> {
    if cur.len() == 0 {
        Ok(toks)
    } else if is_usize_text(cur) {
        Ok(toks.push(Token::Index(digits_value(unsigned_digits(cur)) as usize)))
    } else {
        Err(cur)
    }
}

/// Tokens emitted so far and the pending integer text after reading `s`, or the first text
/// that is not an integer.
pub open spec fn tokenize_state(s: Seq<char>) -> Result<(Seq<Token>, Seq<char>), Seq<char>>
    decreases s.len(),
{
    if s.len() == 0 {
        Ok((Seq::empty(), Seq::empty()))
    } else {
        match tokenize_state(s.drop_last()) {
            Err(e) => Err(e),
            Ok((toks, cur)) => {
                let c = s.last();
                if is_cut(c) {
                    match flush(toks, cur) {
                        Err(e) => Err(e),
                        Ok(flushed) => match cut_token(c) {
                            Some(t) => Ok((flushed.push(t), Seq::empty())),
                            None => Ok((flushed, Seq::empty())),
                        },
                    }
                } else {
                    Ok((toks, cur.push(c)))
                }
            },
        }
    }
}

/// The tokens of `s` (`λ`, `y` and `\` are lambdas; maximal runs of other non-space
/// characters are integers), or the first run that is not an integer.
pub open spec fn tokenize_spec(s: Seq<char>) -> Result<Seq<Token>, Seq<char>> {
    match tokenize_state(s) {
        Err(e) => Err(e),
        Ok((toks, cur)) => flush(toks, cur),
    }
}

fn flush_into(tokens: &mut Vec<Token>, string: &String) -> (r: Result<(), ParseError>)
    ensures
        flush(old(tokens)@, string@) matches Ok(t) ==> (r is Ok && final(tokens)@ == t),
        flush(old(tokens)@, string@) matches Err(e) ==> (r matches Err(x) && x.view()
            == ParseErrorView::ParseIntError { token: e }),
{
    if string.unicode_len() == 0 {
        return Ok(());
    }
    match parse_usize(string.as_str()) {
        Ok(index) => {
            tokens.push(Token::Index(index));
            Ok(())
        },
        Err(err) => Err(ParseError::ParseIntError { err, token: string.clone() }),
    }
}

/// Splits a de Bruijn term into tokens.
pub fn tokenize(term: &str) -> (r: Result<Vec<Token>, ParseError>)
    ensures
        tokenize_spec(term@) matches Ok(t) ==> (r matches Ok(x) && x@ == t),
        tokenize_spec(term@) matches Err(e) ==> (r matches Err(x) && x.view()
            == ParseErrorView::ParseIntError { token: e }),
{
    let chars = chars_of(term);
    let mut tokens: Vec<Token> = Vec::new();
    let mut string = String::new();
    let mut i: usize = 0;
    while i < chars.len()
        invariant
            chars@ == term@,
            i <= chars@.len(),
            tokenize_state(chars@.take(i as int)) == Ok::<(Seq<Token>, Seq<char>), Seq<char>>(
                (tokens@, string@),
            ),
        decreases chars@.len() - i,
    {
        let c = chars[i];
        proof {
            assert(chars@.take(i + 1).drop_last() =~= chars@.take(i as int));
        }
        let cut = c == 'λ' || c == 'y' || c == '\\' || c == '(' || c == ')' || is_whitespace(c);
        if cut {
            let flushed = flush_into(&mut tokens, &string);
            match flushed {
                Err(e) => {
                    proof {
                        assert(tokenize_state(chars@.take(i + 1)) is Err);
                        lemma_state_err_persists(chars@, i + 1);
                        assert(chars@.take(chars@.len() as int) =~= chars@);
                    }
                    return Err(e);
                },
                Ok(()) => {},
            }
            string = String::new();
            if c == 'λ' || c == 'y' || c == '\\' {
                tokens.push(Token::Lambda);
            } else if c == '(' {
                tokens.push(Token::LeftParen);
            } else if c == ')' {
                tokens.push(Token::RightParen);
            }
        } else {
            push_char(&mut string, c);
        }
        i = i + 1;
        proof {
            assert(string@ =~= tokenize_state(chars@.take(i as int))->Ok_0.1);
        }
    }
    proof {
        assert(chars@.take(chars@.len() as int) =~= chars@);
    }
    let flushed = flush_into(&mut tokens, &string);
    match flushed {
        Err(e) => Err(e),
        Ok(()) => Ok(tokens),
    }
}

/// Once tokenizing a prefix fails, tokenizing any longer prefix fails the same way.
proof fn lemma_state_err_persists(s: Seq<char>, i: int)
    requires
        0 <= i <= s.len(),
        tokenize_state(s.take(i)) is Err,
    ensures
        tokenize_state(s) == tokenize_state(s.take(i)),
    decreases s.len() - i,
{
    if i == s.len() {
        assert(s.take(i) =~= s);
    } else {
        assert(s.take(i + 1).drop_last() =~= s.take(i));
        lemma_state_err_persists(s, i + 1);
    }
}

/// A cursor over a token slice.
pub struct TokenStream<'a> {
    pub tokens: &'a [Token],
    pub index: usize,
}

/// The token at `i`, if there is one.
pub open spec fn token_at(ts: Seq<Token>, i: int) -> Option<Token> {
    if 0 <= i < ts.len() {
        Some(ts[i])
    } else {
        None
    }
}

impl<'a> TokenStream<'a> {
    /// A stream at the start of `tokens`.
    pub fn new(tokens: &'a [Token]) -> (s: TokenStream<'a>)
        ensures
            s.tokens == tokens,
            s.index == 0,
    {
        TokenStream { tokens, index: 0 }
    }

    /// The current token, if any.
    pub fn peek(&self) -> (t: Option<Token>)
        ensures
            t == token_at(self.tokens@, self.index as int),
    {
        if self.index < self.tokens.len() {
            Some(self.tokens[self.index])
        } else {
            None
        }
    }

    /// Consumes the current token if it is `expected`; otherwise reports what was found.
    pub fn consume_one(&mut self, expected: Token) -> (r: Result<(), ParseError>)
        ensures
            final(self).tokens == old(self).tokens,
            token_at(old(self).tokens@, old(self).index as int) == Some(expected) ==> r is Ok
                && final(self).index == old(self).index + 1,
            token_at(old(self).tokens@, old(self).index as int) != Some(expected) ==> (r
                matches Err(e) && e.view() == expected_token_spec(
                expected,
                token_at(old(self).tokens@, old(self).index as int),
            ) && final(self).index == old(self).index),
    {
        let actual = self.peek();
        if self.index < self.tokens.len() && self.tokens[self.index] == expected {
            self.index = self.index + 1;
            Ok(())
        } else {
            Err(ParseError::expected_token(expected, actual))
        }
    }

    /// Consumes the current token if it is an index and returns the index.
    pub fn consume_index(&mut self) -> (r: Result<usize, ParseError>)
        ensures
            final(self).tokens == old(self).tokens,
            token_at(old(self).tokens@, old(self).index as int) matches Some(Token::Index(i)) ==> (r
                == Ok::<usize, ParseError>(i) && final(self).index == old(self).index + 1),
            !(token_at(old(self).tokens@, old(self).index as int) matches Some(Token::Index(_)))
                ==> (r matches Err(e) && e.view() == expected_token_spec(
                Token::Index(0),
                token_at(old(self).tokens@, old(self).index as int),
            ) && final(self).index == old(self).index),
    {
        let actual = self.peek();
        if self.index < self.tokens.len() {
            match actual {
                Some(Token::Index(index)) => {
                    self.index = self.index + 1;
                    Ok(index)
                },
                _ => Err(ParseError::expected_index(actual)),
            }
        } else {
            Err(ParseError::expected_index(actual))
        }
    }
}

pub open spec fn wrap_spec(acc: Option<Debruijn>, t: Debruijn) -> Option<Debruijn> {
    match acc {
        Some(a) => Some(Debruijn::Application { func: Box::new(a), arg: Box::new(t) }),
        None => Some(t),
    }
}

pub open spec fn finish_spec(acc: Option<Debruijn>, pos: nat) -> Result<(Debruijn, nat), ParseErrorView> {
    match acc {
        Some(t) => Ok((t, pos)),
        None => Err(ParseErrorView::Empty),
    }
}

/// Parsing of the terms starting at `pos`, applied left to right onto `acc`, up to a
/// closing parenthesis or the end of the tokens. Yields the term and the position of the
/// first token not consumed.
pub open spec fn parse_seq(ts: Seq<Token>, pos: nat, acc: Option<Debruijn>) -> Result<
    (Debruijn, nat),
    ParseErrorView,
>
    decreases ts.len() - pos,
{
    if pos >= ts.len() {
        finish_spec(acc, pos)
    } else {
        match ts[pos as int] {
            Token::LeftParen => match parse_seq(ts, pos + 1, None) {
                Err(e) => Err(e),
                Ok((t, p)) => if !(pos < p <= ts.len()) {
                    Err(ParseErrorView::Empty)
                } else if p < ts.len() && ts[p as int] == Token::RightParen {
                    parse_seq(ts, p + 1, wrap_spec(acc, t))
                } else {
                    Err(expected_token_spec(Token::RightParen, token_at(ts, p as int)))
                },
            },
            Token::Lambda => match parse_seq(ts, pos + 1, None) {
                Err(e) => Err(e),
                Ok((b, p)) => if !(pos < p <= ts.len()) {
                    Err(ParseErrorView::Empty)
                } else {
                    parse_seq(ts, p, wrap_spec(acc, Debruijn::Abstraction { body: Box::new(b) }))
                },
            },
            Token::Index(i) => if i == 0 {
                Err(ParseErrorView::IntIsZeroError)
            } else {
                parse_seq(ts, pos + 1, wrap_spec(acc, Debruijn::Index(i)))
            },
            Token::RightParen => finish_spec(acc, pos),
        }
    }
}

/// A successful parse stays within the tokens, and consumes a token when it starts empty.
pub proof fn lemma_parse_seq_advances(ts: Seq<Token>, pos: nat, acc: Option<Debruijn>)
    requires
        pos <= ts.len(),
    ensures
        parse_seq(ts, pos, acc) matches Ok((_, p)) ==> pos <= p <= ts.len() && (acc is None ==> pos
            < p),
    decreases ts.len() - pos,
{
    if pos < ts.len() {
        match ts[pos as int] {
            Token::LeftParen => {
                lemma_parse_seq_advances(ts, pos + 1, None);
                if let Ok((t, p)) = parse_seq(ts, pos + 1, None) {
                    if pos < p <= ts.len() && p < ts.len() && ts[p as int] == Token::RightParen {
                        lemma_parse_seq_advances(ts, p + 1, wrap_spec(acc, t));
                    }
                }
            },
            Token::Lambda => {
                lemma_parse_seq_advances(ts, pos + 1, None);
                if let Ok((b, p)) = parse_seq(ts, pos + 1, None) {
                    if pos < p <= ts.len() {
                        lemma_parse_seq_advances(
                            ts,
                            p,
                            wrap_spec(acc, Debruijn::Abstraction { body: Box::new(b) }),
                        );
                    }
                }
            },
            Token::Index(i) => {
                lemma_parse_seq_advances(ts, pos + 1, wrap_spec(acc, Debruijn::Index(i)));
            },
            _ => {},
        }
    }
}

/// The result of parsing a whole program (tokens after an unmatched `)` are ignored).
pub open spec fn parse_program_spec(ts: Seq<Token>) -> Result<Debruijn, ParseErrorView> {
    if ts.len() == 0 {
        Err(ParseErrorView::Empty)
    } else {
        match parse_seq(ts, 0, None) {
            Ok((t, _)) => Ok(t),
            Err(e) => Err(e),
        }
    }
}

/// Parses a de Bruijn term. Application associates to the left and an abstraction body
/// extends as far right as possible; index 0 is refused.
pub fn parse_program(tokens: &[Token]) -> (r: Result<Debruijn, ParseError>)
    ensures
        parse_program_spec(tokens@) matches Ok(t) ==> r == Ok::<Debruijn, ParseError>(t),
        parse_program_spec(tokens@) matches Err(e) ==> (r matches Err(x) && x.view() == e),
{
    if tokens.len() == 0 {
        return Err(ParseError::Empty);
    }
    let mut stream = TokenStream::new(tokens);
    parse_term_up_to_paren(&mut stream)
}

fn wrap(current_term: Option<Debruijn>, term: Debruijn) -> (r: Option<Debruijn>)
    ensures
        r == wrap_spec(current_term, term),
{
    match current_term {
        Some(term1) => Some(Debruijn::Application { func: Box::new(term1), arg: Box::new(term) }),
        None => Some(term),
    }
}

fn parse_term_up_to_paren(tokens: &mut TokenStream) -> (r: Result<Debruijn, ParseError>)
    requires
        old(tokens).index <= old(tokens).tokens@.len(),
    ensures
        final(tokens).tokens == old(tokens).tokens,
        parse_seq(old(tokens).tokens@, old(tokens).index as nat, None) matches Ok((t, p)) ==> (r
            == Ok::<Debruijn, ParseError>(t) && final(tokens).index == p),
        parse_seq(old(tokens).tokens@, old(tokens).index as nat, None) matches Err(e) ==> (r
            matches Err(x) && x.view() == e),
    decreases old(tokens).tokens@.len() - old(tokens).index,
{
    let ghost ts = tokens.tokens@;
    let ghost start = tokens.index as nat;
    let mut current_term: Option<Debruijn> = None;
    loop
        invariant
            tokens.tokens == old(tokens).tokens,
            ts == tokens.tokens@,
            ts == old(tokens).tokens@,
            start == old(tokens).index,
            start <= tokens.index <= ts.len(),
            parse_seq(ts, start, None) == parse_seq(ts, tokens.index as nat, current_term),
            current_term is None ==> tokens.index == start,
        decreases ts.len() - tokens.index,
    {
        let token = tokens.peek();
        match token {
            None => {
                return match current_term {
                    Some(t) => Ok(t),
                    None => Err(ParseError::Empty),
                };
            },
            Some(Token::LeftParen) => {
                let ghost pos = tokens.index as nat;
                let _ = tokens.consume_one(Token::LeftParen);
                proof {
                    lemma_parse_seq_advances(ts, pos + 1, None);
                }
                let term = parse_term_up_to_paren(tokens);
                match term {
                    Err(e) => {
                        return Err(e);
                    },
                    Ok(term) => {
                        let closed = tokens.consume_one(Token::RightParen);
                        match closed {
                            Err(e) => {
                                return Err(e);
                            },
                            Ok(()) => {
                                current_term = wrap(current_term, term);
                            },
                        }
                    },
                }
            },
            Some(Token::Lambda) => {
                let ghost pos = tokens.index as nat;
                let _ = tokens.consume_one(Token::Lambda);
                proof {
                    lemma_parse_seq_advances(ts, pos + 1, None);
                }
                let body = parse_term_up_to_paren(tokens);
                match body {
                    Err(e) => {
                        return Err(e);
                    },
                    Ok(body) => {
                        let term = Debruijn::Abstraction { body: Box::new(body) };
                        current_term = wrap(current_term, term);
                    },
                }
            },
            Some(Token::Index(_)) => {
                let index = tokens.consume_index();
                match index {
                    Err(e) => {
                        return Err(e);
                    },
                    Ok(index) => {
                        if index == 0 {
                            return Err(ParseError::IntIsZeroError);
                        }
                        current_term = wrap(current_term, Debruijn::Index(index));
                    },
                }
            },
            Some(Token::RightParen) => {
                return match current_term {
                    Some(t) => Ok(t),
                    None => Err(ParseError::Empty),
                };
            },
        }
    }
}

} // verus!
