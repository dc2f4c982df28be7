//! Tokenizer and parser for named lambda terms such as `λx.λy.x (y x)`.
use vstd::prelude::*;

use crate::term::{call, def_of, lit_of, Literal, Term, TermView};
use crate::text::{chars_of, push_char, push_str};

pub mod debruijn;

verus! {

/// A token of a named term.
#[derive(Debug, Clone, PartialEq, Eq)]
pub enum Token {
    LeftParen,
    RightParen,
    Lambda,
    Dot,
    Literal(String),
}

/// The mathematical value of a token.
pub ghost enum TokenView {
    LeftParen,
    RightParen,
    Lambda,
    Dot,
    Literal(Seq<char>),
}

impl Token {
    pub open spec fn view(self) -> TokenView {
        match self {
            Token::LeftParen => TokenView::LeftParen,
            Token::RightParen => TokenView::RightParen,
            Token::Lambda => TokenView::Lambda,
            Token::Dot => TokenView::Dot,
            Token::Literal(s) => TokenView::Literal(s@),
        }
    }

    /// A copy of the token.
    pub fn duplicate(&self) -> (t: Token)
        ensures
            t.view() == self.view(),
    {
        match self {
            Token::LeftParen => Token::LeftParen,
            Token::RightParen => Token::RightParen,
            Token::Lambda => Token::Lambda,
            Token::Dot => Token::Dot,
            Token::Literal(s) => Token::Literal(s.clone()),
        }
    }

    /// Whether two tokens are the same.
    pub fn same(&self, other: &Token) -> (r: bool)
        ensures
            r == (self.view() == other.view()),
    {
        match (self, other) {
            (Token::LeftParen, Token::LeftParen) => true,
            (Token::RightParen, Token::RightParen) => true,
            (Token::Lambda, Token::Lambda) => true,
            (Token::Dot, Token::Dot) => true,
            (Token::Literal(a), Token::Literal(b)) => *a == *b,
            _ => false,
        }
    }

    /// The text of the token.
    pub fn to_string(&self) -> (s: String)
        ensures
            s@ == token_text(self.view()),
    {
        let mut s = String::new();
        match self {
            Token::LeftParen => push_str(&mut s, "("),
            Token::RightParen => push_str(&mut s, ")"),
            Token::Lambda => push_str(&mut s, "λ"),
            Token::Dot => push_str(&mut s, "."),
            Token::Literal(l) => push_str(&mut s, l.as_str()),
        }
        proof {
            assert(s@ =~= token_text(self.view()));
        }
        s
    }
}

/// The text of a token.
pub open spec fn token_text(t: TokenView) -> Seq<char> {
    match t {
        TokenView::LeftParen => "("@,
        TokenView::RightParen => ")"@,
        TokenView::Lambda => "λ"@,
        TokenView::Dot => "."@,
        TokenView::Literal(l) => l,
    }
}

pub open spec fn tokens_view(ts: Seq<Token>) -> Seq<TokenView> {
    ts.map_values(|t: Token| t.view())
}

/// The token that a character ends a literal with, if it is a delimiter: `λ`, `.`, `(`,
/// `)` give their token, a space gives none. Any other character continues a literal.
pub open spec fn is_delimiter(c: char) -> bool {
    c == 'λ' || c == '.' || c == '(' || c == ')' || c == ' '
}

pub open spec fn delimiter_token(c: char) -> Option<TokenView> {
    if c == 'λ' {
        Some(TokenView::Lambda)
    } else if c == '.' {
        Some(TokenView::Dot)
    } else if c == '(' {
        Some(TokenView::LeftParen)
    } else if c == ')' {
        Some(TokenView::RightParen)
    } else {
        None
    }
}

/// Tokens emitted so far and the pending literal after reading `s`.
pub open spec fn tokenize_state(s: Seq<char>) -> (Seq<TokenView>, Seq<char>)
    decreases s.len(),
{
    if s.len() == 0 {
        (Seq::empty(), Seq::empty())
    } else {
        let (toks, cur) = tokenize_state(s.drop_last());
        let c = s.last();
        if is_delimiter(c) {
            let flushed = if cur.len() > 0 {
                toks.push(TokenView::Literal(cur))
            } else {
                toks
            };
            match delimiter_token(c) {
                Some(t) => (flushed.push(t), Seq::empty()),
                None => (flushed, Seq::empty()),
            }
        } else {
            (toks, cur.push(c))
        }
    }
}

/// The tokens of `s`: delimiters, and maximal runs of other characters as literals.
pub open spec fn tokenize_spec(s: Seq<char>) -> Seq<TokenView> {
    let (toks, cur) = tokenize_state(s);
    if cur.len() > 0 {
        toks.push(TokenView::Literal(cur))
    } else {
        toks
    }
}

/// Splits a named term into tokens.
pub fn tokenize(expr: &str) -> (tokens: Vec<Token>)
    ensures
        tokens_view(tokens@) == tokenize_spec(expr@),
{
    let chars = chars_of(expr);
    let mut tokens: Vec<Token> = Vec::new();
    let mut string = String::new();
    let mut i: usize = 0;
    while i < chars.len()
        invariant
            chars@ == expr@,
            i <= chars@.len(),
            (tokens_view(tokens@), string@) == tokenize_state(chars@.take(i as int)),
        decreases chars@.len() - i,
    {
        let c = chars[i];
        let ghost before = tokens@;
        let ghost before_string = string@;
        proof {
            assert(chars@.take(i + 1).drop_last() =~= chars@.take(i as int));
        }
        let cut = c == 'λ' || c == '.' || c == '(' || c == ')' || c == ' ';
        if cut {
            if string.unicode_len() > 0 {
                tokens.push(Token::Literal(string));
                string = String::new();
            }
            if c == 'λ' {
                tokens.push(Token::Lambda);
            } else if c == '.' {
                tokens.push(Token::Dot);
            } else if c == '(' {
                tokens.push(Token::LeftParen);
            } else if c == ')' {
                tokens.push(Token::RightParen);
            }
        } else {
            push_char(&mut string, c);
        }
        i = i + 1;
        proof {
            assert(tokens_view(tokens@) =~= tokenize_state(chars@.take(i as int)).0);
            assert(string@ =~= tokenize_state(chars@.take(i as int)).1);
        }
    }
    if string.unicode_len() > 0 {
        tokens.push(Token::Literal(string));
    }
    proof {
        assert(chars@.take(chars@.len() as int) =~= chars@);
        assert(tokens_view(tokens@) =~= tokenize_spec(expr@));
    }
    tokens
}

/// The tokens' texts joined by single spaces.
pub open spec fn pretty_spec(ts: Seq<TokenView>) -> Seq<char>
    decreases ts.len(),
{
    if ts.len() == 0 {
        Seq::empty()
    } else if ts.len() == 1 {
        token_text(ts[0])
    } else {
        pretty_spec(ts.drop_last()) + " "@ + token_text(ts.last())
    }
}

/// The tokens printed with a space between each two.
pub fn pretty(tokens: &[Token]) -> (s: String)
    ensures
        s@ == pretty_spec(tokens_view(tokens@)),
{
    let mut s = String::new();
    let mut i: usize = 0;
    while i < tokens.len()
        invariant
            i <= tokens@.len(),
            s@ == pretty_spec(tokens_view(tokens@.take(i as int))),
        decreases tokens@.len() - i,
    {
        if i > 0 {
            push_str(&mut s, " ");
        }
        let t = tokens[i].to_string();
        push_str(&mut s, t.as_str());
        i = i + 1;
        proof {
            let prefix = tokens_view(tokens@.take(i as int));
            assert(prefix.drop_last() =~= tokens_view(tokens@.take(i - 1)));
            if i == 1 {
                assert(tokens_view(tokens@.take(0)) =~= Seq::<TokenView>::empty());
            }
            assert(s@ =~= pretty_spec(prefix));
        }
    }
    proof {
        assert(tokens@.take(tokens@.len() as int) =~= tokens@);
    }
    s
}

/// A cursor over a token slice.
pub struct TokenStream<'a> {
    pub tokens: &'a [Token],
    pub index: usize,
}

/// The token at `i`, if there is one.
pub open spec fn token_at(ts: Seq<TokenView>, i: int) -> Option<TokenView> {
    if 0 <= i < ts.len() {
        Some(ts[i])
    } else {
        None
    }
}

impl<'a> TokenStream<'a> {
    pub open spec fn rest(&self) -> Seq<TokenView> {
        tokens_view(self.tokens@)
    }

    /// A stream at the start of `tokens`.
    pub fn new(tokens: &'a [Token]) -> (s: TokenStream<'a>)
        ensures
            s.tokens == tokens,
            s.index == 0,
    {
        TokenStream { tokens, index: 0 }
    }

    /// The current token, if any.
    pub fn peek(&self) -> (t: Option<Token>)
        ensures
            t matches Some(x) ==> token_at(self.rest(), self.index as int) == Some(x.view()),
            t is None ==> token_at(self.rest(), self.index as int) is None,
    {
        if self.index < self.tokens.len() {
            Some(self.tokens[self.index].duplicate())
        } else {
            None
        }
    }

    /// Consumes the current token if it is `expected`; otherwise reports what was found.
    pub fn consume_one(&mut self, expected: Token) -> (r: Result<(), ParseError>)
        ensures
            final(self).tokens == old(self).tokens,
            token_at(old(self).rest(), old(self).index as int) == Some(expected.view()) ==> r is Ok
                && final(self).index == old(self).index + 1,
            token_at(old(self).rest(), old(self).index as int) != Some(expected.view()) ==> (r
                matches Err(e) && e.view() == expected_token_spec(
                expected.view(),
                token_at(old(self).rest(), old(self).index as int),
            ) && final(self).index == old(self).index),
    {
        let actual = self.peek();
        let matched = self.index < self.tokens.len() && self.tokens[self.index].same(&expected);
        if matched {
            self.index = self.index + 1;
            Ok(())
        } else {
            Err(ParseError::expected_token(expected, actual))
        }
    }

    /// Consumes the current token if it is a literal and returns its name.
    pub fn consume_literal(&mut self) -> (r: Result<String, ParseError>)
        ensures
            final(self).tokens == old(self).tokens,
            token_at(old(self).rest(), old(self).index as int) matches Some(TokenView::Literal(l))
                ==> (r matches Ok(s) && s@ == l && final(self).index == old(self).index + 1),
            !(token_at(old(self).rest(), old(self).index as int) matches Some(TokenView::Literal(_)))
                ==> (r matches Err(e) && e.view() == expected_literal_spec(
                token_at(old(self).rest(), old(self).index as int),
            ) && final(self).index == old(self).index),
    {
        let actual = self.peek();
        if self.index < self.tokens.len() {
            match actual {
                Some(Token::Literal(literal)) => {
                    self.index = self.index + 1;
                    Ok(literal)
                },
                _ => Err(ParseError::expected_literal(actual)),
            }
        } else {
            Err(ParseError::expected_literal(actual))
        }
    }
}

/// A parse failure.
#[derive(Debug, PartialEq, Eq)]
pub enum ParseError {
    UnexpectedToken { expected: Vec<Token>, actual: Option<Token> },
    Empty,
}

/// The mathematical value of a parse failure.
pub ghost enum ParseErrorView {
    UnexpectedToken { expected: Seq<TokenView>, actual: Option<TokenView> },
    Empty,
}

pub open spec fn option_token_view(t: Option<Token>) -> Option<TokenView> {
    match t {
        Some(x) => Some(x.view()),
        None => None,
    }
}

pub open spec fn expected_literal_spec(actual: Option<TokenView>) -> ParseErrorView {
    ParseErrorView::UnexpectedToken {
        expected: seq![TokenView::Literal("expected a literal"@)],
        actual,
    }
}

pub open spec fn expected_token_spec(expected: TokenView, actual: Option<TokenView>) -> ParseErrorView {
    ParseErrorView::UnexpectedToken { expected: seq![expected], actual }
}

pub open spec fn expected_tokens_spec(actual: TokenView) -> ParseErrorView {
    ParseErrorView::UnexpectedToken {
        expected: seq![
            TokenView::Lambda,
            TokenView::LeftParen,
            TokenView::RightParen,
            TokenView::Literal("literal"@),
        ],
        actual: Some(actual),
    }
}

impl ParseError {
    pub open spec fn view(self) -> ParseErrorView {
        match self {
            ParseError::UnexpectedToken { expected, actual } => ParseErrorView::UnexpectedToken {
                expected: tokens_view(expected@),
                actual: option_token_view(actual),
            },
            ParseError::Empty => ParseErrorView::Empty,
        }
    }

    /// A literal was expected but `actual` was found.
    pub fn expected_literal(actual: Option<Token>) -> (e: ParseError)
        ensures
            e.view() == expected_literal_spec(option_token_view(actual)),
    {
        let mut expected = Vec::new();
        expected.push(Token::Literal(crate::text::string_of("expected a literal")));
        let e = ParseError::UnexpectedToken { expected, actual };
        proof {
            assert(e.view()->expected =~= seq![TokenView::Literal("expected a literal"@)]);
        }
        e
    }

    /// `expected` was expected but `actual` was found.
    pub fn expected_token(expected: Token, actual: Option<Token>) -> (e: ParseError)
        ensures
            e.view() == expected_token_spec(expected.view(), option_token_view(actual)),
    {
        let mut tokens = Vec::new();
        tokens.push(expected);
        let e = ParseError::UnexpectedToken { expected: tokens, actual };
        proof {
            assert(e.view()->expected =~= seq![expected.view()]);
        }
        e
    }

    /// The start of a term was expected but `actual` was found.
    pub fn expected_tokens(actual: Token) -> (e: ParseError)
        ensures
            e.view() == expected_tokens_spec(actual.view()),
    {
        let mut tokens = Vec::new();
        tokens.push(Token::Lambda);
        tokens.push(Token::LeftParen);
        tokens.push(Token::RightParen);
        tokens.push(Token::Literal(crate::text::string_of("literal")));
        let e = ParseError::UnexpectedToken { expected: tokens, actual: Some(actual) };
        proof {
            assert(e.view()->expected =~= seq![
                TokenView::Lambda,
                TokenView::LeftParen,
                TokenView::RightParen,
                TokenView::Literal("literal"@),
            ]);
        }
        e
    }
}

/// Adds `t` to the term built so far, as the argument of a left-nested application.
pub open spec fn wrap_spec(acc: Option<TermView>, t: TermView) -> Option<TermView> {
    match acc {
        Some(a) => Some(TermView::App(Box::new(a), Box::new(t))),
        None => Some(t),
    }
}

/// The end of a sequence of terms: the term built so far, or `Empty` if there is none.
pub open spec fn finish_spec(acc: Option<TermView>, pos: nat) -> Result<(TermView, nat), ParseErrorView> {
    match acc {
        Some(t) => Ok((t, pos)),
        None => Err(ParseErrorView::Empty),
    }
}

/// Parsing of the terms starting at `pos`, applied left to right onto `acc`, up to a
/// closing parenthesis or the end of the tokens. Yields the term and the position of the
/// first token not consumed.
pub open spec fn parse_seq(ts: Seq<TokenView>, pos: nat, acc: Option<TermView>) -> Result<
    (TermView, nat),
    ParseErrorView,
>
    decreases ts.len() - pos,
{
    if pos >= ts.len() {
        finish_spec(acc, pos)
    } else {
        match ts[pos as int] {
            TokenView::LeftParen => match parse_seq(ts, pos + 1, None) {
                Err(e) => Err(e),
                Ok((t, p)) => if !(pos < p <= ts.len()) {
                    Err(ParseErrorView::Empty)
                } else if p < ts.len() && ts[p as int] == TokenView::RightParen {
                    parse_seq(ts, p + 1, wrap_spec(acc, t))
                } else {
                    Err(expected_token_spec(TokenView::RightParen, token_at(ts, p as int)))
                },
            },
            TokenView::Lambda => match token_at(ts, pos + 1 as int) {
                Some(TokenView::Literal(x)) => if token_at(ts, pos + 2 as int) == Some(TokenView::Dot) {
                    match parse_seq(ts, pos + 3, None) {
                        Err(e) => Err(e),
                        Ok((b, p)) => if !(pos < p <= ts.len()) {
                            Err(ParseErrorView::Empty)
                        } else {
                            parse_seq(ts, p, wrap_spec(acc, TermView::Abs(x, Box::new(b))))
                        },
                    }
                } else {
                    Err(expected_token_spec(TokenView::Dot, token_at(ts, pos + 2 as int)))
                },
                other => Err(expected_literal_spec(other)),
            },
            TokenView::Literal(x) => parse_seq(ts, pos + 1, wrap_spec(acc, TermView::Lit(x))),
            TokenView::RightParen => finish_spec(acc, pos),
            TokenView::Dot => Err(expected_tokens_spec(TokenView::Dot)),
        }
    }
}

/// A successful parse consumes at least one token and stays within the tokens.
pub proof fn lemma_parse_seq_advances(ts: Seq<TokenView>, pos: nat, acc: Option<TermView>)
    requires
        pos <= ts.len(),
    ensures
        parse_seq(ts, pos, acc) matches Ok((_, p)) ==> pos <= p <= ts.len() && (acc is None ==> pos
            < p),
    decreases ts.len() - pos,
{
    if pos < ts.len() {
        match ts[pos as int] {
            TokenView::LeftParen => {
                lemma_parse_seq_advances(ts, pos + 1, None);
                if let Ok((t, p)) = parse_seq(ts, pos + 1, None) {
                    if pos < p <= ts.len() && p < ts.len() && ts[p as int] == TokenView::RightParen {
                        lemma_parse_seq_advances(ts, p + 1, wrap_spec(acc, t));
                    }
                }
            },
            TokenView::Lambda => {
                if pos + 3 <= ts.len() {
                    lemma_parse_seq_advances(ts, pos + 3, None);
                    if let Ok((b, p)) = parse_seq(ts, pos + 3, None) {
                        if let Some(TokenView::Literal(x)) = token_at(ts, pos + 1 as int) {
                            if pos < p <= ts.len() {
                                lemma_parse_seq_advances(
                                    ts,
                                    p,
                                    wrap_spec(acc, TermView::Abs(x, Box::new(b))),
                                );
                            }
                        }
                    }
                }
            },
            TokenView::Literal(x) => {
                lemma_parse_seq_advances(ts, pos + 1, wrap_spec(acc, TermView::Lit(x)));
            },
            _ => {},
        }
    }
}

/// The number of `(` minus the number of `)` among the first `k` tokens.
pub open spec fn paren_depth(ts: Seq<TokenView>, k: int) -> int
    decreases k,
{
    if k <= 0 {
        0
    } else {
        paren_depth(ts, k - 1) + match ts[k - 1] {
            TokenView::LeftParen => 1int,
            TokenView::RightParen => -1int,
            _ => 0int,
        }
    }
}

/// The tokens are one parenthesized group: the first `(` is closed by the last `)`.
pub open spec fn outer_group(ts: Seq<TokenView>) -> bool {
    &&& ts.len() > 0
    &&& ts[0] == TokenView::LeftParen
    &&& ts.last() == TokenView::RightParen
    &&& forall|j: int| 1 <= j <= ts.len() - 2 ==> #[trigger] paren_depth(ts, j + 1) >= 1
}

/// The tokens actually parsed: the outer parentheses are dropped when they enclose the
/// whole text.
pub open spec fn strip_outer(ts: Seq<TokenView>) -> Seq<TokenView> {
    if outer_group(ts) {
        ts.subrange(1, ts.len() - 1)
    } else {
        ts
    }
}

/// The result of parsing a whole program.
pub open spec fn parse_program_spec(ts: Seq<TokenView>) -> Result<TermView, ParseErrorView> {
    if ts.len() == 0 {
        Err(ParseErrorView::Empty)
    } else {
        match parse_seq(strip_outer(ts), 0, None) {
            Ok((t, _)) => Ok(t),
            Err(e) => Err(e),
        }
    }
}

/// Parses a named term. Application associates to the left and an abstraction body extends
/// as far right as possible; tokens after an unmatched `)` are ignored.
pub fn parse_program(tokens: &[Token]) -> (r: Result<Term, ParseError>)
    ensures
        parse_program_spec(tokens_view(tokens@)) matches Ok(t) ==> (r matches Ok(x) && x.view()
            == t),
        parse_program_spec(tokens_view(tokens@)) matches Err(e) ==> (r matches Err(x) && x.view()
            == e),
{
    if tokens.len() == 0 {
        return Err(ParseError::Empty);
    }
    let n = tokens.len();
    let ghost ts = tokens_view(tokens@);
    let mut strip = tokens[0].same(&Token::LeftParen) && tokens[n - 1].same(&Token::RightParen);
    proof {
        assert(ts.last() == tokens@[n - 1].view());
        assert(ts[0] == tokens@[0].view());
    }
    if strip {
        let mut depth: usize = 1;
        let mut k: usize = 1;
        proof {
            assert(paren_depth(ts, 1) == 1) by {
                assert(paren_depth(ts, 0) == 0);
            }
        }
        while k + 1 < n && strip
            invariant
                ts == tokens_view(tokens@),
                n == tokens@.len(),
                n >= 2,
                1 <= k < n,
                ts[0] == TokenView::LeftParen,
                ts.last() == TokenView::RightParen,
                strip ==> depth == paren_depth(ts, k as int) && depth >= 1 && depth <= k,
                strip <==> forall|j: int| 1 <= j <= k - 1 ==> #[trigger] paren_depth(ts, j + 1) >= 1,
            decreases n - k,
        {
            proof {
                assert(ts[k as int] == tokens@[k as int].view());
                assert(paren_depth(ts, k + 1) == paren_depth(ts, k as int) + match ts[k as int] {
                    TokenView::LeftParen => 1int,
                    TokenView::RightParen => -1int,
                    _ => 0int,
                });
            }
            if tokens[k].same(&Token::LeftParen) {
                depth = depth + 1;
            } else if tokens[k].same(&Token::RightParen) {
                depth = depth - 1;
                if depth == 0 {
                    strip = false;
                }
            }
            k = k + 1;
        }
        proof {
            if strip {
                assert(k + 1 == n);
            }
        }
    }
    let inner: &[Token] = if strip {
        &tokens[1..n - 1]
    } else {
        tokens
    };
    proof {
        assert(strip == outer_group(ts));
        assert(tokens_view(inner@) =~= strip_outer(ts));
    }
    let mut stream = TokenStream::new(inner);
    let term = parse_term_up_to_paren(&mut stream);
    match term {
        Ok(t) => Ok(t),
        Err(e) => Err(e),
    }
}

fn wrap(current_term: Option<Term>, term: Term) -> (r: Option<Term>)
    ensures
        option_term_view(r) == wrap_spec(option_term_view(current_term), term.view()),
{
    match current_term {
        Some(term1) => Some(call(term1, term)),
        None => Some(term),
    }
}

pub open spec fn option_term_view(t: Option<Term>) -> Option<TermView> {
    match t {
        Some(x) => Some(x.view()),
        None => None,
    }
}

fn parse_term_up_to_paren(tokens: &mut TokenStream) -> (r: Result<Term, ParseError>)
    requires
        old(tokens).index <= old(tokens).tokens@.len(),
    ensures
        final(tokens).tokens == old(tokens).tokens,
        parse_seq(old(tokens).rest(), old(tokens).index as nat, None) matches Ok((t, p)) ==> (r
            matches Ok(x) && x.view() == t && final(tokens).index == p),
        parse_seq(old(tokens).rest(), old(tokens).index as nat, None) matches Err(e) ==> (r
            matches Err(x) && x.view() == e),
    decreases old(tokens).tokens@.len() - old(tokens).index,
{
    let ghost ts = tokens.rest();
    let ghost start = tokens.index as nat;
    let mut current_term: Option<Term> = None;
    loop
        invariant
            tokens.tokens == old(tokens).tokens,
            ts == tokens.rest(),
            ts == old(tokens).rest(),
            start == old(tokens).index,
            start <= tokens.index <= ts.len(),
            parse_seq(ts, start, None) == parse_seq(ts, tokens.index as nat, option_term_view(current_term)),
            current_term is None ==> tokens.index == start,
        decreases ts.len() - tokens.index,
    {
        let token = tokens.peek();
        match token {
            None => {
                return match current_term {
                    Some(t) => Ok(t),
                    None => Err(ParseError::Empty),
                };
            },
            Some(Token::LeftParen) => {
                let ghost pos = tokens.index as nat;
                let _ = tokens.consume_one(Token::LeftParen);
                proof {
                    lemma_parse_seq_advances(ts, pos + 1, None);
                }
                let term = parse_term_up_to_paren(tokens);
                match term {
                    Err(e) => {
                        return Err(e);
                    },
                    Ok(term) => {
                        let closed = tokens.consume_one(Token::RightParen);
                        match closed {
                            Err(e) => {
                                return Err(e);
                            },
                            Ok(()) => {
                                current_term = wrap(current_term, term);
                            },
                        }
                    },
                }
            },
            Some(Token::Lambda) => {
                let ghost pos = tokens.index as nat;
                let _ = tokens.consume_one(Token::Lambda);
                let arg = tokens.consume_literal();
                match arg {
                    Err(e) => {
                        return Err(e);
                    },
                    Ok(arg) => {
                        let dot = tokens.consume_one(Token::Dot);
                        match dot {
                            Err(e) => {
                                return Err(e);
                            },
                            Ok(()) => {
                                proof {
                                    lemma_parse_seq_advances(ts, pos + 3, None);
                                }
                                let body = parse_term_up_to_paren(tokens);
                                match body {
                                    Err(e) => {
                                        return Err(e);
                                    },
                                    Ok(body) => {
                                        let term = def_of(Literal(arg), body);
                                        current_term = wrap(current_term, term);
                                    },
                                }
                            },
                        }
                    },
                }
            },
            Some(Token::Literal(_)) => {
                let literal = tokens.consume_literal();
                match literal {
                    Ok(literal) => {
                        let term = lit_of(Literal(literal));
                        current_term = wrap(current_term, term);
                    },
                    Err(e) => {
                        return Err(e);
                    },
                }
            },
            Some(Token::RightParen) => {
                return match current_term {
                    Some(t) => Ok(t),
                    None => Err(ParseError::Empty),
                };
            },
            Some(Token::Dot) => {
                return Err(ParseError::expected_tokens(Token::Dot));
            },
        }
    }
}

} // verus!
