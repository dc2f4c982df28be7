//! The printed form of a de Bruijn term reads back as the same term.
use vstd::prelude::*;

use crate::debruijn::{from_str_spec, has_numeric, Debruijn, FromStrErrorView};
use crate::parse::debruijn::{
    cut_token, digits_value, flush, is_cut, is_usize_text, parse_program_spec, parse_seq,
    tokenize_spec, tokenize_state, unsigned_digits, wrap_spec, ParseErrorView, Token,
};
use crate::print::{debruijn_text, PrintContext};
use crate::term::lemma_decimal;
use crate::text::{decimal, is_ascii_digit};

verus! {

/// The tokens that the printed text of `t` in context `ctx` is made of.
spec fn text_tokens(t: Debruijn, ctx: PrintContext) -> Seq<Token>
    decreases t,
{
    match t {
        Debruijn::Index(i) => seq![Token::Index(i)],
        Debruijn::Abstraction { body } => if ctx.left_app_needs_parens {
            seq![Token::LeftParen, Token::Lambda] + text_tokens(*body, ctx.abs_parens_spec())
                + seq![Token::RightParen]
        } else {
            seq![Token::Lambda] + text_tokens(*body, ctx.abs_not_parens_spec())
        },
        Debruijn::Application { func, arg } => {
            let inner = text_tokens(*func, ctx.left_app_spec()) + text_tokens(
                *arg,
                ctx.right_app_spec(),
            );
            if ctx.right_app_immediate {
                seq![Token::LeftParen] + inner + seq![Token::RightParen]
            } else {
                inner
            }
        },
    }
}

/// Reading one more character is one step of the tokenizer.
proof fn lemma_push(p: Seq<char>, c: char)
    ensures
        p.push(c).drop_last() == p,
        p.push(c).last() == c,
        p.push(c).len() > 0,
{
    assert(p.push(c).drop_last() =~= p);
}

/// Reading digits only extends the pending integer text.
proof fn lemma_state_digits(p: Seq<char>, d: Seq<char>)
    requires
        tokenize_state(p) is Ok,
        forall|j: int| 0 <= j < d.len() ==> is_ascii_digit(#[trigger] d[j]),
    ensures
        tokenize_state(p + d) == Ok::<(Seq<Token>, Seq<char>), Seq<char>>(
            (tokenize_state(p)->Ok_0.0, tokenize_state(p)->Ok_0.1 + d),
        ),
    decreases d.len(),
{
    let cur = tokenize_state(p)->Ok_0.1;
    if d.len() == 0 {
        assert(p + d =~= p);
        assert(cur + d =~= cur);
    } else {
        let c = d.last();
        lemma_state_digits(p, d.drop_last());
        assert(p + d =~= (p + d.drop_last()).push(c));
        lemma_push(p + d.drop_last(), c);
        assert(is_ascii_digit(d[d.len() - 1]));
        assert(!is_cut(c));
        assert((cur + d.drop_last()).push(c) =~= cur + d);
    }
}

/// Reading a character that ends an integer, with nothing pending, emits its token.
proof fn lemma_state_cut(p: Seq<char>, c: char)
    requires
        tokenize_state(p) is Ok,
        tokenize_state(p)->Ok_0.1.len() == 0,
        is_cut(c),
    ensures
        tokenize_state(p.push(c)) == Ok::<(Seq<Token>, Seq<char>), Seq<char>>(
            (
                match cut_token(c) {
                    Some(t) => tokenize_state(p)->Ok_0.0.push(t),
                    None => tokenize_state(p)->Ok_0.0,
                },
                Seq::empty(),
            ),
        ),
{
    lemma_push(p, c);
}

/// Reading a character that ends an integer, where the pending text flushes to `toks`.
proof fn lemma_state_flush(p: Seq<char>, c: char, toks: Seq<Token>)
    requires
        tokenize_state(p) is Ok,
        flush(tokenize_state(p)->Ok_0.0, tokenize_state(p)->Ok_0.1) == Ok::<
            Seq<Token>,
            Seq<char>,
        >(toks),
        is_cut(c),
    ensures
        tokenize_state(p.push(c)) == Ok::<(Seq<Token>, Seq<char>), Seq<char>>(
            (
                match cut_token(c) {
                    Some(t) => toks.push(t),
                    None => toks,
                },
                Seq::empty(),
            ),
        ),
{
    lemma_push(p, c);
}

/// Reading the printed text of `t`, with nothing pending before it, emits its tokens (the
/// last one possibly still pending).
#[verifier::spinoff_prover]
#[verifier::rlimit(100)]
proof fn lemma_text_tokenizes(t: Debruijn, ctx: PrintContext, p: Seq<char>)
    requires
        tokenize_state(p) is Ok,
        tokenize_state(p)->Ok_0.1.len() == 0,
    ensures
        tokenize_state(p + debruijn_text(t, ctx)) is Ok,
        flush(
            tokenize_state(p + debruijn_text(t, ctx))->Ok_0.0,
            tokenize_state(p + debruijn_text(t, ctx))->Ok_0.1,
        ) == Ok::<Seq<Token>, Seq<char>>(tokenize_state(p)->Ok_0.0 + text_tokens(t, ctx)),
    decreases t,
{
    let toks = tokenize_state(p)->Ok_0.0;
    reveal_strlit("(");
    reveal_strlit(")");
    reveal_strlit(" ");
    reveal_strlit("λ ");
    match t {
        Debruijn::Index(i) => {
            lemma_decimal(i as nat);
            let d = decimal(i as nat);
            lemma_state_digits(p, d);
            assert(tokenize_state(p)->Ok_0.1 + d =~= d);
            assert(is_ascii_digit(d[0]));
            assert(unsigned_digits(d) == d);
            assert(is_usize_text(d));
            assert(digits_value(unsigned_digits(d)) as usize == i);
            assert(toks.push(Token::Index(i)) =~= toks + text_tokens(t, ctx));
        },
        Debruijn::Abstraction { body } => {
            if ctx.left_app_needs_parens {
                let bctx = ctx.abs_parens_spec();
                let b = debruijn_text(*body, bctx);
                lemma_state_cut(p, '(');
                let p1 = p.push('(');
                lemma_state_cut(p1, 'λ');
                let p2 = p1.push('λ');
                lemma_state_cut(p2, ' ');
                let p3 = p2.push(' ');
                lemma_text_tokenizes(*body, bctx, p3);
                let tb = text_tokens(*body, bctx);
                lemma_state_flush(p3 + b, ')', toks.push(Token::LeftParen).push(Token::Lambda) + tb);
                assert(p + debruijn_text(t, ctx) =~= (p3 + b).push(')'));
                assert((toks.push(Token::LeftParen).push(Token::Lambda) + tb).push(Token::RightParen)
                    =~= toks + text_tokens(t, ctx));
            } else {
                let bctx = ctx.abs_not_parens_spec();
                let b = debruijn_text(*body, bctx);
                lemma_state_cut(p, 'λ');
                let p1 = p.push('λ');
                lemma_state_cut(p1, ' ');
                let p2 = p1.push(' ');
                lemma_text_tokenizes(*body, bctx, p2);
                assert(p + debruijn_text(t, ctx) =~= p2 + b);
                assert(toks.push(Token::Lambda) + text_tokens(*body, bctx) =~= toks + text_tokens(t, ctx));
            }
        },
        Debruijn::Application { func, arg } => {
            let fctx = ctx.left_app_spec();
            let actx = ctx.right_app_spec();
            let f = debruijn_text(*func, fctx);
            let a = debruijn_text(*arg, actx);
            let tf = text_tokens(*func, fctx);
            let ta = text_tokens(*arg, actx);
            let q0 = if ctx.right_app_immediate { p.push('(') } else { p };
            let toks0 = if ctx.right_app_immediate { toks.push(Token::LeftParen) } else { toks };
            if ctx.right_app_immediate {
                lemma_state_cut(p, '(');
            }
            lemma_text_tokenizes(*func, fctx, q0);
            lemma_state_flush(q0 + f, ' ', toks0 + tf);
            let q1 = (q0 + f).push(' ');
            lemma_text_tokenizes(*arg, actx, q1);
            if ctx.right_app_immediate {
                lemma_state_flush(q1 + a, ')', toks0 + tf + ta);
                assert(p + debruijn_text(t, ctx) =~= (q1 + a).push(')'));
                assert((toks0 + tf + ta).push(Token::RightParen) =~= toks + text_tokens(t, ctx));
            } else {
                assert(p + debruijn_text(t, ctx) =~= q1 + a);
                assert(toks0 + tf + ta =~= toks + text_tokens(t, ctx));
            }
        },
    }
}

/// A run of tokens inside a run that stands at `pos` stands at `pos` plus its offset.
proof fn lemma_sub(ts: Seq<Token>, pos: int, whole: Seq<Token>, k: int, piece: Seq<Token>)
    requires
        0 <= pos,
        pos + whole.len() <= ts.len(),
        ts.subrange(pos, pos + whole.len()) == whole,
        0 <= k,
        k + piece.len() <= whole.len(),
        whole.subrange(k, k + piece.len()) == piece,
    ensures
        ts.subrange(pos + k, pos + k + piece.len()) == piece,
{
    assert forall|j: int| 0 <= j < piece.len() implies ts.subrange(
        pos + k,
        pos + k + piece.len(),
    )[j] == piece[j] by {
        assert(ts[pos + k + j] == ts.subrange(pos, pos + whole.len())[k + j]);
        assert(piece[j] == whole.subrange(k, k + piece.len())[j]);
    }
    assert(ts.subrange(pos + k, pos + k + piece.len()) =~= piece);
}

/// The token at offset `k` of a run that stands at `pos`.
proof fn lemma_at(ts: Seq<Token>, pos: int, whole: Seq<Token>, k: int)
    requires
        0 <= pos,
        pos + whole.len() <= ts.len(),
        ts.subrange(pos, pos + whole.len()) == whole,
        0 <= k < whole.len(),
    ensures
        ts[pos + k] == whole[k],
{
    assert(ts[pos + k] == ts.subrange(pos, pos + whole.len())[k]);
}

/// The tokens of a printed term are never empty.
proof fn lemma_text_tokens_nonempty(t: Debruijn, ctx: PrintContext)
    ensures
        text_tokens(t, ctx).len() >= 1,
    decreases t,
{
    match t {
        Debruijn::Index(_) => {},
        Debruijn::Abstraction { body } => {
            lemma_text_tokens_nonempty(*body, ctx.abs_parens_spec());
            lemma_text_tokens_nonempty(*body, ctx.abs_not_parens_spec());
        },
        Debruijn::Application { func, arg } => {
            lemma_text_tokens_nonempty(*func, ctx.left_app_spec());
        },
    }
}

/// Parsing across the tokens of a printed term applies the accumulated term to it. An
/// application printed without parentheses must start a sequence, and where the context
/// does not parenthesize an abstraction the tokens end there or at a closing parenthesis.
#[verifier::spinoff_prover]
#[verifier::rlimit(100)]
proof fn lemma_tokens_parse(
    t: Debruijn,
    ctx: PrintContext,
    ts: Seq<Token>,
    pos: nat,
    acc: Option<Debruijn>,
)
    requires
        t.indices_positive(),
        pos + text_tokens(t, ctx).len() <= ts.len(),
        ts.subrange(pos as int, pos + text_tokens(t, ctx).len() as int) == text_tokens(t, ctx),
        (t is Application && !ctx.right_app_immediate) ==> acc is None,
        !ctx.left_app_needs_parens ==> (pos + text_tokens(t, ctx).len() == ts.len() || ts[pos
            + text_tokens(t, ctx).len() as int] == Token::RightParen),
    ensures
        parse_seq(ts, pos, acc) == parse_seq(
            ts,
            (pos + text_tokens(t, ctx).len()) as nat,
            wrap_spec(acc, t),
        ),
    decreases t,
{
    let tt = text_tokens(t, ctx);
    let n = tt.len();
    lemma_at(ts, pos as int, tt, 0);
    match t {
        Debruijn::Index(i) => {},
        Debruijn::Abstraction { body } => {
            if ctx.left_app_needs_parens {
                let bctx = ctx.abs_parens_spec();
                let tb = text_tokens(*body, bctx);
                let nb: int = tb.len() as int;
                assert(tt.subrange(2, 2 + nb) =~= tb);
                lemma_sub(ts, pos as int, tt, 2, tb);
                lemma_at(ts, pos as int, tt, 1);
                lemma_at(ts, pos as int, tt, 2 + nb);
                let e = (pos + 2 + nb) as nat;
                lemma_tokens_parse(*body, bctx, ts, (pos + 2) as nat, None);
                assert(parse_seq(ts, e, Some(*body)) == Ok::<(Debruijn, nat), ParseErrorView>((*body, e)));
                assert(parse_seq(ts, (pos + 2) as nat, None) == Ok::<(Debruijn, nat), ParseErrorView>((*body, e)));
                let abs = Debruijn::Abstraction { body: Box::new(*body) };
                assert(abs == t);
                assert(parse_seq(ts, e, Some(abs)) == Ok::<(Debruijn, nat), ParseErrorView>((abs, e)));
                assert(parse_seq(ts, (pos + 1) as nat, None) == Ok::<(Debruijn, nat), ParseErrorView>((abs, e)));
            } else {
                let bctx = ctx.abs_not_parens_spec();
                let tb = text_tokens(*body, bctx);
                let nb: int = tb.len() as int;
                assert(tt.subrange(1, 1 + nb) =~= tb);
                lemma_sub(ts, pos as int, tt, 1, tb);
                let e = (pos + 1 + nb) as nat;
                lemma_tokens_parse(*body, bctx, ts, (pos + 1) as nat, None);
                assert(parse_seq(ts, e, Some(*body)) == Ok::<(Debruijn, nat), ParseErrorView>((*body, e)));
                let abs = Debruijn::Abstraction { body: Box::new(*body) };
                assert(abs == t);
            }
        },
        Debruijn::Application { func, arg } => {
            let fctx = ctx.left_app_spec();
            let actx = ctx.right_app_spec();
            let tf = text_tokens(*func, fctx);
            let ta = text_tokens(*arg, actx);
            let nf: int = tf.len() as int;
            let na: int = ta.len() as int;
            lemma_text_tokens_nonempty(*func, fctx);
            lemma_text_tokens_nonempty(*arg, actx);
            let app = Debruijn::Application { func: Box::new(*func), arg: Box::new(*arg) };
            assert(app == t);
            if ctx.right_app_immediate {
                assert(tt.subrange(1, 1 + nf) =~= tf);
                assert(tt.subrange(1 + nf, 1 + nf + na) =~= ta);
                lemma_sub(ts, pos as int, tt, 1, tf);
                lemma_sub(ts, pos as int, tt, 1 + nf, ta);
                lemma_at(ts, pos as int, tt, 1 + nf);
                lemma_at(ts, pos as int, tt, 1 + nf + na);
                let e = (pos + 1 + nf + na) as nat;
                lemma_tokens_parse(*func, fctx, ts, (pos + 1) as nat, None);
                lemma_tokens_parse(*arg, actx, ts, (pos + 1 + nf) as nat, Some(*func));
                assert(parse_seq(ts, e, Some(app)) == Ok::<(Debruijn, nat), ParseErrorView>((app, e)));
                assert(parse_seq(ts, (pos + 1) as nat, None) == Ok::<(Debruijn, nat), ParseErrorView>((app, e)));
            } else {
                assert(tt.subrange(0, nf) =~= tf);
                assert(tt.subrange(nf, nf + na) =~= ta);
                lemma_sub(ts, pos as int, tt, 0, tf);
                lemma_sub(ts, pos as int, tt, nf, ta);
                lemma_at(ts, pos as int, tt, nf);
                lemma_tokens_parse(*func, fctx, ts, pos, None);
                lemma_tokens_parse(*arg, actx, ts, (pos + nf) as nat, Some(*func));
            }
        },
    }
}

/// Printing a term whose indices are all positive and reading the text back in de Bruijn
/// notation gives the same term: the text splits into tokens, the tokens parse to the term,
/// and where the text holds a numeric character (which sends `from_str` to de Bruijn
/// notation) reading it gives the term.
pub proof fn lemma_debruijn_text_reads_back(t: Debruijn)
    requires
        t.indices_positive(),
    ensures
        tokenize_spec(debruijn_text(t, PrintContext::initial())) is Ok,
        parse_program_spec(tokenize_spec(debruijn_text(t, PrintContext::initial()))->Ok_0)
            == Ok::<Debruijn, ParseErrorView>(t),
        has_numeric(debruijn_text(t, PrintContext::initial())) ==> from_str_spec(
            debruijn_text(t, PrintContext::initial()),
        ) == Ok::<Debruijn, FromStrErrorView>(t),
{
    let ctx = PrintContext::initial();
    let s = debruijn_text(t, ctx);
    let e = Seq::<char>::empty();
    assert(tokenize_state(e) == Ok::<(Seq<Token>, Seq<char>), Seq<char>>(
        (Seq::empty(), Seq::empty()),
    ));
    lemma_text_tokenizes(t, ctx, e);
    assert(e + s =~= s);
    let ts = text_tokens(t, ctx);
    assert(Seq::<Token>::empty() + ts =~= ts);
    assert(tokenize_spec(s) == Ok::<Seq<Token>, Seq<char>>(ts));
    lemma_text_tokens_nonempty(t, ctx);
    assert(ts.subrange(0, ts.len() as int) =~= ts);
    lemma_tokens_parse(t, ctx, ts, 0, None);
    assert(parse_seq(ts, ts.len(), Some(t)) == Ok::<(Debruijn, nat), ParseErrorView>((t, ts.len())));
}

} // verus!
