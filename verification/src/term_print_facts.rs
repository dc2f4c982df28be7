//! The printed form of a named term reads back as the same term, where every name is a
//! non-empty run of characters that are not delimiters.
use vstd::prelude::*;

use crate::parse::{
    is_delimiter, outer_group, paren_depth, parse_program_spec, parse_seq, strip_outer,
    token_at, tokenize_spec, tokenize_state, wrap_spec, ParseErrorView, TokenView,
};
use crate::print::{term_text, PrintContext};
use crate::term::TermView;

verus! {

/// A name that the tokenizer reads back as one literal.
pub open spec fn plain_name(x: Seq<char>) -> bool {
    x.len() > 0 && forall|j: int| 0 <= j < x.len() ==> !is_delimiter(#[trigger] x[j])
}

/// Every variable and binder name in the term is plain.
pub open spec fn names_plain(t: TermView) -> bool
    decreases t,
{
    match t {
        TermView::Lit(x) => plain_name(x),
        TermView::Abs(x, body) => plain_name(x) && names_plain(*body),
        TermView::App(f, a) => names_plain(*f) && names_plain(*a),
    }
}

/// The tokens that the printed text of `t` in context `ctx` is made of.
spec fn text_tokens(t: TermView, ctx: PrintContext) -> Seq<TokenView>
    decreases t,
{
    match t {
        TermView::Lit(x) => seq![TokenView::Literal(x)],
        TermView::Abs(x, body) => {
            let head = seq![TokenView::Lambda, TokenView::Literal(x), TokenView::Dot];
            if ctx.left_app_needs_parens {
                seq![TokenView::LeftParen] + head + text_tokens(*body, ctx.abs_parens_spec())
                    + seq![TokenView::RightParen]
            } else {
                head + text_tokens(*body, ctx.abs_not_parens_spec())
            }
        },
        TermView::App(f, a) => {
            let inner = text_tokens(*f, ctx.left_app_spec()) + text_tokens(*a, ctx.right_app_spec());
            if ctx.right_app_immediate {
                seq![TokenView::LeftParen] + inner + seq![TokenView::RightParen]
            } else {
                inner
            }
        },
    }
}

/// The tokens read so far, counting the pending literal.
spec fn flushed(st: (Seq<TokenView>, Seq<char>)) -> Seq<TokenView> {
    if st.1.len() > 0 {
        st.0.push(TokenView::Literal(st.1))
    } else {
        st.0
    }
}

/// Reading one more character is one step of the tokenizer.
proof fn lemma_push(p: Seq<char>, c: char)
    ensures
        p.push(c).drop_last() == p,
        p.push(c).last() == c,
        p.push(c).len() > 0,
{
    assert(p.push(c).drop_last() =~= p);
}

/// Reading characters that are not delimiters only extends the pending literal.
proof fn lemma_state_plain(p: Seq<char>, d: Seq<char>)
    requires
        forall|j: int| 0 <= j < d.len() ==> !is_delimiter(#[trigger] d[j]),
    ensures
        tokenize_state(p + d) == (tokenize_state(p).0, tokenize_state(p).1 + d),
    decreases d.len(),
{
    let cur = tokenize_state(p).1;
    if d.len() == 0 {
        assert(p + d =~= p);
        assert(cur + d =~= cur);
    } else {
        let c = d.last();
        lemma_state_plain(p, d.drop_last());
        assert(p + d =~= (p + d.drop_last()).push(c));
        lemma_push(p + d.drop_last(), c);
        assert(!is_delimiter(d[d.len() - 1]));
        assert((cur + d.drop_last()).push(c) =~= cur + d);
    }
}

/// Reading a delimiter flushes the pending literal and emits the delimiter's token.
proof fn lemma_state_delim(p: Seq<char>, c: char)
    requires
        is_delimiter(c),
    ensures
        tokenize_state(p.push(c)) == (
            match crate::parse::delimiter_token(c) {
                Some(t) => flushed(tokenize_state(p)).push(t),
                None => flushed(tokenize_state(p)),
            },
            Seq::<char>::empty(),
        ),
{
    lemma_push(p, c);
}

/// Reading the printed text of `t`, with nothing pending before it, emits its tokens (the
/// last one possibly still pending).
#[verifier::spinoff_prover]
#[verifier::rlimit(100)]
proof fn lemma_text_tokenizes(t: TermView, ctx: PrintContext, p: Seq<char>)
    requires
        names_plain(t),
        tokenize_state(p).1.len() == 0,
    ensures
        flushed(tokenize_state(p + term_text(t, ctx))) == tokenize_state(p).0 + text_tokens(t, ctx),
    decreases t,
{
    let toks = tokenize_state(p).0;
    reveal_strlit("(");
    reveal_strlit(")");
    reveal_strlit(" ");
    reveal_strlit("λ");
    reveal_strlit(". ");
    match t {
        TermView::Lit(x) => {
            lemma_state_plain(p, x);
            assert(tokenize_state(p).1 + x =~= x);
            assert(toks.push(TokenView::Literal(x)) =~= toks + text_tokens(t, ctx));
        },
        TermView::Abs(x, body) => {
            let bctx = if ctx.left_app_needs_parens {
                ctx.abs_parens_spec()
            } else {
                ctx.abs_not_parens_spec()
            };
            let b = term_text(*body, bctx);
            let q0 = if ctx.left_app_needs_parens { p.push('(') } else { p };
            let toks0 = if ctx.left_app_needs_parens { toks.push(TokenView::LeftParen) } else { toks };
            if ctx.left_app_needs_parens {
                lemma_state_delim(p, '(');
            }
            lemma_state_delim(q0, 'λ');
            let q1 = q0.push('λ');
            lemma_state_plain(q1, x);
            assert(tokenize_state(q1).1 + x =~= x);
            lemma_state_delim(q1 + x, '.');
            let q2 = (q1 + x).push('.');
            lemma_state_delim(q2, ' ');
            let q3 = q2.push(' ');
            let toks3 = toks0.push(TokenView::Lambda).push(TokenView::Literal(x)).push(TokenView::Dot);
            assert(tokenize_state(q3) == (toks3, Seq::<char>::empty()));
            lemma_text_tokenizes(*body, bctx, q3);
            let tb = text_tokens(*body, bctx);
            if ctx.left_app_needs_parens {
                lemma_state_delim(q3 + b, ')');
                assert(p + term_text(t, ctx) =~= (q3 + b).push(')'));
                assert((toks3 + tb).push(TokenView::RightParen) =~= toks + text_tokens(t, ctx));
            } else {
                assert(p + term_text(t, ctx) =~= q3 + b);
                assert(toks3 + tb =~= toks + text_tokens(t, ctx));
            }
        },
        TermView::App(func, arg) => {
            let fctx = ctx.left_app_spec();
            let actx = ctx.right_app_spec();
            let f = term_text(*func, fctx);
            let a = term_text(*arg, actx);
            let tf = text_tokens(*func, fctx);
            let ta = text_tokens(*arg, actx);
            let q0 = if ctx.right_app_immediate { p.push('(') } else { p };
            let toks0 = if ctx.right_app_immediate { toks.push(TokenView::LeftParen) } else { toks };
            if ctx.right_app_immediate {
                lemma_state_delim(p, '(');
            }
            lemma_text_tokenizes(*func, fctx, q0);
            lemma_state_delim(q0 + f, ' ');
            let q1 = (q0 + f).push(' ');
            lemma_text_tokenizes(*arg, actx, q1);
            if ctx.right_app_immediate {
                lemma_state_delim(q1 + a, ')');
                assert(p + term_text(t, ctx) =~= (q1 + a).push(')'));
                assert((toks0 + tf + ta).push(TokenView::RightParen) =~= toks + text_tokens(t, ctx));
            } else {
                assert(p + term_text(t, ctx) =~= q1 + a);
                assert(toks0 + tf + ta =~= toks + text_tokens(t, ctx));
            }
        },
    }
}

/// A run of tokens inside a run that stands at `pos` stands at `pos` plus its offset.
proof fn lemma_sub(ts: Seq<TokenView>, pos: int, whole: Seq<TokenView>, k: int, piece: Seq<TokenView>)
    requires
        0 <= pos,
        pos + whole.len() <= ts.len(),
        ts.subrange(pos, pos + whole.len()) == whole,
        0 <= k,
        k + piece.len() <= whole.len(),
        whole.subrange(k, k + piece.len()) == piece,
    ensures
        ts.subrange(pos + k, pos + k + piece.len()) == piece,
{
    assert forall|j: int| 0 <= j < piece.len() implies ts.subrange(
        pos + k,
        pos + k + piece.len(),
    )[j] == piece[j] by {
        assert(ts[pos + k + j] == ts.subrange(pos, pos + whole.len())[k + j]);
        assert(piece[j] == whole.subrange(k, k + piece.len())[j]);
    }
    assert(ts.subrange(pos + k, pos + k + piece.len()) =~= piece);
}

/// The token at offset `k` of a run that stands at `pos`.
proof fn lemma_at(ts: Seq<TokenView>, pos: int, whole: Seq<TokenView>, k: int)
    requires
        0 <= pos,
        pos + whole.len() <= ts.len(),
        ts.subrange(pos, pos + whole.len()) == whole,
        0 <= k < whole.len(),
    ensures
        ts[pos + k] == whole[k],
        token_at(ts, pos + k) == Some(whole[k]),
{
    assert(ts[pos + k] == ts.subrange(pos, pos + whole.len())[k]);
}

/// The tokens of a printed term are never empty, and those that open with a parenthesis
/// hold at least two tokens.
proof fn lemma_text_tokens_nonempty(t: TermView, ctx: PrintContext)
    ensures
        text_tokens(t, ctx).len() >= 1,
        text_tokens(t, ctx)[0] == TokenView::LeftParen ==> text_tokens(t, ctx).len() >= 2,
    decreases t,
{
    match t {
        TermView::Lit(_) => {},
        TermView::Abs(_, body) => {
            lemma_text_tokens_nonempty(*body, ctx.abs_parens_spec());
            lemma_text_tokens_nonempty(*body, ctx.abs_not_parens_spec());
        },
        TermView::App(f, a) => {
            lemma_text_tokens_nonempty(*f, ctx.left_app_spec());
            lemma_text_tokens_nonempty(*a, ctx.right_app_spec());
        },
    }
}

/// Parsing across the tokens of a printed term applies the accumulated term to it. An
/// application printed without parentheses must start a sequence, and where the context
/// does not parenthesize an abstraction the tokens end there or at a closing parenthesis.
#[verifier::spinoff_prover]
#[verifier::rlimit(100)]
proof fn lemma_tokens_parse(
    t: TermView,
    ctx: PrintContext,
    ts: Seq<TokenView>,
    pos: nat,
    acc: Option<TermView>,
)
    requires
        pos + text_tokens(t, ctx).len() <= ts.len(),
        ts.subrange(pos as int, pos + text_tokens(t, ctx).len() as int) == text_tokens(t, ctx),
        (t is App && !ctx.right_app_immediate) ==> acc is None,
        !ctx.left_app_needs_parens ==> (pos + text_tokens(t, ctx).len() == ts.len() || ts[pos
            + text_tokens(t, ctx).len() as int] == TokenView::RightParen),
    ensures
        parse_seq(ts, pos, acc) == parse_seq(
            ts,
            (pos + text_tokens(t, ctx).len()) as nat,
            wrap_spec(acc, t),
        ),
    decreases t,
{
    let tt = text_tokens(t, ctx);
    lemma_at(ts, pos as int, tt, 0);
    match t {
        TermView::Lit(_) => {},
        TermView::Abs(x, body) => {
            let abs = TermView::Abs(x, Box::new(*body));
            assert(abs == t);
            if ctx.left_app_needs_parens {
                let bctx = ctx.abs_parens_spec();
                let tb = text_tokens(*body, bctx);
                let nb: int = tb.len() as int;
                assert(tt.subrange(4, 4 + nb) =~= tb);
                lemma_sub(ts, pos as int, tt, 4, tb);
                lemma_at(ts, pos as int, tt, 1);
                lemma_at(ts, pos as int, tt, 2);
                lemma_at(ts, pos as int, tt, 3);
                lemma_at(ts, pos as int, tt, 4 + nb);
                let e = (pos + 4 + nb) as nat;
                lemma_tokens_parse(*body, bctx, ts, (pos + 4) as nat, None);
                assert(parse_seq(ts, e, Some(*body)) == Ok::<(TermView, nat), ParseErrorView>((*body, e)));
                assert(parse_seq(ts, (pos + 4) as nat, None) == Ok::<(TermView, nat), ParseErrorView>((*body, e)));
                assert(parse_seq(ts, e, Some(abs)) == Ok::<(TermView, nat), ParseErrorView>((abs, e)));
                assert(parse_seq(ts, (pos + 1) as nat, None) == Ok::<(TermView, nat), ParseErrorView>((abs, e)));
            } else {
                let bctx = ctx.abs_not_parens_spec();
                let tb = text_tokens(*body, bctx);
                let nb: int = tb.len() as int;
                assert(tt.subrange(3, 3 + nb) =~= tb);
                lemma_sub(ts, pos as int, tt, 3, tb);
                lemma_at(ts, pos as int, tt, 1);
                lemma_at(ts, pos as int, tt, 2);
                let e = (pos + 3 + nb) as nat;
                lemma_tokens_parse(*body, bctx, ts, (pos + 3) as nat, None);
                assert(parse_seq(ts, e, Some(*body)) == Ok::<(TermView, nat), ParseErrorView>((*body, e)));
            }
        },
        TermView::App(func, arg) => {
            let fctx = ctx.left_app_spec();
            let actx = ctx.right_app_spec();
            let tf = text_tokens(*func, fctx);
            let ta = text_tokens(*arg, actx);
            let nf: int = tf.len() as int;
            let na: int = ta.len() as int;
            lemma_text_tokens_nonempty(*func, fctx);
            lemma_text_tokens_nonempty(*arg, actx);
            let app = TermView::App(Box::new(*func), Box::new(*arg));
            assert(app == t);
            if ctx.right_app_immediate {
                assert(tt.subrange(1, 1 + nf) =~= tf);
                assert(tt.subrange(1 + nf, 1 + nf + na) =~= ta);
                lemma_sub(ts, pos as int, tt, 1, tf);
                lemma_sub(ts, pos as int, tt, 1 + nf, ta);
                lemma_at(ts, pos as int, tt, 1 + nf);
                lemma_at(ts, pos as int, tt, 1 + nf + na);
                let e = (pos + 1 + nf + na) as nat;
                lemma_tokens_parse(*func, fctx, ts, (pos + 1) as nat, None);
                lemma_tokens_parse(*arg, actx, ts, (pos + 1 + nf) as nat, Some(*func));
                assert(parse_seq(ts, e, Some(app)) == Ok::<(TermView, nat), ParseErrorView>((app, e)));
                assert(parse_seq(ts, (pos + 1) as nat, None) == Ok::<(TermView, nat), ParseErrorView>((app, e)));
            } else {
                assert(tt.subrange(0, nf) =~= tf);
                assert(tt.subrange(nf, nf + na) =~= ta);
                lemma_sub(ts, pos as int, tt, 0, tf);
                lemma_sub(ts, pos as int, tt, nf, ta);
                lemma_at(ts, pos as int, tt, nf);
                lemma_tokens_parse(*func, fctx, ts, pos, None);
                lemma_tokens_parse(*arg, actx, ts, (pos + nf) as nat, Some(*func));
            }
        },
    }
}

/// The depth after `k` tokens depends only on those tokens.
proof fn lemma_depth_prefix(a: Seq<TokenView>, b: Seq<TokenView>, k: int)
    requires
        0 <= k <= a.len(),
    ensures
        paren_depth(a + b, k) == paren_depth(a, k),
    decreases k,
{
    if k > 0 {
        lemma_depth_prefix(a, b, k - 1);
        assert((a + b)[k - 1] == a[k - 1]);
    }
}

/// The depth inside a concatenation adds the depth of the first part.
proof fn lemma_depth_concat(a: Seq<TokenView>, b: Seq<TokenView>, k: int)
    requires
        0 <= k <= b.len(),
    ensures
        paren_depth(a + b, a.len() + k) == paren_depth(a, a.len() as int) + paren_depth(b, k),
    decreases k,
{
    if k == 0 {
        lemma_depth_prefix(a, b, a.len() as int);
    } else {
        lemma_depth_concat(a, b, k - 1);
        assert((a + b)[a.len() + k - 1] == b[k - 1]);
    }
}

/// The printed tokens of a term are balanced.
proof fn lemma_text_tokens_balanced(t: TermView, ctx: PrintContext)
    ensures
        paren_depth(text_tokens(t, ctx), text_tokens(t, ctx).len() as int) == 0,
    decreases t,
{
    let lp = seq![TokenView::LeftParen];
    let rp = seq![TokenView::RightParen];
    assert(paren_depth(lp, 1) == 1) by {
        assert(paren_depth(lp, 0) == 0);
    }
    assert(paren_depth(rp, 1) == -1) by {
        assert(paren_depth(rp, 0) == 0);
    }
    match t {
        TermView::Lit(x) => {
            let tt = text_tokens(t, ctx);
            assert(paren_depth(tt, 0) == 0);
        },
        TermView::Abs(x, body) => {
            let head = seq![TokenView::Lambda, TokenView::Literal(x), TokenView::Dot];
            assert(paren_depth(head, 3) == 0) by {
                assert(paren_depth(head, 0) == 0);
                assert(paren_depth(head, 1) == 0);
                assert(paren_depth(head, 2) == 0);
            }
            let bctx = if ctx.left_app_needs_parens {
                ctx.abs_parens_spec()
            } else {
                ctx.abs_not_parens_spec()
            };
            let tb = text_tokens(*body, bctx);
            lemma_text_tokens_balanced(*body, bctx);
            if ctx.left_app_needs_parens {
                lemma_depth_concat(lp, head, 3);
                lemma_depth_concat(lp + head, tb, tb.len() as int);
                lemma_depth_concat(lp + head + tb, rp, 1);
                assert(text_tokens(t, ctx) == lp + head + tb + rp);
            } else {
                lemma_depth_concat(head, tb, tb.len() as int);
                assert(text_tokens(t, ctx) == head + tb);
            }
        },
        TermView::App(f, a) => {
            let tf = text_tokens(*f, ctx.left_app_spec());
            let ta = text_tokens(*a, ctx.right_app_spec());
            lemma_text_tokens_balanced(*f, ctx.left_app_spec());
            lemma_text_tokens_balanced(*a, ctx.right_app_spec());
            lemma_depth_concat(tf, ta, ta.len() as int);
            if ctx.right_app_immediate {
                lemma_depth_concat(lp, tf + ta, (tf + ta).len() as int);
                lemma_depth_concat(lp + (tf + ta), rp, 1);
                assert(text_tokens(t, ctx) =~= lp + (tf + ta) + rp);
            }
        },
    }
}

/// The printed tokens of a term in the initial context are not one parenthesized group.
proof fn lemma_initial_not_group(t: TermView)
    ensures
        !outer_group(text_tokens(t, PrintContext::initial())),
{
    let ctx = PrintContext::initial();
    let tt = text_tokens(t, ctx);
    if let TermView::App(f, a) = t {
        let tf = text_tokens(*f, ctx.left_app_spec());
        let ta = text_tokens(*a, ctx.right_app_spec());
        lemma_text_tokens_nonempty(*f, ctx.left_app_spec());
        lemma_text_tokens_nonempty(*a, ctx.right_app_spec());
        if tt[0] == TokenView::LeftParen {
            assert(tt[0] == tf[0]);
            lemma_text_tokens_balanced(*f, ctx.left_app_spec());
            lemma_depth_prefix(tf, ta, tf.len() as int);
            let j = tf.len() - 1;
            assert(1 <= j <= tt.len() - 2);
            assert(paren_depth(tt, j + 1) == 0);
        }
    }
}

/// Printing a named term whose names are plain and reading the text back gives the same
/// term.
pub proof fn lemma_term_text_reads_back(t: TermView)
    requires
        names_plain(t),
    ensures
        parse_program_spec(tokenize_spec(term_text(t, PrintContext::initial())))
            == Ok::<TermView, ParseErrorView>(t),
{
    let ctx = PrintContext::initial();
    let s = term_text(t, ctx);
    let e = Seq::<char>::empty();
    assert(tokenize_state(e) == (Seq::<TokenView>::empty(), Seq::<char>::empty()));
    lemma_text_tokenizes(t, ctx, e);
    assert(e + s =~= s);
    let ts = text_tokens(t, ctx);
    assert(Seq::<TokenView>::empty() + ts =~= ts);
    assert(tokenize_spec(s) == ts);
    lemma_text_tokens_nonempty(t, ctx);
    lemma_initial_not_group(t);
    assert(strip_outer(ts) == ts);
    assert(ts.subrange(0, ts.len() as int) =~= ts);
    lemma_tokens_parse(t, ctx, ts, 0, None);
    assert(parse_seq(ts, ts.len(), Some(t)) == Ok::<(TermView, nat), ParseErrorView>((t, ts.len())));
}

} // verus!
