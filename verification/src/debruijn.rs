//! Lambda terms in de Bruijn notation, and compilation from named terms.
use vstd::prelude::*;

use crate::print::{debruijn_text, PrintContext};
use crate::term::{Literal, Term, TermView};
use crate::text::{decimal, decimal_string, push_char, push_decimal, push_str, string_of};

verus! {

/// A de Bruijn term. Indices are 1-based: `λx.x` is `λ 1`, `λx.λy.x` is `λ λ 2`.
#[derive(Debug, PartialEq, Eq, Hash)]
pub enum Debruijn {
    Index(usize),
    Application { func: Box<Debruijn>, arg: Box<Debruijn> },
    Abstraction { body: Box<Debruijn> },
}

impl Debruijn {
    /// Every index in the term is at least 1.
    pub open spec fn indices_positive(self) -> bool
        decreases self,
    {
        match self {
            Debruijn::Index(i) => i >= 1,
            Debruijn::Application { func, arg } => (*func).indices_positive()
                && (*arg).indices_positive(),
            Debruijn::Abstraction { body } => (*body).indices_positive(),
        }
    }

    /// Every index refers to one of the `depth` enclosing binders or to a binder inside the term.
    pub open spec fn closed_at(self, depth: nat) -> bool
        decreases self,
    {
        match self {
            Debruijn::Index(i) => i <= depth,
            Debruijn::Application { func, arg } => (*func).closed_at(depth) && (*arg).closed_at(
                depth,
            ),
            Debruijn::Abstraction { body } => (*body).closed_at(depth + 1),
        }
    }

    /// The largest number of abstractions nested along any path.
    pub open spec fn abs_depth(self) -> nat
        decreases self,
    {
        match self {
            Debruijn::Index(_) => 0,
            Debruijn::Application { func, arg } => {
                let f = (*func).abs_depth();
                let a = (*arg).abs_depth();
                if f >= a {
                    f
                } else {
                    a
                }
            },
            Debruijn::Abstraction { body } => (*body).abs_depth() + 1,
        }
    }

    /// The number of nodes of the term.
    pub open spec fn size(self) -> nat
        decreases self,
    {
        match self {
            Debruijn::Index(_) => 1,
            Debruijn::Application { func, arg } => (*func).size() + (*arg).size() + 1,
            Debruijn::Abstraction { body } => (*body).size() + 1,
        }
    }

    /// A copy of the term.
    pub fn copy(&self) -> (r: Debruijn)
        ensures
            r == *self,
        decreases self,
    {
        match self {
            Debruijn::Index(i) => Debruijn::Index(*i),
            Debruijn::Application { func, arg } => Debruijn::Application {
                func: Box::new(func.copy()),
                arg: Box::new(arg.copy()),
            },
            Debruijn::Abstraction { body } => Debruijn::Abstraction { body: Box::new(body.copy()) },
        }
    }

    /// Structural equality.
    pub fn equals(&self, other: &Debruijn) -> (r: bool)
        ensures
            r == (*self == *other),
        decreases self,
    {
        match (self, other) {
            (Debruijn::Index(a), Debruijn::Index(b)) => *a == *b,
            (
                Debruijn::Application { func: f1, arg: a1 },
                Debruijn::Application { func: f2, arg: a2 },
            ) => f1.equals(f2) && a1.equals(a2),
            (Debruijn::Abstraction { body: b1 }, Debruijn::Abstraction { body: b2 }) => b1.equals(
                b2,
            ),
            _ => false,
        }
    }

    /// Whether every index is bound by an abstraction of the term.
    pub fn is_closed_term(&self) -> (r: bool)
        ensures
            r == self.closed_at(0),
    {
        self.is_closed_at(0)
    }

    fn is_closed_at(&self, depth: usize) -> (r: bool)
        ensures
            r == self.closed_at(depth as nat),
        decreases self,
    {
        match self {
            Debruijn::Index(i) => *i <= depth,
            Debruijn::Application { func, arg } => func.is_closed_at(depth) && arg.is_closed_at(
                depth,
            ),
            Debruijn::Abstraction { body } => {
                if depth == usize::MAX {
                    // no index can exceed usize::MAX
                    proof {
                        lemma_closed_at_max(**body, (depth + 1) as nat);
                    }
                    true
                } else {
                    body.is_closed_at(depth + 1)
                }
            },
        }
    }

    /// The binary lambda calculus encoding of the term.
    pub fn to_binary_string(&self) -> (s: String)
        ensures
            s@ == binary(*self),
    {
        let mut s = String::new();
        self.write_binary(&mut s);
        proof {
            assert(Seq::<char>::empty() + binary(*self) =~= binary(*self));
        }
        s
    }

    fn write_binary(&self, out: &mut String)
        ensures
            final(out)@ == old(out)@ + binary(*self),
        decreases self,
    {
        match self {
            Debruijn::Index(index) => {
                let mut k: usize = 0;
                while k < *index
                    invariant
                        k <= *index,
                        out@ == old(out)@ + Seq::new(k as nat, |_j: int| '1'),
                    decreases *index - k,
                {
                    push_char(out, '1');
                    k = k + 1;
                    proof {
                        assert(Seq::new(k as nat, |_j: int| '1') =~= Seq::new(
                            (k - 1) as nat,
                            |_j: int| '1',
                        ).push('1'));
                    }
                }
                push_char(out, '0');
                proof {
                    assert(old(out)@ + binary(*self) =~= (old(out)@ + Seq::new(
                        *index as nat,
                        |_j: int| '1',
                    )).push('0'));
                }
            },
            Debruijn::Application { func, arg } => {
                push_char(out, '0');
                push_char(out, '1');
                let ghost mid = out@;
                func.write_binary(out);
                arg.write_binary(out);
                proof {
                    assert(old(out)@ + binary(*self) =~= old(out)@ + seq!['0', '1'] + binary(**func)
                        + binary(**arg));
                }
            },
            Debruijn::Abstraction { body } => {
                push_char(out, '0');
                push_char(out, '0');
                body.write_binary(out);
                proof {
                    assert(old(out)@ + binary(*self) =~= old(out)@ + seq!['0', '0'] + binary(**body));
                }
            },
        }
    }

    /// The usual textual form, e.g. `λ λ 2 (1 2)`.
    pub fn to_string(&self) -> (s: String)
        ensures
            s@ == debruijn_text(*self, PrintContext::initial()),
            self.indices_positive() ==> (crate::parse::debruijn::tokenize_spec(s@) is Ok
                && crate::parse::debruijn::parse_program_spec(
                crate::parse::debruijn::tokenize_spec(s@)->Ok_0,
            ) == Ok::<Debruijn, crate::parse::debruijn::ParseErrorView>(*self)),
    {
        let mut s = String::new();
        self.print(&mut s, PrintContext::new());
        proof {
            if self.indices_positive() {
                crate::print_facts::lemma_debruijn_text_reads_back(*self);
            }
            assert(Seq::<char>::empty() + debruijn_text(*self, PrintContext::initial())
                =~= debruijn_text(*self, PrintContext::initial()));
        }
        s
    }

    /// Appends the textual form of the term printed in context `ctx`.
    pub fn print(&self, out: &mut String, ctx: PrintContext)
        ensures
            final(out)@ == old(out)@ + debruijn_text(*self, ctx),
        decreases self,
    {
        match self {
            Debruijn::Index(i) => {
                push_decimal(out, *i);
            },
            Debruijn::Abstraction { body } => {
                if ctx.left_app_needs_parens {
                    push_str(out, "(");
                    push_str(out, "λ ");
                    body.print(out, ctx.abs_parens());
                    push_str(out, ")");
                } else {
                    push_str(out, "λ ");
                    body.print(out, ctx.abs_not_parens());
                }
                proof {
                    assert(old(out)@ + debruijn_text(*self, ctx) =~= out@);
                }
            },
            Debruijn::Application { func, arg } => {
                if ctx.right_app_immediate {
                    push_str(out, "(");
                }
                func.print(out, ctx.left_app());
                push_str(out, " ");
                arg.print(out, ctx.right_app());
                if ctx.right_app_immediate {
                    push_str(out, ")");
                }
                proof {
                    assert(old(out)@ + debruijn_text(*self, ctx) =~= out@);
                }
            },
        }
    }
}

proof fn lemma_closed_at_max(t: Debruijn, depth: nat)
    requires
        depth >= usize::MAX,
    ensures
        t.closed_at(depth),
    decreases t,
{
    match t {
        Debruijn::Index(_) => {},
        Debruijn::Application { func, arg } => {
            lemma_closed_at_max(*func, depth);
            lemma_closed_at_max(*arg, depth);
        },
        Debruijn::Abstraction { body } => {
            lemma_closed_at_max(*body, depth + 1);
        },
    }
}

impl Clone for Debruijn {
    fn clone(&self) -> (r: Debruijn)
        ensures
            r == *self,
    {
        self.copy()
    }
}

/// The binary lambda calculus encoding: `1^i 0` for index `i`, `00 M` for `λ M`, and
/// `01 M N` for `M N`.
pub open spec fn binary(t: Debruijn) -> Seq<char>
    decreases t,
{
    match t {
        Debruijn::Index(i) => Seq::new(i as nat, |_j: int| '1').push('0'),
        Debruijn::Application { func, arg } => seq!['0', '1'] + binary(*func) + binary(*arg),
        Debruijn::Abstraction { body } => seq!['0', '0'] + binary(*body),
    }
}

/// An index term.
pub fn idx(a: usize) -> (r: Debruijn)
    ensures
        r == Debruijn::Index(a),
{
    Debruijn::Index(a)
}

/// An abstraction with body `b`.
pub fn def(b: Debruijn) -> (r: Debruijn)
    ensures
        r == (Debruijn::Abstraction { body: Box::new(b) }),
{
    Debruijn::Abstraction { body: Box::new(b) }
}

/// The application of `a` to `b`.
pub fn call(a: Debruijn, b: Debruijn) -> (r: Debruijn)
    ensures
        r == (Debruijn::Application { func: Box::new(a), arg: Box::new(b) }),
{
    Debruijn::Application { func: Box::new(a), arg: Box::new(b) }
}

/// The position of the last occurrence of `name`, if any.
pub open spec fn last_pos(names: Seq<Seq<char>>, name: Seq<char>) -> Option<int>
    decreases names.len(),
{
    if names.len() == 0 {
        None
    } else if names.last() == name {
        Some(names.len() - 1)
    } else {
        last_pos(names.drop_last(), name)
    }
}

/// The de Bruijn index of a variable named `name` when `names` are the enclosing binders
/// (outermost first): the innermost binder with that name wins.
pub open spec fn index_of(names: Seq<Seq<char>>, name: Seq<char>) -> Option<nat> {
    match last_pos(names, name) {
        Some(k) => Some((names.len() - k) as nat),
        None => None,
    }
}

/// The message for a variable that no binder or context entry names.
pub open spec fn unbound_message(name: Seq<char>) -> Seq<char> {
    "unbound variable "@ + name
}

/// Compilation of a named term under binders `names`: the result, and the binders left
/// in the context afterwards (on failure, those entered on the way to the unbound name).
pub open spec fn compile_spec(t: TermView, names: Seq<Seq<char>>) -> (
    Result<Debruijn, Seq<char>>,
    Seq<Seq<char>>,
)
    decreases t,
{
    match t {
        TermView::Lit(l) => match index_of(names, l) {
            Some(i) => (Ok(Debruijn::Index(i as usize)), names),
            None => (Err(unbound_message(l)), names),
        },
        TermView::Abs(x, body) => {
            let (r, after) = compile_spec(*body, names.push(x));
            match r {
                Ok(b) => (Ok(Debruijn::Abstraction { body: Box::new(b) }), names),
                Err(e) => (Err(e), after),
            }
        },
        TermView::App(f, a) => {
            let (rf, after_f) = compile_spec(*f, names);
            match rf {
                Err(e) => (Err(e), after_f),
                Ok(fv) => {
                    let (ra, after_a) = compile_spec(*a, after_f);
                    match ra {
                        Err(e) => (Err(e), after_a),
                        Ok(av) => (
                            Ok(Debruijn::Application { func: Box::new(fv), arg: Box::new(av) }),
                            after_a,
                        ),
                    }
                },
            }
        },
    }
}

/// A successful compilation leaves the context as it was.
pub proof fn lemma_compile_ok_restores(t: TermView, names: Seq<Seq<char>>)
    ensures
        compile_spec(t, names).0 is Ok ==> compile_spec(t, names).1 == names,
    decreases t,
{
    match t {
        TermView::Lit(_) => {},
        TermView::Abs(x, body) => {
            lemma_compile_ok_restores(*body, names.push(x));
        },
        TermView::App(f, a) => {
            lemma_compile_ok_restores(*f, names);
            lemma_compile_ok_restores(*a, compile_spec(*f, names).1);
        },
    }
}

/// The binders in scope while compiling, outermost first.
#[derive(Debug, Clone)]
pub struct Context {
    names: Vec<Literal>,
}

impl Context {
    /// The names of the binders in scope, outermost first.
    pub closed spec fn names_view(&self) -> Seq<Seq<char>> {
        self.names@.map_values(|l: Literal| l.view())
    }

    /// An empty context.
    pub fn new() -> (c: Context)
        ensures
            c.names_view() == Seq::<Seq<char>>::empty(),
    {
        let c = Context { names: Vec::new() };
        proof {
            assert(c.names_view() =~= Seq::<Seq<char>>::empty());
        }
        c
    }

    /// A context with the given binders, outermost first.
    pub fn from_names(names: &[&str]) -> (c: Context)
        ensures
            c.names_view().len() == names@.len(),
            forall|k: int| 0 <= k < names@.len() ==> c.names_view()[k] == (#[trigger] names@[k])@,
    {
        let mut c = Context::new();
        let mut i: usize = 0;
        while i < names.len()
            invariant
                i <= names@.len(),
                c.names_view().len() == i,
                forall|k: int| 0 <= k < i ==> c.names_view()[k] == (#[trigger] names@[k])@,
            decreases names@.len() - i,
        {
            c.push_literal(names[i]);
            i = i + 1;
        }
        c
    }

    /// Enters a binder named `literal`.
    pub fn push_literal(&mut self, literal: &str)
        ensures
            final(self).names_view() == old(self).names_view().push(literal@),
    {
        self.push_name(Literal::new(literal));
    }

    fn push_name(&mut self, literal: Literal)
        ensures
            final(self).names_view() == old(self).names_view().push(literal.view()),
    {
        self.names.push(literal);
        proof {
            assert(self.names_view() =~= old(self).names_view().push(literal.view()));
        }
    }

    fn pop_literal(&mut self, literal: &Literal)
        requires
            old(self).names_view().len() > 0,
            old(self).names_view().last() == literal.view(),
        ensures
            final(self).names_view() == old(self).names_view().drop_last(),
    {
        self.names.pop();
        proof {
            assert(self.names_view() =~= old(self).names_view().drop_last());
        }
    }

    fn get_index(&self, literal: &Literal) -> (r: Option<usize>)
        ensures
            r matches Some(i) ==> index_of(self.names_view(), literal.view()) == Some(i as nat),
            r is None ==> index_of(self.names_view(), literal.view()) is None,
    {
        let n = self.names.len();
        let mut i = n;
        proof {
            assert(self.names_view().take(n as int) =~= self.names_view());
        }
        while i > 0
            invariant
                i <= n,
                n == self.names@.len(),
                last_pos(self.names_view(), literal.view()) == last_pos(
                    self.names_view().take(i as int),
                    literal.view(),
                ),
            decreases i,
        {
            let ghost names = self.names_view();
            if self.names[i - 1].0 == literal.0 {
                proof {
                    assert(names.take(i as int).last() == literal.view());
                }
                return Some(n - (i - 1));
            }
            proof {
                assert(names.take(i as int).drop_last() =~= names.take(i - 1));
            }
            i = i - 1;
        }
        proof {
            assert(self.names_view().take(0) =~= Seq::<Seq<char>>::empty());
        }
        None
    }
}

impl Default for Context {
    fn default() -> (c: Context)
        ensures
            c.names_view() == Seq::<Seq<char>>::empty(),
    {
        Context::new()
    }
}

/// Compiles a named term into de Bruijn notation. Variables that no abstraction of the
/// term binds are looked up in `ctx`; an unbound variable is an error naming it.
pub fn compile(term: Term, ctx: &mut Context) -> (r: Result<Debruijn, String>)
    ensures
        compile_spec(term.view(), old(ctx).names_view()).0 matches Ok(d) ==> r == Ok::<
            Debruijn,
            String,
        >(d),
        compile_spec(term.view(), old(ctx).names_view()).0 matches Err(e) ==> (r matches Err(m)
            && m@ == e),
        final(ctx).names_view() == compile_spec(term.view(), old(ctx).names_view()).1,
    decreases term,
{
    proof {
        lemma_compile_ok_restores(term.view(), ctx.names_view());
    }
    match term {
        Term::Literal(literal) => match ctx.get_index(&literal) {
            Some(index) => Ok(Debruijn::Index(index)),
            None => {
                let mut message = string_of("unbound variable ");
                push_str(&mut message, literal.0.as_str());
                Err(message)
            },
        },
        Term::Abstraction { arg, body } => {
            let name = arg.duplicate();
            ctx.push_name(arg);
            proof {
                lemma_compile_ok_restores((*body).view(), ctx.names_view());
            }
            let compiled = compile(*body, ctx);
            match compiled {
                Ok(b) => {
                    ctx.pop_literal(&name);
                    Ok(Debruijn::Abstraction { body: Box::new(b) })
                },
                Err(e) => Err(e),
            }
        },
        Term::Application { func, arg } => {
            let f = compile(*func, ctx);
            match f {
                Err(e) => Err(e),
                Ok(fv) => {
                    proof {
                        lemma_compile_ok_restores((*func).view(), old(ctx).names_view());
                        lemma_compile_ok_restores((*arg).view(), ctx.names_view());
                    }
                    let a = compile(*arg, ctx);
                    match a {
                        Err(e) => Err(e),
                        Ok(av) => Ok(Debruijn::Application { func: Box::new(fv), arg: Box::new(av) }),
                    }
                },
            }
        },
    }
}

/// Compiles a closed named term (the conversion from `Term`).
pub fn try_from_term(term: Term) -> (r: Result<Debruijn, String>)
    ensures
        compile_spec(term.view(), Seq::empty()).0 matches Ok(d) ==> r == Ok::<Debruijn, String>(d),
        compile_spec(term.view(), Seq::empty()).0 matches Err(e) ==> (r matches Err(m) && m@ == e),
{
    let mut ctx = Context::new();
    compile(term, &mut ctx)
}

} // verus!

verus! {

/// Whether a character is numeric in the Unicode sense (`char::is_numeric`).
pub uninterp spec fn numeric_char(c: char) -> bool;

/// `char::is_numeric`. Trusted: the result is `numeric_char(c)`, and among ASCII characters
/// exactly the digits are numeric.
#[verifier::external_body]
fn is_numeric(c: char) -> (r: bool)
    ensures
        r == numeric_char(c),
        (c as u32) < 128 ==> (r <==> ('0' <= c <= '9')),
{
    c.is_numeric()
}

/// Whether some character of `s` is numeric.
pub open spec fn has_numeric(s: Seq<char>) -> bool {
    exists|i: int| 0 <= i < s.len() && numeric_char(#[trigger] s[i])
}

/// A failure to read a term from text.
#[derive(Debug)]
pub enum FromStrError {
    /// The text holds a digit and is not a de Bruijn term.
    Debruijn(crate::parse::debruijn::ParseError),
    /// The text holds no digit and is not a named term.
    Term(crate::parse::ParseError),
    /// The named term has a free variable.
    Unbound(String),
}

/// The mathematical value of a failure to read a term.
pub ghost enum FromStrErrorView {
    Debruijn(crate::parse::debruijn::ParseErrorView),
    Term(crate::parse::ParseErrorView),
    Unbound(Seq<char>),
}

impl FromStrError {
    pub open spec fn view(self) -> FromStrErrorView {
        match self {
            FromStrError::Debruijn(e) => FromStrErrorView::Debruijn(e.view()),
            FromStrError::Term(e) => FromStrErrorView::Term(e.view()),
            FromStrError::Unbound(m) => FromStrErrorView::Unbound(m@),
        }
    }
}

/// Reading a term from text: text with a numeric character is read as a de Bruijn term,
/// other text as a closed named term, which is then compiled.
pub open spec fn from_str_spec(s: Seq<char>) -> Result<Debruijn, FromStrErrorView> {
    if has_numeric(s) {
        match crate::parse::debruijn::tokenize_spec(s) {
            Err(token) => Err(
                FromStrErrorView::Debruijn(
                    crate::parse::debruijn::ParseErrorView::ParseIntError { token },
                ),
            ),
            Ok(ts) => match crate::parse::debruijn::parse_program_spec(ts) {
                Ok(t) => Ok(t),
                Err(e) => Err(FromStrErrorView::Debruijn(e)),
            },
        }
    } else {
        match crate::parse::parse_program_spec(crate::parse::tokenize_spec(s)) {
            Err(e) => Err(FromStrErrorView::Term(e)),
            Ok(tv) => match compile_spec(tv, Seq::empty()).0 {
                Ok(d) => Ok(d),
                Err(m) => Err(FromStrErrorView::Unbound(m)),
            },
        }
    }
}

impl Debruijn {
    /// Reads a term written in de Bruijn notation (`λ λ 2 1`) or with names (`λx.λy.x y`).
    pub fn from_str(term: &str) -> (r: Result<Debruijn, FromStrError>)
        ensures
            from_str_spec(term@) matches Ok(t) ==> r == Ok::<Debruijn, FromStrError>(t),
            from_str_spec(term@) matches Err(e) ==> (r matches Err(x) && x.view() == e),
    {
        let chars = crate::text::chars_of(term);
        let mut numeric = false;
        let mut i: usize = 0;
        while i < chars.len()
            invariant
                chars@ == term@,
                i <= chars@.len(),
                numeric == (exists|j: int| 0 <= j < i && numeric_char(#[trigger] chars@[j])),
            decreases chars@.len() - i,
        {
            if is_numeric(chars[i]) {
                numeric = true;
            }
            i = i + 1;
        }
        if numeric {
            let tokens = crate::parse::debruijn::tokenize(term);
            match tokens {
                Err(e) => Err(FromStrError::Debruijn(e)),
                Ok(tokens) => match crate::parse::debruijn::parse_program(tokens.as_slice()) {
                    Ok(t) => Ok(t),
                    Err(e) => Err(FromStrError::Debruijn(e)),
                },
            }
        } else {
            let tokens = crate::parse::tokenize(term);
            match crate::parse::parse_program(tokens.as_slice()) {
                Err(e) => Err(FromStrError::Term(e)),
                Ok(classic) => match try_from_term(classic) {
                    Ok(d) => Ok(d),
                    Err(m) => Err(FromStrError::Unbound(m)),
                },
            }
        }
    }
}

} // verus!
