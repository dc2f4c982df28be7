//! Lambda terms with named variables.
use vstd::prelude::*;

use crate::debruijn::{compile_spec, index_of, last_pos, Debruijn};
use crate::parse::debruijn::digits_value;
use crate::parse::is_delimiter;
use crate::term_print_facts::{names_plain, plain_name};
use crate::text::{
    decimal, decimal_string, digit_char, digit_value, is_ascii_digit, push_char, push_decimal, push_str, string_of,
};

verus! {

/// A variable name.
#[derive(Debug, Clone, PartialEq, Eq, Hash)]
pub struct Literal(pub String);

/// A term in the lambda calculus.
#[derive(Debug, PartialEq, Eq)]
#[allow(inconsistent_fields)]
pub enum Term {
    Literal(Literal),
    Abstraction { arg: Literal, body: Box<Term> },
    Application { func: Box<Term>, arg: Box<Term> },
}

/// The mathematical shape of a term: names are character sequences.
pub ghost enum TermView {
    Lit(Seq<char>),
    Abs(Seq<char>, Box<TermView>),
    App(Box<TermView>, Box<TermView>),
}

impl Literal {
    pub open spec fn view(self) -> Seq<char> {
        self.0@
    }

    /// A literal with the given name.
    pub fn new(name: &str) -> (l: Literal)
        ensures
            l.view() == name@,
    {
        Literal(string_of(name))
    }

    /// A copy of this literal.
    pub fn duplicate(&self) -> (l: Literal)
        ensures
            l.view() == self.view(),
    {
        Literal(self.0.clone())
    }
}

impl Term {
    pub open spec fn view(self) -> TermView
        decreases self,
    {
        match self {
            Term::Literal(l) => TermView::Lit(l.0@),
            Term::Abstraction { arg, body } => TermView::Abs(arg.0@, Box::new((*body).view())),
            Term::Application { func, arg } => TermView::App(
                Box::new((*func).view()),
                Box::new((*arg).view()),
            ),
        }
    }
}

/// A literal term.
pub fn lit(l: &str) -> (t: Term)
    ensures
        t.view() == TermView::Lit(l@),
{
    Term::Literal(Literal::new(l))
}

/// A literal term from an owned literal.
pub fn lit_of(l: Literal) -> (t: Term)
    ensures
        t.view() == TermView::Lit(l.view()),
{
    Term::Literal(l)
}

/// A lambda abstraction binding `i` in `b`.
pub fn def(i: &str, b: Term) -> (t: Term)
    ensures
        t.view() == TermView::Abs(i@, Box::new(b.view())),
{
    Term::Abstraction { arg: Literal::new(i), body: Box::new(b) }
}

/// A lambda abstraction from an owned literal.
pub fn def_of(i: Literal, b: Term) -> (t: Term)
    ensures
        t.view() == TermView::Abs(i.view(), Box::new(b.view())),
{
    Term::Abstraction { arg: i, body: Box::new(b) }
}

/// A function application.
pub fn call(a: Term, b: Term) -> (t: Term)
    ensures
        t.view() == TermView::App(Box::new(a.view()), Box::new(b.view())),
{
    Term::Application { func: Box::new(a), arg: Box::new(b) }
}

/// The letters used to name bound variables, in order.
pub open spec fn alphabet() -> Seq<char> {
    seq![
        'a', 'b', 'c', 'd', 'e', 'f', 'g', 'h', 'i', 'j', 'k', 'l', 'm', 'n', 'o', 'p', 'q', 'r',
        's', 't', 'u', 'v', 'w', 'x', 'y', 'z', 'A', 'B', 'C', 'D', 'E', 'F', 'G', 'H', 'I', 'J',
        'K', 'L', 'M', 'N', 'O', 'P', 'Q', 'R', 'S', 'T', 'U', 'V', 'W', 'X', 'Y', 'Z',
    ]
}

/// The name given to the `n`-th bound variable (counting binders from the outside):
/// a letter, followed by a decimal suffix after the first 52 names.
pub open spec fn var_name(n: nat) -> Seq<char> {
    let letter = alphabet()[(n % 52) as int];
    let subscript = n / 52;
    if subscript > 0 {
        seq![letter] + decimal((subscript - 1) as nat)
    } else {
        seq![letter]
    }
}

/// The name given to a free index `k` levels above the outermost binder.
pub open spec fn unbound_name(k: nat) -> Seq<char> {
    seq!['u', '_'] + decimal(k)
}

/// The named term for a de Bruijn term under `depth` enclosing binders.
pub open spec fn from_debruijn_spec(t: Debruijn, depth: nat) -> TermView
    decreases t,
{
    match t {
        Debruijn::Index(i) => if i <= depth {
            TermView::Lit(var_name((depth - i) as nat))
        } else {
            TermView::Lit(unbound_name((i - depth) as nat))
        },
        Debruijn::Application { func, arg } => TermView::App(
            Box::new(from_debruijn_spec(*func, depth)),
            Box::new(from_debruijn_spec(*arg, depth)),
        ),
        Debruijn::Abstraction { body } => TermView::Abs(
            var_name(depth),
            Box::new(from_debruijn_spec(*body, depth + 1)),
        ),
    }
}

/// The names in scope for `m` free variables, the one farthest past the outermost binder
/// first: `u_m`, ..., `u_1`.
pub open spec fn free_names(m: nat) -> Seq<Seq<char>> {
    Seq::new(m, |j: int| unbound_name((m - j) as nat))
}

/// The names that `from_debruijn` gives `d` nested binders, outermost first.
pub open spec fn bound_names(d: nat) -> Seq<Seq<char>> {
    Seq::new(d, |j: int| var_name(j as nat))
}

/// The character code of the letter at position `i` of the alphabet.
pub open spec fn letter_code(i: int) -> int {
    if i < 26 {
        97 + i
    } else {
        65 + (i - 26)
    }
}

proof fn lemma_letter_code(i: int)
    requires
        0 <= i < 52,
    ensures
        alphabet()[i] as int == letter_code(i),
{
    if i == 0 {
        assert(alphabet()[0] as int == 97);
    } else if i == 1 {
        assert(alphabet()[1] as int == 98);
    } else if i == 2 {
        assert(alphabet()[2] as int == 99);
    } else if i == 3 {
        assert(alphabet()[3] as int == 100);
    } else if i == 4 {
        assert(alphabet()[4] as int == 101);
    } else if i == 5 {
        assert(alphabet()[5] as int == 102);
    } else if i == 6 {
        assert(alphabet()[6] as int == 103);
    } else if i == 7 {
        assert(alphabet()[7] as int == 104);
    } else if i == 8 {
        assert(alphabet()[8] as int == 105);
    } else if i == 9 {
        assert(alphabet()[9] as int == 106);
    } else if i == 10 {
        assert(alphabet()[10] as int == 107);
    } else if i == 11 {
        assert(alphabet()[11] as int == 108);
    } else if i == 12 {
        assert(alphabet()[12] as int == 109);
    } else if i == 13 {
        assert(alphabet()[13] as int == 110);
    } else if i == 14 {
        assert(alphabet()[14] as int == 111);
    } else if i == 15 {
        assert(alphabet()[15] as int == 112);
    } else if i == 16 {
        assert(alphabet()[16] as int == 113);
    } else if i == 17 {
        assert(alphabet()[17] as int == 114);
    } else if i == 18 {
        assert(alphabet()[18] as int == 115);
    } else if i == 19 {
        assert(alphabet()[19] as int == 116);
    } else if i == 20 {
        assert(alphabet()[20] as int == 117);
    } else if i == 21 {
        assert(alphabet()[21] as int == 118);
    } else if i == 22 {
        assert(alphabet()[22] as int == 119);
    } else if i == 23 {
        assert(alphabet()[23] as int == 120);
    } else if i == 24 {
        assert(alphabet()[24] as int == 121);
    } else if i == 25 {
        assert(alphabet()[25] as int == 122);
    } else if i == 26 {
        assert(alphabet()[26] as int == 65);
    } else if i == 27 {
        assert(alphabet()[27] as int == 66);
    } else if i == 28 {
        assert(alphabet()[28] as int == 67);
    } else if i == 29 {
        assert(alphabet()[29] as int == 68);
    } else if i == 30 {
        assert(alphabet()[30] as int == 69);
    } else if i == 31 {
        assert(alphabet()[31] as int == 70);
    } else if i == 32 {
        assert(alphabet()[32] as int == 71);
    } else if i == 33 {
        assert(alphabet()[33] as int == 72);
    } else if i == 34 {
        assert(alphabet()[34] as int == 73);
    } else if i == 35 {
        assert(alphabet()[35] as int == 74);
    } else if i == 36 {
        assert(alphabet()[36] as int == 75);
    } else if i == 37 {
        assert(alphabet()[37] as int == 76);
    } else if i == 38 {
        assert(alphabet()[38] as int == 77);
    } else if i == 39 {
        assert(alphabet()[39] as int == 78);
    } else if i == 40 {
        assert(alphabet()[40] as int == 79);
    } else if i == 41 {
        assert(alphabet()[41] as int == 80);
    } else if i == 42 {
        assert(alphabet()[42] as int == 81);
    } else if i == 43 {
        assert(alphabet()[43] as int == 82);
    } else if i == 44 {
        assert(alphabet()[44] as int == 83);
    } else if i == 45 {
        assert(alphabet()[45] as int == 84);
    } else if i == 46 {
        assert(alphabet()[46] as int == 85);
    } else if i == 47 {
        assert(alphabet()[47] as int == 86);
    } else if i == 48 {
        assert(alphabet()[48] as int == 87);
    } else if i == 49 {
        assert(alphabet()[49] as int == 88);
    } else if i == 50 {
        assert(alphabet()[50] as int == 89);
    } else if i == 51 {
        assert(alphabet()[51] as int == 90);
    }
}

proof fn lemma_digit_char(d: nat)
    requires
        d < 10,
    ensures
        digit_value(digit_char(d)) == d,
        is_ascii_digit(digit_char(d)),
{
}

/// The decimal text of `n` is a non-empty run of digits whose value is `n`.
pub(crate) proof fn lemma_decimal(n: nat)
    ensures
        decimal(n).len() >= 1,
        forall|j: int| 0 <= j < decimal(n).len() ==> is_ascii_digit(#[trigger] decimal(n)[j]),
        digits_value(decimal(n)) == n,
    decreases n,
{
    if n < 10 {
        lemma_digit_char(n);
        assert(decimal(n).drop_last() =~= Seq::<char>::empty());
        assert(digits_value(Seq::<char>::empty()) == 0);
        assert(decimal(n).last() == digit_char(n));
        assert(digits_value(decimal(n)) == digits_value(decimal(n).drop_last()) * 10 + digit_value(decimal(n).last()));
    } else {
        lemma_decimal(n / 10);
        lemma_digit_char(n % 10);
        assert(decimal(n).drop_last() =~= decimal(n / 10));
        assert(decimal(n).last() == digit_char(n % 10));
        assert(digits_value(decimal(n)) == digits_value(decimal(n).drop_last()) * 10 + digit_value(decimal(n).last()));
        assert(n == (n / 10) * 10 + n % 10) by (nonlinear_arith);
    }
}

/// Different numbers have different names.
proof fn lemma_var_name_injective(a: nat, b: nat)
    requires
        var_name(a) == var_name(b),
    ensures
        a == b,
{
    lemma_letter_code((a % 52) as int);
    lemma_letter_code((b % 52) as int);
    let la = alphabet()[(a % 52) as int];
    let lb = alphabet()[(b % 52) as int];
    assert(var_name(a)[0] == la);
    assert(var_name(b)[0] == lb);
    assert(a % 52 == b % 52);
    if a / 52 > 0 {
        lemma_decimal((a / 52 - 1) as nat);
    }
    if b / 52 > 0 {
        lemma_decimal((b / 52 - 1) as nat);
    }
    if a / 52 > 0 && b / 52 > 0 {
        assert(var_name(a).subrange(1, var_name(a).len() as int) =~= decimal((a / 52 - 1) as nat));
        assert(var_name(b).subrange(1, var_name(b).len() as int) =~= decimal((b / 52 - 1) as nat));
        lemma_decimal((a / 52 - 1) as nat);
        lemma_decimal((b / 52 - 1) as nat);
    }
    assert(a / 52 == b / 52);
    assert(a == (a / 52) * 52 + a % 52) by (nonlinear_arith);
    assert(b == (b / 52) * 52 + b % 52) by (nonlinear_arith);
}

/// A variable name is a non-empty run of characters that are not delimiters.
proof fn lemma_var_name_plain(n: nat)
    ensures
        plain_name(var_name(n)),
{
    lemma_letter_code((n % 52) as int);
    let letter = alphabet()[(n % 52) as int];
    if n / 52 > 0 {
        let d = decimal((n / 52 - 1) as nat);
        lemma_decimal((n / 52 - 1) as nat);
        assert forall|j: int| 0 <= j < var_name(n).len() implies !is_delimiter(#[trigger] var_name(n)[j]) by {
            if j > 0 {
                assert(var_name(n)[j] == d[j - 1]);
            }
        }
    }
}

/// A free variable's name is a non-empty run of characters that are not delimiters.
proof fn lemma_unbound_name_plain(k: nat)
    ensures
        plain_name(unbound_name(k)),
{
    let d = decimal(k);
    lemma_decimal(k);
    assert forall|j: int| 0 <= j < unbound_name(k).len() implies !is_delimiter(#[trigger] unbound_name(k)[j]) by {
        if j > 1 {
            assert(unbound_name(k)[j] == d[j - 2]);
        }
    }
}

/// Every name that naming a de Bruijn term gives is plain, so the printed named term reads
/// back as itself.
pub proof fn lemma_from_debruijn_names_plain(t: Debruijn, depth: nat)
    ensures
        names_plain(from_debruijn_spec(t, depth)),
    decreases t,
{
    match t {
        Debruijn::Index(i) => {
            if i <= depth {
                lemma_var_name_plain((depth - i) as nat);
            } else {
                lemma_unbound_name_plain((i - depth) as nat);
            }
        },
        Debruijn::Application { func, arg } => {
            lemma_from_debruijn_names_plain(*func, depth);
            lemma_from_debruijn_names_plain(*arg, depth);
        },
        Debruijn::Abstraction { body } => {
            lemma_var_name_plain(depth);
            lemma_from_debruijn_names_plain(*body, depth + 1);
        },
    }
}

/// A bound name is never the name of a free variable.
proof fn lemma_bound_not_free(n: nat, k: nat)
    ensures
        var_name(n) != unbound_name(k),
{
    lemma_decimal(k);
    if n / 52 > 0 {
        lemma_decimal((n / 52 - 1) as nat);
        assert(var_name(n)[1] == decimal((n / 52 - 1) as nat)[0]);
        assert(unbound_name(k)[1] == '_');
    } else {
        assert(var_name(n).len() == 1);
    }
}

/// Different heights give different free names.
proof fn lemma_unbound_injective(a: nat, b: nat)
    requires
        unbound_name(a) == unbound_name(b),
    ensures
        a == b,
{
    assert(unbound_name(a).subrange(2, unbound_name(a).len() as int) =~= decimal(a));
    assert(unbound_name(b).subrange(2, unbound_name(b).len() as int) =~= decimal(b));
    lemma_decimal(a);
    lemma_decimal(b);
}

/// The last position that holds `name`.
proof fn lemma_last_pos(names: Seq<Seq<char>>, name: Seq<char>, k: int)
    requires
        0 <= k < names.len(),
        names[k] == name,
        forall|j: int| k < j < names.len() ==> names[j] != name,
    ensures
        last_pos(names, name) == Some(k),
    decreases names.len(),
{
    if k < names.len() - 1 {
        assert(names.last() != name);
        lemma_last_pos(names.drop_last(), name, k);
    }
}

/// Under binders named as `from_debruijn` names them, after the names of `m` free variables,
/// the named form of a term compiles back to the term.
proof fn lemma_named_compiles(t: Debruijn, m: nat, d: nat)
    requires
        t.indices_positive(),
        t.closed_at(m + d),
    ensures
        compile_spec(from_debruijn_spec(t, d), free_names(m) + bound_names(d)) == (
            Ok::<Debruijn, Seq<char>>(t),
            free_names(m) + bound_names(d),
        ),
    decreases t,
{
    let names = free_names(m) + bound_names(d);
    match t {
        Debruijn::Index(i) => {
            if i <= d {
                let k = m + d - i;
                let name = var_name((d - i) as nat);
                assert(names[k] == name);
                assert forall|j: int| k < j < names.len() implies names[j] != name by {
                    assert(names[j] == var_name((j - m) as nat));
                    if names[j] == name {
                        lemma_var_name_injective((j - m) as nat, (d - i) as nat);
                    }
                }
                lemma_last_pos(names, name, k);
                assert(index_of(names, name) == Some(i as nat));
            } else {
                let h = (i - d) as nat;
                let k = m - h;
                let name = unbound_name(h);
                assert(names[k] == name);
                assert forall|j: int| k < j < names.len() implies names[j] != name by {
                    if j < m {
                        assert(names[j] == unbound_name((m - j) as nat));
                        if names[j] == name {
                            lemma_unbound_injective((m - j) as nat, h);
                        }
                    } else {
                        assert(names[j] == var_name((j - m) as nat));
                        lemma_bound_not_free((j - m) as nat, h);
                    }
                }
                lemma_last_pos(names, name, k);
                assert(index_of(names, name) == Some(i as nat));
            }
        },
        Debruijn::Abstraction { body } => {
            assert(names.push(var_name(d)) =~= free_names(m) + bound_names(d + 1));
            lemma_named_compiles(*body, m, d + 1);
        },
        Debruijn::Application { func, arg } => {
            lemma_named_compiles(*func, m, d);
            lemma_named_compiles(*arg, m, d);
        },
    }
}

/// Naming a term's variables and compiling the names back gives the term back: a bound index
/// becomes the name of the binder it counts up to, and a free index the name of how far it
/// points past the outermost binder, so that with the names of the term's `m` free variables
/// in scope (the farthest first) the named term compiles to the term.
pub proof fn lemma_from_debruijn_compiles_back(t: Debruijn, m: nat)
    requires
        t.indices_positive(),
        t.closed_at(m),
    ensures
        compile_spec(from_debruijn_spec(t, 0), free_names(m)) == (Ok::<Debruijn, Seq<char>>(t), free_names(m)),
{
    assert(free_names(m) + bound_names(0) =~= free_names(m));
    lemma_named_compiles(t, m, 0);
}

fn letter(i: usize) -> (c: char)
    requires
        i < 52,
    ensures
        c == alphabet()[i as int],
{
    let letters = [
        'a', 'b', 'c', 'd', 'e', 'f', 'g', 'h', 'i', 'j', 'k', 'l', 'm', 'n', 'o', 'p', 'q', 'r',
        's', 't', 'u', 'v', 'w', 'x', 'y', 'z', 'A', 'B', 'C', 'D', 'E', 'F', 'G', 'H', 'I', 'J',
        'K', 'L', 'M', 'N', 'O', 'P', 'Q', 'R', 'S', 'T', 'U', 'V', 'W', 'X', 'Y', 'Z',
    ];
    assert(letters@ =~= alphabet());
    letters[i]
}

/// The names of the binders around the current position, outermost first.
struct Context {
    variables: Vec<Literal>,
}

impl Context {
    spec fn wf(&self) -> bool {
        forall|k: int| 0 <= k < self.variables@.len() ==> #[trigger] self.variables@[k].view()
            == var_name(k as nat)
    }

    fn new() -> (c: Context)
        ensures
            c.wf(),
            c.variables@.len() == 0,
    {
        Context { variables: Vec::new() }
    }

    /// The name of the binder `index` levels up (1 is the innermost), if there is one.
    fn get(&self, index: usize) -> (r: Option<Literal>)
        requires
            self.wf(),
            index >= 1,
        ensures
            index <= self.variables@.len() ==> (r matches Some(l) && l.view() == var_name(
                (self.variables@.len() - index) as nat,
            )),
            index > self.variables@.len() ==> r is None,
    {
        let n = self.variables.len();
        if index <= n {
            Some(self.variables[n - index].duplicate())
        } else {
            None
        }
    }

    /// Introduces a fresh binder and returns its name.
    fn push_variable(&mut self) -> (l: Literal)
        requires
            old(self).wf(),
        ensures
            final(self).wf(),
            final(self).variables@.len() == old(self).variables@.len() + 1,
            final(self).variables@.drop_last() == old(self).variables@,
            l.view() == var_name(old(self).variables@.len() as nat),
    {
        let n = self.variables.len();
        let c = letter(n % 52);
        let subscript = n / 52;
        let mut s = String::new();
        push_char(&mut s, c);
        if subscript > 0 {
            push_decimal(&mut s, subscript - 1);
        }
        let literal = Literal(s);
        proof {
            assert(literal.view() =~= var_name(n as nat));
        }
        let copy = literal.duplicate();
        self.variables.push(literal);
        proof {
            assert(self.variables@.drop_last() =~= old(self).variables@);
        }
        copy
    }

    fn pop_variable(&mut self)
        requires
            old(self).wf(),
            old(self).variables@.len() > 0,
        ensures
            final(self).wf(),
            final(self).variables@ == old(self).variables@.drop_last(),
    {
        self.variables.pop();
    }
}

/// Gives a de Bruijn term names: the binder `k` levels from the outside is named
/// `var_name(k)`, and an index pointing `k` levels past the outermost binder becomes `u_k`.
pub fn from_debruijn(debruijn: &Debruijn) -> (t: Term)
    requires
        debruijn.indices_positive(),
    ensures
        t.view() == from_debruijn_spec(*debruijn, 0),
        names_plain(t.view()),
        forall|m: nat|
            debruijn.closed_at(m) ==> #[trigger] compile_spec(t.view(), free_names(m)).0 == Ok::<Debruijn, Seq<char>>(
                *debruijn,
            ),
{
    let mut ctx = Context::new();
    let t = from_debruijn_in(debruijn, &mut ctx);
    proof {
        lemma_from_debruijn_names_plain(*debruijn, 0);
        assert forall|m: nat| debruijn.closed_at(m) implies #[trigger] compile_spec(t.view(), free_names(m)).0 == Ok::<
            Debruijn,
            Seq<char>,
        >(*debruijn) by {
            lemma_from_debruijn_compiles_back(*debruijn, m);
        }
    }
    t
}

fn from_debruijn_in(debruijn: &Debruijn, ctx: &mut Context) -> (t: Term)
    requires
        old(ctx).wf(),
        debruijn.indices_positive(),
    ensures
        final(ctx).wf(),
        final(ctx).variables@ == old(ctx).variables@,
        t.view() == from_debruijn_spec(*debruijn, old(ctx).variables@.len() as nat),
    decreases debruijn,
{
    match debruijn {
        Debruijn::Index(index) => {
            match ctx.get(*index) {
                Some(l) => lit_of(l),
                None => {
                    let depth = ctx.variables.len();
                    let mut name = string_of("u_");
                    push_decimal(&mut name, *index - depth);
                    proof {
                        reveal_strlit("u_");
                        assert(name@ =~= unbound_name((*index - depth) as nat));
                    }
                    lit_of(Literal(name))
                },
            }
        },
        Debruijn::Application { func, arg } => {
            let f = from_debruijn_in(func, ctx);
            let a = from_debruijn_in(arg, ctx);
            call(f, a)
        },
        Debruijn::Abstraction { body } => {
            let literal = ctx.push_variable();
            let b = from_debruijn_in(body, ctx);
            ctx.pop_variable();
            proof {
                assert(ctx.variables@ =~= old(ctx).variables@);
            }
            def_of(literal, b)
        },
    }
}

} // verus!
