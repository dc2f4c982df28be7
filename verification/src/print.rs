//! Printing terms with the minimal parentheses that keep them unambiguous.
use vstd::prelude::*;

use crate::common_terms;
use crate::debruijn::{binary, Debruijn};
use crate::term::{from_debruijn, from_debruijn_spec, Term, TermView};
use crate::text::{decimal, decimal_string, push_char, push_decimal, push_str, string_of};

verus! {

/// How a node of a reduction graph is labelled.
#[derive(Debug, Clone, Copy, PartialEq, Eq)]
pub enum NodeLabelType {
    Debruijn,
    DebruijnCommonTerm,
    Binary,
    BinaryLen,
    Classic,
}

impl NodeLabelType {
    /// The label of `term`: its textual form, its common-term name, its binary encoding,
    /// the length of that encoding, or its named form.
    pub fn to_string(&self, term: &Debruijn) -> (s: String)
        requires
            *self is Classic ==> term.indices_positive(),
            *self is DebruijnCommonTerm ==> term.size() <= usize::MAX,
        ensures
            *self is Debruijn ==> s@ == debruijn_text(*term, PrintContext::initial()),
            *self is DebruijnCommonTerm ==> s@ == common_terms::common_name(*term),
            *self is Binary ==> s@ == binary(*term),
            *self is BinaryLen ==> s@ == decimal(binary(*term).len()),
            *self is Classic ==> s@ == term_text(
                from_debruijn_spec(*term, 0),
                PrintContext::initial(),
            ),
    {
        match self {
            NodeLabelType::Debruijn => term.to_string(),
            NodeLabelType::DebruijnCommonTerm => common_terms::to_string(term),
            NodeLabelType::Binary => term.to_binary_string(),
            NodeLabelType::BinaryLen => {
                let b = term.to_binary_string();
                decimal_string(b.unicode_len())
            },
            NodeLabelType::Classic => from_debruijn(term).to_string(),
        }
    }
}

/// Where in an application a node is printed.
#[derive(Debug, Clone, Copy, PartialEq, Eq)]
pub struct PrintContext {
    /// The node is inside the function half of an application and no parenthesis has been
    /// opened yet: an abstraction here must be parenthesized, since its body would otherwise
    /// extend over the argument.
    pub left_app_needs_parens: bool,
    /// The node is the argument of its parent application: an application here must be
    /// parenthesized, since application associates to the left.
    pub right_app_immediate: bool,
}

impl PrintContext {
    pub open spec fn initial() -> PrintContext {
        PrintContext { left_app_needs_parens: false, right_app_immediate: false }
    }

    pub open spec fn abs_not_parens_spec(self) -> PrintContext {
        PrintContext { left_app_needs_parens: self.left_app_needs_parens, right_app_immediate: false }
    }

    pub open spec fn abs_parens_spec(self) -> PrintContext {
        PrintContext { left_app_needs_parens: false, right_app_immediate: false }
    }

    pub open spec fn left_app_spec(self) -> PrintContext {
        PrintContext { left_app_needs_parens: true, right_app_immediate: false }
    }

    pub open spec fn right_app_spec(self) -> PrintContext {
        PrintContext { left_app_needs_parens: self.left_app_needs_parens, right_app_immediate: true }
    }

    pub fn new() -> (r: PrintContext)
        ensures
            r == PrintContext::initial(),
    {
        PrintContext { left_app_needs_parens: false, right_app_immediate: false }
    }

    pub fn abs_not_parens(&self) -> (r: PrintContext)
        ensures
            r == self.abs_not_parens_spec(),
    {
        PrintContext { left_app_needs_parens: self.left_app_needs_parens, right_app_immediate: false }
    }

    pub fn abs_parens(&self) -> (r: PrintContext)
        ensures
            r == self.abs_parens_spec(),
    {
        PrintContext { left_app_needs_parens: false, right_app_immediate: false }
    }

    pub fn left_app(&self) -> (r: PrintContext)
        ensures
            r == self.left_app_spec(),
    {
        PrintContext { left_app_needs_parens: true, right_app_immediate: false }
    }

    pub fn right_app(&self) -> (r: PrintContext)
        ensures
            r == self.right_app_spec(),
    {
        PrintContext { left_app_needs_parens: self.left_app_needs_parens, right_app_immediate: true }
    }
}

/// The text of a de Bruijn term printed in context `ctx`.
pub open spec fn debruijn_text(t: Debruijn, ctx: PrintContext) -> Seq<char>
    decreases t,
{
    match t {
        Debruijn::Index(i) => decimal(i as nat),
        Debruijn::Abstraction { body } => if ctx.left_app_needs_parens {
            "("@ + "λ "@ + debruijn_text(*body, ctx.abs_parens_spec()) + ")"@
        } else {
            "λ "@ + debruijn_text(*body, ctx.abs_not_parens_spec())
        },
        Debruijn::Application { func, arg } => {
            let inner = debruijn_text(*func, ctx.left_app_spec()) + " "@ + debruijn_text(
                *arg,
                ctx.right_app_spec(),
            );
            if ctx.right_app_immediate {
                "("@ + inner + ")"@
            } else {
                inner
            }
        },
    }
}

/// The text of a named term printed in context `ctx`.
pub open spec fn term_text(t: TermView, ctx: PrintContext) -> Seq<char>
    decreases t,
{
    match t {
        TermView::Lit(l) => l,
        TermView::Abs(x, body) => {
            let head = "λ"@ + x + ". "@;
            if ctx.left_app_needs_parens {
                "("@ + head + term_text(*body, ctx.abs_parens_spec()) + ")"@
            } else {
                head + term_text(*body, ctx.abs_not_parens_spec())
            }
        },
        TermView::App(func, arg) => {
            let inner = term_text(*func, ctx.left_app_spec()) + " "@ + term_text(
                *arg,
                ctx.right_app_spec(),
            );
            if ctx.right_app_immediate {
                "("@ + inner + ")"@
            } else {
                inner
            }
        },
    }
}

/// A term prepared for printing: leaves and binder heads are already text.
pub enum PrintableTerm {
    Leaf(String),
    Abstraction { body_head: String, body: Box<PrintableTerm> },
    Application { highlight: bool, func: Box<PrintableTerm>, arg: Box<PrintableTerm> },
}

/// The escape sequences used to highlight an application.
pub open spec fn highlight_func_start() -> Seq<char> {
    "\x1b[46m"@
}

pub open spec fn highlight_arg_start() -> Seq<char> {
    "\x1b[42;4m"@
}

pub open spec fn highlight_end() -> Seq<char> {
    "\x1b[0m"@
}

/// The text of a printable term in context `ctx`.
pub open spec fn printed(p: PrintableTerm, ctx: PrintContext) -> Seq<char>
    decreases p,
{
    match p {
        PrintableTerm::Leaf(s) => s@,
        PrintableTerm::Abstraction { body_head, body } => if ctx.left_app_needs_parens {
            "("@ + body_head@ + printed(*body, ctx.abs_parens_spec()) + ")"@
        } else {
            body_head@ + printed(*body, ctx.abs_not_parens_spec())
        },
        PrintableTerm::Application { highlight, func, arg } => {
            let f = printed(*func, ctx.left_app_spec());
            let a = printed(*arg, ctx.right_app_spec());
            let inner = if highlight {
                highlight_func_start() + f + highlight_end() + " "@ + highlight_arg_start() + a
                    + highlight_end()
            } else {
                f + " "@ + a
            };
            if ctx.right_app_immediate {
                "("@ + inner + ")"@
            } else {
                inner
            }
        },
    }
}

impl PrintableTerm {
    /// The text of the term at top level.
    pub fn print(&self) -> (s: String)
        ensures
            s@ == printed(*self, PrintContext::initial()),
    {
        let mut s = String::new();
        self.print_into(&mut s, PrintContext::new());
        proof {
            assert(Seq::<char>::empty() + printed(*self, PrintContext::initial()) =~= printed(
                *self,
                PrintContext::initial(),
            ));
        }
        s
    }

    fn print_into(&self, out: &mut String, ctx: PrintContext)
        ensures
            final(out)@ == old(out)@ + printed(*self, ctx),
        decreases self,
    {
        match self {
            PrintableTerm::Leaf(term) => {
                push_str(out, term.as_str());
            },
            PrintableTerm::Abstraction { body_head, body } => {
                if ctx.left_app_needs_parens {
                    push_str(out, "(");
                    push_str(out, body_head.as_str());
                    body.print_into(out, ctx.abs_parens());
                    push_str(out, ")");
                } else {
                    push_str(out, body_head.as_str());
                    body.print_into(out, ctx.abs_not_parens());
                }
                proof {
                    assert(old(out)@ + printed(*self, ctx) =~= out@);
                }
            },
            PrintableTerm::Application { func, arg, highlight } => {
                if ctx.right_app_immediate {
                    push_str(out, "(");
                }
                if *highlight {
                    push_str(out, "\x1b[46m");
                    func.print_into(out, ctx.left_app());
                    push_str(out, "\x1b[0m");
                    push_str(out, " ");
                    push_str(out, "\x1b[42;4m");
                    arg.print_into(out, ctx.right_app());
                    push_str(out, "\x1b[0m");
                } else {
                    func.print_into(out, ctx.left_app());
                    push_str(out, " ");
                    arg.print_into(out, ctx.right_app());
                }
                if ctx.right_app_immediate {
                    push_str(out, ")");
                }
                proof {
                    assert(old(out)@ + printed(*self, ctx) =~= out@);
                }
            },
        }
    }

    /// The printable form of a de Bruijn term; it prints as the term does.
    pub fn from_debruijn(value: &Debruijn) -> (p: PrintableTerm)
        ensures
            forall|ctx: PrintContext| printed(p, ctx) == debruijn_text(*value, ctx),
        decreases value,
    {
        match value {
            Debruijn::Index(i) => {
                let p = PrintableTerm::Leaf(decimal_string(*i));
                p
            },
            Debruijn::Abstraction { body } => {
                let b = PrintableTerm::from_debruijn(body);
                let p = PrintableTerm::Abstraction { body_head: string_of("λ "), body: Box::new(b) };
                assert forall|ctx: PrintContext| printed(p, ctx) == debruijn_text(*value, ctx) by {
                    assert(printed(b, ctx.abs_parens_spec()) == debruijn_text(**body, ctx.abs_parens_spec()));
                    assert(printed(b, ctx.abs_not_parens_spec()) == debruijn_text(**body, ctx.abs_not_parens_spec()));
                    if ctx.left_app_needs_parens {
                        assert(printed(p, ctx) =~= debruijn_text(*value, ctx));
                    }
                }
                p
            },
            Debruijn::Application { func, arg } => {
                let f = PrintableTerm::from_debruijn(func);
                let a = PrintableTerm::from_debruijn(arg);
                let p = PrintableTerm::Application {
                    func: Box::new(f),
                    arg: Box::new(a),
                    highlight: false,
                };
                assert forall|ctx: PrintContext| printed(p, ctx) == debruijn_text(*value, ctx) by {
                    assert(printed(f, ctx.left_app_spec()) == debruijn_text(**func, ctx.left_app_spec()));
                    assert(printed(a, ctx.right_app_spec()) == debruijn_text(**arg, ctx.right_app_spec()));
                }
                p
            },
        }
    }

    /// The printable form of a named term; it prints as the term does.
    pub fn from_term(value: &Term) -> (p: PrintableTerm)
        ensures
            forall|ctx: PrintContext| printed(p, ctx) == term_text(value.view(), ctx),
        decreases value,
    {
        match value {
            Term::Literal(literal) => PrintableTerm::Leaf(literal.0.clone()),
            Term::Abstraction { arg, body } => {
                let b = PrintableTerm::from_term(body);
                let mut head = string_of("λ");
                push_str(&mut head, arg.0.as_str());
                push_str(&mut head, ". ");
                let p = PrintableTerm::Abstraction { body_head: head, body: Box::new(b) };
                assert forall|ctx: PrintContext| printed(p, ctx) == term_text(value.view(), ctx) by {
                    assert(printed(b, ctx.abs_parens_spec()) == term_text((**body).view(), ctx.abs_parens_spec()));
                    assert(printed(b, ctx.abs_not_parens_spec()) == term_text((**body).view(), ctx.abs_not_parens_spec()));
                    if ctx.left_app_needs_parens {
                        assert(printed(p, ctx) =~= term_text(value.view(), ctx));
                    } else {
                        assert(printed(p, ctx) =~= term_text(value.view(), ctx));
                    }
                }
                p
            },
            Term::Application { func, arg } => {
                let f = PrintableTerm::from_term(func);
                let a = PrintableTerm::from_term(arg);
                let p = PrintableTerm::Application {
                    func: Box::new(f),
                    arg: Box::new(a),
                    highlight: false,
                };
                assert forall|ctx: PrintContext| printed(p, ctx) == term_text(value.view(), ctx) by {
                    assert(printed(f, ctx.left_app_spec()) == term_text((**func).view(), ctx.left_app_spec()));
                    assert(printed(a, ctx.right_app_spec()) == term_text((**arg).view(), ctx.right_app_spec()));
                }
                p
            },
        }
    }
}

impl Term {
    /// The usual textual form, e.g. `λx. x y`.
    pub fn to_string(&self) -> (s: String)
        ensures
            s@ == term_text(self.view(), PrintContext::initial()),
            crate::term_print_facts::names_plain(self.view()) ==> crate::parse::parse_program_spec(
                crate::parse::tokenize_spec(s@),
            ) == Ok::<TermView, crate::parse::ParseErrorView>(self.view()),
    {
        let s = PrintableTerm::from_term(self).print();
        proof {
            if crate::term_print_facts::names_plain(self.view()) {
                crate::term_print_facts::lemma_term_text_reads_back(self.view());
            }
        }
        s
    }
}

/// The two printers of de Bruijn terms agree.
pub proof fn lemma_printers_agree(t: Debruijn, p: PrintableTerm)
    requires
        forall|ctx: PrintContext| printed(p, ctx) == debruijn_text(t, ctx),
    ensures
        printed(p, PrintContext::initial()) == debruijn_text(t, PrintContext::initial()),
{
}

} // verus!
