//! Common combinators and Church numerals, and naming them when printing.
#![allow(non_snake_case)]
use vstd::prelude::*;

use crate::debruijn::{call, def, idx, Debruijn};
use crate::parse::debruijn::digits_value;
use crate::text::{decimal, digit_char, digit_value, is_ascii_digit, push_decimal, push_str, string_of};

verus! {

pub open spec fn ix(i: usize) -> Debruijn {
    Debruijn::Index(i)
}

pub open spec fn ab(b: Debruijn) -> Debruijn {
    Debruijn::Abstraction { body: Box::new(b) }
}

pub open spec fn ap(f: Debruijn, a: Debruijn) -> Debruijn {
    Debruijn::Application { func: Box::new(f), arg: Box::new(a) }
}

/// `λx.x`
pub open spec fn ident_spec() -> Debruijn {
    ab(ix(1))
}

/// `λx.λy.x` (also used for `FALSE`)
pub open spec fn true_spec() -> Debruijn {
    ab(ab(ix(2)))
}

/// `λp.λq.p q p`
pub open spec fn and_spec() -> Debruijn {
    ab(ab(ap(ap(ix(2), ix(1)), ix(2))))
}

/// `λp.λq.p p q`
pub open spec fn or_spec() -> Debruijn {
    ab(ab(ap(ap(ix(2), ix(2)), ix(1))))
}

/// `λx.λy.x TRUE FALSE`
pub open spec fn not_spec() -> Debruijn {
    ab(ab(ap(ap(ix(2), true_spec()), true_spec())))
}

/// `λn.λf.λx.f (n f x)`
pub open spec fn succ_spec() -> Debruijn {
    ab(ab(ab(ap(ix(2), ap(ap(ix(3), ix(2)), ix(1))))))
}

/// `λm.λn.λf.λx.m f (n f x)`
pub open spec fn plus_spec() -> Debruijn {
    ab(ab(ab(ab(ap(ap(ix(4), ix(2)), ap(ap(ix(3), ix(2)), ix(1)))))))
}

/// `λm.λn.m SUCC n`
pub open spec fn plus_2_spec() -> Debruijn {
    ab(ab(ap(ap(ix(2), succ_spec()), ix(1))))
}

/// `λm.λn.λf.m (n f)`
pub open spec fn mult_spec() -> Debruijn {
    ab(ab(ab(ap(ix(3), ap(ix(2), ix(1))))))
}

/// `λm.λn.m (PLUS n) 0`
pub open spec fn mult_2_spec() -> Debruijn {
    ab(ab(ap(ap(ix(2), ap(plus_spec(), ix(1))), church_spec(0))))
}

/// `λb.λn.n b`
pub open spec fn pow_spec() -> Debruijn {
    ab(ab(ap(ix(1), ix(2))))
}

/// `λb.λn.n (MULT b) 1`
pub open spec fn pow_2_spec() -> Debruijn {
    ab(ab(ap(ap(ix(1), ap(mult_spec(), ix(2))), church_spec(1))))
}

/// `λb.λn.λf.n b f`
pub open spec fn pow_3_spec() -> Debruijn {
    ab(ab(ab(ap(ap(ix(2), ix(3)), ix(1)))))
}

/// The body `f (f (... x))` of the Church numeral `n`, under the binders `f` (2) and `x` (1).
pub open spec fn church_body(n: nat) -> Debruijn
    decreases n,
{
    if n == 0 {
        ix(1)
    } else {
        ap(ix(2), church_body((n - 1) as nat))
    }
}

/// The Church numeral `λf.λx.f (f (... x))` with `n` applications.
pub open spec fn church_spec(n: nat) -> Debruijn {
    ab(ab(church_body(n)))
}

/// The identity.
pub fn IDENT() -> (r: Debruijn)
    ensures
        r == ident_spec(),
{
    def(idx(1))
}

/// The Church boolean true.
pub fn TRUE() -> (r: Debruijn)
    ensures
        r == true_spec(),
{
    def(def(idx(2)))
}

/// The Church boolean false, as this library defines it (the same term as `TRUE`).
pub fn FALSE() -> (r: Debruijn)
    ensures
        r == true_spec(),
{
    def(def(idx(2)))
}

/// Boolean conjunction.
pub fn AND() -> (r: Debruijn)
    ensures
        r == and_spec(),
{
    def(def(call(call(idx(2), idx(1)), idx(2))))
}

/// Boolean disjunction.
pub fn OR() -> (r: Debruijn)
    ensures
        r == or_spec(),
{
    def(def(call(call(idx(2), idx(2)), idx(1))))
}

/// Boolean negation.
pub fn NOT() -> (r: Debruijn)
    ensures
        r == not_spec(),
{
    def(def(call(call(idx(2), TRUE()), FALSE())))
}

/// The successor of a Church numeral.
pub fn SUCC() -> (r: Debruijn)
    ensures
        r == succ_spec(),
{
    def(def(def(call(idx(2), call(call(idx(3), idx(2)), idx(1))))))
}

/// Addition of Church numerals.
pub fn PLUS() -> (r: Debruijn)
    ensures
        r == plus_spec(),
{
    def(def(def(def(call(call(idx(4), idx(2)), call(call(idx(3), idx(2)), idx(1)))))))
}

/// Addition by repeated successor.
pub fn PLUS_2() -> (r: Debruijn)
    ensures
        r == plus_2_spec(),
{
    def(def(call(call(idx(2), SUCC()), idx(1))))
}

/// Multiplication of Church numerals.
pub fn MULT() -> (r: Debruijn)
    ensures
        r == mult_spec(),
{
    def(def(def(call(idx(3), call(idx(2), idx(1))))))
}

/// Multiplication by repeated addition.
pub fn MULT_2() -> (r: Debruijn)
    ensures
        r == mult_2_spec(),
{
    def(def(call(call(idx(2), call(PLUS(), idx(1))), CHURCH(0))))
}

/// Exponentiation of Church numerals.
pub fn POW() -> (r: Debruijn)
    ensures
        r == pow_spec(),
{
    def(def(call(idx(1), idx(2))))
}

/// Exponentiation by repeated multiplication.
pub fn POW_2() -> (r: Debruijn)
    ensures
        r == pow_2_spec(),
{
    def(def(call(call(idx(1), call(MULT(), idx(2))), CHURCH(1))))
}

/// Exponentiation, eta-expanded.
pub fn POW_3() -> (r: Debruijn)
    ensures
        r == pow_3_spec(),
{
    def(def(def(call(call(idx(2), idx(3)), idx(1)))))
}

/// The Church numeral `nat`.
pub fn CHURCH(n: usize) -> (r: Debruijn)
    ensures
        r == church_spec(n as nat),
{
    let mut inner = idx(1);
    let mut k: usize = 0;
    while k < n
        invariant
            k <= n,
            inner == church_body(k as nat),
        decreases n - k,
    {
        inner = call(idx(2), inner);
        k = k + 1;
    }
    def(def(inner))
}

/// The named text of each common term.
pub fn IDENT_STR() -> (s: String)
    ensures
        s@ == "λx.x"@,
{
    string_of("λx.x")
}

pub fn TRUE_STR() -> (s: String)
    ensures
        s@ == "λx.λy.x"@,
{
    string_of("λx.λy.x")
}

pub fn FALSE_STR() -> (s: String)
    ensures
        s@ == "λx.λy.x"@,
{
    string_of("λx.λy.x")
}

pub fn AND_STR() -> (s: String)
    ensures
        s@ == "λp.λq.p q p"@,
{
    string_of("λp.λq.p q p")
}

pub fn OR_STR() -> (s: String)
    ensures
        s@ == "λp.λq.p p q"@,
{
    string_of("λp.λq.p p q")
}

pub fn NOT_STR() -> (s: String)
    ensures
        s@ == "λx.λy.x ("@ + "λx.λy.x"@ + ") ("@ + "λx.λy.x"@ + ")"@,
{
    let mut s = string_of("λx.λy.x (");
    let t = TRUE_STR();
    push_str(&mut s, t.as_str());
    push_str(&mut s, ") (");
    let f = FALSE_STR();
    push_str(&mut s, f.as_str());
    push_str(&mut s, ")");
    s
}

pub fn SUCC_STR() -> (s: String)
    ensures
        s@ == "λn.λf.λx.f (n f x)"@,
{
    string_of("λn.λf.λx.f (n f x)")
}

pub fn PLUS_STR() -> (s: String)
    ensures
        s@ == "λm.λn.λf.λx.m f (n f x)"@,
{
    string_of("λm.λn.λf.λx.m f (n f x)")
}

pub fn PLUS_2_STR() -> (s: String)
    ensures
        s@ == "λm.λn.m ("@ + "λn.λf.λx.f (n f x)"@ + ") n"@,
{
    let mut s = string_of("λm.λn.m (");
    let t = SUCC_STR();
    push_str(&mut s, t.as_str());
    push_str(&mut s, ") n");
    s
}

pub fn MULT_STR() -> (s: String)
    ensures
        s@ == "λm.λn.λf.m (n f)"@,
{
    string_of("λm.λn.λf.m (n f)")
}

pub fn MULT_2_STR() -> (s: String)
    ensures
        s@ == "λm.λn.m (("@ + "λm.λn.λf.λx.m f (n f x)"@ + ") n) ("@ + church_text(0) + ")"@,
{
    let mut s = string_of("λm.λn.m ((");
    let t = PLUS_STR();
    push_str(&mut s, t.as_str());
    push_str(&mut s, ") n) (");
    let c = CHURCH_STR(0);
    push_str(&mut s, c.as_str());
    push_str(&mut s, ")");
    s
}

pub fn POW_STR() -> (s: String)
    ensures
        s@ == "λb.λn.n b"@,
{
    string_of("λb.λn.n b")
}

pub fn POW_2_STR() -> (s: String)
    ensures
        s@ == "λb.λn.n (("@ + "λm.λn.λf.m (n f)"@ + ") b) ("@ + church_text(1) + ")"@,
{
    let mut s = string_of("λb.λn.n ((");
    let t = MULT_STR();
    push_str(&mut s, t.as_str());
    push_str(&mut s, ") b) (");
    let c = CHURCH_STR(1);
    push_str(&mut s, c.as_str());
    push_str(&mut s, ")");
    s
}

pub fn POW_3_STR() -> (s: String)
    ensures
        s@ == "λb.λn.λf.n b f"@,
{
    string_of("λb.λn.λf.n b f")
}

/// `n` copies of `piece`.
pub open spec fn repeat_text(piece: Seq<char>, n: nat) -> Seq<char>
    decreases n,
{
    if n == 0 {
        Seq::empty()
    } else {
        repeat_text(piece, (n - 1) as nat) + piece
    }
}

/// The named text of the Church numeral `nat`.
pub open spec fn church_text(n: nat) -> Seq<char> {
    if n == 0 {
        "λf.λx.x"@
    } else {
        "λf.λx.f "@ + repeat_text("(f"@, (n - 1) as nat) + " x"@ + repeat_text(")"@, (n - 1) as nat)
    }
}

fn push_repeat(s: &mut String, piece: &str, n: usize)
    ensures
        final(s)@ == old(s)@ + repeat_text(piece@, n as nat),
{
    let mut k: usize = 0;
    while k < n
        invariant
            k <= n,
            s@ == old(s)@ + repeat_text(piece@, k as nat),
        decreases n - k,
    {
        push_str(s, piece);
        k = k + 1;
        proof {
            assert(s@ =~= old(s)@ + repeat_text(piece@, k as nat));
        }
    }
}

/// The named text of the Church numeral `nat`.
pub fn CHURCH_STR(n: usize) -> (s: String)
    ensures
        s@ == church_text(n as nat),
{
    if n == 0 {
        string_of("λf.λx.x")
    } else {
        let mut s = string_of("λf.λx.f ");
        push_repeat(&mut s, "(f", n - 1);
        push_str(&mut s, " x");
        push_repeat(&mut s, ")", n - 1);
        s
    }
}

/// The number `n` such that `t` is the body of the Church numeral `n`, if any.
pub open spec fn church_body_count(t: Debruijn) -> Option<nat>
    decreases t,
{
    if t == ix(1) {
        Some(0)
    } else {
        match t {
            Debruijn::Application { func, arg } => if *func == ix(2) {
                match church_body_count(*arg) {
                    Some(n) => Some(n + 1),
                    None => None,
                }
            } else {
                None
            },
            _ => None,
        }
    }
}

/// The number `n` such that `t` is the Church numeral `n`, if any.
pub open spec fn church_count(t: Debruijn) -> Option<nat> {
    match t {
        Debruijn::Abstraction { body } => match *body {
            Debruijn::Abstraction { body } => church_body_count(*body),
            _ => None,
        },
        _ => None,
    }
}

proof fn lemma_church_body_count(t: Debruijn)
    ensures
        church_body_count(t) matches Some(n) ==> t == church_body(n) && n < t.size(),
        church_body_count(t) is None ==> forall|n: nat| t != #[trigger] church_body(n),
    decreases t,
{
    match t {
        Debruijn::Application { func, arg } => {
            lemma_church_body_count(*arg);
            assert forall|n: nat| t == #[trigger] church_body(n) implies church_body_count(t)
                is Some by {
                if n == 0 {
                } else {
                    assert(*arg == church_body((n - 1) as nat));
                }
            }
        },
        _ => {
            assert forall|n: nat| t == #[trigger] church_body(n) implies church_body_count(t)
                is Some by {
                if n > 0 {
                    assert(church_body(n) is Application);
                }
            }
        },
    }
}

/// The number of the Church numeral `term`, if it is one.
pub fn from_church(term: &Debruijn) -> (r: Option<usize>)
    requires
        term.size() <= usize::MAX,
    ensures
        r matches Some(n) ==> *term == church_spec(n as nat),
        r is None ==> forall|n: nat| *term != #[trigger] church_spec(n),
        r matches Some(n) ==> church_count(*term) == Some(n as nat),
        r is None ==> church_count(*term) is None,
{
    match term {
        Debruijn::Abstraction { body: outer } => match &**outer {
            Debruijn::Abstraction { body } => {
                proof {
                    assert((**outer).size() == (**body).size() + 1);
                    lemma_church_body_count(**body);
                }
                from_church_body(body)
            },
            _ => None,
        },
        _ => None,
    }
}

fn from_church_body(term: &Debruijn) -> (r: Option<usize>)
    requires
        term.size() <= usize::MAX,
    ensures
        r matches Some(n) ==> church_body_count(*term) == Some(n as nat),
        r is None ==> church_body_count(*term) is None,
    decreases term,
{
    proof {
        lemma_church_body_count(*term);
    }
    let one = idx(1);
    if term.equals(&one) {
        return Some(0);
    }
    match term {
        Debruijn::Application { func, arg } => {
            let two = idx(2);
            if !func.equals(&two) {
                return None;
            }
            proof {
                lemma_church_body_count(**arg);
            }
            match from_church_body(arg) {
                Some(n) => Some(n + 1),
                None => None,
            }
        },
        _ => None,
    }
}

/// The name of a common term, if `t` is one (the first in this order wins).
pub open spec fn definition_name(t: Debruijn) -> Option<Seq<char>> {
    if t == ident_spec() {
        Some("IDENT"@)
    } else if t == true_spec() {
        Some("TRUE"@)
    } else if t == and_spec() {
        Some("AND"@)
    } else if t == or_spec() {
        Some("OR"@)
    } else if t == not_spec() {
        Some("NOT"@)
    } else if t == succ_spec() {
        Some("SUCC"@)
    } else if t == plus_spec() {
        Some("PLUS"@)
    } else if t == plus_2_spec() {
        Some("PLUS_ALT"@)
    } else if t == mult_spec() {
        Some("MULT"@)
    } else if t == mult_2_spec() {
        Some("MULT_ALT"@)
    } else if t == pow_spec() {
        Some("POW"@)
    } else if t == pow_2_spec() {
        Some("POW_ALT1"@)
    } else if t == pow_3_spec() {
        Some("POW_ALT2"@)
    } else {
        None
    }
}

/// A term written with the names of the common terms and numerals it contains, fully
/// parenthesized otherwise.
pub open spec fn common_name(t: Debruijn) -> Seq<char>
    decreases t,
{
    match church_count(t) {
        Some(n) => "CHURCH_"@ + decimal(n),
        None => match definition_name(t) {
            Some(name) => name,
            None => match t {
                Debruijn::Index(i) => decimal(i as nat),
                Debruijn::Abstraction { body } => "(λ "@ + common_name(*body) + ")"@,
                Debruijn::Application { func, arg } => "("@ + common_name(*func) + " "@
                    + common_name(*arg) + ")"@,
            },
        },
    }
}

fn definitions() -> (d: Vec<(Debruijn, &'static str)>)
    ensures
        d@.len() == 14,
        d@[0] == (ident_spec(), "IDENT"),
        d@[1] == (true_spec(), "TRUE"),
        d@[2] == (true_spec(), "FALSE"),
        d@[3] == (and_spec(), "AND"),
        d@[4] == (or_spec(), "OR"),
        d@[5] == (not_spec(), "NOT"),
        d@[6] == (succ_spec(), "SUCC"),
        d@[7] == (plus_spec(), "PLUS"),
        d@[8] == (plus_2_spec(), "PLUS_ALT"),
        d@[9] == (mult_spec(), "MULT"),
        d@[10] == (mult_2_spec(), "MULT_ALT"),
        d@[11] == (pow_spec(), "POW"),
        d@[12] == (pow_2_spec(), "POW_ALT1"),
        d@[13] == (pow_3_spec(), "POW_ALT2"),
{
    let mut d = Vec::new();
    d.push((IDENT(), "IDENT"));
    d.push((TRUE(), "TRUE"));
    d.push((FALSE(), "FALSE"));
    d.push((AND(), "AND"));
    d.push((OR(), "OR"));
    d.push((NOT(), "NOT"));
    d.push((SUCC(), "SUCC"));
    d.push((PLUS(), "PLUS"));
    d.push((PLUS_2(), "PLUS_ALT"));
    d.push((MULT(), "MULT"));
    d.push((MULT_2(), "MULT_ALT"));
    d.push((POW(), "POW"));
    d.push((POW_2(), "POW_ALT1"));
    d.push((POW_3(), "POW_ALT2"));
    d
}

/// The name of the first common term equal to `term`.
fn find_definition(term: &Debruijn) -> (r: Option<&'static str>)
    ensures
        r matches Some(name) ==> definition_name(*term) == Some(name@),
        r is None ==> definition_name(*term) is None,
{
    let d = definitions();
    let mut k: usize = 0;
    while k < d.len()
        invariant
            d@.len() == 14,
            d@[0] == (ident_spec(), "IDENT"),
            d@[1] == (true_spec(), "TRUE"),
            d@[2] == (true_spec(), "FALSE"),
            d@[3] == (and_spec(), "AND"),
            d@[4] == (or_spec(), "OR"),
            d@[5] == (not_spec(), "NOT"),
            d@[6] == (succ_spec(), "SUCC"),
            d@[7] == (plus_spec(), "PLUS"),
            d@[8] == (plus_2_spec(), "PLUS_ALT"),
            d@[9] == (mult_spec(), "MULT"),
            d@[10] == (mult_2_spec(), "MULT_ALT"),
            d@[11] == (pow_spec(), "POW"),
            d@[12] == (pow_2_spec(), "POW_ALT1"),
            d@[13] == (pow_3_spec(), "POW_ALT2"),
            k <= 14,
            forall|j: int| 0 <= j < k ==> *term != (#[trigger] d@[j]).0,
        decreases 14 - k,
    {
        if d[k].0.equals(term) {
            let name = d[k].1;
            proof {
                assert(k != 2);
            }
            return Some(name);
        }
        k = k + 1;
    }
    proof {
        assert(*term != d@[0].0);
        assert(*term != d@[1].0);
        assert(*term != d@[3].0);
        assert(*term != d@[4].0);
        assert(*term != d@[5].0);
        assert(*term != d@[6].0);
        assert(*term != d@[7].0);
        assert(*term != d@[8].0);
        assert(*term != d@[9].0);
        assert(*term != d@[10].0);
        assert(*term != d@[11].0);
        assert(*term != d@[12].0);
        assert(*term != d@[13].0);
    }
    None
}

// Reading named text back: the names stand for their terms, `CHURCH_n` for the numeral `n`,
// digits for an index, `(λ x)` for an abstraction and `(f a)` for an application.

/// The term a name of `definition_name` stands for.
pub open spec fn named_term(s: Seq<char>) -> Option<Debruijn> {
    if s == "IDENT"@ {
        Some(ident_spec())
    } else if s == "TRUE"@ {
        Some(true_spec())
    } else if s == "AND"@ {
        Some(and_spec())
    } else if s == "OR"@ {
        Some(or_spec())
    } else if s == "NOT"@ {
        Some(not_spec())
    } else if s == "SUCC"@ {
        Some(succ_spec())
    } else if s == "PLUS"@ {
        Some(plus_spec())
    } else if s == "PLUS_ALT"@ {
        Some(plus_2_spec())
    } else if s == "MULT"@ {
        Some(mult_spec())
    } else if s == "MULT_ALT"@ {
        Some(mult_2_spec())
    } else if s == "POW"@ {
        Some(pow_spec())
    } else if s == "POW_ALT1"@ {
        Some(pow_2_spec())
    } else if s == "POW_ALT2"@ {
        Some(pow_3_spec())
    } else {
        None
    }
}

/// Every character of `s` is a decimal digit.
pub open spec fn all_digits(s: Seq<char>) -> bool {
    forall|j: int| 0 <= j < s.len() ==> is_ascii_digit(#[trigger] s[j])
}

/// The term an unparenthesized word stands for: a Church numeral, a name, or an index.
pub open spec fn read_word(s: Seq<char>) -> Option<Debruijn> {
    if s.len() > 7 && s.subrange(0, 7) == "CHURCH_"@ && all_digits(s.subrange(7, s.len() as int)) {
        Some(church_spec(digits_value(s.subrange(7, s.len() as int))))
    } else if named_term(s) is Some {
        named_term(s)
    } else if s.len() > 0 && all_digits(s) && digits_value(s) <= usize::MAX {
        Some(Debruijn::Index(digits_value(s) as usize))
    } else {
        None
    }
}

/// How a character changes the depth of parentheses.
pub open spec fn paren_step(c: char) -> int {
    if c == '(' {
        1
    } else if c == ')' {
        -1
    } else {
        0
    }
}

/// The first space from position `j` on that is outside all parentheses, counting `depth`
/// parentheses open at `j`.
pub open spec fn first_gap(s: Seq<char>, j: int, depth: int) -> Option<int>
    decreases s.len() - j,
{
    if j < 0 || j >= s.len() {
        None
    } else if s[j] == ' ' && depth == 0 {
        Some(j)
    } else {
        first_gap(s, j + 1, depth + paren_step(s[j]))
    }
}

/// The term that named text stands for, if it is well-formed.
pub open spec fn read_common(s: Seq<char>) -> Option<Debruijn>
    decreases s.len(),
{
    if s.len() >= 2 && s[0] == '(' && s[s.len() - 1] == ')' {
        let inner = s.subrange(1, s.len() - 1);
        if inner.len() >= 2 && inner[0] == 'λ' && inner[1] == ' ' {
            match read_common(inner.subrange(2, inner.len() as int)) {
                Some(b) => Some(ab(b)),
                None => None,
            }
        } else {
            match first_gap(inner, 0, 0) {
                Some(k) => if 0 <= k < inner.len() {
                    match (read_common(inner.subrange(0, k)), read_common(inner.subrange(k + 1, inner.len() as int))) {
                        (Some(f), Some(a)) => Some(ap(f, a)),
                        _ => None,
                    }
                } else {
                    None
                },
                None => None,
            }
        }
    } else {
        read_word(s)
    }
}

/// Characters that are neither spaces nor parentheses leave the search for a gap as it was.
proof fn lemma_gap_plain(s: Seq<char>, j: int, n: int, d: int)
    requires
        0 <= j,
        0 <= n,
        j + n <= s.len(),
        forall|k: int| j <= k < j + n ==> s[k] != ' ' && s[k] != '(' && s[k] != ')',
    ensures
        first_gap(s, j, d) == first_gap(s, j + n, d),
    decreases n,
{
    if n > 0 {
        lemma_gap_plain(s, j + 1, n - 1, d);
    }
}

proof fn lemma_decimal_digits(n: nat)
    ensures
        decimal(n).len() >= 1,
        all_digits(decimal(n)),
        digits_value(decimal(n)) == n,
    decreases n,
{
    if n < 10 {
        assert(decimal(n).drop_last() =~= Seq::<char>::empty());
        assert(digits_value(Seq::<char>::empty()) == 0);
        assert(decimal(n).last() == digit_char(n));
        assert(digit_value(digit_char(n)) == n);
        assert(digits_value(decimal(n)) == digits_value(decimal(n).drop_last()) * 10 + digit_value(decimal(n).last()));
    } else {
        lemma_decimal_digits(n / 10);
        assert(decimal(n).drop_last() =~= decimal(n / 10));
        assert(decimal(n).last() == digit_char(n % 10));
        assert(digit_value(digit_char(n % 10)) == n % 10);
        assert(digits_value(decimal(n)) == digits_value(decimal(n).drop_last()) * 10 + digit_value(decimal(n).last()));
        assert(n == (n / 10) * 10 + n % 10) by (nonlinear_arith);
        assert forall|j: int| 0 <= j < decimal(n).len() implies is_ascii_digit(#[trigger] decimal(n)[j]) by {
            if j < decimal(n).len() - 1 {
                assert(decimal(n)[j] == decimal(n / 10)[j]);
            }
        }
    }
}

/// Each name reads back as the common term it names.
proof fn lemma_named_terms()
    ensures
        named_term("IDENT"@) == Some(ident_spec()),
        named_term("TRUE"@) == Some(true_spec()),
        named_term("AND"@) == Some(and_spec()),
        named_term("OR"@) == Some(or_spec()),
        named_term("NOT"@) == Some(not_spec()),
        named_term("SUCC"@) == Some(succ_spec()),
        named_term("PLUS"@) == Some(plus_spec()),
        named_term("PLUS_ALT"@) == Some(plus_2_spec()),
        named_term("MULT"@) == Some(mult_spec()),
        named_term("MULT_ALT"@) == Some(mult_2_spec()),
        named_term("POW"@) == Some(pow_spec()),
        named_term("POW_ALT1"@) == Some(pow_2_spec()),
        named_term("POW_ALT2"@) == Some(pow_3_spec()),
{
    reveal_strlit("IDENT");
    reveal_strlit("TRUE");
    reveal_strlit("AND");
    reveal_strlit("OR");
    reveal_strlit("NOT");
    reveal_strlit("SUCC");
    reveal_strlit("PLUS");
    reveal_strlit("PLUS_ALT");
    reveal_strlit("MULT");
    reveal_strlit("MULT_ALT");
    reveal_strlit("POW");
    reveal_strlit("POW_ALT1");
    reveal_strlit("POW_ALT2");
    assert(named_term("IDENT"@) == Some(ident_spec())) by {

    }
    assert(named_term("TRUE"@) == Some(true_spec())) by {
        assert("TRUE"@.len() != "IDENT"@.len());
    }
    assert(named_term("AND"@) == Some(and_spec())) by {
        assert("AND"@.len() != "IDENT"@.len());
        assert("AND"@.len() != "TRUE"@.len());
    }
    assert(named_term("OR"@) == Some(or_spec())) by {
        assert("OR"@.len() != "IDENT"@.len());
        assert("OR"@.len() != "TRUE"@.len());
        assert("OR"@.len() != "AND"@.len());
    }
    assert(named_term("NOT"@) == Some(not_spec())) by {
        assert("NOT"@.len() != "IDENT"@.len());
        assert("NOT"@.len() != "TRUE"@.len());
        assert("NOT"@[0] != "AND"@[0]);
        assert("NOT"@.len() != "OR"@.len());
    }
    assert(named_term("SUCC"@) == Some(succ_spec())) by {
        assert("SUCC"@.len() != "IDENT"@.len());
        assert("SUCC"@[0] != "TRUE"@[0]);
        assert("SUCC"@.len() != "AND"@.len());
        assert("SUCC"@.len() != "OR"@.len());
        assert("SUCC"@.len() != "NOT"@.len());
    }
    assert(named_term("PLUS"@) == Some(plus_spec())) by {
        assert("PLUS"@.len() != "IDENT"@.len());
        assert("PLUS"@[0] != "TRUE"@[0]);
        assert("PLUS"@.len() != "AND"@.len());
        assert("PLUS"@.len() != "OR"@.len());
        assert("PLUS"@.len() != "NOT"@.len());
        assert("PLUS"@[0] != "SUCC"@[0]);
    }
    assert(named_term("PLUS_ALT"@) == Some(plus_2_spec())) by {
        assert("PLUS_ALT"@.len() != "IDENT"@.len());
        assert("PLUS_ALT"@.len() != "TRUE"@.len());
        assert("PLUS_ALT"@.len() != "AND"@.len());
        assert("PLUS_ALT"@.len() != "OR"@.len());
        assert("PLUS_ALT"@.len() != "NOT"@.len());
        assert("PLUS_ALT"@.len() != "SUCC"@.len());
        assert("PLUS_ALT"@.len() != "PLUS"@.len());
    }
    assert(named_term("MULT"@) == Some(mult_spec())) by {
        assert("MULT"@.len() != "IDENT"@.len());
        assert("MULT"@[0] != "TRUE"@[0]);
        assert("MULT"@.len() != "AND"@.len());
        assert("MULT"@.len() != "OR"@.len());
        assert("MULT"@.len() != "NOT"@.len());
        assert("MULT"@[0] != "SUCC"@[0]);
        assert("MULT"@[0] != "PLUS"@[0]);
        assert("MULT"@.len() != "PLUS_ALT"@.len());
    }
    assert(named_term("MULT_ALT"@) == Some(mult_2_spec())) by {
        assert("MULT_ALT"@.len() != "IDENT"@.len());
        assert("MULT_ALT"@.len() != "TRUE"@.len());
        assert("MULT_ALT"@.len() != "AND"@.len());
        assert("MULT_ALT"@.len() != "OR"@.len());
        assert("MULT_ALT"@.len() != "NOT"@.len());
        assert("MULT_ALT"@.len() != "SUCC"@.len());
        assert("MULT_ALT"@.len() != "PLUS"@.len());
        assert("MULT_ALT"@[0] != "PLUS_ALT"@[0]);
        assert("MULT_ALT"@.len() != "MULT"@.len());
    }
    assert(named_term("POW"@) == Some(pow_spec())) by {
        assert("POW"@.len() != "IDENT"@.len());
        assert("POW"@.len() != "TRUE"@.len());
        assert("POW"@[0] != "AND"@[0]);
        assert("POW"@.len() != "OR"@.len());
        assert("POW"@[0] != "NOT"@[0]);
        assert("POW"@.len() != "SUCC"@.len());
        assert("POW"@.len() != "PLUS"@.len());
        assert("POW"@.len() != "PLUS_ALT"@.len());
        assert("POW"@.len() != "MULT"@.len());
        assert("POW"@.len() != "MULT_ALT"@.len());
    }
    assert(named_term("POW_ALT1"@) == Some(pow_2_spec())) by {
        assert("POW_ALT1"@.len() != "IDENT"@.len());
        assert("POW_ALT1"@.len() != "TRUE"@.len());
        assert("POW_ALT1"@.len() != "AND"@.len());
        assert("POW_ALT1"@.len() != "OR"@.len());
        assert("POW_ALT1"@.len() != "NOT"@.len());
        assert("POW_ALT1"@.len() != "SUCC"@.len());
        assert("POW_ALT1"@.len() != "PLUS"@.len());
        assert("POW_ALT1"@[1] != "PLUS_ALT"@[1]);
        assert("POW_ALT1"@.len() != "MULT"@.len());
        assert("POW_ALT1"@[0] != "MULT_ALT"@[0]);
        assert("POW_ALT1"@.len() != "POW"@.len());
    }
    assert(named_term("POW_ALT2"@) == Some(pow_3_spec())) by {
        assert("POW_ALT2"@.len() != "IDENT"@.len());
        assert("POW_ALT2"@.len() != "TRUE"@.len());
        assert("POW_ALT2"@.len() != "AND"@.len());
        assert("POW_ALT2"@.len() != "OR"@.len());
        assert("POW_ALT2"@.len() != "NOT"@.len());
        assert("POW_ALT2"@.len() != "SUCC"@.len());
        assert("POW_ALT2"@.len() != "PLUS"@.len());
        assert("POW_ALT2"@[1] != "PLUS_ALT"@[1]);
        assert("POW_ALT2"@.len() != "MULT"@.len());
        assert("POW_ALT2"@[0] != "MULT_ALT"@[0]);
        assert("POW_ALT2"@.len() != "POW"@.len());
        assert("POW_ALT2"@[7] != "POW_ALT1"@[7]);
    }
}

/// The text of a word: no spaces or parentheses in it, and what it starts with.
#[verifier::spinoff_prover]
#[verifier::rlimit(50)]
proof fn lemma_word_chars(t: Debruijn)
    requires
        church_count(t) is Some || definition_name(t) is Some || t is Index,
    ensures
        common_name(t).len() >= 1,
        common_name(t)[0] != '(' && common_name(t)[0] != 'λ',
        forall|k: int| 0 <= k < common_name(t).len() ==> #[trigger] common_name(t)[k] != ' ' && common_name(t)[k] != '(' && common_name(t)[k] != ')',
        read_word(common_name(t)) == Some(t),
{
    reveal_strlit("CHURCH_");
    reveal_strlit("IDENT");
    reveal_strlit("TRUE");
    reveal_strlit("AND");
    reveal_strlit("OR");
    reveal_strlit("NOT");
    reveal_strlit("SUCC");
    reveal_strlit("PLUS");
    reveal_strlit("PLUS_ALT");
    reveal_strlit("MULT");
    reveal_strlit("MULT_ALT");
    reveal_strlit("POW");
    reveal_strlit("POW_ALT1");
    reveal_strlit("POW_ALT2");
    let x = common_name(t);
    match church_count(t) {
        Some(n) => {
            lemma_decimal_digits(n);
            assert(x == "CHURCH_"@ + decimal(n));
            assert(x.subrange(0, 7) =~= "CHURCH_"@);
            assert(x.subrange(7, x.len() as int) =~= decimal(n));
            assert forall|k: int| 0 <= k < x.len() implies #[trigger] x[k] != ' ' && x[k] != '(' && x[k] != ')' by {
                if k >= 7 {
                    assert(x[k] == decimal(n)[k - 7]);
                }
            }
            if let Debruijn::Abstraction { body } = t {
                if let Debruijn::Abstraction { body: b2 } = *body {
                    lemma_church_body_count(*b2);
                }
            }
        },
        None => match definition_name(t) {
            Some(name) => {
                lemma_named_terms();
                assert(x == name);
                assert(x.len() <= 7 || x.subrange(0, 7)[0] != "CHURCH_"@[0]);
                assert(!(x.len() > 7 && x.subrange(0, 7) == "CHURCH_"@));
            },
            None => {
                if let Debruijn::Index(i) = t {
                    lemma_decimal_digits(i as nat);
                    assert(x == decimal(i as nat));
                    assert(is_ascii_digit(x[0]));
                    assert(!(x.len() > 7 && x.subrange(0, 7) == "CHURCH_"@)) by {
                        if x.len() > 7 && x.subrange(0, 7) == "CHURCH_"@ {
                            assert(x.subrange(0, 7)[0] == x[0]);
                        }
                    }
                    assert(named_term(x) is None);
                    assert forall|k: int| 0 <= k < x.len() implies #[trigger] x[k] != ' ' && x[k] != '(' && x[k] != ')' by {
                        assert(is_ascii_digit(x[k]));
                    }
                }
            },
        },
    }
}

/// The text of a term has no space outside parentheses and closes all the parentheses it
/// opens, so a search for a gap passes over it; and it does not start with `λ`.
proof fn lemma_text_balanced(t: Debruijn, s: Seq<char>, j: int, d: int)
    requires
        0 <= j,
        d >= 0,
        j + common_name(t).len() <= s.len(),
        s.subrange(j, j + common_name(t).len()) == common_name(t),
    ensures
        common_name(t).len() >= 1,
        common_name(t)[0] != 'λ',
        first_gap(s, j, d) == first_gap(s, j + common_name(t).len(), d),
    decreases t,
{
    let x = common_name(t);
    assert forall|k: int| 0 <= k < x.len() implies s[j + k] == #[trigger] x[k] by {
        assert(s.subrange(j, j + x.len())[k] == s[j + k]);
    }
    if church_count(t) is Some || definition_name(t) is Some || t is Index {
        lemma_word_chars(t);
        assert forall|k: int| j <= k < j + x.len() implies s[k] != ' ' && s[k] != '(' && s[k] != ')' by {
            assert(s[j + (k - j)] == x[k - j]);
        }
        lemma_gap_plain(s, j, x.len() as int, d);
    } else {
        reveal_strlit("(λ ");
        reveal_strlit("(");
        reveal_strlit(")");
        reveal_strlit(" ");
        match t {
            Debruijn::Abstraction { body } => {
                let a = common_name(*body);
                assert(x == "(λ "@ + a + ")"@);
                assert(s.subrange(j + 3, j + 3 + a.len()) =~= a) by {
                    assert forall|k: int| 0 <= k < a.len() implies s.subrange(j + 3, j + 3 + a.len())[k] == a[k] by {
                        assert(x[k + 3] == a[k]);
                    }
                }
                assert(x[0] == '(' && x[1] == 'λ' && x[2] == ' ' && x[3 + a.len() as int] == ')');
                assert(s[j + 0] == x[0]);
                assert(s[j + 1] == x[1]);
                assert(s[j + 2] == x[2]);
                assert(s[j + (3 + a.len())] == x[3 + a.len() as int]);
                lemma_text_balanced(*body, s, j + 3, d + 1);
                assert(first_gap(s, j, d) == first_gap(s, j + 1, d + 1));
                assert(first_gap(s, j + 1, d + 1) == first_gap(s, j + 2, d + 1));
                assert(first_gap(s, j + 2, d + 1) == first_gap(s, j + 3, d + 1));
                assert(first_gap(s, j + 3 + a.len(), d + 1) == first_gap(s, j + 4 + a.len(), d));
                assert(x.len() == 4 + a.len());
            },
            Debruijn::Application { func, arg } => {
                let f = common_name(*func);
                let g = common_name(*arg);
                assert(x == "("@ + f + " "@ + g + ")"@);
                assert(s.subrange(j + 1, j + 1 + f.len()) =~= f) by {
                    assert forall|k: int| 0 <= k < f.len() implies s.subrange(j + 1, j + 1 + f.len())[k] == f[k] by {
                        assert(x[k + 1] == f[k]);
                    }
                }
                assert(s.subrange(j + 2 + f.len(), j + 2 + f.len() + g.len()) =~= g) by {
                    assert forall|k: int| 0 <= k < g.len() implies s.subrange(j + 2 + f.len(), j + 2 + f.len() + g.len())[k] == g[k] by {
                        assert(x[k + 2 + f.len()] == g[k]);
                    }
                }
                assert(x[0] == '(' && x[1 + f.len() as int] == ' ' && x[2 + f.len() as int + g.len() as int] == ')');
                assert(s[j + 0] == x[0]);
                assert(s[j + (1 + f.len())] == x[1 + f.len() as int]);
                assert(s[j + (2 + f.len() + g.len())] == x[2 + f.len() as int + g.len() as int]);
                lemma_text_balanced(*func, s, j + 1, d + 1);
                lemma_text_balanced(*arg, s, j + 2 + f.len(), d + 1);
                assert(first_gap(s, j, d) == first_gap(s, j + 1, d + 1));
                assert(first_gap(s, j + 1 + f.len(), d + 1) == first_gap(s, j + 2 + f.len(), d + 1));
                assert(first_gap(s, j + 2 + f.len() + g.len(), d + 1) == first_gap(s, j + 3 + f.len() + g.len(), d));
                assert(x.len() == 3 + f.len() + g.len());
            },
            Debruijn::Index(_) => {},
        }
    }
}

/// Reading back the named text of a term gives the term: each name stands for the common term
/// it names, `CHURCH_n` for the numeral `n`, and an application's text is its function's text
/// followed by its argument's.
pub proof fn lemma_read_common_name(t: Debruijn)
    ensures
        read_common(common_name(t)) == Some(t),
    decreases t,
{
    let x = common_name(t);
    if church_count(t) is Some || definition_name(t) is Some || t is Index {
        lemma_word_chars(t);
    } else {
        reveal_strlit("(λ ");
        reveal_strlit("(");
        reveal_strlit(")");
        reveal_strlit(" ");
        match t {
            Debruijn::Abstraction { body } => {
                let a = common_name(*body);
                assert(x == "(λ "@ + a + ")"@);
                let inner = x.subrange(1, x.len() - 1);
                assert(inner.subrange(2, inner.len() as int) =~= a);
                lemma_read_common_name(*body);
            },
            Debruijn::Application { func, arg } => {
                let f = common_name(*func);
                let g = common_name(*arg);
                assert(x == "("@ + f + " "@ + g + ")"@);
                let inner = x.subrange(1, x.len() - 1);
                assert(inner =~= f + " "@ + g);
                assert(inner.subrange(0, f.len() as int) =~= f);
                lemma_text_balanced(*func, inner, 0, 0);
                assert(inner[0] == f[0]);
                assert(inner[f.len() as int] == ' ');
                assert(first_gap(inner, f.len() as int, 0) == Some(f.len() as int));
                assert(inner.subrange(f.len() as int + 1, inner.len() as int) =~= g);
                lemma_read_common_name(*func);
                lemma_read_common_name(*arg);
            },
            Debruijn::Index(_) => {},
        }
    }
}

/// Writes a term with the names of the common terms and Church numerals it contains.
pub fn to_string(term: &Debruijn) -> (s: String)
    requires
        term.size() <= usize::MAX,
    ensures
        s@ == common_name(*term),
        read_common(s@) == Some(*term),
    decreases term,
{
    proof {
        lemma_read_common_name(*term);
    }
    match from_church(term) {
        Some(n) => {
            let mut s = string_of("CHURCH_");
            push_decimal(&mut s, n);
            return s;
        },
        None => {},
    }
    match find_definition(term) {
        Some(name) => {
            return string_of(name);
        },
        None => {},
    }
    match term {
        Debruijn::Index(i) => crate::text::decimal_string(*i),
        Debruijn::Abstraction { body } => {
            let mut s = string_of("(λ ");
            let inner = to_string(body);
            push_str(&mut s, inner.as_str());
            push_str(&mut s, ")");
            s
        },
        Debruijn::Application { func, arg } => {
            let mut s = string_of("(");
            let f = to_string(func);
            push_str(&mut s, f.as_str());
            push_str(&mut s, " ");
            let a = to_string(arg);
            push_str(&mut s, a.as_str());
            push_str(&mut s, ")");
            s
        },
    }
}

} // verus!
