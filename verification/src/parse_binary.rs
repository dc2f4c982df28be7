//! Decoding of the binary lambda calculus: `1^i 0` is index `i`, `00 M` is `λ M` and
//! `01 M N` is `M N`.
use vstd::prelude::*;

use crate::debruijn::Debruijn;
use crate::text::{chars_of, push_char};

verus! {

/// A failure to decode.
#[derive(Debug, PartialEq, Eq, Clone, Copy, Structural)]
pub enum ParseError {
    /// The bits ended inside a term.
    EOF,
    /// A whole term was decoded but bits remain.
    LeftoverInput,
}

/// The number of consecutive `true` bits starting at `pos`.
pub open spec fn ones(bits: Seq<bool>, pos: nat) -> nat
    decreases bits.len() - pos,
{
    if pos < bits.len() && bits[pos as int] {
        1 + ones(bits, pos + 1)
    } else {
        0
    }
}

/// Decoding of one term starting at `pos`: the term and the position after it.
pub open spec fn decode(bits: Seq<bool>, pos: nat) -> Result<(Debruijn, nat), ParseError>
    decreases bits.len() - pos,
{
    if pos >= bits.len() {
        Err(ParseError::EOF)
    } else if bits[pos as int] {
        let k = ones(bits, pos);
        if pos + k >= bits.len() {
            Err(ParseError::EOF)
        } else {
            Ok((Debruijn::Index(k as usize), pos + k + 1))
        }
    } else if pos + 1 >= bits.len() {
        Err(ParseError::EOF)
    } else if !bits[(pos + 1) as int] {
        match decode(bits, pos + 2) {
            Err(e) => Err(e),
            Ok((b, p)) => Ok((Debruijn::Abstraction { body: Box::new(b) }, p)),
        }
    } else {
        match decode(bits, pos + 2) {
            Err(e) => Err(e),
            Ok((f, p)) => if !(pos < p <= bits.len()) {
                Err(ParseError::EOF)
            } else {
                match decode(bits, p) {
                    Err(e) => Err(e),
                    Ok((a, q)) => Ok((Debruijn::Application { func: Box::new(f), arg: Box::new(a) }, q)),
                }
            },
        }
    }
}

/// The decoding of a whole bit string.
pub open spec fn decode_all(bits: Seq<bool>) -> Result<Debruijn, ParseError> {
    match decode(bits, 0) {
        Err(e) => Err(e),
        Ok((t, p)) => if p < bits.len() {
            Err(ParseError::LeftoverInput)
        } else {
            Ok(t)
        },
    }
}

/// A decoded term ends after its start and within the bits.
pub proof fn lemma_decode_advances(bits: Seq<bool>, pos: nat)
    ensures
        decode(bits, pos) matches Ok((_, p)) ==> pos < p <= bits.len(),
    decreases bits.len() - pos,
{
    if pos < bits.len() {
        if bits[pos as int] {
            lemma_ones_bound(bits, pos);
        } else if pos + 1 < bits.len() {
            lemma_decode_advances(bits, pos + 2);
            if bits[(pos + 1) as int] {
                if let Ok((f, p)) = decode(bits, pos + 2) {
                    lemma_decode_advances(bits, p);
                }
            }
        }
    }
}

proof fn lemma_ones_bound(bits: Seq<bool>, pos: nat)
    ensures
        pos + ones(bits, pos) <= bits.len() || ones(bits, pos) == 0,
        pos <= bits.len() ==> pos + ones(bits, pos) <= bits.len(),
    decreases bits.len() - pos,
{
    if pos < bits.len() && bits[pos as int] {
        lemma_ones_bound(bits, pos + 1);
    }
}

/// The bits of the binary encoding of a term.
pub open spec fn encode(t: Debruijn) -> Seq<bool>
    decreases t,
{
    match t {
        Debruijn::Index(i) => Seq::new(i as nat, |_j: int| true).push(false),
        Debruijn::Application { func, arg } => seq![false, true] + encode(*func) + encode(*arg),
        Debruijn::Abstraction { body } => seq![false, false] + encode(*body),
    }
}

proof fn lemma_ones_of_run(bits: Seq<bool>, pos: nat, i: nat)
    requires
        pos + i < bits.len(),
        forall|j: int| pos <= j < pos + i ==> bits[j],
        !bits[(pos + i) as int],
    ensures
        ones(bits, pos) == i,
    decreases i,
{
    if i > 0 {
        lemma_ones_of_run(bits, pos + 1, (i - 1) as nat);
    }
}

/// Decoding the encoding of a term (with positive indices) found at `pos` gives the term
/// back and ends right after the encoding, whatever follows it.
pub proof fn lemma_decode_encode(bits: Seq<bool>, pos: int, t: Debruijn)
    requires
        0 <= pos,
        t.indices_positive(),
        pos + encode(t).len() <= bits.len(),
        bits.subrange(pos, pos + encode(t).len()) == encode(t),
    ensures
        decode(bits, pos as nat) == Ok::<(Debruijn, nat), ParseError>(
            (t, (pos + encode(t).len()) as nat),
        ),
    decreases t,
{
    let e = encode(t);
    assert forall|j: int| 0 <= j < e.len() implies bits[pos + j] == e[j] by {
        assert(bits.subrange(pos, pos + e.len())[j] == bits[pos + j]);
    }
    match t {
        Debruijn::Index(i) => {
            assert(bits[pos] == e[0]);
            assert forall|j: int| pos <= j < pos + i implies bits[j] by {
                assert(bits[pos + (j - pos)] == e[j - pos]);
            }
            assert(bits[pos + i] == e[i as int]);
            lemma_ones_of_run(bits, pos as nat, i as nat);
        },
        Debruijn::Abstraction { body } => {
            assert(bits[pos] == e[0]);
            assert(bits[pos + 1] == e[1]);
            let eb = encode(*body);
            assert(bits.subrange(pos + 2, pos + 2 + eb.len()) =~= eb) by {
                assert forall|j: int| 0 <= j < eb.len() implies bits.subrange(
                    pos + 2,
                    pos + 2 + eb.len(),
                )[j] == eb[j] by {
                    assert(bits[pos + (j + 2)] == e[j + 2]);
                }
            }
            lemma_decode_encode(bits, pos + 2, *body);
        },
        Debruijn::Application { func, arg } => {
            assert(bits[pos] == e[0]);
            assert(bits[pos + 1] == e[1]);
            let ef = encode(*func);
            let ea = encode(*arg);
            assert(bits.subrange(pos + 2, pos + 2 + ef.len()) =~= ef) by {
                assert forall|j: int| 0 <= j < ef.len() implies bits.subrange(
                    pos + 2,
                    pos + 2 + ef.len(),
                )[j] == ef[j] by {
                    assert(bits[pos + (j + 2)] == e[j + 2]);
                }
            }
            assert(bits.subrange(pos + 2 + ef.len(), pos + 2 + ef.len() + ea.len()) =~= ea) by {
                assert forall|j: int| 0 <= j < ea.len() implies bits.subrange(
                    pos + 2 + ef.len(),
                    pos + 2 + ef.len() + ea.len(),
                )[j] == ea[j] by {
                    assert(bits[pos + (j + 2 + ef.len())] == e[j + 2 + ef.len()]);
                }
            }
            lemma_decode_encode(bits, pos + 2, *func);
            lemma_decode_encode(bits, pos + 2 + ef.len(), *arg);
        },
    }
}

/// Decoding the encoding of a term with positive indices gives the term back.
pub proof fn lemma_decode_all_encode(t: Debruijn)
    requires
        t.indices_positive(),
    ensures
        decode_all(encode(t)) == Ok::<Debruijn, ParseError>(t),
{
    let bits = encode(t);
    assert(bits.subrange(0, bits.len() as int) =~= bits);
    lemma_decode_encode(bits, 0, t);
}

/// The bits counted by `ones` are set, and the one after them is not.
proof fn lemma_ones_run(bits: Seq<bool>, pos: nat)
    ensures
        forall|j: int| pos <= j < pos + ones(bits, pos) ==> bits[j],
        pos + ones(bits, pos) < bits.len() ==> !bits[(pos + ones(bits, pos)) as int],
    decreases bits.len() - pos,
{
    if pos < bits.len() && bits[pos as int] {
        lemma_ones_run(bits, pos + 1);
    }
}

/// What decodes to a term at `pos` is the encoding of that term, whose indices are positive.
pub proof fn lemma_decode_sound(bits: Seq<bool>, pos: nat)
    requires
        bits.len() <= usize::MAX,
    ensures
        decode(bits, pos) matches Ok((t, p)) ==> pos < p <= bits.len() && t.indices_positive() && bits.subrange(
            pos as int,
            p as int,
        ) == encode(t),
    decreases bits.len() - pos,
{
    lemma_decode_advances(bits, pos);
    if pos < bits.len() {
        if bits[pos as int] {
            let k = ones(bits, pos);
            lemma_ones_run(bits, pos);
            lemma_ones_bound(bits, pos);
            if pos + k < bits.len() {
                assert(bits.subrange(pos as int, (pos + k + 1) as int) =~= encode(Debruijn::Index(k as usize)));
            }
        } else if pos + 1 < bits.len() {
            lemma_decode_sound(bits, pos + 2);
            if !bits[(pos + 1) as int] {
                if let Ok((body, p)) = decode(bits, pos + 2) {
                    assert(bits.subrange(pos as int, p as int) =~= seq![false, false] + bits.subrange((pos + 2) as int, p as int));
                }
            } else if let Ok((f, p)) = decode(bits, pos + 2) {
                lemma_decode_sound(bits, p);
                if let Ok((a, q)) = decode(bits, p) {
                    assert(bits.subrange(pos as int, q as int) =~= seq![false, true] + bits.subrange((pos + 2) as int, p as int)
                        + bits.subrange(p as int, q as int));
                }
            }
        }
    }
}

/// Only the encoding of a term decodes to it: the decoding of a whole bit string and the
/// encoding undo each other.
pub proof fn lemma_decode_all_sound(bits: Seq<bool>)
    requires
        bits.len() <= usize::MAX,
    ensures
        decode_all(bits) matches Ok(t) ==> t.indices_positive() && encode(t) == bits,
{
    lemma_decode_sound(bits, 0);
    if let Ok(t) = decode_all(bits) {
        assert(bits.subrange(0, bits.len() as int) =~= bits);
    }
}

/// The bits of two texts put together are the bits of each, put together.
proof fn lemma_bits_of_text_concat(a: Seq<char>, b: Seq<char>)
    ensures
        bits_of_text(a + b) == bits_of_text(a) + bits_of_text(b),
    decreases b.len(),
{
    if b.len() == 0 {
        assert(a + b =~= a);
        assert(bits_of_text(b) =~= Seq::<bool>::empty());
        assert(bits_of_text(a) + Seq::<bool>::empty() =~= bits_of_text(a));
    } else {
        lemma_bits_of_text_concat(a, b.drop_last());
        assert((a + b).drop_last() =~= a + b.drop_last());
        assert((a + b).last() == b.last());
        let pa = bits_of_text(a);
        let pb = bits_of_text(b.drop_last());
        assert((pa + pb).push(false) =~= pa + pb.push(false));
        assert((pa + pb).push(true) =~= pa + pb.push(true));
    }
}

/// The bits of the text of a term's binary form are its encoding.
pub proof fn lemma_bits_of_binary(t: Debruijn)
    ensures
        bits_of_text(crate::debruijn::binary(t)) == encode(t),
    decreases t,
{
    match t {
        Debruijn::Index(i) => {
            let ones_text = Seq::new(i as nat, |_j: int| '1');
            lemma_bits_of_ones(i as nat);
            assert(crate::debruijn::binary(t).drop_last() =~= ones_text);
        },
        Debruijn::Abstraction { body } => {
            lemma_bits_of_binary(*body);
            lemma_bits_of_text_concat(seq!['0', '0'], crate::debruijn::binary(*body));
            assert(seq!['0', '0'].drop_last() =~= seq!['0']);
            assert(seq!['0'].drop_last() =~= Seq::<char>::empty());
            assert(bits_of_text(seq!['0', '0']) =~= seq![false, false]) by {
                reveal_with_fuel(bits_of_text, 3);
                assert(bits_of_text(Seq::<char>::empty()) =~= Seq::<bool>::empty());
                assert(bits_of_text(seq!['0']) =~= seq![false]);
            }
        },
        Debruijn::Application { func, arg } => {
            lemma_bits_of_binary(*func);
            lemma_bits_of_binary(*arg);
            lemma_bits_of_text_concat(seq!['0', '1'] + crate::debruijn::binary(*func), crate::debruijn::binary(*arg));
            lemma_bits_of_text_concat(seq!['0', '1'], crate::debruijn::binary(*func));
            assert(seq!['0', '1'].drop_last() =~= seq!['0']);
            assert(seq!['0'].drop_last() =~= Seq::<char>::empty());
            assert(bits_of_text(seq!['0', '1']) =~= seq![false, true]) by {
                reveal_with_fuel(bits_of_text, 3);
                assert(bits_of_text(Seq::<char>::empty()) =~= Seq::<bool>::empty());
                assert(bits_of_text(seq!['0']) =~= seq![false]);
            }
        },
    }
}

proof fn lemma_bits_of_ones(n: nat)
    ensures
        bits_of_text(Seq::new(n, |_j: int| '1')) == Seq::new(n, |_j: int| true),
    decreases n,
{
    if n > 0 {
        lemma_bits_of_ones((n - 1) as nat);
        assert(Seq::new(n, |_j: int| '1').drop_last() =~= Seq::new((n - 1) as nat, |_j: int| '1'));
        assert(Seq::new((n - 1) as nat, |_j: int| true).push(true) =~= Seq::new(n, |_j: int| true));
    } else {
        assert(Seq::new(n, |_j: int| '1') =~= Seq::<char>::empty());
        assert(Seq::new(n, |_j: int| true) =~= Seq::<bool>::empty());
    }
}

/// Reading back the binary text of a term with positive indices gives the term.
pub proof fn lemma_binary_text_round_trip(t: Debruijn)
    requires
        t.indices_positive(),
    ensures
        decode_all(bits_of_text(crate::debruijn::binary(t))) == Ok::<Debruijn, ParseError>(t),
{
    lemma_bits_of_binary(t);
    lemma_decode_all_encode(t);
}

/// The bits being decoded and the position of the next one.
pub struct BinaryTokenStream {
    bits: Vec<bool>,
    i: usize,
}

impl BinaryTokenStream {
    pub closed spec fn bits_view(&self) -> Seq<bool> {
        self.bits@
    }

    pub closed spec fn position(&self) -> nat {
        self.i as nat
    }

    /// A stream at the start of `bits`.
    pub fn from_bits(bits: Vec<bool>) -> (s: BinaryTokenStream)
        ensures
            s.bits_view() == bits@,
            s.position() == 0,
    {
        BinaryTokenStream { bits, i: 0 }
    }

    /// A stream over the `0` and `1` characters of `s`; other characters are skipped.
    pub fn from_text(s: &str) -> (r: BinaryTokenStream)
        ensures
            r.bits_view() == bits_of_text(s@),
            r.position() == 0,
    {
        let chars = chars_of(s);
        let mut bits: Vec<bool> = Vec::new();
        let mut k: usize = 0;
        while k < chars.len()
            invariant
                chars@ == s@,
                k <= chars@.len(),
                bits@ == bits_of_text(chars@.take(k as int)),
            decreases chars@.len() - k,
        {
            let c = chars[k];
            proof {
                assert(chars@.take(k + 1).drop_last() =~= chars@.take(k as int));
            }
            if c == '0' {
                bits.push(false);
            } else if c == '1' {
                bits.push(true);
            }
            k = k + 1;
        }
        proof {
            assert(chars@.take(chars@.len() as int) =~= chars@);
        }
        BinaryTokenStream { bits, i: 0 }
    }

    fn has_next(&self) -> (r: bool)
        ensures
            r == (self.i < self.bits@.len()),
    {
        self.i < self.bits.len()
    }

    fn next(&mut self) -> (r: Option<bool>)
        ensures
            final(self).bits == old(self).bits,
            old(self).i < old(self).bits@.len() ==> r == Some(old(self).bits@[old(self).i as int])
                && final(self).i == old(self).i + 1,
            old(self).i >= old(self).bits@.len() ==> r is None && final(self).i == old(self).i,
    {
        if self.i < self.bits.len() {
            let bit = self.bits[self.i];
            self.i = self.i + 1;
            Some(bit)
        } else {
            None
        }
    }

    /// Decodes one term that must use up all the bits.
    pub fn parse(&mut self) -> (r: Result<Debruijn, ParseError>)
        requires
            old(self).position() <= old(self).bits_view().len(),
        ensures
            decode(old(self).bits_view(), old(self).position()) matches Err(e) ==> r
                == Err::<Debruijn, ParseError>(e),
            decode(old(self).bits_view(), old(self).position()) matches Ok((t, p)) ==> (if p
                < old(self).bits_view().len() {
                r == Err::<Debruijn, ParseError>(ParseError::LeftoverInput)
            } else {
                r == Ok::<Debruijn, ParseError>(t)
            }),
    {
        let term = self.parse_one();
        match term {
            Err(e) => Err(e),
            Ok(term) => {
                if self.has_next() {
                    Err(ParseError::LeftoverInput)
                } else {
                    Ok(term)
                }
            },
        }
    }

    fn parse_one(&mut self) -> (r: Result<Debruijn, ParseError>)
        requires
            old(self).i <= old(self).bits@.len(),
        ensures
            final(self).bits == old(self).bits,
            final(self).i <= final(self).bits@.len(),
            decode(old(self).bits@, old(self).i as nat) matches Ok((t, p)) ==> r == Ok::<
                Debruijn,
                ParseError,
            >(t) && final(self).i == p,
            decode(old(self).bits@, old(self).i as nat) matches Err(e) ==> r == Err::<
                Debruijn,
                ParseError,
            >(e),
        decreases old(self).bits@.len() - old(self).i,
    {
        let ghost bits = self.bits@;
        let ghost pos = self.i as nat;
        proof {
            lemma_decode_advances(bits, pos);
        }
        match self.next() {
            Some(false) => match self.next() {
                Some(false) => {
                    let body = self.parse_one();
                    match body {
                        Err(e) => Err(e),
                        Ok(body) => Ok(Debruijn::Abstraction { body: Box::new(body) }),
                    }
                },
                Some(true) => {
                    proof {
                        lemma_decode_advances(bits, pos + 2);
                    }
                    let func = self.parse_one();
                    match func {
                        Err(e) => Err(e),
                        Ok(func) => {
                            let arg = self.parse_one();
                            match arg {
                                Err(e) => Err(e),
                                Ok(arg) => Ok(
                                    Debruijn::Application { func: Box::new(func), arg: Box::new(arg) },
                                ),
                            }
                        },
                    }
                },
                None => Err(ParseError::EOF),
            },
            Some(true) => {
                let mut index: usize = 1;
                proof {
                    lemma_ones_bound(bits, pos);
                }
                loop
                    invariant
                        self.bits == old(self).bits,
                        self.bits@ == bits,
                        bits == old(self).bits@,
                        pos == old(self).i,
                        pos < bits.len(),
                        bits[pos as int],
                        self.i == pos + index,
                        1 <= index,
                        pos + index <= bits.len(),
                        ones(bits, pos) == index + ones(bits, (pos + index) as nat),
                    decreases bits.len() - self.i,
                {
                    match self.next() {
                        Some(true) => {
                            index = index + 1;
                        },
                        Some(false) => {
                            return Ok(Debruijn::Index(index));
                        },
                        None => {
                            return Err(ParseError::EOF);
                        },
                    }
                }
            },
            None => Err(ParseError::EOF),
        }
    }

    /// The bits as `0`/`1` characters, then a line with a caret under the next bit.
    pub fn to_string(&self) -> (s: String)
        ensures
            s@ == stream_text(self.bits_view(), self.position()),
    {
        let mut s = String::new();
        let mut k: usize = 0;
        while k < self.bits.len()
            invariant
                k <= self.bits@.len(),
                s@ == bits_text(self.bits@.take(k as int)),
            decreases self.bits@.len() - k,
        {
            proof {
                assert(self.bits@.take(k + 1).drop_last() =~= self.bits@.take(k as int));
            }
            if self.bits[k] {
                push_char(&mut s, '1');
            } else {
                push_char(&mut s, '0');
            }
            k = k + 1;
        }
        proof {
            assert(self.bits@.take(self.bits@.len() as int) =~= self.bits@);
        }
        push_char(&mut s, '\n');
        let ghost head = s@;
        let mut k: usize = 0;
        while k < self.bits.len()
            invariant
                k <= self.bits@.len(),
                s@ == head + caret_line(k as nat, self.i as nat),
            decreases self.bits@.len() - k,
        {
            if k == self.i {
                push_char(&mut s, '^');
            } else {
                push_char(&mut s, ' ');
            }
            k = k + 1;
            proof {
                assert(s@ =~= head + caret_line(k as nat, self.i as nat));
            }
        }
        s
    }
}

/// The bits given by the `0` and `1` characters of `s`.
pub open spec fn bits_of_text(s: Seq<char>) -> Seq<bool>
    decreases s.len(),
{
    if s.len() == 0 {
        Seq::empty()
    } else {
        let prefix = bits_of_text(s.drop_last());
        if s.last() == '0' {
            prefix.push(false)
        } else if s.last() == '1' {
            prefix.push(true)
        } else {
            prefix
        }
    }
}

/// The `0`/`1` characters of bits.
pub open spec fn bits_text(bits: Seq<bool>) -> Seq<char>
    decreases bits.len(),
{
    if bits.len() == 0 {
        Seq::empty()
    } else {
        bits_text(bits.drop_last()).push(if bits.last() { '1' } else { '0' })
    }
}

/// `n` columns, with a caret in column `at` if it is among them.
pub open spec fn caret_line(n: nat, at: nat) -> Seq<char>
    decreases n,
{
    if n == 0 {
        Seq::empty()
    } else {
        caret_line((n - 1) as nat, at).push(if (n - 1) as nat == at { '^' } else { ' ' })
    }
}

/// The display of a stream: its bits, a newline, and a caret under the next bit.
pub open spec fn stream_text(bits: Seq<bool>, at: nat) -> Seq<char> {
    bits_text(bits).push('\n') + caret_line(bits.len(), at)
}

/// Decodes a bit vector holding exactly one term.
pub fn from_vec(bits: Vec<bool>) -> (r: Result<Debruijn, ParseError>)
    ensures
        r == decode_all(bits@),
{
    let mut stream = BinaryTokenStream::from_bits(bits);
    stream.parse()
}

/// Decodes the `0`/`1` characters of a string (others are ignored), which must hold exactly
/// one term.
pub fn from_str(string: &str) -> (r: Result<Debruijn, ParseError>)
    ensures
        r == decode_all(bits_of_text(string@)),
{
    let mut stream = BinaryTokenStream::from_text(string);
    stream.parse()
}

} // verus!
