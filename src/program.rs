use vstd::prelude::*;
use crate::apply::apply_term;
use crate::context::{unwind, verdict, Decoder, Leaf, Pure};
use crate::engine::{evaluated, run, stuck, terms, Context};
use crate::term::{Prim, Term, Value};

verus! {

pub const NEWLINE: u8 = 10;
pub const TAB: u8 = 9;
pub const RETURN: u8 = 13;
pub const SPACE: u8 = 32;
pub const COMMENT_SIGN: u8 = 35;
pub const PLUS_SIGN: u8 = 43;
pub const MINUS_SIGN: u8 = 45;
pub const APPLY_SIGN: u8 = 46;
pub const DIGIT_ZERO: u8 = 48;
pub const DIGIT_NINE: u8 = 57;

/// Why a source text does not denote one program.
#[derive(Clone, Copy, Debug, PartialEq, Eq, Structural)]
pub enum LoadError {
    /// `.` found fewer than two pending terms.
    Underflow,
    /// The text ended with no pending term, or with more than one.
    NotOneTerm,
    /// A byte that is no token, outside a comment.
    Unexpected(u8),
}

/// The front-end's state after one more byte: the pending terms, and whether
/// a comment is open; `.` applies the more recently pushed term to the other.
pub open spec fn scan_byte(st: Seq<Term>, in_comment: bool, b: u8) -> Result<
    (Seq<Term>, bool),
    LoadError,
> {
    if in_comment {
        Ok((st, b != NEWLINE))
    } else if b == PLUS_SIGN {
        Ok((st.push(Term::Prim(Prim::Plus)), false))
    } else if b == MINUS_SIGN {
        Ok((st.push(Term::Prim(Prim::Minus)), false))
    } else if DIGIT_ZERO <= b && b <= DIGIT_NINE {
        Ok((st.push(Term::Num((b - DIGIT_ZERO) as u32)), false))
    } else if b == APPLY_SIGN {
        if st.len() < 2 {
            Err(LoadError::Underflow)
        } else {
            let n = st.len();
            Ok((st.take(n - 2).push(apply_term(st[n - 1], st[n - 2])), false))
        }
    } else if b == COMMENT_SIGN {
        Ok((st, true))
    } else if b == SPACE || b == TAB || b == NEWLINE || b == RETURN {
        Ok((st, false))
    } else {
        Err(LoadError::Unexpected(b))
    }
}

/// The front-end's state after the bytes of `src`, or the first error.
pub open spec fn scan(src: Seq<u8>) -> Result<(Seq<Term>, bool), LoadError>
    decreases src.len(),
{
    if src.len() == 0 {
        Ok((Seq::empty(), false))
    } else {
        match scan(src.drop_last()) {
            Err(e) => Err(e),
            Ok(s) => scan_byte(s.0, s.1, src.last()),
        }
    }
}

/// The program that `src` denotes.
pub open spec fn parse(src: Seq<u8>) -> Result<Term, LoadError> {
    match scan(src) {
        Err(e) => Err(e),
        Ok(s) => if s.0.len() == 1 {
            Ok(s.0[0])
        } else {
            Err(LoadError::NotOneTerm)
        },
    }
}

proof fn lemma_scan_error_sticks(src: Seq<u8>, i: int)
    requires
        0 <= i <= src.len(),
        scan(src.take(i)) is Err,
    ensures
        scan(src) == scan(src.take(i)),
    decreases src.len() - i,
{
    if i < src.len() {
        assert(src.take(i + 1).drop_last() =~= src.take(i));
        lemma_scan_error_sticks(src, i + 1);
    } else {
        assert(src.take(i) =~= src);
    }
}

/// A whole program: one closed term.
#[derive(Debug)]
pub struct Program(Value);

impl View for Program {
    type V = Term;

    closed spec fn view(&self) -> Term {
        self.0@
    }
}

/// The term after normalising `t` for at most `fuel` steps, or `None` when
/// that is not enough.
pub open spec fn settle(t: Term, fuel: nat) -> Option<Term> {
    let fin = run(t, Pure::seed(), Pure::start(), fuel);
    if stuck(fin) {
        Some(unwind(fin.0, fin.1))
    } else {
        None
    }
}

/// The decoder's verdict on `t` applied to `const` (the head of a list
/// cell), or `None` when `fuel` steps are not enough.
pub open spec fn probe(t: Term, fuel: nat) -> Option<Leaf> {
    let fin = run(apply_term(t, Term::Prim(Prim::Const)), Decoder::seed(), Decoder::start(), fuel);
    if stuck(fin) {
        Some(verdict(fin.2.0, fin.0, fin.1))
    } else {
        None
    }
}

/// What one pull from a remaining-output term `t` comes to.
pub enum Move {
    /// Emit the byte; the rest of the output is the term.
    Byte(u8, Term),
    /// Read one input byte and hand it to the term.
    Read(Term),
    End,
    Malformed,
    Stalled,
}

/// One pull: normalise the list, decode its head; a data byte is emitted and
/// the tail remains; the list marker opens a control cell, whose own head is
/// the marker again (end of output) or `0` (read a byte); all else is malformed.
pub open spec fn pull_move(t: Term, fuel: nat) -> Move {
    match settle(t, fuel) {
        None => Move::Stalled,
        Some(l) => match probe(l, fuel) {
            None => Move::Stalled,
            Some(Leaf::Byte(b)) => Move::Byte(b, apply_term(l, Term::Num(0))),
            Some(Leaf::Invalid) => Move::Malformed,
            Some(Leaf::True) => match settle(apply_term(l, Term::Num(0)), fuel) {
                None => Move::Stalled,
                Some(c) => match probe(c, fuel) {
                    None => Move::Stalled,
                    Some(Leaf::True) => Move::End,
                    Some(Leaf::Byte(0)) => Move::Read(c),
                    Some(_) => Move::Malformed,
                },
            },
        },
    }
}

/// The term handed back after a read: the byte as a numeral, or `const` at
/// the end of input.
pub open spec fn input_term(input: Option<u8>) -> Term {
    match input {
        Some(b) => Term::Num(b as u32),
        None => Term::Prim(Prim::Const),
    }
}

/// The output of a program, pulled one byte at a time.
#[derive(Debug)]
pub struct Stream {
    list: Value,
}

impl View for Stream {
    type V = Term;

    closed spec fn view(&self) -> Term {
        self.list@
    }
}

/// A stream waiting for one input byte.
#[derive(Debug)]
pub struct Reader {
    control: Value,
}

impl View for Reader {
    type V = Term;

    closed spec fn view(&self) -> Term {
        self.control@
    }
}

/// The result of one pull.
#[derive(Debug)]
pub enum Pull {
    Byte(u8, Stream),
    NeedInput(Reader),
    End,
    Malformed,
    Stalled,
}

pub open spec fn pull_is(p: Pull, m: Move) -> bool {
    match m {
        Move::Byte(b, t) => match p {
            Pull::Byte(c, s) => c == b && s@ == t,
            _ => false,
        },
        Move::Read(t) => match p {
            Pull::NeedInput(r) => r@ == t,
            _ => false,
        },
        Move::End => p is End,
        Move::Malformed => p is Malformed,
        Move::Stalled => p is Stalled,
    }
}

fn settle_value(t: Value, fuel: u64) -> (r: Option<Value>)
    ensures
        match settle(t@, fuel as nat) {
            Some(s) => match r {
                Some(v) => v@ == s,
                None => false,
            },
            None => r is None,
        },
{
    let r = t.eval::<Pure>(fuel);
    assert(evaluated::<Pure>(t@, fuel as nat, r));
    r
}

fn probe_value(t: &Value, fuel: u64) -> (r: Option<Leaf>)
    ensures
        r == probe(t@, fuel as nat),
{
    let r = t.duplicate().apply(Value::primitive(Prim::Const)).eval::<Decoder>(fuel);
    r
}

impl Program {
    /// Reads a program text: `+` and `-` are the primitives plus and minus, a
    /// digit is a numeral, `.` applies the more recently pushed term to the
    /// other, `#` starts a comment up to the end of the line, and whitespace
    /// separates.
    pub fn load(src: &[u8]) -> (r: Result<Program, LoadError>)
        ensures
            match parse(src@) {
                Ok(t) => match r {
                    Ok(p) => p@ == t,
                    Err(_) => false,
                },
                Err(e) => match r {
                    Err(e2) => e2 == e,
                    Ok(_) => false,
                },
            },
    {
        let mut stack: Vec<Value> = Vec::new();
        let mut comment = false;
        let mut i: usize = 0;
        assert(src@.take(0) =~= Seq::<u8>::empty());
        assert(terms(stack@) =~= Seq::<Term>::empty());
        while i < src.len()
            invariant
                i <= src.len(),
                scan(src@.take(i as int)) == Ok::<(Seq<Term>, bool), LoadError>(
                    (terms(stack@), comment),
                ),
            decreases src.len() - i,
        {
            let b = src[i];
            let ghost st = terms(stack@);
            proof {
                assert(src@.take(i + 1).drop_last() =~= src@.take(i as int));
                assert(src@.take(i + 1).last() == b);
            }
            if comment {
                comment = b != NEWLINE;
            } else if b == PLUS_SIGN {
                stack.push(Value::primitive(Prim::Plus));
                assert(terms(stack@) =~= st.push(Term::Prim(Prim::Plus)));
            } else if b == MINUS_SIGN {
                stack.push(Value::primitive(Prim::Minus));
                assert(terms(stack@) =~= st.push(Term::Prim(Prim::Minus)));
            } else if DIGIT_ZERO <= b && b <= DIGIT_NINE {
                stack.push(Value::number((b - DIGIT_ZERO) as u32));
                assert(terms(stack@) =~= st.push(Term::Num((b - DIGIT_ZERO) as u32)));
            } else if b == APPLY_SIGN {
                if stack.len() < 2 {
                    proof {
                        lemma_scan_error_sticks(src@, i + 1);
                    }
                    return Err(LoadError::Underflow);
                }
                let n = stack.len();
                let y = stack.pop().unwrap();
                let x = stack.pop().unwrap();
                stack.push(y.apply(x));
                assert(terms(stack@) =~= st.take(n - 2).push(apply_term(st[n - 1], st[n - 2])));
            } else if b == COMMENT_SIGN {
                comment = true;
            } else if b == SPACE || b == TAB || b == NEWLINE || b == RETURN {
            } else {
                proof {
                    lemma_scan_error_sticks(src@, i + 1);
                }
                return Err(LoadError::Unexpected(b));
            }
            i = i + 1;
        }
        assert(src@.take(i as int) =~= src@);
        if stack.len() != 1 {
            return Err(LoadError::NotOneTerm);
        }
        let t = stack.pop().unwrap();
        Ok(Program(t))
    }

    /// The program's term.
    pub fn code(&self) -> (r: &Value)
        ensures
            r@ == self@,
    {
        &self.0
    }

    /// The program's output stream.
    pub fn wrap(self) -> (r: Stream)
        ensures
            r@ == self@,
    {
        Stream { list: self.0 }
    }
}

impl Stream {
    /// The stream whose remaining output is the list `list`.
    pub fn new(list: Value) -> (r: Stream)
        ensures
            r@ == list@,
    {
        Stream { list }
    }

    /// Pulls the next byte, spending at most `fuel` reduction steps on each
    /// normalisation and each decoding.
    pub fn pull(self, fuel: u64) -> (r: Pull)
        ensures
            pull_is(r, pull_move(self@, fuel as nat)),
    {
        let l = match settle_value(self.list, fuel) {
            Some(l) => l,
            None => {
                return Pull::Stalled;
            },
        };
        match probe_value(&l, fuel) {
            None => {
                l.release();
                Pull::Stalled
            },
            Some(Leaf::Byte(b)) => Pull::Byte(b, Stream { list: l.apply(Value::number(0)) }),
            Some(Leaf::Invalid) => {
                l.release();
                Pull::Malformed
            },
            Some(Leaf::True) => {
                let c = match settle_value(l.apply(Value::number(0)), fuel) {
                    Some(c) => c,
                    None => {
                        return Pull::Stalled;
                    },
                };
                match probe_value(&c, fuel) {
                    Some(Leaf::Byte(0)) => Pull::NeedInput(Reader { control: c }),
                    r => {
                        c.release();
                        match r {
                            None => Pull::Stalled,
                            Some(Leaf::True) => Pull::End,
                            Some(_) => Pull::Malformed,
                        }
                    },
                }
            },
        }
    }
}

impl Reader {
    /// Hands the control cell the byte read, or `const` at the end of input.
    pub fn feed(self, input: Option<u8>) -> (r: Stream)
        ensures
            r@ == apply_term(apply_term(self@, Term::Num(0)), input_term(input)),
    {
        let x = match input {
            Some(b) => Value::number(b as u32),
            None => Value::primitive(Prim::Const),
        };
        Stream { list: self.control.apply(Value::number(0)).apply(x) }
    }
}

} // verus!
