use vstd::prelude::*;
use crate::apply::apply_term;
use crate::engine::{terms, Context};
use crate::term::{Prim, Shape, Term, Value};

verus! {

/// The head with every leftover argument applied back onto it, first
/// argument (the top of the stack) first.
pub open spec fn unwind(h: Term, st: Seq<Term>) -> Term
    decreases st.len(),
{
    if st.len() == 0 {
        h
    } else {
        unwind(apply_term(h, st.last()), st.drop_last())
    }
}

/// The context that normalises a term and gives it back as one term.
#[derive(Debug, PartialEq, Eq, Structural)]
pub struct Pure;

impl Context for Pure {
    type Result = Value;

    open spec fn seed() -> Seq<Term> {
        Seq::empty()
    }

    open spec fn start() -> Self {
        Pure
    }

    open spec fn hook(self, _n: u32, _stack: Seq<Term>) -> Option<(Self, Term, Seq<Term>)> {
        None
    }

    open spec fn outcome(self, head: Term, stack: Seq<Term>, r: Value) -> bool {
        r@ == unwind(head, stack)
    }

    fn init() -> (r: (Vec<Value>, Self)) {
        let v: Vec<Value> = Vec::new();
        assert(terms(v@) =~= Seq::empty());
        (v, Pure)
    }

    fn result(self, x: Value, stack: Vec<Value>) -> (r: Value) {
        let ghost goal = unwind(x@, terms(stack@));
        let mut x = x;
        let mut stack = stack;
        while stack.len() > 0
            invariant
                unwind(x@, terms(stack@)) == goal,
            decreases stack.len(),
        {
            let ghost prev = terms(stack@);
            let v = stack.pop().unwrap();
            assert(terms(stack@) =~= prev.drop_last());
            x = x.apply(v);
        }
        assert(terms(stack@) =~= Seq::empty());
        x
    }

    /// Pure evaluation leaves a numeral meeting `MarkInc` unreduced.
    fn add(&mut self, _n: u32, _stack: &mut Vec<Value>) -> (r: Option<Value>) {
        None
    }
}

/// What the decoder makes of a term applied to `MarkInc` and `MarkInit`.
#[derive(Clone, Copy, Debug, PartialEq, Eq, Structural)]
pub enum Leaf {
    /// The term selected its first argument: the list marker.
    True,
    /// The term applied its first argument this many times to the second.
    Byte(u8),
    /// Anything else.
    Invalid,
}

/// The context that reads a term as a byte or the list marker; it holds the
/// count of `MarkInc` applications so far, `None` once that left the byte range.
#[derive(Debug, PartialEq, Eq, Structural)]
pub struct Decoder(pub Option<u8>);

/// The count after numeral `n` more applications of `MarkInc`.
pub open spec fn bump(acc: Option<u8>, n: u32) -> Option<u8> {
    match acc {
        Some(m) => if n < 256 && m + n < 256 {
            Some((m + n) as u8)
        } else {
            None
        },
        None => None,
    }
}

/// The decoder's verdict on an irreducible head and leftover stack.
pub open spec fn verdict(acc: Option<u8>, head: Term, stack: Seq<Term>) -> Leaf {
    if stack.len() > 0 {
        Leaf::Invalid
    } else {
        match acc {
            Some(n) => if n == 0 && head == Term::Prim(Prim::MarkInc) {
                Leaf::True
            } else if head == Term::Prim(Prim::MarkInit) {
                Leaf::Byte(n)
            } else {
                Leaf::Invalid
            },
            None => Leaf::Invalid,
        }
    }
}

impl Context for Decoder {
    type Result = Leaf;

    open spec fn seed() -> Seq<Term> {
        seq![Term::Prim(Prim::MarkInit), Term::Prim(Prim::MarkInc)]
    }

    open spec fn start() -> Self {
        Decoder(Some(0))
    }

    open spec fn hook(self, n: u32, stack: Seq<Term>) -> Option<(Self, Term, Seq<Term>)> {
        if stack.len() != 1 {
            None
        } else {
            Some((Decoder(bump(self.0, n)), stack[0], Seq::empty()))
        }
    }

    open spec fn outcome(self, head: Term, stack: Seq<Term>, r: Leaf) -> bool {
        r == verdict(self.0, head, stack)
    }

    fn init() -> (r: (Vec<Value>, Self)) {
        let v = vec![Value::primitive(Prim::MarkInit), Value::primitive(Prim::MarkInc)];
        assert(terms(v@) =~= seq![Term::Prim(Prim::MarkInit), Term::Prim(Prim::MarkInc)]);
        (v, Decoder(Some(0)))
    }

    fn result(self, x: Value, stack: Vec<Value>) -> (r: Leaf) {
        let head = x.shape();
        x.release();
        if stack.len() > 0 {
            Value::release_all(stack);
            return Leaf::Invalid;
        }
        match self.0 {
            Some(n) => {
                if n == 0 && head == Shape::Prim(Prim::MarkInc) {
                    Leaf::True
                } else if head == Shape::Prim(Prim::MarkInit) {
                    Leaf::Byte(n)
                } else {
                    Leaf::Invalid
                }
            },
            None => Leaf::Invalid,
        }
    }

    fn add(&mut self, n: u32, stack: &mut Vec<Value>) -> (r: Option<Value>) {
        if stack.len() != 1 {
            return None;
        }
        self.0 = match self.0 {
            Some(m) => {
                if n < 256 && (m as u32) + n < 256 {
                    Some((m as u32 + n) as u8)
                } else {
                    None
                }
            },
            None => None,
        };
        let v = stack.pop().unwrap();
        assert(terms(stack@) =~= Seq::empty());
        Some(v)
    }
}

} // verus!
