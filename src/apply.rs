use vstd::prelude::*;
use crate::term::{app, Prim, Shape, Term, Value};

verus! {

/// `b` raised to the power `e`.
pub open spec fn power(b: nat, e: nat) -> nat
    decreases e,
{
    if e == 0 {
        1
    } else {
        b * power(b, (e - 1) as nat)
    }
}

/// Subtraction that stops at zero.
pub open spec fn monus(m: u32, n: u32) -> u32 {
    if m >= n {
        (m - n) as u32
    } else {
        0
    }
}

/// What `apply(f, x)` builds: the simplified result where a shortcut of the
/// table applies, else the plain application.
pub open spec fn apply_term(f: Term, x: Term) -> Term {
    let plain = app(f, x);
    match f {
        Term::Prim(Prim::Pred) => match x {
            Term::Prim(Prim::Pred) => app(Term::Prim(Prim::Const), Term::Num(0)),
            Term::Num(n) => Term::Num(monus(n, 1)),
            _ => plain,
        },
        Term::Num(m) => if m == 0 {
            Term::Num(1)
        } else if m == 1 {
            x
        } else {
            match x {
                Term::Num(n) => if power(n as nat, m as nat) <= u32::MAX {
                    Term::Num(power(n as nat, m as nat) as u32)
                } else {
                    plain
                },
                Term::App(u, v) => match (*u, *v) {
                    (Term::Num(n), Term::Prim(Prim::Plus)) => if m * n <= u32::MAX {
                        Term::Num((m * n) as u32)
                    } else {
                        plain
                    },
                    _ => plain,
                },
                _ => plain,
            }
        },
        Term::App(a, b) => match (*a, *b) {
            (Term::Prim(Prim::Minus), Term::Prim(Prim::Plus)) => if x == app(
                Term::Prim(Prim::Plus),
                Term::Prim(Prim::Minus),
            ) || x == Term::Num(1) {
                Term::Prim(Prim::Rotate)
            } else {
                plain
            },
            (Term::Prim(Prim::Minus), Term::Prim(Prim::Minus)) => if x == Term::Prim(Prim::Minus) {
                Term::Num(0)
            } else {
                plain
            },
            (Term::Prim(Prim::Rotate), Term::Prim(Prim::Const)) => if x == Term::Prim(
                Prim::Rotate,
            ) {
                Term::Num(0)
            } else {
                plain
            },
            (Term::Prim(Prim::Rotate), Term::Num(0)) => if x == Term::Prim(Prim::Rotate) {
                Term::Prim(Prim::Const)
            } else {
                plain
            },
            (Term::Prim(Prim::Plus), Term::Num(m)) => match x {
                Term::Num(n) => if m + n <= u32::MAX {
                    Term::Num((m + n) as u32)
                } else {
                    plain
                },
                _ => plain,
            },
            (Term::Prim(Prim::Minus), Term::Num(m)) => match x {
                Term::Num(n) => Term::Num(monus(m, n)),
                _ => plain,
            },
            (Term::Prim(Prim::Const), u) => u,
            _ => plain,
        },
        _ => plain,
    }
}

proof fn lemma_power_grows(b: nat, e1: nat, e2: nat)
    requires
        b >= 1,
        e1 <= e2,
    ensures
        power(b, e1) <= power(b, e2),
    decreases e2,
{
    if e1 < e2 {
        lemma_power_grows(b, e1, (e2 - 1) as nat);
        assert(power(b, (e2 - 1) as nat) <= b * power(b, (e2 - 1) as nat)) by (nonlinear_arith)
            requires
                b >= 1,
        ;
    }
}

proof fn lemma_power_small(b: nat, e: nat)
    requires
        b <= 1,
    ensures
        e > 0 ==> power(b, e) == b,
        power(b, e) <= 1,
    decreases e,
{
    if e > 0 {
        lemma_power_small(b, (e - 1) as nat);
        if b == 0 {
            assert(power(b, e) == 0);
        } else {
            assert(power(b, e) == power(b, (e - 1) as nat));
        }
    }
}

/// `base` raised to `exp`, or `None` when that exceeds `u32::MAX`.
pub fn checked_pow(base: u32, exp: u32) -> (r: Option<u32>)
    ensures
        match r {
            Some(v) => v == power(base as nat, exp as nat),
            None => power(base as nat, exp as nat) > u32::MAX,
        },
{
    if base <= 1 {
        proof {
            lemma_power_small(base as nat, exp as nat);
        }
        if exp == 0 {
            return Some(1);
        } else {
            return Some(base);
        }
    }
    let mut acc: u64 = 1;
    let mut i: u32 = 0;
    while i < exp
        invariant
            i <= exp,
            acc == power(base as nat, i as nat),
            acc <= u32::MAX,
            base >= 2,
        decreases exp - i,
    {
        assert(acc * (base as u64) <= u32::MAX * u32::MAX) by (nonlinear_arith)
            requires
                acc <= u32::MAX,
                base <= u32::MAX,
        ;
        let next = acc * (base as u64);
        assert(power(base as nat, (i + 1) as nat) == base as nat * power(base as nat, i as nat));
        assert(next == power(base as nat, (i + 1) as nat)) by (nonlinear_arith)
            requires
                next == acc * base,
                acc == power(base as nat, i as nat),
                power(base as nat, (i + 1) as nat) == base as nat * power(base as nat, i as nat),
        ;
        if next > u32::MAX as u64 {
            proof {
                lemma_power_grows(base as nat, (i + 1) as nat, exp as nat);
            }
            return None;
        }
        acc = next;
        i = i + 1;
    }
    Some(acc as u32)
}

impl Value {
    fn is_prim(&self, p: Prim) -> (r: bool)
        ensures
            r == (self@ == Term::Prim(p)),
    {
        match self.shape() {
            Shape::Prim(q) => q == p,
            _ => false,
        }
    }

    /// The application of `self` to `x`, simplified by the shortcut table
    /// where one of its patterns matches.
    pub fn apply(self, x: Value) -> (r: Value)
        ensures
            r@ == apply_term(self@, x@),
    {
        match self.shape() {
            Shape::Prim(Prim::Pred) => match x.shape() {
                Shape::Prim(Prim::Pred) => {
                    return Value::primitive(Prim::Const).bind(Value::number(0));
                },
                Shape::Num(n) => {
                    return Value::number(if n >= 1 {
                        n - 1
                    } else {
                        0
                    });
                },
                _ => {},
            },
            Shape::Num(m) => {
                if m == 0 {
                    x.release();
                    return Value::number(1);
                } else if m == 1 {
                    return x;
                }
                match x.shape() {
                    Shape::Num(n) => {
                        if let Some(v) = checked_pow(n, m) {
                            return Value::number(v);
                        }
                    },
                    Shape::App => {
                        if let Some((Shape::Num(n), Shape::Prim(Prim::Plus))) = x.split_shapes() {
                            assert((m as u64) * (n as u64) <= u32::MAX * u32::MAX)
                                by (nonlinear_arith);
                            if (m as u64) * (n as u64) <= u32::MAX as u64 {
                                return Value::number(m * n);
                            }
                        }
                    },
                    _ => {},
                }
            },
            Shape::App => {
                let parts = self.split_shapes();
                match parts {
                    Some((Shape::Prim(Prim::Minus), Shape::Prim(Prim::Plus))) => {
                        let hit = match x.split_shapes() {
                            Some((Shape::Prim(Prim::Plus), Shape::Prim(Prim::Minus))) => true,
                            _ => x.shape() == Shape::Num(1),
                        };
                        if hit {
                            return Value::primitive(Prim::Rotate);
                        }
                    },
                    Some((Shape::Prim(Prim::Minus), Shape::Prim(Prim::Minus))) => {
                        if x.is_prim(Prim::Minus) {
                            return Value::number(0);
                        }
                    },
                    Some((Shape::Prim(Prim::Rotate), Shape::Prim(Prim::Const))) => {
                        if x.is_prim(Prim::Rotate) {
                            return Value::number(0);
                        }
                    },
                    Some((Shape::Prim(Prim::Rotate), Shape::Num(0))) => {
                        if x.is_prim(Prim::Rotate) {
                            return Value::primitive(Prim::Const);
                        }
                    },
                    Some((Shape::Prim(Prim::Plus), Shape::Num(m))) => {
                        if let Shape::Num(n) = x.shape() {
                            if (m as u64) + (n as u64) <= u32::MAX as u64 {
                                return Value::number(m + n);
                            }
                        }
                    },
                    Some((Shape::Prim(Prim::Minus), Shape::Num(m))) => {
                        if let Shape::Num(n) = x.shape() {
                            return Value::number(if m >= n {
                                m - n
                            } else {
                                0
                            });
                        }
                    },
                    Some((Shape::Prim(Prim::Const), _)) => {
                        let (_, u) = self.split();
                        return u.ignore(x);
                    },
                    _ => {},
                }
            },
            _ => {},
        }
        self.bind(x)
    }
}

} // verus!
