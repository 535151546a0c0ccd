use vstd::prelude::*;
use crate::apply::{apply_term, checked_pow, monus, power};
use crate::term::{app, Prim, Shape, Term, Value};

verus! {

/// The terms held by a stack of values (the top is the last element).
pub open spec fn terms(s: Seq<Value>) -> Seq<Term> {
    s.map_values(|v: Value| v@)
}

/// A decoding policy: the stack it seeds, what it does when a numeral meets
/// `MarkInc`, and how the irreducible head and leftover stack become its result.
pub trait Context: Sized {
    type Result;

    /// The pending arguments that evaluation starts with.
    spec fn seed() -> Seq<Term>;

    /// The state that evaluation starts with.
    spec fn start() -> Self;

    /// On numeral `n` meeting `MarkInc` over `stack`: `None` when the context
    /// declines (evaluation stops), else its next state, head and stack.
    spec fn hook(self, n: u32, stack: Seq<Term>) -> Option<(Self, Term, Seq<Term>)>;

    /// Whether `r` is what this context makes of an irreducible `head` and `stack`.
    spec fn outcome(self, head: Term, stack: Seq<Term>, r: Self::Result) -> bool;

    fn init() -> (r: (Vec<Value>, Self))
        ensures
            terms(r.0@) == Self::seed(),
            r.1 == Self::start(),
    ;

    fn result(self, x: Value, stack: Vec<Value>) -> (r: Self::Result)
        ensures
            self.outcome(x@, terms(stack@), r),
    ;

    fn add(&mut self, n: u32, stack: &mut Vec<Value>) -> (r: Option<Value>)
        ensures
            match old(self).hook(n, terms(old(stack)@)) {
                None => r is None && *final(self) == *old(self) && terms(final(stack)@) == terms(
                    old(stack)@,
                ),
                Some(s) => match r {
                    Some(v) => v@ == s.1 && *final(self) == s.0 && terms(final(stack)@) == s.2,
                    None => false,
                },
            },
    ;
}

/// `plus m n f x`: `m + n` applied to `f, x` when both are numerals whose sum
/// fits, else `n f (m f x)`.
pub open spec fn plus_rule(st: Seq<Term>) -> Option<(Term, Seq<Term>)> {
    let n = st.len();
    if n < 4 {
        None
    } else {
        let m = st[n - 1];
        let k = st[n - 2];
        let f = st[n - 3];
        let x = st[n - 4];
        if m is Num && k is Num && m->Num_0 + k->Num_0 <= u32::MAX {
            Some((Term::Num((m->Num_0 + k->Num_0) as u32), st.take(n - 2)))
        } else {
            Some((k, st.take(n - 4).push(apply_term(apply_term(m, f), x)).push(f)))
        }
    }
}

/// `minus m n`: the fixed points, `m - n` stopping at zero on numerals, else
/// `n pred m`.
pub open spec fn minus_rule(st: Seq<Term>) -> Option<(Term, Seq<Term>)> {
    let n = st.len();
    if n < 2 {
        None
    } else {
        let m = st[n - 1];
        let k = st[n - 2];
        let rest = st.take(n - 2);
        if m == Term::Prim(Prim::Plus) && (k == app(Term::Prim(Prim::Plus), Term::Prim(Prim::Minus))
            || k == Term::Num(1)) {
            Some((Term::Prim(Prim::Rotate), rest))
        } else if m == Term::Prim(Prim::Minus) && k == Term::Prim(Prim::Minus) {
            Some((Term::Num(0), rest))
        } else if m is Num && k is Num {
            Some((Term::Num(monus(m->Num_0, k->Num_0)), rest))
        } else {
            Some((k, rest.push(m).push(Term::Prim(Prim::Pred))))
        }
    }
}

/// The step function of the predecessor's pairing construction:
/// `step_of(f) g h z` reduces to `h (rotate f g) z`, where `rotate f g w`
/// reduces to `g f w`; so it acts as `h (g f)` once one more argument follows.
pub open spec fn step_of(f: Term) -> Term {
    app(app(Term::Prim(Prim::Wrap), Term::Prim(Prim::Rotate)), app(Term::Prim(Prim::Rotate), f))
}

/// `pred m f x`: `m - 1` (stopping at zero) on a numeral, `1` on `pred`
/// itself, else `m (step_of f) (const x) 1`.
pub open spec fn pred_rule(st: Seq<Term>) -> Option<(Term, Seq<Term>)> {
    let n = st.len();
    if n < 3 {
        None
    } else {
        let m = st[n - 1];
        let f = st[n - 2];
        let x = st[n - 3];
        if m is Num {
            Some((Term::Num(monus(m->Num_0, 1)), st.take(n - 1)))
        } else if m == Term::Prim(Prim::Pred) {
            Some((Term::Num(1), st.take(n - 3)))
        } else {
            Some(
                (
                    m,
                    st.take(n - 3).push(Term::Num(1)).push(
                        app(Term::Prim(Prim::Const), x),
                    ).push(step_of(f)),
                ),
            )
        }
    }
}

/// `wrap h g f` = `h (g f)`: the first argument after the second.
pub open spec fn wrap_rule(st: Seq<Term>) -> Option<(Term, Seq<Term>)> {
    let n = st.len();
    if n < 3 {
        None
    } else {
        Some((st[n - 1], st.take(n - 3).push(apply_term(st[n - 2], st[n - 3]))))
    }
}

/// `const x y` = `x`.
pub open spec fn const_rule(st: Seq<Term>) -> Option<(Term, Seq<Term>)> {
    let n = st.len();
    if n < 2 {
        None
    } else {
        Some((st[n - 1], st.take(n - 2)))
    }
}

/// `rotate x y z` = `y x z`, but `rotate const rotate` = `0` and
/// `rotate 0 rotate` = `const`.
pub open spec fn rotate_rule(st: Seq<Term>) -> Option<(Term, Seq<Term>)> {
    let n = st.len();
    if n < 3 {
        None
    } else {
        let x = st[n - 1];
        let y = st[n - 2];
        if y == Term::Prim(Prim::Rotate) && x == Term::Prim(Prim::Const) {
            Some((Term::Num(0), st.take(n - 2)))
        } else if y == Term::Prim(Prim::Rotate) && x == Term::Num(0) {
            Some((Term::Prim(Prim::Const), st.take(n - 2)))
        } else {
            Some((y, st.take(n - 2).push(x)))
        }
    }
}

/// A numeral `i` at the head, when its first argument is not `MarkInc`:
/// `0 f x` = `x`, `1 f` = `f`, and `i f x` = `f ((i - 1) f x)`, with the
/// product and power shortcuts.
pub open spec fn number_rule(i: u32, st: Seq<Term>) -> Option<(Term, Seq<Term>)> {
    let n = st.len();
    if i == 0 {
        if n < 2 {
            None
        } else {
            Some((st[n - 2], st.take(n - 2)))
        }
    } else if i == 1 {
        if n < 1 {
            None
        } else {
            Some((st[n - 1], st.take(n - 1)))
        }
    } else if n < 2 {
        None
    } else {
        let f = st[n - 1];
        let x = st[n - 2];
        if f is App && *f->App_0 is Num && *f->App_1 == Term::Prim(Prim::Plus) && i
            * f->App_0->Num_0 <= u32::MAX {
            Some((Term::Num((i * f->App_0->Num_0) as u32), st.take(n - 1)))
        } else if f is Num && power(f->Num_0 as nat, i as nat) <= u32::MAX {
            Some((Term::Num(power(f->Num_0 as nat, i as nat) as u32), st.take(n - 1)))
        } else {
            Some((f, st.take(n - 2).push(apply_term(apply_term(Term::Num((i - 1) as u32), f), x))))
        }
    }
}

pub open spec fn prim_rule(p: Prim, st: Seq<Term>) -> Option<(Term, Seq<Term>)> {
    match p {
        Prim::Plus => plus_rule(st),
        Prim::Minus => minus_rule(st),
        Prim::Pred => pred_rule(st),
        Prim::Wrap => wrap_rule(st),
        Prim::Const => const_rule(st),
        Prim::Rotate => rotate_rule(st),
        _ => None,
    }
}

pub open spec fn with_context<C>(r: Option<(Term, Seq<Term>)>, c: C) -> Option<(Term, Seq<Term>, C)> {
    match r {
        Some(s) => Some((s.0, s.1, c)),
        None => None,
    }
}

pub open spec fn hooked<C>(r: Option<(C, Term, Seq<Term>)>) -> Option<(Term, Seq<Term>, C)> {
    match r {
        Some(s) => Some((s.1, s.2, s.0)),
        None => None,
    }
}

/// One reduction step from head `h`, pending arguments `st` (first argument
/// last) and context state `c`; `None` when the configuration is irreducible.
pub open spec fn step<C: Context>(h: Term, st: Seq<Term>, c: C) -> Option<(Term, Seq<Term>, C)> {
    match h {
        Term::App(u, v) => Some((*u, st.push(*v), c)),
        Term::Prim(Prim::MarkInc) => hooked(c.hook(1, st)),
        Term::Prim(p) => with_context(prim_rule(p, st), c),
        Term::Num(i) => if i >= 2 && st.len() >= 2 && st.last() == Term::Prim(Prim::MarkInc) {
            hooked(c.hook(i, st.drop_last()))
        } else {
            with_context(number_rule(i, st), c)
        },
    }
}

/// The configuration after at most `k` steps.
pub open spec fn run<C: Context>(h: Term, st: Seq<Term>, c: C, k: nat) -> (Term, Seq<Term>, C)
    decreases k,
{
    if k == 0 {
        (h, st, c)
    } else {
        match step(h, st, c) {
            None => (h, st, c),
            Some(s) => run(s.0, s.1, s.2, (k - 1) as nat),
        }
    }
}

/// Whether no step applies to a configuration.
pub open spec fn stuck<C: Context>(s: (Term, Seq<Term>, C)) -> bool {
    step(s.0, s.1, s.2) is None
}

pub(crate) proof fn lemma_run_stuck<C: Context>(h: Term, st: Seq<Term>, c: C, k: nat)
    requires
        step(h, st, c) is None,
    ensures
        run(h, st, c, k) == (h, st, c),
    decreases k,
{
}

/// Whether `r` is what evaluating `t` under context `T` for `fuel` steps gives:
/// the context's verdict when the configuration reached is irreducible, else
/// `None`.
pub open spec fn evaluated<T: Context>(t: Term, fuel: nat, r: Option<T::Result>) -> bool {
    let fin = run(t, T::seed(), T::start(), fuel);
    match r {
        Some(res) => stuck(fin) && fin.2.outcome(fin.0, fin.1, res),
        None => !stuck(fin),
    }
}

pub open spec fn fired(
    rule: Option<(Term, Seq<Term>)>,
    before: Seq<Term>,
    r: Option<Value>,
    after: Seq<Term>,
) -> bool {
    match rule {
        None => r is None && after == before,
        Some(s) => match r {
            Some(v) => v@ == s.0 && after == s.1,
            None => false,
        },
    }
}

fn pop_value(stack: &mut Vec<Value>) -> (r: Value)
    requires
        old(stack).len() > 0,
    ensures
        r@ == terms(old(stack)@).last(),
        terms(final(stack)@) == terms(old(stack)@).drop_last(),
        final(stack).len() == old(stack).len() - 1,
{
    let r = stack.pop().unwrap();
    assert(terms(stack@) =~= terms(old(stack)@).drop_last());
    r
}

fn push_value(stack: &mut Vec<Value>, v: Value)
    ensures
        terms(final(stack)@) == terms(old(stack)@).push(v@),
        final(stack).len() == old(stack).len() + 1,
{
    stack.push(v);
    assert(terms(stack@) =~= terms(old(stack)@).push(v@));
}

proof fn lemma_take_last(s: Seq<Term>, k: int)
    requires
        0 < k <= s.len(),
    ensures
        s.take(k).drop_last() == s.take(k - 1),
        s.take(k).last() == s[k - 1],
{
    assert(s.take(k).drop_last() =~= s.take(k - 1));
}

impl Value {
    fn eval_plus(stack: &mut Vec<Value>) -> (r: Option<Value>)
        ensures
            fired(plus_rule(terms(old(stack)@)), terms(old(stack)@), r, terms(final(stack)@)),
    {
        let ghost st = terms(stack@);
        let ghost n = st.len() as int;
        if stack.len() < 4 {
            return None;
        }
        proof {
            lemma_take_last(st, n);
            lemma_take_last(st, n - 1);
            lemma_take_last(st, n - 2);
            lemma_take_last(st, n - 3);
            assert(st.take(n) =~= st);
        }
        let m = pop_value(stack);
        let k = pop_value(stack);
        if let (Shape::Num(i), Shape::Num(j)) = (m.shape(), k.shape()) {
            if (i as u64) + (j as u64) <= u32::MAX as u64 {
                return Some(Value::number(i + j));
            }
        }
        let f = pop_value(stack);
        let x = pop_value(stack);
        let g = f.duplicate();
        push_value(stack, m.apply(g).apply(x));
        push_value(stack, f);
        Some(k)
    }

    fn eval_minus(stack: &mut Vec<Value>) -> (r: Option<Value>)
        ensures
            fired(minus_rule(terms(old(stack)@)), terms(old(stack)@), r, terms(final(stack)@)),
    {
        let ghost st = terms(stack@);
        let ghost n = st.len() as int;
        if stack.len() < 2 {
            return None;
        }
        proof {
            lemma_take_last(st, n);
            lemma_take_last(st, n - 1);
            assert(st.take(n) =~= st);
        }
        let m = pop_value(stack);
        let k = pop_value(stack);
        let ms = m.shape();
        let ks = k.shape();
        if ms == Shape::Prim(Prim::Plus) {
            let hit = match k.split_shapes() {
                Some((Shape::Prim(Prim::Plus), Shape::Prim(Prim::Minus))) => true,
                _ => ks == Shape::Num(1),
            };
            if hit {
                return Some(Value::primitive(Prim::Rotate));
            }
        }
        if ms == Shape::Prim(Prim::Minus) && ks == Shape::Prim(Prim::Minus) {
            return Some(Value::number(0));
        }
        if let (Shape::Num(i), Shape::Num(j)) = (ms, ks) {
            return Some(
                Value::number(
                    if i >= j {
                        i - j
                    } else {
                        0
                    },
                ),
            );
        }
        push_value(stack, m);
        push_value(stack, Value::primitive(Prim::Pred));
        Some(k)
    }

    fn eval_pred(stack: &mut Vec<Value>) -> (r: Option<Value>)
        ensures
            fired(pred_rule(terms(old(stack)@)), terms(old(stack)@), r, terms(final(stack)@)),
    {
        let ghost st = terms(stack@);
        let ghost n = st.len() as int;
        if stack.len() < 3 {
            return None;
        }
        proof {
            lemma_take_last(st, n);
            lemma_take_last(st, n - 1);
            lemma_take_last(st, n - 2);
            assert(st.take(n) =~= st);
        }
        let m = pop_value(stack);
        if let Shape::Num(i) = m.shape() {
            return Some(
                Value::number(
                    if i >= 1 {
                        i - 1
                    } else {
                        0
                    },
                ),
            );
        }
        let f = pop_value(stack);
        let x = pop_value(stack);
        if m.shape() == Shape::Prim(Prim::Pred) {
            return Some(Value::number(1).ignore(f).ignore(x));
        }
        push_value(stack, Value::number(1));
        push_value(stack, Value::primitive(Prim::Const).bind(x));
        let s = Value::primitive(Prim::Wrap).bind(Value::primitive(Prim::Rotate)).bind(
            Value::primitive(Prim::Rotate).bind(f),
        );
        push_value(stack, s);
        Some(m)
    }

    fn eval_wrap(stack: &mut Vec<Value>) -> (r: Option<Value>)
        ensures
            fired(wrap_rule(terms(old(stack)@)), terms(old(stack)@), r, terms(final(stack)@)),
    {
        let ghost st = terms(stack@);
        let ghost n = st.len() as int;
        if stack.len() < 3 {
            return None;
        }
        proof {
            lemma_take_last(st, n);
            lemma_take_last(st, n - 1);
            lemma_take_last(st, n - 2);
            assert(st.take(n) =~= st);
        }
        let h = pop_value(stack);
        let g = pop_value(stack);
        let f = pop_value(stack);
        push_value(stack, g.apply(f));
        Some(h)
    }

    fn eval_const(stack: &mut Vec<Value>) -> (r: Option<Value>)
        ensures
            fired(const_rule(terms(old(stack)@)), terms(old(stack)@), r, terms(final(stack)@)),
    {
        let ghost st = terms(stack@);
        let ghost n = st.len() as int;
        if stack.len() < 2 {
            return None;
        }
        proof {
            lemma_take_last(st, n);
            lemma_take_last(st, n - 1);
            assert(st.take(n) =~= st);
        }
        let x = pop_value(stack);
        let y = pop_value(stack);
        Some(x.ignore(y))
    }

    fn eval_rotate(stack: &mut Vec<Value>) -> (r: Option<Value>)
        ensures
            fired(rotate_rule(terms(old(stack)@)), terms(old(stack)@), r, terms(final(stack)@)),
    {
        let ghost st = terms(stack@);
        let ghost n = st.len() as int;
        if stack.len() < 3 {
            return None;
        }
        proof {
            lemma_take_last(st, n);
            lemma_take_last(st, n - 1);
            assert(st.take(n) =~= st);
        }
        proof {
            lemma_take_last(st, n - 2);
        }
        let x = pop_value(stack);
        let y = pop_value(stack);
        if y.shape() == Shape::Prim(Prim::Rotate) {
            match x.shape() {
                Shape::Prim(Prim::Const) => {
                    return Some(Value::number(0));
                },
                Shape::Num(0) => {
                    return Some(Value::primitive(Prim::Const));
                },
                _ => {},
            }
        }
        push_value(stack, x);
        Some(y)
    }

    fn eval_zero(stack: &mut Vec<Value>) -> (r: Option<Value>)
        ensures
            fired(number_rule(0, terms(old(stack)@)), terms(old(stack)@), r, terms(final(stack)@)),
    {
        let ghost st = terms(stack@);
        let ghost n = st.len() as int;
        if stack.len() < 2 {
            return None;
        }
        proof {
            lemma_take_last(st, n);
            lemma_take_last(st, n - 1);
            assert(st.take(n) =~= st);
        }
        let x = pop_value(stack);
        let y = pop_value(stack);
        Some(y.ignore(x))
    }

    fn eval_one(stack: &mut Vec<Value>) -> (r: Option<Value>)
        ensures
            fired(number_rule(1, terms(old(stack)@)), terms(old(stack)@), r, terms(final(stack)@)),
    {
        let ghost st = terms(stack@);
        let ghost n = st.len() as int;
        if stack.len() < 1 {
            return None;
        }
        proof {
            lemma_take_last(st, n);
            assert(st.take(n) =~= st);
        }
        Some(pop_value(stack))
    }

    /// `i f x` for `i >= 2`, with `f` already taken from the stack.
    fn eval_number(i: u32, f: Value, stack: &mut Vec<Value>) -> (r: Value)
        requires
            i >= 2,
            old(stack).len() >= 1,
        ensures
            ({
                let st = terms(old(stack)@).push(f@);
                let n = st.len() as int;
                number_rule(i, st) == Some((r@, terms(final(stack)@)))
            }),
    {
        let ghost st = terms(stack@).push(f@);
        let ghost n = st.len() as int;
        proof {
            assert(st.take(n - 1) =~= terms(stack@));
            lemma_take_last(st, n - 1);
        }
        if let Some((Shape::Num(j), Shape::Prim(Prim::Plus))) = f.split_shapes() {
            assert((i as u64) * (j as u64) <= u32::MAX * u32::MAX) by (nonlinear_arith);
            if (i as u64) * (j as u64) <= u32::MAX as u64 {
                return Value::number(i * j);
            }
        }
        if let Shape::Num(j) = f.shape() {
            if let Some(k) = checked_pow(j, i) {
                return Value::number(k);
            }
        }
        let x = pop_value(stack);
        let g = f.duplicate();
        push_value(stack, Value::number(i - 1).apply(g).apply(x));
        f
    }

    /// One step of reduction: the new head, or the unchanged head when the
    /// configuration is irreducible.
    fn reduce<T: Context>(self, stack: &mut Vec<Value>, ctx: &mut T) -> (r: Result<Value, Value>)
        ensures
            match step(self@, terms(old(stack)@), *old(ctx)) {
                None => match r {
                    Err(h) => h@ == self@ && terms(final(stack)@) == terms(old(stack)@)
                        && *final(ctx) == *old(ctx),
                    Ok(_) => false,
                },
                Some(s) => match r {
                    Ok(h) => h@ == s.0 && terms(final(stack)@) == s.1 && *final(ctx) == s.2,
                    Err(_) => false,
                },
            },
    {
        let ghost st = terms(stack@);
        let step = match self.shape() {
            Shape::App => {
                let (u, v) = self.split();
                push_value(stack, v);
                return Ok(u);
            },
            Shape::Prim(Prim::Plus) => Value::eval_plus(stack),
            Shape::Prim(Prim::Minus) => Value::eval_minus(stack),
            Shape::Prim(Prim::Pred) => Value::eval_pred(stack),
            Shape::Prim(Prim::Wrap) => Value::eval_wrap(stack),
            Shape::Prim(Prim::Const) => Value::eval_const(stack),
            Shape::Prim(Prim::Rotate) => Value::eval_rotate(stack),
            Shape::Prim(Prim::MarkInc) => ctx.add(1, stack),
            Shape::Prim(Prim::MarkInit) => None,
            Shape::Num(0) => Value::eval_zero(stack),
            Shape::Num(1) => Value::eval_one(stack),
            Shape::Num(i) => {
                if stack.len() < 2 {
                    None
                } else {
                    let f = pop_value(stack);
                    if f.shape() == Shape::Prim(Prim::MarkInc) {
                        match ctx.add(i, stack) {
                            Some(v) => Some(v),
                            None => {
                                push_value(stack, f);
                                assert(terms(stack@) =~= st);
                                None
                            },
                        }
                    } else {
                        Some(Value::eval_number(i, f, stack))
                    }
                }
            },
        };
        match step {
            Some(h) => Ok(h),
            None => Err(self),
        }
    }

    /// Reduces `self` under context `T` for at most `fuel` steps. The result
    /// is the context's verdict on the irreducible configuration reached, or
    /// `None` when the configuration after `fuel` steps can still step.
    pub fn eval<T: Context>(self, fuel: u64) -> (r: Option<T::Result>)
        ensures
            evaluated::<T>(self@, fuel as nat, r),
    {
        let ghost h0 = self@;
        let (mut stack, mut ctx) = T::init();
        let mut head = self;
        let mut k: u64 = 0;
        loop
            invariant
                k <= fuel,
                h0 == self@,
                run(h0, T::seed(), T::start(), fuel as nat) == run(
                    head@,
                    terms(stack@),
                    ctx,
                    (fuel - k) as nat,
                ),
            decreases fuel - k,
        {
            let ghost before = (head@, terms(stack@), ctx);
            match head.reduce(&mut stack, &mut ctx) {
                Err(h) => {
                    proof {
                        lemma_run_stuck(before.0, before.1, before.2, (fuel - k) as nat);
                    }
                    return Some(ctx.result(h, stack));
                },
                Ok(h) => {
                    if k == fuel {
                        h.release();
                        Value::release_all(stack);
                        return None;
                    }
                    head = h;
                    k = k + 1;
                },
            }
        }
    }
}

} // verus!
