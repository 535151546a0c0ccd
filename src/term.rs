use vstd::prelude::*;

verus! {

/// The eight fixed combinators of the calculus.
#[derive(Clone, Copy, Debug, PartialEq, Eq, Structural)]
pub enum Prim {
    Plus,
    Minus,
    Pred,
    Wrap,
    Const,
    Rotate,
    MarkInc,
    MarkInit,
}

/// The logical value of a term: what every physical encoding denotes.
#[derive(Debug)]
pub enum Term {
    Prim(Prim),
    Num(u32),
    App(Box<Term>, Box<Term>),
}

/// The application of `f` to `x`, as a logical term.
pub open spec fn app(f: Term, x: Term) -> Term {
    Term::App(Box::new(f), Box::new(x))
}

/// The number of constructors in a term.
pub open spec fn size(t: Term) -> nat
    decreases t,
{
    match t {
        Term::App(f, x) => 1 + size(*f) + size(*x),
        _ => 1,
    }
}

/// The total size of the terms of a work-list.
pub open spec fn total_size(s: Seq<Value>) -> nat
    decreases s.len(),
{
    if s.len() == 0 {
        0
    } else {
        total_size(s.drop_last()) + size(s.last()@)
    }
}

proof fn lemma_size_positive(t: Term)
    ensures
        size(t) >= 1,
    decreases t,
{
    if let Term::App(f, x) = t {
        lemma_size_positive(*f);
    }
}

/// One task of an iterative copy: copy a value, or join the two copies made
/// last into an application.
pub enum CopyTask<'a> {
    Visit(&'a Value),
    Join,
}

/// The views of a list of values.
pub open spec fn values_of(s: Seq<Value>) -> Seq<Term> {
    s.map_values(|v: Value| v@)
}

/// What the copies made so far become once the tasks are done (the last
/// task first).
pub open spec fn replay(tasks: Seq<CopyTask>, done: Seq<Term>) -> Seq<Term>
    decreases tasks.len(),
{
    if tasks.len() == 0 {
        done
    } else {
        replay(tasks.drop_last(), after(tasks.last(), done))
    }
}

/// The copies made after doing one task.
pub open spec fn after(task: CopyTask, done: Seq<Term>) -> Seq<Term> {
    match task {
        CopyTask::Visit(v) => done.push(v@),
        CopyTask::Join => if done.len() >= 2 {
            done.drop_last().drop_last().push(app(done[done.len() - 2], done[done.len() - 1]))
        } else {
            done
        },
    }
}

pub open spec fn cost_of(task: CopyTask) -> nat {
    match task {
        CopyTask::Visit(v) => 2 * size(v@),
        CopyTask::Join => 1,
    }
}

proof fn lemma_task_push(ts: Seq<CopyTask>, t: CopyTask, rs: Seq<Term>)
    ensures
        replay(ts.push(t), rs) == replay(ts, after(t, rs)),
        task_cost(ts.push(t)) == task_cost(ts) + cost_of(t),
{
    assert(ts.push(t).drop_last() =~= ts);
}

/// A bound on the work the tasks still take.
pub open spec fn task_cost(tasks: Seq<CopyTask>) -> nat
    decreases tasks.len(),
{
    if tasks.len() == 0 {
        0
    } else {
        task_cost(tasks.drop_last()) + cost_of(tasks.last())
    }
}

/// The outermost constructor of a term, without its subterms.
#[derive(Clone, Copy, Debug, PartialEq, Eq, Structural)]
pub enum Shape {
    Prim(Prim),
    Num(u32),
    App,
}

pub open spec fn shape_of(t: Term) -> Shape {
    match t {
        Term::Prim(p) => Shape::Prim(p),
        Term::Num(n) => Shape::Num(n),
        Term::App(_, _) => Shape::App,
    }
}

pub open spec fn prim_code(p: Prim) -> u64 {
    match p {
        Prim::Plus => 0,
        Prim::Minus => 1,
        Prim::Pred => 2,
        Prim::Wrap => 3,
        Prim::Const => 4,
        Prim::Rotate => 5,
        Prim::MarkInc => 6,
        Prim::MarkInit => 7,
    }
}

pub open spec fn prim_of_code(c: u64) -> Prim {
    if c == 0 {
        Prim::Plus
    } else if c == 1 {
        Prim::Minus
    } else if c == 2 {
        Prim::Pred
    } else if c == 3 {
        Prim::Wrap
    } else if c == 4 {
        Prim::Const
    } else if c == 5 {
        Prim::Rotate
    } else if c == 6 {
        Prim::MarkInc
    } else {
        Prim::MarkInit
    }
}

// Inline word layout (low four bits are the tag):
//   primitive  `c * 2 + 1`            (odd, below 16)
//   numeral    `n * 16 + 2`
//   pair_13    `x * 2^8  + y * 16 + 6`   x, y primitives (4 bits each)
//   pair_30    `x * 2^17 + y * 16 + 10`  x, y fit 13 bits
//   pair_64    `x * 2^34 + y * 16 + 14`  x, y fit 30 bits
pub open spec fn is_prim_word(w: u64) -> bool {
    w < 16 && w % 2 == 1
}

pub open spec fn fits13(w: u64) -> bool {
    ||| is_prim_word(w)
    ||| (w % 16 == 2 && w < 0x2000)
    ||| (w % 16 == 6 && w < 0x2000 && is_prim_word(w / 0x100) && is_prim_word((w / 16) % 16))
}

pub open spec fn fits30(w: u64) -> bool {
    ||| fits13(w)
    ||| (w % 16 == 2 && w < 0x4000_0000)
    ||| (w % 16 == 10 && w < 0x4000_0000 && fits13(w / 0x2_0000) && fits13((w / 16) % 0x2000))
}

pub open spec fn valid_word(w: u64) -> bool {
    ||| fits30(w)
    ||| (w % 16 == 2 && w / 16 <= u32::MAX)
    ||| (w % 16 == 14 && fits30(w / 0x4_0000_0000) && fits30((w / 16) % 0x4000_0000))
}

pub open spec fn leaf_term(w: u64) -> Term {
    if w % 2 == 1 {
        Term::Prim(prim_of_code(w / 2))
    } else {
        Term::Num((w / 16) as u32)
    }
}

pub open spec fn term13(w: u64) -> Term {
    if w % 16 == 6 {
        app(leaf_term(w / 0x100), leaf_term((w / 16) % 16))
    } else {
        leaf_term(w)
    }
}

pub open spec fn term30(w: u64) -> Term {
    if w % 16 == 10 {
        app(term13(w / 0x2_0000), term13((w / 16) % 0x2000))
    } else {
        term13(w)
    }
}

/// The term that an inline word denotes.
pub open spec fn word_term(w: u64) -> Term {
    if w % 16 == 14 {
        app(term30(w / 0x4_0000_0000), term30((w / 16) % 0x4000_0000))
    } else {
        term30(w)
    }
}

proof fn lemma_fits13_term(w: u64)
    requires
        fits13(w),
    ensures
        word_term(w) == term13(w),
        term30(w) == term13(w),
        is_prim_word(w) ==> term13(w) == leaf_term(w),
{
}

proof fn lemma_fits30_term(w: u64)
    requires
        fits30(w),
    ensures
        word_term(w) == term30(w),
{
}

proof fn lemma_prim_code(p: Prim)
    ensures
        prim_of_code(prim_code(p)) == p,
        prim_code(p) < 8,
{
}

/// The narrowest inline field that holds word `w`: 0 for a 4-bit field (a
/// primitive), 1 for 13 bits, 2 for 30 bits, 3 when no pair field holds it.
pub open spec fn word_width(w: u64) -> nat {
    if is_prim_word(w) {
        0
    } else if fits13(w) {
        1
    } else if fits30(w) {
        2
    } else {
        3
    }
}

/// How wide an inline field must be to hold a value, or `Heap` when none is.
#[derive(Clone, Copy, Debug, PartialEq, Eq, Structural)]
enum PairWidth {
    Bits13,
    Bits30,
    Bits64,
    Heap,
}

/// A term: packed into one word when it is a primitive, a numeral or a small
/// enough pair, else an application node on the heap. Every heap node has
/// exactly one owner: `duplicate` copies, and dropping a value releases its
/// nodes.
#[derive(Debug)]
pub struct Value {
    repr: Repr,
}

#[derive(Debug)]
enum Repr {
    Inline(u64),
    Heap(Box<Node>),
}

#[derive(Debug)]
struct Node {
    fun: Value,
    arg: Value,
}

impl Value {
    #[verifier::type_invariant]
    spec fn well_formed(&self) -> bool {
        match self.repr {
            Repr::Inline(w) => valid_word(w),
            Repr::Heap(_) => true,
        }
    }

    /// The logical term this value denotes.
    pub closed spec fn term(&self) -> Term
        decreases self,
    {
        match &self.repr {
            Repr::Inline(w) => word_term(*w),
            Repr::Heap(node) => app(node.fun.term(), node.arg.term()),
        }
    }
}

impl Value {
    /// Whether this value is packed into one word.
    pub closed spec fn is_inline(&self) -> bool {
        self.repr is Inline
    }

    /// The narrowest pair field that holds this value (see `word_width`);
    /// 3 for a heap node.
    pub closed spec fn width(&self) -> nat {
        match self.repr {
            Repr::Inline(w) => word_width(w),
            Repr::Heap(_) => 3,
        }
    }
}

impl View for Value {
    type V = Term;

    open spec fn view(&self) -> Term {
        self.term()
    }
}

impl Value {
    fn inline(w: u64) -> (r: Value)
        requires
            valid_word(w),
        ensures
            r@ == word_term(w),
            r.is_inline(),
            r.width() == word_width(w),
    {
        Value { repr: Repr::Inline(w) }
    }

    /// The primitive combinator `p`.
    pub fn primitive(p: Prim) -> (r: Value)
        ensures
            r@ == Term::Prim(p),
    {
        let c: u64 = match p {
            Prim::Plus => 0,
            Prim::Minus => 1,
            Prim::Pred => 2,
            Prim::Wrap => 3,
            Prim::Const => 4,
            Prim::Rotate => 5,
            Prim::MarkInc => 6,
            Prim::MarkInit => 7,
        };
        proof {
            lemma_prim_code(p);
            lemma_fits13_term((c * 2 + 1) as u64);
        }
        Value::inline(c * 2 + 1)
    }

    /// The numeral `n`.
    pub fn number(n: u32) -> (r: Value)
        ensures
            r@ == Term::Num(n),
    {
        let w = (n as u64) * 16 + 2;
        assert(w / 16 == n as u64 && w % 16 == 2);
        Value::inline(w)
    }

    fn pair_13(x: u64, y: u64) -> (r: Value)
        requires
            is_prim_word(x),
            is_prim_word(y),
        ensures
            r@ == app(word_term(x), word_term(y)),
            r.is_inline(),
            r.width() == 1,
    {
        let w = x * 0x100 + y * 16 + 6;
        assert(w / 0x100 == x && (w / 16) % 16 == y && w % 16 == 6) by (nonlinear_arith)
            requires
                w == x * 0x100 + y * 16 + 6,
                y < 16,
        ;
        proof {
            lemma_fits13_term(x);
            lemma_fits13_term(y);
            lemma_fits13_term(w);
        }
        Value::inline(w)
    }

    fn pair_30(x: u64, y: u64) -> (r: Value)
        requires
            fits13(x),
            fits13(y),
        ensures
            r@ == app(word_term(x), word_term(y)),
            r.is_inline(),
            r.width() == 2,
    {
        let w = x * 0x2_0000 + y * 16 + 10;
        assert(w / 0x2_0000 == x && (w / 16) % 0x2000 == y && w % 16 == 10 && w < 0x4000_0000)
            by (nonlinear_arith)
            requires
                w == x * 0x2_0000 + y * 16 + 10,
                x < 0x2000,
                y < 0x2000,
        ;
        proof {
            lemma_fits13_term(x);
            lemma_fits13_term(y);
            lemma_fits30_term(w);
        }
        Value::inline(w)
    }

    fn pair_64(x: u64, y: u64) -> (r: Value)
        requires
            fits30(x),
            fits30(y),
        ensures
            r@ == app(word_term(x), word_term(y)),
            r.is_inline(),
            r.width() == 3,
    {
        assert(x < 0x4000_0000 && y < 0x4000_0000);
        let w = x * 0x4_0000_0000 + y * 16 + 14;
        assert(w / 0x4_0000_0000 == x && (w / 16) % 0x4000_0000 == y && w % 16 == 14)
            by (nonlinear_arith)
            requires
                w == x * 0x4_0000_0000 + y * 16 + 14,
                y < 0x4000_0000,
        ;
        proof {
            lemma_fits30_term(x);
            lemma_fits30_term(y);
        }
        Value::inline(w)
    }

    /// The narrowest inline field that can hold this value.
    fn pair_width(&self) -> (r: (PairWidth, u64))
        ensures
            self.width() == 0 <==> r.0 == PairWidth::Bits13,
            self.width() == 1 <==> r.0 == PairWidth::Bits30,
            self.width() == 2 <==> r.0 == PairWidth::Bits64,
            r.0 == PairWidth::Bits13 ==> is_prim_word(r.1) && self@ == word_term(r.1),
            r.0 == PairWidth::Bits30 ==> fits13(r.1) && self@ == word_term(r.1),
            r.0 == PairWidth::Bits64 ==> fits30(r.1) && self@ == word_term(r.1),
    {
        proof {
            use_type_invariant(self);
        }
        match &self.repr {
            Repr::Heap(_) => (PairWidth::Heap, 0),
            Repr::Inline(w) => {
                let w = *w;
                let tag = w % 16;
                if tag % 2 == 1 {
                    (PairWidth::Bits13, w)
                } else if tag == 2 {
                    if w < 0x2000 {
                        (PairWidth::Bits30, w)
                    } else if w < 0x4000_0000 {
                        (PairWidth::Bits64, w)
                    } else {
                        (PairWidth::Heap, 0)
                    }
                } else if tag == 6 {
                    (PairWidth::Bits30, w)
                } else if tag == 10 {
                    (PairWidth::Bits64, w)
                } else {
                    (PairWidth::Heap, 0)
                }
            },
        }
    }

    /// The application of `self` to `x`, with no simplification: packed into
    /// the narrowest pair layout that holds both sides, else placed on the heap.
    pub fn bind(self, x: Value) -> (r: Value)
        ensures
            r@ == app(self@, x@),
            r.is_inline() <==> (self.width() < 3 && x.width() < 3),
            r.is_inline() ==> r.width() == 1 + (if self.width() >= x.width() {
                self.width()
            } else {
                x.width()
            }),
    {
        let (wf, a) = self.pair_width();
        let (wx, b) = x.pair_width();
        if wf == PairWidth::Bits13 && wx == PairWidth::Bits13 {
            Value::pair_13(a, b)
        } else if (wf == PairWidth::Bits13 || wf == PairWidth::Bits30) && (wx == PairWidth::Bits13
            || wx == PairWidth::Bits30) {
            proof {
                lemma_fits13_term(a);
                lemma_fits13_term(b);
            }
            Value::pair_30(a, b)
        } else if wf != PairWidth::Heap && wx != PairWidth::Heap {
            Value::pair_64(a, b)
        } else {
            Value { repr: Repr::Heap(Box::new(Node { fun: self, arg: x })) }
        }
    }

    /// The outermost constructor of this value.
    pub fn shape(&self) -> (r: Shape)
        ensures
            r == shape_of(self@),
    {
        proof {
            use_type_invariant(self);
        }
        match &self.repr {
            Repr::Heap(_) => Shape::App,
            Repr::Inline(w) => {
                let w = *w;
                let tag = w % 16;
                if tag == 6 || tag == 10 || tag == 14 {
                    Shape::App
                } else if tag % 2 == 1 {
                    assert(is_prim_word(w));
                    proof {
                        lemma_fits13_term(w);
                    }
                    Shape::Prim(prim_from_code(w / 2))
                } else {
                    assert(tag == 2);
                    assert(word_term(w) == Term::Num((w / 16) as u32));
                    Shape::Num((w / 16) as u32)
                }
            },
        }
    }

    /// The outermost constructors of the two sides of an application.
    pub fn split_shapes(&self) -> (r: Option<(Shape, Shape)>)
        ensures
            match self@ {
                Term::App(f, x) => r == Some((shape_of(*f), shape_of(*x))),
                _ => r is None,
            },
    {
        proof {
            use_type_invariant(self);
        }
        match &self.repr {
            Repr::Heap(node) => Some((node.fun.shape(), node.arg.shape())),
            Repr::Inline(w) => {
                let w = *w;
                if w % 16 == 6 || w % 16 == 10 || w % 16 == 14 {
                    let (f, x) = Value::split_word(w);
                    Some((f.shape(), x.shape()))
                } else {
                    None
                }
            },
        }
    }

    fn split_word(w: u64) -> (r: (Value, Value))
        requires
            valid_word(w),
            w % 16 == 6 || w % 16 == 10 || w % 16 == 14,
        ensures
            word_term(w) == app(r.0@, r.1@),
    {
        if w % 16 == 6 {
            proof {
                lemma_fits13_term(w);
                lemma_fits13_term(w / 0x100);
                lemma_fits13_term((w / 16) % 16);
            }
            (Value::inline(w / 0x100), Value::inline((w / 16) % 16))
        } else if w % 16 == 10 {
            proof {
                lemma_fits30_term(w);
                lemma_fits13_term(w / 0x2_0000);
                lemma_fits13_term((w / 16) % 0x2000);
            }
            (Value::inline(w / 0x2_0000), Value::inline((w / 16) % 0x2000))
        } else {
            proof {
                lemma_fits30_term(w / 0x4_0000_0000);
                lemma_fits30_term((w / 16) % 0x4000_0000);
            }
            (Value::inline(w / 0x4_0000_0000), Value::inline((w / 16) % 0x4000_0000))
        }
    }

    /// The two sides of an application.
    pub fn split(self) -> (r: (Value, Value))
        requires
            self@ is App,
        ensures
            self@ == app(r.0@, r.1@),
    {
        proof {
            use_type_invariant(&self);
        }
        match self.repr {
            Repr::Heap(node) => {
                let n = *node;
                (n.fun, n.arg)
            },
            Repr::Inline(w) => {
                proof {
                    if w % 16 != 6 && w % 16 != 10 && w % 16 != 14 {
                        lemma_fits13_term(w);
                    }
                }
                Value::split_word(w)
            },
        }
    }

    /// Decomposes this value into its logical shape.
    pub fn data(self) -> (r: Data)
        ensures
            match r {
                Data::Primitive(p) => self@ == Term::Prim(p),
                Data::Number(n) => self@ == Term::Num(n),
                Data::Pair(f, x) => self@ == app(f@, x@),
            },
    {
        proof {
            use_type_invariant(&self);
        }
        match self.repr {
            Repr::Heap(node) => {
                let n = *node;
                Data::Pair(n.fun, n.arg)
            },
            Repr::Inline(w) => {
                let tag = w % 16;
                if tag == 6 || tag == 10 || tag == 14 {
                    let (f, x) = Value::split_word(w);
                    Data::Pair(f, x)
                } else if tag % 2 == 1 {
                    proof {
                        lemma_fits13_term(w);
                    }
                    Data::Primitive(prim_from_code(w / 2))
                } else {
                    assert(word_term(w) == Term::Num((w / 16) as u32));
                    Data::Number((w / 16) as u32)
                }
            },
        }
    }

    /// A value denoting the same term, owned separately from `self`, built
    /// from a work-list so that deep terms do not deepen the call stack.
    pub fn duplicate(&self) -> (r: Value)
        ensures
            r@ == self@,
    {
        let mut tasks: Vec<CopyTask> = Vec::new();
        let mut done: Vec<Value> = Vec::new();
        tasks.push(CopyTask::Visit(self));
        proof {
            assert(values_of(done@) =~= Seq::<Term>::empty());
            assert(tasks@ =~= Seq::<CopyTask>::empty().push(CopyTask::Visit(self)));
            lemma_task_push(Seq::<CopyTask>::empty(), CopyTask::Visit(self), values_of(done@));
            assert(Seq::<Term>::empty().push(self@) =~= seq![self@]);
        }
        while tasks.len() > 0
            invariant
                replay(tasks@, values_of(done@)) == seq![self@],
            decreases task_cost(tasks@),
        {
            let ghost ts = tasks@;
            let ghost rs = values_of(done@);
            let t = tasks.pop().unwrap();
            assert(tasks@ =~= ts.drop_last());
            proof {
                assert(ts =~= tasks@.push(t));
                lemma_task_push(tasks@, t, rs);
            }
            match t {
                CopyTask::Visit(v) => {
                    proof {
                        use_type_invariant(v);
                        lemma_size_positive(v@);
                    }
                    match &v.repr {
                        Repr::Inline(w) => {
                            done.push(Value::inline(*w));
                            assert(values_of(done@) =~= rs.push(v@));
                        },
                        Repr::Heap(node) => {
                            proof {
                                lemma_size_positive(node.fun@);
                                lemma_size_positive(node.arg@);
                            }
                            let ghost t0 = tasks@;
                            tasks.push(CopyTask::Join);
                            tasks.push(CopyTask::Visit(&node.arg));
                            tasks.push(CopyTask::Visit(&node.fun));
                            proof {
                                let t1 = t0.push(CopyTask::Join);
                                let t2 = t1.push(CopyTask::Visit(&node.arg));
                                assert(tasks@ =~= t2.push(CopyTask::Visit(&node.fun)));
                                lemma_task_push(t2, CopyTask::Visit(&node.fun), rs);
                                lemma_task_push(t1, CopyTask::Visit(&node.arg), rs.push(node.fun@));
                                lemma_task_push(t0, CopyTask::Join, rs.push(node.fun@).push(node.arg@));
                                let r2 = rs.push(node.fun@).push(node.arg@);
                                assert(r2.drop_last().drop_last() =~= rs);
                                assert(after(CopyTask::Join, r2) == rs.push(v@));
                            }
                        },
                    }
                },
                CopyTask::Join => {
                    if done.len() >= 2 {
                        let x = done.pop().unwrap();
                        let f = done.pop().unwrap();
                        done.push(Value { repr: Repr::Heap(Box::new(Node { fun: f, arg: x })) });
                        assert(values_of(done@) =~= rs.drop_last().drop_last().push(
                            app(rs[rs.len() - 2], rs[rs.len() - 1]),
                        ));
                    }
                },
            }
        }
        assert(replay(tasks@, values_of(done@)) == values_of(done@));
        assert(values_of(done@) == seq![self@]);
        assert(values_of(done@).len() == done@.len());
        assert(done@.len() == 1);
        assert(values_of(done@)[0] == done@[0]@);
        let r = done.pop().unwrap();
        r
    }

    /// Returns `self`, releasing `x`.
    pub fn ignore(self, x: Value) -> (r: Value)
        ensures
            r@ == self@,
    {
        x.release();
        self
    }

    /// Releases every value of a stack, each without recursion.
    pub fn release_all(stack: Vec<Value>) {
        let mut stack = stack;
        while stack.len() > 0
            decreases stack.len(),
        {
            let v = stack.pop().unwrap();
            v.release();
        }
    }

    /// Frees this value's heap nodes one at a time from a work-list, so that
    /// deep terms do not deepen the call stack.
    pub fn release(self) {
        let mut work: Vec<Value> = Vec::new();
        work.push(self);
        while work.len() > 0
            decreases total_size(work@),
        {
            let ghost before = work@;
            let v = work.pop().unwrap();
            assert(work@ =~= before.drop_last());
            assert(total_size(before) == total_size(work@) + size(v@));
            let ghost vt = v@;
            if v.shape() == Shape::App {
                let (f, x) = v.split();
                assert(size(vt) == 1 + size(f@) + size(x@));
                proof {
                    lemma_size_positive(f@);
                    lemma_size_positive(x@);
                }
                let ghost mid = work@;
                work.push(f);
                assert(work@.drop_last() =~= mid);
                let ghost mid2 = work@;
                work.push(x);
                assert(work@.drop_last() =~= mid2);
                assert(total_size(mid2) == total_size(mid) + size(f@));
                assert(total_size(work@) == total_size(mid2) + size(x@));
            } else {
                proof {
                    lemma_size_positive(v@);
                }
            }
        }
    }
}

fn prim_from_code(c: u64) -> (r: Prim)
    ensures
        r == prim_of_code(c),
{
    if c == 0 {
        Prim::Plus
    } else if c == 1 {
        Prim::Minus
    } else if c == 2 {
        Prim::Pred
    } else if c == 3 {
        Prim::Wrap
    } else if c == 4 {
        Prim::Const
    } else if c == 5 {
        Prim::Rotate
    } else if c == 6 {
        Prim::MarkInc
    } else {
        Prim::MarkInit
    }
}

/// The logical shape of a value, with the two sides of an application.
#[derive(Debug)]
pub enum Data {
    Primitive(Prim),
    Number(u32),
    Pair(Value, Value),
}

} // verus!
