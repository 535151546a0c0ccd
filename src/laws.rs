use vstd::prelude::*;
use crate::apply::{apply_term, monus};
use crate::context::Leaf;
use crate::engine::{run, step, Context};
use crate::program::{probe, pull_move, settle, Move};
use crate::term::{app, Prim, Term};

verus! {

/// Plus on two numerals gives their sum whenever it fits in 32 bits, both as
/// a shortcut of `apply` and as a reduction step; when the sum does not fit,
/// the step falls back to the structural rule `n f (m f x)` instead of
/// wrapping or saturating.
pub proof fn plus_on_numerals<C: Context>(m: u32, n: u32, f: Term, x: Term, rest: Seq<Term>, c: C)
    ensures
        m + n <= u32::MAX ==> apply_term(app(Term::Prim(Prim::Plus), Term::Num(m)), Term::Num(n))
            == Term::Num((m + n) as u32),
        m + n <= u32::MAX ==> step(
            Term::Prim(Prim::Plus),
            rest.push(x).push(f).push(Term::Num(n)).push(Term::Num(m)),
            c,
        ) == Some((Term::Num((m + n) as u32), rest.push(x).push(f), c)),
        m + n > u32::MAX ==> step(
            Term::Prim(Prim::Plus),
            rest.push(x).push(f).push(Term::Num(n)).push(Term::Num(m)),
            c,
        ) == Some(
            (
                Term::Num(n),
                rest.push(apply_term(apply_term(Term::Num(m), f), x)).push(f),
                c,
            ),
        ),
{
    let st = rest.push(x).push(f).push(Term::Num(n)).push(Term::Num(m));
    assert(st.take(st.len() - 2) =~= rest.push(x).push(f));
    assert(st.take(st.len() - 4) =~= rest);
}

/// Minus on two numerals gives `max(m - n, 0)` exactly, both as a shortcut
/// of `apply` and as a reduction step.
pub proof fn minus_on_numerals<C: Context>(m: u32, n: u32, rest: Seq<Term>, c: C)
    ensures
        apply_term(app(Term::Prim(Prim::Minus), Term::Num(m)), Term::Num(n)) == Term::Num(
            monus(m, n),
        ),
        monus(m, n) == (if m >= n {
            m - n
        } else {
            0
        }),
        step(Term::Prim(Prim::Minus), rest.push(Term::Num(n)).push(Term::Num(m)), c) == Some(
            (Term::Num(monus(m, n)), rest, c),
        ),
{
    let st = rest.push(Term::Num(n)).push(Term::Num(m));
    assert(st.take(st.len() - 2) =~= rest);
}

/// Pred on a numeral gives `max(n - 1, 0)`, as a shortcut and as a step;
/// pred applied to pred is `const` applied to `0`.
pub proof fn pred_on_numerals<C: Context>(n: u32, f: Term, x: Term, rest: Seq<Term>, c: C)
    ensures
        apply_term(Term::Prim(Prim::Pred), Term::Num(n)) == Term::Num(monus(n, 1)),
        monus(n, 1) == (if n >= 1 {
            n - 1
        } else {
            0
        }),
        apply_term(Term::Prim(Prim::Pred), Term::Prim(Prim::Pred)) == app(
            Term::Prim(Prim::Const),
            Term::Num(0),
        ),
        step(Term::Prim(Prim::Pred), rest.push(x).push(f).push(Term::Num(n)), c) == Some(
            (Term::Num(monus(n, 1)), rest.push(x).push(f), c),
        ),
{
    let st = rest.push(x).push(f).push(Term::Num(n));
    assert(st.take(st.len() - 1) =~= rest.push(x).push(f));
}

proof fn lemma_unfold<C: Context>(u: Term, v: Term, st: Seq<Term>, c: C, k: nat)
    ensures
        run(app(u, v), st, c, k + 1) == run(u, st.push(v), c, k),
{
}

/// `wrap h g f` and the application node of `h` to `apply(g, f)` reach the
/// same configuration, so every evaluation of the two agrees from then on.
pub proof fn wrap_composes<C: Context>(h: Term, g: Term, f: Term, st: Seq<Term>, c: C, k: nat)
    ensures
        run(
            app(app(app(Term::Prim(Prim::Wrap), h), g), f),
            st,
            c,
            k + 4,
        ) == run(app(h, apply_term(g, f)), st, c, k + 1),
        run(app(h, apply_term(g, f)), st, c, 1) == (h, st.push(apply_term(g, f)), c),
{
    let s3 = st.push(f).push(g).push(h);
    lemma_unfold(app(app(Term::Prim(Prim::Wrap), h), g), f, st, c, k + 3);
    lemma_unfold(app(Term::Prim(Prim::Wrap), h), g, st.push(f), c, k + 2);
    lemma_unfold(Term::Prim(Prim::Wrap), h, st.push(f).push(g), c, k + 1);
    assert(s3.take(s3.len() - 3) =~= st);
    assert(step(Term::Prim(Prim::Wrap), s3, c) == Some((h, st.push(apply_term(g, f)), c)));
    lemma_unfold(h, apply_term(g, f), st, c, k);
    lemma_unfold(h, apply_term(g, f), st, c, 0);
}

/// `rotate x y z` and `y x z` reach the same configuration, for every `y`
/// other than `rotate` itself; `rotate const rotate` is `0` and
/// `rotate 0 rotate` is `const`, both as steps and as shortcuts of `apply`.
pub proof fn rotate_swaps<C: Context>(x: Term, y: Term, z: Term, st: Seq<Term>, c: C, k: nat)
    ensures
        y != Term::Prim(Prim::Rotate) ==> run(
            app(app(app(Term::Prim(Prim::Rotate), x), y), z),
            st,
            c,
            k + 4,
        ) == run(app(app(y, x), z), st, c, k + 2),
        step(
            Term::Prim(Prim::Rotate),
            st.push(z).push(Term::Prim(Prim::Rotate)).push(Term::Prim(Prim::Const)),
            c,
        ) == Some((Term::Num(0), st.push(z), c)),
        step(
            Term::Prim(Prim::Rotate),
            st.push(z).push(Term::Prim(Prim::Rotate)).push(Term::Num(0)),
            c,
        ) == Some((Term::Prim(Prim::Const), st.push(z), c)),
        apply_term(app(Term::Prim(Prim::Rotate), Term::Prim(Prim::Const)), Term::Prim(Prim::Rotate))
            == Term::Num(0),
        apply_term(app(Term::Prim(Prim::Rotate), Term::Num(0)), Term::Prim(Prim::Rotate))
            == Term::Prim(Prim::Const),
{
    let s3 = st.push(z).push(y).push(x);
    let t1 = st.push(z).push(Term::Prim(Prim::Rotate)).push(Term::Prim(Prim::Const));
    let t2 = st.push(z).push(Term::Prim(Prim::Rotate)).push(Term::Num(0));
    assert(s3.take(s3.len() - 2) =~= st.push(z));
    assert(t1.take(t1.len() - 2) =~= st.push(z));
    assert(t2.take(t2.len() - 2) =~= st.push(z));
    if y != Term::Prim(Prim::Rotate) {
        lemma_unfold(app(app(Term::Prim(Prim::Rotate), x), y), z, st, c, k + 3);
        lemma_unfold(app(Term::Prim(Prim::Rotate), x), y, st.push(z), c, k + 2);
        lemma_unfold(Term::Prim(Prim::Rotate), x, st.push(z).push(y), c, k + 1);
        assert(step(Term::Prim(Prim::Rotate), s3, c) == Some((y, st.push(z).push(x), c)));
        lemma_unfold(app(y, x), z, st, c, k + 1);
        lemma_unfold(y, x, st.push(z), c, k);
    }
}

/// A configuration that has stopped stays where it is, whatever the fuel.
proof fn lemma_run_rests<C: Context>(h: Term, st: Seq<Term>, c: C, j: nat, k: nat)
    requires
        j <= k,
        step(run(h, st, c, j).0, run(h, st, c, j).1, run(h, st, c, j).2) is None,
    ensures
        run(h, st, c, k) == run(h, st, c, j),
    decreases j,
{
    if j > 0 {
        match step(h, st, c) {
            None => {},
            Some(s) => {
                lemma_run_rests(s.0, s.1, s.2, (j - 1) as nat, (k - 1) as nat);
            },
        }
    } else {
        crate::engine::lemma_run_stuck(h, st, c, k);
    }
}

#[verifier::spinoff_prover]
#[verifier::rlimit(60)]
proof fn lemma_bare_decodes(p: Prim)
    ensures
        ({
            let fin = run(
                apply_term(Term::Prim(p), Term::Prim(Prim::Const)),
                crate::context::Decoder::seed(),
                crate::context::Decoder::start(),
                7,
            );
            crate::engine::stuck(fin) && crate::context::verdict(fin.2.0, fin.0, fin.1)
                == Leaf::Invalid
        }),
{
    reveal_with_fuel(run, 8);
    match p {
        Prim::Plus => {},
        Prim::Minus => {},
        Prim::Pred => {},
        Prim::Wrap => {},
        Prim::Const => {},
        Prim::Rotate => {},
        Prim::MarkInc => {},
        Prim::MarkInit => {},
    }
}

/// A bare primitive is no list: decoding its head gives `Invalid`, and a
/// pull from it reports a malformed stream.
pub proof fn bare_primitive_is_malformed(p: Prim, fuel: nat)
    requires
        fuel >= 7,
    ensures
        settle(Term::Prim(p), fuel) == Some(Term::Prim(p)),
        probe(Term::Prim(p), fuel) == Some(Leaf::Invalid),
        pull_move(Term::Prim(p), fuel) is Malformed,
{
    let t = Term::Prim(p);
    lemma_run_rests(t, crate::context::Pure::seed(), crate::context::Pure::start(), 0, fuel);
    let d = apply_term(t, Term::Prim(Prim::Const));
    let s = crate::context::Decoder::seed();
    let c = crate::context::Decoder::start();
    lemma_bare_decodes(p);
    lemma_run_rests(d, s, c, 7, fuel);
}

/// The list cell with head `h` and tail `t`: `wrap (rotate t) (rotate h)`,
/// which applied to `s`, `a` and `b` gives `s h t a b`.
pub open spec fn cell_term(h: Term, t: Term) -> Term {
    app(app(Term::Prim(Prim::Wrap), app(Term::Prim(Prim::Rotate), t)), app(Term::Prim(Prim::Rotate), h))
}

/// What the tail of `cell_term(h, t)` settles to: `rotate t (rotate h 0)`,
/// a term that stands for the list `t`.
pub open spec fn tail_form(h: Term, t: Term) -> Term {
    app(
        app(Term::Prim(Prim::Rotate), t),
        app(app(Term::Prim(Prim::Rotate), h), Term::Num(0)),
    )
}

/// The bytes of `bs` as a list of cells, closed by the end of output.
pub open spec fn list_term(bs: Seq<u8>) -> Term
    decreases bs.len(),
{
    if bs.len() == 0 {
        cell_term(Term::Prim(Prim::Const), cell_term(Term::Prim(Prim::Const), Term::Prim(Prim::Const)))
    } else {
        cell_term(Term::Num(bs[0] as u32), list_term(bs.drop_first()))
    }
}

/// The bytes of at most `n + 1` successive pulls from `t`, and how the last
/// one ended.
pub open spec fn drain(t: Term, fuel: nat, n: nat) -> (Seq<u8>, Move)
    decreases n,
{
    match pull_move(t, fuel) {
        Move::Byte(b, rest) => if n == 0 {
            (Seq::empty(), Move::Byte(b, rest))
        } else {
            let d = drain(rest, fuel, (n - 1) as nat);
            (seq![b].add(d.0), d.1)
        },
        m => (Seq::empty(), m),
    }
}

proof fn lemma_plain_forms(h: Term, t: Term)
    ensures
        apply_term(Term::Prim(Prim::Wrap), app(Term::Prim(Prim::Rotate), t)) == app(
            Term::Prim(Prim::Wrap),
            app(Term::Prim(Prim::Rotate), t),
        ),
        apply_term(
            app(Term::Prim(Prim::Wrap), app(Term::Prim(Prim::Rotate), t)),
            app(Term::Prim(Prim::Rotate), h),
        ) == cell_term(h, t),
        apply_term(Term::Prim(Prim::Rotate), t) == app(Term::Prim(Prim::Rotate), t),
        apply_term(
            app(Term::Prim(Prim::Rotate), t),
            app(app(Term::Prim(Prim::Rotate), h), Term::Num(0)),
        ) == tail_form(h, t),
        apply_term(app(Term::Prim(Prim::Rotate), h), Term::Num(0)) == app(
            app(Term::Prim(Prim::Rotate), h),
            Term::Num(0),
        ),
        apply_term(app(Term::Prim(Prim::Rotate), h), Term::Prim(Prim::Const)) == app(
            app(Term::Prim(Prim::Rotate), h),
            Term::Prim(Prim::Const),
        ),
        apply_term(cell_term(h, t), Term::Prim(Prim::Const)) == app(
            cell_term(h, t),
            Term::Prim(Prim::Const),
        ),
        apply_term(cell_term(h, t), Term::Num(0)) == app(cell_term(h, t), Term::Num(0)),
        apply_term(tail_form(h, t), Term::Prim(Prim::Const)) == app(
            tail_form(h, t),
            Term::Prim(Prim::Const),
        ),
        apply_term(tail_form(h, t), Term::Num(0)) == app(tail_form(h, t), Term::Num(0)),
{
}

/// Decoding a cell applied to `const` reaches its head with the decoder's
/// own two arguments.
proof fn lemma_cell_head(h: Term, t: Term, k: nat)
    ensures
        run(
            cell_term(h, t),
            crate::context::Decoder::seed().push(Term::Prim(Prim::Const)),
            crate::context::Decoder::start(),
            k + 9,
        ) == run(h, crate::context::Decoder::seed(), crate::context::Decoder::start(), k),
{
    let r = Term::Prim(Prim::Rotate);
    let w = Term::Prim(Prim::Wrap);
    let kk = Term::Prim(Prim::Const);
    let s0 = crate::context::Decoder::seed();
    let c = crate::context::Decoder::start();
    let rh = app(r, h);
    let rhk = app(rh, kk);
    lemma_plain_forms(h, t);
    lemma_unfold(app(w, app(r, t)), rh, s0.push(kk), c, k + 8);
    lemma_unfold(w, app(r, t), s0.push(kk).push(rh), c, k + 7);
    let a3 = s0.push(kk).push(rh).push(app(r, t));
    assert(a3.take(2) =~= s0);
    assert(step(w, a3, c) == Some((app(r, t), s0.push(rhk), c)));
    assert(run(w, a3, c, k + 7) == run(app(r, t), s0.push(rhk), c, k + 6));
    lemma_unfold(r, t, s0.push(rhk), c, k + 5);
    let a5 = s0.push(rhk).push(t);
    assert(a5.take(2) =~= s0);
    assert(step(r, a5, c) == Some((rhk, s0.push(t), c)));
    assert(run(r, a5, c, k + 5) == run(rhk, s0.push(t), c, k + 4));
    lemma_unfold(rh, kk, s0.push(t), c, k + 3);
    lemma_unfold(r, h, s0.push(t).push(kk), c, k + 2);
    let a8 = s0.push(t).push(kk).push(h);
    assert(a8.take(3) =~= s0.push(t));
    assert(step(r, a8, c) == Some((kk, s0.push(t).push(h), c)));
    assert(run(r, a8, c, k + 2) == run(kk, s0.push(t).push(h), c, k + 1));
    let a9 = s0.push(t).push(h);
    assert(a9.take(2) =~= s0);
    assert(step(kk, a9, c) == Some((h, s0, c)));
    assert(run(kk, a9, c, k + 1) == run(h, s0, c, k));
}

/// Decoding a tail form applied to `const` reaches the list it stands for,
/// applied to `const`.
proof fn lemma_tail_head(h: Term, t: Term, k: nat)
    ensures
        run(
            app(tail_form(h, t), Term::Prim(Prim::Const)),
            crate::context::Decoder::seed(),
            crate::context::Decoder::start(),
            k + 8,
        ) == run(
            t,
            crate::context::Decoder::seed().push(Term::Prim(Prim::Const)),
            crate::context::Decoder::start(),
            k,
        ),
{
    let r = Term::Prim(Prim::Rotate);
    let z = Term::Num(0);
    let kk = Term::Prim(Prim::Const);
    let s0 = crate::context::Decoder::seed();
    let c = crate::context::Decoder::start();
    let rh0 = app(app(r, h), z);
    lemma_unfold(tail_form(h, t), kk, s0, c, k + 7);
    lemma_unfold(app(r, t), rh0, s0.push(kk), c, k + 6);
    lemma_unfold(r, t, s0.push(kk).push(rh0), c, k + 5);
    let a3 = s0.push(kk).push(rh0).push(t);
    assert(a3.take(3) =~= s0.push(kk));
    assert(step(r, a3, c) == Some((rh0, s0.push(kk).push(t), c)));
    assert(run(r, a3, c, k + 5) == run(rh0, s0.push(kk).push(t), c, k + 4));
    lemma_unfold(app(r, h), z, s0.push(kk).push(t), c, k + 3);
    lemma_unfold(r, h, s0.push(kk).push(t).push(z), c, k + 2);
    let a6 = s0.push(kk).push(t).push(z).push(h);
    assert(a6.take(4) =~= s0.push(kk).push(t));
    assert(step(r, a6, c) == Some((z, s0.push(kk).push(t).push(h), c)));
    assert(run(r, a6, c, k + 2) == run(z, s0.push(kk).push(t).push(h), c, k + 1));
    let a7 = s0.push(kk).push(t).push(h);
    assert(a7.take(3) =~= s0.push(kk));
    assert(step(z, a7, c) == Some((t, s0.push(kk), c)));
    assert(run(z, a7, c, k + 1) == run(t, s0.push(kk), c, k));
}

/// How the decoder ends on a byte numeral or on `const`, from its start.
proof fn lemma_decode_leaf(h: Term, fuel: nat)
    requires
        fuel >= 2,
        h == Term::Prim(Prim::Const) || (h is Num && h->Num_0 < 256),
    ensures
        ({
            let fin = run(h, crate::context::Decoder::seed(), crate::context::Decoder::start(), fuel);
            crate::engine::stuck(fin) && crate::context::verdict(fin.2.0, fin.0, fin.1) == (if h
                is Num {
                Leaf::Byte(h->Num_0 as u8)
            } else {
                Leaf::True
            })
        }),
        run(h, crate::context::Decoder::seed(), crate::context::Decoder::start(), fuel) == run(
            h,
            crate::context::Decoder::seed(),
            crate::context::Decoder::start(),
            2,
        ),
{
    let s0 = crate::context::Decoder::seed();
    let c = crate::context::Decoder::start();
    let inc = Term::Prim(Prim::MarkInc);
    let init = Term::Prim(Prim::MarkInit);
    let e = Seq::<Term>::empty();
    assert(s0.drop_last() =~= e.push(init));
    assert(s0.take(0) =~= e);
    assert(s0.take(1) =~= e.push(init));
    assert(e.push(init).take(0) =~= e);
    reveal_with_fuel(run, 3);
    lemma_run_rests(h, s0, c, 2, fuel);
}

/// A cell and a tail form settle at once, each to itself.
proof fn lemma_forms_settle(h: Term, t: Term, fuel: nat)
    requires
        fuel >= 2,
    ensures
        settle(cell_term(h, t), fuel) == Some(cell_term(h, t)),
        settle(tail_form(h, t), fuel) == Some(tail_form(h, t)),
{
    let r = Term::Prim(Prim::Rotate);
    let w = Term::Prim(Prim::Wrap);
    let z = Term::Num(0);
    let c = crate::context::Pure;
    let e = Seq::<Term>::empty();
    lemma_plain_forms(h, t);
    let rh0 = app(app(r, h), z);
    lemma_unfold(app(w, app(r, t)), app(r, h), e, c, 1);
    lemma_unfold(w, app(r, t), e.push(app(r, h)), c, 0);
    lemma_run_rests(cell_term(h, t), e, c, 2, fuel);
    assert(e.push(app(r, h)).push(app(r, t)).drop_last() =~= e.push(app(r, h)));
    assert(e.push(app(r, h)).drop_last() =~= e);
    assert(crate::context::unwind(app(w, app(r, t)), e.push(app(r, h)))
        == crate::context::unwind(cell_term(h, t), e));
    assert(crate::context::unwind(w, e.push(app(r, h)).push(app(r, t))) == cell_term(h, t));
    lemma_unfold(app(r, t), rh0, e, c, 1);
    lemma_unfold(r, t, e.push(rh0), c, 0);
    lemma_run_rests(tail_form(h, t), e, c, 2, fuel);
    assert(e.push(rh0).push(t).drop_last() =~= e.push(rh0));
    assert(e.push(rh0).drop_last() =~= e);
    assert(crate::context::unwind(app(r, t), e.push(rh0)) == crate::context::unwind(
        tail_form(h, t),
        e,
    ));
    assert(crate::context::unwind(r, e.push(rh0).push(t)) == tail_form(h, t));
}

/// The tail of a cell settles to its tail form.
proof fn lemma_cell_tail(h: Term, t: Term, fuel: nat)
    requires
        fuel >= 5,
    ensures
        settle(app(cell_term(h, t), Term::Num(0)), fuel) == Some(tail_form(h, t)),
        run(app(cell_term(h, t), Term::Num(0)), Seq::empty(), crate::context::Pure, fuel) == run(
            app(cell_term(h, t), Term::Num(0)),
            Seq::empty(),
            crate::context::Pure,
            5,
        ),
        step(
            run(app(cell_term(h, t), Term::Num(0)), Seq::empty(), crate::context::Pure, 5).0,
            run(app(cell_term(h, t), Term::Num(0)), Seq::empty(), crate::context::Pure, 5).1,
            crate::context::Pure,
        ) is None,
{
    let r = Term::Prim(Prim::Rotate);
    let w = Term::Prim(Prim::Wrap);
    let z = Term::Num(0);
    let c = crate::context::Pure;
    let e = Seq::<Term>::empty();
    let rh0 = app(app(r, h), z);
    lemma_plain_forms(h, t);
    lemma_unfold(cell_term(h, t), z, e, c, 4);
    lemma_unfold(app(w, app(r, t)), app(r, h), e.push(z), c, 3);
    lemma_unfold(w, app(r, t), e.push(z).push(app(r, h)), c, 2);
    let a3 = e.push(z).push(app(r, h)).push(app(r, t));
    assert(a3.take(0) =~= e);
    assert(step(w, a3, c) == Some((app(r, t), e.push(rh0), c)));
    assert(run(w, a3, c, 2) == run(app(r, t), e.push(rh0), c, 1));
    lemma_unfold(r, t, e.push(rh0), c, 0);
    lemma_run_rests(app(cell_term(h, t), z), e, c, 5, fuel);
    assert(e.push(rh0).push(t).drop_last() =~= e.push(rh0));
    assert(e.push(rh0).drop_last() =~= e);
    assert(crate::context::unwind(app(r, t), e.push(rh0)) == crate::context::unwind(
        tail_form(h, t),
        e,
    ));
    assert(crate::context::unwind(r, e.push(rh0).push(t)) == tail_form(h, t));
}

/// The tail of a tail form settles to the tail form of the next cell.
proof fn lemma_form_tail(h: Term, h2: Term, t2: Term, fuel: nat)
    requires
        fuel >= 12,
    ensures
        settle(app(tail_form(h, cell_term(h2, t2)), Term::Num(0)), fuel) == Some(
            tail_form(h2, t2),
        ),
{
    let t = cell_term(h2, t2);
    let r = Term::Prim(Prim::Rotate);
    let z = Term::Num(0);
    let c = crate::context::Pure;
    let e = Seq::<Term>::empty();
    let rh0 = app(app(r, h), z);
    lemma_cell_tail(h2, t2, fuel);
    lemma_unfold(tail_form(h, t), z, e, c, 11);
    lemma_unfold(app(r, t), rh0, e.push(z), c, 10);
    lemma_unfold(r, t, e.push(z).push(rh0), c, 9);
    let a3 = e.push(z).push(rh0).push(t);
    assert(a3.take(1) =~= e.push(z));
    assert(step(r, a3, c) == Some((rh0, e.push(z).push(t), c)));
    assert(run(r, a3, c, 9) == run(rh0, e.push(z).push(t), c, 8));
    lemma_unfold(app(r, h), z, e.push(z).push(t), c, 7);
    lemma_unfold(r, h, e.push(z).push(t).push(z), c, 6);
    let a6 = e.push(z).push(t).push(z).push(h);
    assert(a6.take(2) =~= e.push(z).push(t));
    assert(step(r, a6, c) == Some((z, e.push(z).push(t).push(h), c)));
    assert(run(r, a6, c, 6) == run(z, e.push(z).push(t).push(h), c, 5));
    let a7 = e.push(z).push(t).push(h);
    assert(a7.take(1) =~= e.push(z));
    assert(step(z, a7, c) == Some((t, e.push(z), c)));
    assert(run(z, a7, c, 5) == run(t, e.push(z), c, 4));
    lemma_unfold(t, z, e, c, 4);
    assert(run(app(tail_form(h, t), z), e, c, 12) == run(app(t, z), e, c, 5));
    lemma_run_rests(app(tail_form(h, t), z), e, c, 12, fuel);
}

proof fn lemma_probe_cell(g: Term, h: Term, t: Term, fuel: nat)
    requires
        fuel >= 19,
        h == Term::Prim(Prim::Const) || (h is Num && h->Num_0 < 256),
    ensures
        probe(cell_term(h, t), fuel) == Some(
            if h is Num {
                Leaf::Byte(h->Num_0 as u8)
            } else {
                Leaf::True
            },
        ),
        probe(tail_form(g, cell_term(h, t)), fuel) == probe(cell_term(h, t), fuel),
{
    let kk = Term::Prim(Prim::Const);
    let s0 = crate::context::Decoder::seed();
    let c = crate::context::Decoder::start();
    lemma_plain_forms(h, t);
    lemma_plain_forms(g, cell_term(h, t));
    lemma_decode_leaf(h, (fuel - 10) as nat);
    lemma_decode_leaf(h, (fuel - 17) as nat);
    lemma_cell_head(h, t, (fuel - 10) as nat);
    lemma_cell_head(h, t, (fuel - 17) as nat);
    lemma_unfold(cell_term(h, t), kk, s0, c, (fuel - 1) as nat);
    lemma_tail_head(g, cell_term(h, t), (fuel - 8) as nat);
}

proof fn lemma_pull_byte(g: Term, b: u8, t: Term, fuel: nat)
    requires
        fuel >= 19,
    ensures
        pull_move(cell_term(Term::Num(b as u32), t), fuel) == Move::Byte(
            b,
            app(cell_term(Term::Num(b as u32), t), Term::Num(0)),
        ),
        pull_move(tail_form(g, cell_term(Term::Num(b as u32), t)), fuel) == Move::Byte(
            b,
            app(tail_form(g, cell_term(Term::Num(b as u32), t)), Term::Num(0)),
        ),
{
    let h = Term::Num(b as u32);
    lemma_plain_forms(h, t);
    lemma_plain_forms(g, cell_term(h, t));
    lemma_forms_settle(h, t, fuel);
    lemma_forms_settle(g, cell_term(h, t), fuel);
    lemma_probe_cell(g, h, t, fuel);
}

proof fn lemma_pull_end(g: Term, t3: Term, fuel: nat)
    requires
        fuel >= 19,
    ensures
        pull_move(
            cell_term(Term::Prim(Prim::Const), cell_term(Term::Prim(Prim::Const), t3)),
            fuel,
        ) is End,
        pull_move(
            tail_form(g, cell_term(Term::Prim(Prim::Const), cell_term(Term::Prim(Prim::Const), t3))),
            fuel,
        ) is End,
{
    let kk = Term::Prim(Prim::Const);
    let t = cell_term(kk, t3);
    lemma_plain_forms(kk, t);
    lemma_plain_forms(g, cell_term(kk, t));
    lemma_forms_settle(kk, t, fuel);
    lemma_forms_settle(g, cell_term(kk, t), fuel);
    lemma_probe_cell(g, kk, t, fuel);
    lemma_cell_tail(kk, t, fuel);
    lemma_form_tail(g, kk, t, fuel);
    lemma_probe_cell(kk, kk, t3, fuel);
}

proof fn lemma_tails_pull_alike(g: Term, h: Term, t: Term, fuel: nat)
    requires
        fuel >= 19,
    ensures
        pull_move(app(cell_term(h, t), Term::Num(0)), fuel) == pull_move(tail_form(h, t), fuel),
        pull_move(app(tail_form(g, cell_term(h, t)), Term::Num(0)), fuel) == pull_move(
            tail_form(h, t),
            fuel,
        ),
{
    lemma_cell_tail(h, t, fuel);
    lemma_form_tail(g, h, t, fuel);
    lemma_forms_settle(h, t, fuel);
}

proof fn lemma_form_drains(g: Term, bs: Seq<u8>, fuel: nat)
    requires
        fuel >= 19,
    ensures
        drain(tail_form(g, list_term(bs)), fuel, bs.len()) == (bs, Move::End),
    decreases bs.len(),
{
    let k = Term::Prim(Prim::Const);
    if bs.len() == 0 {
        lemma_pull_end(g, k, fuel);
        assert(bs =~= Seq::<u8>::empty());
    } else {
        let rest = bs.drop_first();
        let b = bs[0];
        lemma_pull_byte(g, b, list_term(rest), fuel);
        lemma_tails_pull_alike(g, Term::Num(b as u32), list_term(rest), fuel);
        lemma_form_drains(Term::Num(b as u32), rest, fuel);
        let x = app(tail_form(g, list_term(bs)), Term::Num(0));
        lemma_drain_depends_on_pull(
            x,
            tail_form(Term::Num(b as u32), list_term(rest)),
            fuel,
            rest.len(),
        );
        assert(seq![b].add(rest) =~= bs);
    }
}

/// A list of bytes, encoded as cells and closed by the end of output, pulls
/// back out as exactly those bytes and then a clean end, given enough fuel
/// for each pull.
pub proof fn byte_list_round_trips(bs: Seq<u8>, fuel: nat)
    requires
        fuel >= 19,
    ensures
        drain(list_term(bs), fuel, bs.len()) == (bs, Move::End),
{
    let k = Term::Prim(Prim::Const);
    if bs.len() == 0 {
        lemma_pull_end(k, k, fuel);
        assert(bs =~= Seq::<u8>::empty());
    } else {
        let rest = bs.drop_first();
        let b = bs[0];
        lemma_pull_byte(k, b, list_term(rest), fuel);
        lemma_tails_pull_alike(k, Term::Num(b as u32), list_term(rest), fuel);
        lemma_form_drains(Term::Num(b as u32), rest, fuel);
        let x = app(list_term(bs), Term::Num(0));
        lemma_drain_depends_on_pull(
            x,
            tail_form(Term::Num(b as u32), list_term(rest)),
            fuel,
            rest.len(),
        );
        assert(seq![b].add(rest) =~= bs);
    }
}

proof fn lemma_drain_depends_on_pull(x: Term, y: Term, fuel: nat, n: nat)
    requires
        pull_move(x, fuel) == pull_move(y, fuel),
    ensures
        drain(x, fuel, n) == drain(y, fuel, n),
{
}

} // verus!
