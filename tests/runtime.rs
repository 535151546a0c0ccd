use worse::{checked_pow, Data, Decoder, Leaf, LoadError, Prim, Program, Pull, Pure, Shape, Stream, Value};

const FUEL: u64 = 1_000_000;

fn prim(p: Prim) -> Value {
    Value::primitive(p)
}

fn num(n: u32) -> Value {
    Value::number(n)
}

/// A list cell whose head is `h` and whose tail is `t`:
/// `wrap (rotate t) (rotate h)`, which applied to `s, a, b` gives `s h t a b`.
fn cell(h: Value, t: Value) -> Value {
    prim(Prim::Wrap).apply(prim(Prim::Rotate).apply(t)).apply(prim(Prim::Rotate).apply(h))
}

fn end_of_output() -> Value {
    cell(prim(Prim::Const), cell(prim(Prim::Const), prim(Prim::Const)))
}

fn bytes_list(bytes: &[u8]) -> Value {
    let mut list = end_of_output();
    for b in bytes.iter().rev() {
        list = cell(num(*b as u32), list);
    }
    list
}

/// A program that reads a byte and echoes it, `reads` times, then ends.
fn echo(reads: usize) -> Value {
    let mut prog = end_of_output();
    for _ in 0..reads {
        // k x = cell(x, prog), as wrap (wrap (rotate prog)) rotate
        let k = prim(Prim::Wrap)
            .apply(prim(Prim::Wrap).apply(prim(Prim::Rotate).apply(prog)))
            .apply(prim(Prim::Rotate));
        prog = cell(prim(Prim::Const), cell(num(0), k));
    }
    prog
}

fn run_stream(code: Value, input: &[u8]) -> (Vec<u8>, &'static str) {
    let mut out = Vec::new();
    let mut pos = 0;
    let mut s = Stream::new(code);
    loop {
        match s.pull(FUEL) {
            Pull::Byte(b, rest) => {
                out.push(b);
                s = rest;
            }
            Pull::NeedInput(r) => {
                let x = if pos < input.len() {
                    pos += 1;
                    Some(input[pos - 1])
                } else {
                    None
                };
                s = r.feed(x);
            }
            Pull::End => return (out, "end"),
            Pull::Malformed => return (out, "malformed"),
            Pull::Stalled => return (out, "stalled"),
        }
    }
}

fn number_of(v: &Value) -> Option<u32> {
    match v.shape() {
        Shape::Num(n) => Some(n),
        _ => None,
    }
}

fn decode(v: Value) -> Option<Leaf> {
    v.eval::<Decoder>(FUEL)
}

#[test]
fn numbers_round_trip_through_data() {
    for n in [0u32, 1, 2, 511, 512, 0x3ff_ffff, 0x400_0000, u32::MAX] {
        match num(n).data() {
            Data::Number(m) => assert_eq!(m, n),
            other => panic!("expected a number, got {:?}", other),
        }
    }
}

#[test]
fn primitives_round_trip_through_data() {
    let all = [
        Prim::Plus,
        Prim::Minus,
        Prim::Pred,
        Prim::Wrap,
        Prim::Const,
        Prim::Rotate,
        Prim::MarkInc,
        Prim::MarkInit,
    ];
    for p in all {
        match prim(p).data() {
            Data::Primitive(q) => assert_eq!(q, p),
            other => panic!("expected a primitive, got {:?}", other),
        }
    }
}

#[test]
fn bind_keeps_both_sides_at_every_width() {
    let cases: Vec<(Value, Value, Shape, Shape)> = vec![
        (prim(Prim::Plus), prim(Prim::Minus), Shape::Prim(Prim::Plus), Shape::Prim(Prim::Minus)),
        (num(3), prim(Prim::Const), Shape::Num(3), Shape::Prim(Prim::Const)),
        (num(100_000), num(7), Shape::Num(100_000), Shape::Num(7)),
        (num(u32::MAX), num(u32::MAX), Shape::Num(u32::MAX), Shape::Num(u32::MAX)),
    ];
    for (f, x, sf, sx) in cases {
        let v = f.bind(x);
        assert_eq!(v.shape(), Shape::App);
        assert_eq!(v.split_shapes(), Some((sf, sx)));
        match v.data() {
            Data::Pair(a, b) => {
                assert_eq!(a.shape(), sf);
                assert_eq!(b.shape(), sx);
            }
            other => panic!("expected a pair, got {:?}", other),
        }
    }
}

#[test]
fn nested_pairs_keep_their_structure() {
    let inner = prim(Prim::Rotate).bind(prim(Prim::Const));
    let mid = inner.bind(num(9));
    let outer = mid.bind(num(1 << 20));
    let deep = outer.bind(prim(Prim::Plus));
    let Data::Pair(a, b) = deep.data() else { panic!("pair") };
    assert_eq!(b.shape(), Shape::Prim(Prim::Plus));
    let Data::Pair(a, b) = a.data() else { panic!("pair") };
    assert_eq!(b.shape(), Shape::Num(1 << 20));
    let Data::Pair(a, b) = a.data() else { panic!("pair") };
    assert_eq!(b.shape(), Shape::Num(9));
    assert_eq!(a.split_shapes(), Some((Shape::Prim(Prim::Rotate), Shape::Prim(Prim::Const))));
}

#[test]
fn duplicate_outlives_its_source() {
    let v = num(u32::MAX).bind(prim(Prim::Plus)).bind(num(70_000));
    let d = v.duplicate();
    let d = d.ignore(v);
    let Data::Pair(a, b) = d.data() else { panic!("pair") };
    assert_eq!(b.shape(), Shape::Num(70_000));
    assert_eq!(a.split_shapes(), Some((Shape::Num(u32::MAX), Shape::Prim(Prim::Plus))));
}

#[test]
fn checked_pow_values() {
    assert_eq!(checked_pow(2, 10), Some(1024));
    assert_eq!(checked_pow(0, 0), Some(1));
    assert_eq!(checked_pow(0, 5), Some(0));
    assert_eq!(checked_pow(1, u32::MAX), Some(1));
    assert_eq!(checked_pow(2, 31), Some(1 << 31));
    assert_eq!(checked_pow(2, 32), None);
    assert_eq!(checked_pow(65535, 2), Some(65535 * 65535));
    assert_eq!(checked_pow(65536, 2), None);
}

#[test]
fn apply_pred_shortcuts() {
    assert_eq!(number_of(&prim(Prim::Pred).apply(num(5))), Some(4));
    assert_eq!(number_of(&prim(Prim::Pred).apply(num(0))), Some(0));
    let pp = prim(Prim::Pred).apply(prim(Prim::Pred));
    assert_eq!(pp.split_shapes(), Some((Shape::Prim(Prim::Const), Shape::Num(0))));
}

#[test]
fn apply_numeral_shortcuts() {
    assert_eq!(number_of(&num(0).apply(prim(Prim::Wrap))), Some(1));
    assert_eq!(num(1).apply(prim(Prim::Wrap)).shape(), Shape::Prim(Prim::Wrap));
    assert_eq!(number_of(&num(3).apply(num(2))), Some(8));
    assert_eq!(number_of(&num(4).apply(num(6).bind(prim(Prim::Plus)))), Some(24));
    // 2^32 does not fit: the plain application stays
    assert_eq!(num(32).apply(num(2)).split_shapes(), Some((Shape::Num(32), Shape::Num(2))));
}

#[test]
fn apply_plus_and_minus_shortcuts() {
    assert_eq!(number_of(&prim(Prim::Plus).apply(num(3)).apply(num(4))), Some(7));
    let over = prim(Prim::Plus).apply(num(u32::MAX)).apply(num(1));
    assert_eq!(over.shape(), Shape::App);
    assert_eq!(number_of(&prim(Prim::Minus).apply(num(3)).apply(num(5))), Some(0));
    assert_eq!(number_of(&prim(Prim::Minus).apply(num(5)).apply(num(3))), Some(2));
}

#[test]
fn apply_fixed_point_shortcuts() {
    let mp = prim(Prim::Minus).apply(prim(Prim::Plus));
    let pm = prim(Prim::Plus).apply(prim(Prim::Minus));
    assert_eq!(mp.apply(pm).shape(), Shape::Prim(Prim::Rotate));
    let mp = prim(Prim::Minus).apply(prim(Prim::Plus));
    assert_eq!(mp.apply(num(1)).shape(), Shape::Prim(Prim::Rotate));
    let mm = prim(Prim::Minus).apply(prim(Prim::Minus));
    assert_eq!(mm.apply(prim(Prim::Minus)).shape(), Shape::Num(0));
    let rc = prim(Prim::Rotate).apply(prim(Prim::Const));
    assert_eq!(rc.apply(prim(Prim::Rotate)).shape(), Shape::Num(0));
    let rz = prim(Prim::Rotate).apply(num(0));
    assert_eq!(rz.apply(prim(Prim::Rotate)).shape(), Shape::Prim(Prim::Const));
    let k = prim(Prim::Const).apply(num(42));
    assert_eq!(k.apply(prim(Prim::Plus)).shape(), Shape::Num(42));
}

#[test]
fn plus_on_numerals_adds() {
    let t = prim(Prim::Plus).bind(num(2)).bind(num(3));
    assert_eq!(decode(t), Some(Leaf::Byte(5)));
    let t = prim(Prim::Plus).bind(num(200)).bind(num(55));
    assert_eq!(decode(t), Some(Leaf::Byte(255)));
    // Pure normalisation of the partial application folds it to the numeral
    let t = prim(Prim::Plus).bind(num(40)).bind(num(2));
    let v = t.eval::<Pure>(FUEL).unwrap();
    assert_eq!(number_of(&v), Some(42));
}

#[test]
fn plus_on_symbolic_numerals_adds() {
    // plus applied to two applications that denote numerals: 2 + (pred 4)
    let m = prim(Prim::Plus).bind(num(1)).bind(num(1));
    let n = prim(Prim::Pred).bind(num(4));
    let t = prim(Prim::Plus).bind(m).bind(n);
    assert_eq!(decode(t), Some(Leaf::Byte(5)));
}

#[test]
fn minus_on_numerals_stops_at_zero() {
    let t = prim(Prim::Minus).bind(num(7)).bind(num(3));
    assert_eq!(decode(t), Some(Leaf::Byte(4)));
    let t = prim(Prim::Minus).bind(num(3)).bind(num(7));
    assert_eq!(decode(t), Some(Leaf::Byte(0)));
    let t = prim(Prim::Minus).bind(num(u32::MAX)).bind(num(u32::MAX - 9));
    assert_eq!(decode(t), Some(Leaf::Byte(9)));
}

#[test]
fn pred_on_numerals_stops_at_zero() {
    assert_eq!(decode(prim(Prim::Pred).bind(num(5))), Some(Leaf::Byte(4)));
    assert_eq!(decode(prim(Prim::Pred).bind(num(0))), Some(Leaf::Byte(0)));
    assert_eq!(decode(prim(Prim::Pred).bind(num(1))), Some(Leaf::Byte(0)));
}

#[test]
fn wrap_matches_manual_composition() {
    // wrap h g f = h (g f): with h = 2, g = 3, f = 2 that is 2 (2^3) = 8^2
    let t = prim(Prim::Wrap).bind(num(2)).bind(num(3)).bind(num(2));
    let manual = num(2).apply(num(3).apply(num(2)));
    assert_eq!(decode(t), Some(Leaf::Byte(64)));
    assert_eq!(decode(manual), Some(Leaf::Byte(64)));
    // wrap 0 1 const = 0 (1 const), which selects its second argument
    let t = prim(Prim::Wrap).bind(num(0)).bind(num(1)).bind(prim(Prim::Const));
    let manual = num(0).apply(num(1).apply(prim(Prim::Const)));
    assert_eq!(decode(t), Some(Leaf::Byte(1)));
    assert_eq!(decode(manual), Some(Leaf::Byte(1)));
}

#[test]
fn rotate_applies_its_second_argument_to_the_first() {
    // rotate x y z = y x z: rotate 7 (minus) 5 = minus 7 5 = 2
    let t = prim(Prim::Rotate).bind(num(7)).bind(prim(Prim::Minus)).bind(num(5));
    assert_eq!(decode(t), Some(Leaf::Byte(2)));
    let manual = prim(Prim::Minus).apply(num(7)).apply(num(5));
    assert_eq!(decode(manual), Some(Leaf::Byte(2)));
    // rotate 0 const const = const 0 const, which is 0
    let t = prim(Prim::Rotate).bind(num(0)).bind(prim(Prim::Const)).bind(prim(Prim::Const));
    assert_eq!(decode(t), Some(Leaf::Byte(0)));
}

#[test]
fn rotate_toggles_booleans() {
    let t = prim(Prim::Rotate).bind(prim(Prim::Const)).bind(prim(Prim::Rotate));
    assert_eq!(decode(t), Some(Leaf::Byte(0)));
    let t = prim(Prim::Rotate).bind(num(0)).bind(prim(Prim::Rotate));
    assert_eq!(decode(t), Some(Leaf::True));
}

#[test]
fn decoder_verdicts() {
    assert_eq!(decode(prim(Prim::Const)), Some(Leaf::True));
    assert_eq!(decode(num(0)), Some(Leaf::Byte(0)));
    assert_eq!(decode(num(1)), Some(Leaf::Byte(1)));
    assert_eq!(decode(num(255)), Some(Leaf::Byte(255)));
    assert_eq!(decode(num(256)), Some(Leaf::Invalid));
    assert_eq!(decode(prim(Prim::Plus)), Some(Leaf::Invalid));
}

#[test]
fn eval_runs_out_of_fuel() {
    let t = prim(Prim::Plus).bind(num(2)).bind(num(3));
    assert_eq!(t.eval::<Decoder>(1), None);
}

#[test]
fn list_of_bytes_round_trips() {
    let bytes = [72u8, 105, 0, 1, 2, 255, 128];
    let (out, how) = run_stream(bytes_list(&bytes), &[]);
    assert_eq!(out, bytes.to_vec());
    assert_eq!(how, "end");
}

#[test]
fn empty_list_ends_at_once() {
    let (out, how) = run_stream(bytes_list(&[]), &[]);
    assert!(out.is_empty());
    assert_eq!(how, "end");
}

#[test]
fn echo_program_copies_hello() {
    let (out, how) = run_stream(echo(6), b"hello");
    assert_eq!(out, b"hello".to_vec());
    assert_eq!(how, "end");
}

#[test]
fn echo_program_ends_on_empty_input() {
    let (out, how) = run_stream(echo(3), b"");
    assert!(out.is_empty());
    assert_eq!(how, "end");
}

#[test]
fn bare_primitive_stream_is_malformed() {
    let all = [
        Prim::Plus,
        Prim::Minus,
        Prim::Pred,
        Prim::Wrap,
        Prim::Const,
        Prim::Rotate,
        Prim::MarkInc,
        Prim::MarkInit,
    ];
    for p in all {
        let (out, how) = run_stream(prim(p), &[]);
        assert!(out.is_empty());
        assert_eq!(how, "malformed");
    }
}

#[test]
fn malformed_tail_stops_after_emitted_bytes() {
    let (out, how) = run_stream(cell(num(65), cell(num(66), prim(Prim::Plus))), &[]);
    assert_eq!(out, vec![65, 66]);
    assert_eq!(how, "malformed");
}

#[test]
fn load_applies_the_later_term_to_the_earlier() {
    // `2 3 .` is 3 applied to 2, which is 2^3
    let p = Program::load(b"2 3 .").unwrap();
    assert_eq!(number_of(p.code()), Some(8));
    // `3 + .` is plus applied to 3
    let p = Program::load(b"3 + .").unwrap();
    assert_eq!(p.code().split_shapes(), Some((Shape::Prim(Prim::Plus), Shape::Num(3))));
    // a numeral is no list: its head does not decode
    assert!(matches!(Program::load(b"8").unwrap().wrap().pull(FUEL), Pull::Malformed));
}

#[test]
fn load_reads_tokens_and_comments() {
    assert!(Program::load(b"+").is_ok());
    assert!(Program::load(b"# a comment\n - \t\r\n").is_ok());
    assert!(Program::load(b"1 2 . 3 .").is_ok());
    assert!(Program::load(b"9 # trailing comment").is_ok());
}

#[test]
fn load_errors() {
    assert_eq!(Program::load(b".").unwrap_err(), LoadError::Underflow);
    assert_eq!(Program::load(b"1 .").unwrap_err(), LoadError::Underflow);
    assert_eq!(Program::load(b"").unwrap_err(), LoadError::NotOneTerm);
    assert_eq!(Program::load(b"1 2").unwrap_err(), LoadError::NotOneTerm);
    assert_eq!(Program::load(b"# only a comment").unwrap_err(), LoadError::NotOneTerm);
    assert_eq!(Program::load(b"1 x").unwrap_err(), LoadError::Unexpected(b'x'));
}

#[test]
fn releasing_a_deep_term_is_iterative() {
    let mut v = num(1);
    for i in 0..1_000_000u32 {
        v = num(i).bind(v);
    }
    v.release();
    let mut w = prim(Prim::Const);
    for i in 0..1_000_000u32 {
        w = w.bind(num(i));
    }
    let kept = num(7).ignore(w);
    assert_eq!(number_of(&kept), Some(7));
}

#[test]
fn duplicating_a_deep_term_is_iterative() {
    let mut v = num(1);
    for i in 0..1_000_000u32 {
        v = num(i).bind(v);
    }
    let d = v.duplicate();
    v.release();
    let Data::Pair(a, b) = d.data() else { panic!("pair") };
    assert_eq!(a.shape(), Shape::Num(999_999));
    b.release();
}
