mod apply;
mod context;
mod engine;
mod laws;
mod program;
mod term;

pub use apply::{apply_term, checked_pow, monus, power};
pub use context::{bump, unwind, verdict, Decoder, Leaf, Pure};
pub use engine::{
    const_rule, evaluated, minus_rule, number_rule, plus_rule, pred_rule, prim_rule, rotate_rule,
    run, step, step_of, stuck, terms, wrap_rule, Context,
};
pub use laws::{
    bare_primitive_is_malformed, byte_list_round_trips, cell_term, drain, list_term, minus_on_numerals,
    plus_on_numerals, pred_on_numerals, rotate_swaps, tail_form, wrap_composes,
};
pub use program::{
    input_term, parse, probe, pull_is, pull_move, scan, scan_byte, settle, LoadError, Move,
    Program, Pull, Reader, Stream,
};
pub use term::{app, shape_of, size, total_size, word_term, Data, Prim, Shape, Term, Value};
