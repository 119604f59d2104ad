use neon_compiler::ir::ssa::{Block, Func, Inst, Op, PrimOp, Program, Repr, Term};
use neon_compiler::ir::{compile, Stage};
use neon_compiler::version;

fn program() -> Program {
    // fn f(s: str) -> i64 { let unused = 1 + 2; g(s); 3 }
    let f = Func {
        name: "f".to_string(),
        reprs: vec![Repr::Str, Repr::I64, Repr::I64, Repr::I64, Repr::Unit, Repr::I64],
        ret: Repr::I64,
        entry: 0,
        blocks: vec![Block {
            id: 0,
            params: vec![0],
            insts: vec![
                Inst { result: Some(1), op: Op::ConstI64(1) },
                Inst { result: Some(2), op: Op::ConstI64(2) },
                Inst { result: Some(3), op: Op::Prim(PrimOp::Add, vec![1, 2]) },
                Inst { result: Some(4), op: Op::Call { func: "g".to_string(), args: vec![0] } },
                Inst { result: Some(5), op: Op::ConstI64(3) },
            ],
            term: Term::Ret(Some(5)),
        }],
    };
    Program { funcs: vec![f], pure_natives: Vec::new() }
}

fn count(p: &Program, pred: fn(&Op) -> bool) -> usize {
    p.funcs[0].blocks[0].insts.iter().filter(|i| pred(&i.op)).count()
}

#[test]
fn each_stage_stops_where_asked() {
    let lowered = compile(program(), Stage::Lowered);
    assert_eq!(lowered.funcs[0].blocks[0].insts.len(), 5);
    let optimised = compile(program(), Stage::Optimised);
    // The dead arithmetic is gone; the call to an unknown function stays.
    assert_eq!(count(&optimised, |o| matches!(o, Op::Prim(..))), 0);
    assert_eq!(count(&optimised, |o| matches!(o, Op::Call { .. })), 1);
    assert_eq!(count(&optimised, |o| matches!(o, Op::Release(_))), 0);
    let last = compile(program(), Stage::Final);
    // `s` is consumed by the call, so nothing needs releasing; counts come last.
    assert_eq!(count(&last, |o| matches!(o, Op::Call { .. })), 1);
    assert_eq!(count(&last, |o| matches!(o, Op::Retain(_))), 0);
}

#[test]
fn the_version() {
    assert_eq!(version(), "0.1.0");
}

#[test]
fn compiling_to_a_stage_is_running_the_stages_in_turn() {
    let mut staged = program();
    neon_compiler::ir::opt::optimize(&mut staged);
    assert_eq!(format!("{:?}", compile(program(), Stage::Optimised).funcs), format!("{:?}", staged.funcs));
    neon_compiler::ir::refcount::insert(&mut staged);
    assert_eq!(format!("{:?}", compile(program(), Stage::Final).funcs), format!("{:?}", staged.funcs));
}
