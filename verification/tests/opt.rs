use neon_compiler::ir::ssa::{Block, Func, Inst, Op, PrimOp, Program, Repr, Term};
use neon_compiler::ir::opt::optimize;

fn func(name: &str, params: Vec<u32>, reprs: Vec<Repr>, ret: Repr, insts: Vec<Inst>, term: Term) -> Func {
    Func { name: name.to_string(), reprs, ret, entry: 0, blocks: vec![Block { id: 0, params, insts, term }] }
}

fn def(v: u32, op: Op) -> Inst {
    Inst { result: Some(v), op }
}

fn prim_name(p: PrimOp) -> &'static str {
    match p {
        PrimOp::Add => "add",
        PrimOp::Sub => "sub",
        PrimOp::Mul => "mul",
        PrimOp::Div => "div",
        PrimOp::Rem => "rem",
        PrimOp::Neg => "neg",
        PrimOp::Not => "not",
        PrimOp::Bnot => "bnot",
        PrimOp::Band => "band",
        PrimOp::Bor => "bor",
        PrimOp::Bxor => "bxor",
        PrimOp::Shl => "shl",
        PrimOp::Shr => "shr",
        PrimOp::Eq => "eq",
        PrimOp::Ne => "ne",
        PrimOp::Lt => "lt",
        PrimOp::Le => "le",
        PrimOp::Gt => "gt",
        PrimOp::Ge => "ge",
        PrimOp::And => "and",
        PrimOp::Or => "or",
    }
}

/// The instructions of a program, one per line, in the IR's textual form.
fn text(program: &Program) -> String {
    let mut out = String::new();
    for f in &program.funcs {
        out.push_str(&format!("fn @{}\n", f.name));
        for b in &f.blocks {
            out.push_str(&format!("  block{}:\n", b.id));
            for inst in &b.insts {
                let op = match &inst.op {
                    Op::ConstI64(n) => format!("const.i64 {n}"),
                    Op::ConstBool(x) => format!("const.bool {x}"),
                    Op::ConstStr(s) => format!("const.str {s:?}"),
                    Op::Prim(p, args) => format!("prim.{} {:?}", prim_name(*p), args),
                    Op::Native { symbol, args } => format!("native @{symbol}{args:?}"),
                    Op::Call { func, args } => format!("call @{func}{args:?}"),
                    other => format!("{other:?}"),
                };
                match inst.result {
                    Some(v) => out.push_str(&format!("    %{v} = {op}\n")),
                    None => out.push_str(&format!("    {op}\n")),
                }
            }
        }
    }
    out
}

fn optimized(funcs: Vec<Func>, pure_natives: Vec<String>) -> String {
    let mut program = Program { funcs, pure_natives };
    optimize(&mut program);
    text(&program)
}

#[test]
fn constant_arithmetic_folds_to_a_single_constant() {
    // fn f() -> i64 { 2 + 3 * 4 }
    let f = func(
        "f",
        Vec::new(),
        vec![Repr::I64; 5],
        Repr::I64,
        vec![
            def(0, Op::ConstI64(2)),
            def(1, Op::ConstI64(3)),
            def(2, Op::ConstI64(4)),
            def(3, Op::Prim(PrimOp::Mul, vec![1, 2])),
            def(4, Op::Prim(PrimOp::Add, vec![0, 3])),
        ],
        Term::Ret(Some(4)),
    );
    let ir = optimized(vec![f], Vec::new());
    // 2 + 3*4 folds to 14, and the dead intermediate constants are removed.
    assert!(ir.contains("const.i64 14"), "{ir}");
    assert!(!ir.contains("prim.add"), "the add is folded away: {ir}");
    assert!(!ir.contains("prim.mul"), "the mul is folded away: {ir}");
    assert!(!ir.contains("const.i64 3"), "the dead constants are removed: {ir}");
}

#[test]
fn a_dead_pure_computation_is_removed() {
    // fn f(x: i64) -> i64 { let unused = x * x; x }
    let f = func(
        "f",
        vec![0],
        vec![Repr::I64, Repr::I64],
        Repr::I64,
        vec![def(1, Op::Prim(PrimOp::Mul, vec![0, 0]))],
        Term::Ret(Some(0)),
    );
    let ir = optimized(vec![f], Vec::new());
    // `unused` is pure and never read, so its multiply is dropped.
    assert!(!ir.contains("prim.mul"), "dead multiply removed: {ir}");
}

#[test]
fn an_effectful_call_is_kept_even_if_its_result_is_unused() {
    // @native("neon_io_println") fn println(s: str) -> i64
    // fn f() { let ignored = println("hi"); }
    let f = func(
        "f",
        Vec::new(),
        vec![Repr::Str, Repr::I64],
        Repr::Unit,
        vec![
            def(0, Op::ConstStr("hi".to_string())),
            def(1, Op::Native { symbol: "neon_io_println".to_string(), args: vec![0] }),
        ],
        Term::Ret(None),
    );
    let ir = optimized(vec![f], Vec::new());
    // println does I/O; its result is unused but the call must remain.
    assert!(ir.contains("neon_io_println"), "{ir}");
}

#[test]
fn overflowing_constant_arithmetic_is_left_for_the_runtime() {
    // fn f() -> i64 { 9223372036854775807 + 1 }
    let f = func(
        "f",
        Vec::new(),
        vec![Repr::I64; 3],
        Repr::I64,
        vec![def(0, Op::ConstI64(9223372036854775807)), def(1, Op::ConstI64(1)), def(2, Op::Prim(PrimOp::Add, vec![0, 1]))],
        Term::Ret(Some(2)),
    );
    let ir = optimized(vec![f], Vec::new());
    // Folding would change behaviour if the runtime traps, so it is not folded.
    assert!(ir.contains("prim.add"), "overflow left unfolded: {ir}");
}

#[test]
fn division_by_zero_and_negation_fold_as_the_runtime_would() {
    // (7 / 0, -(5), 7 % 2): the division is left for the runtime to trap, the others fold.
    let mut reprs = vec![Repr::I64; 7];
    reprs.push(Repr::Tuple);
    let f = func(
        "f",
        Vec::new(),
        reprs,
        Repr::Tuple,
        vec![
            def(0, Op::ConstI64(7)),
            def(1, Op::ConstI64(0)),
            def(2, Op::Prim(PrimOp::Div, vec![0, 1])),
            def(3, Op::ConstI64(5)),
            def(4, Op::Prim(PrimOp::Neg, vec![3])),
            def(5, Op::ConstI64(2)),
            def(6, Op::Prim(PrimOp::Rem, vec![0, 5])),
            def(7, Op::MakeTuple(vec![2, 4, 6])),
        ],
        Term::Ret(Some(7)),
    );
    let ir = optimized(vec![f], Vec::new());
    assert!(ir.contains("prim.div"), "{ir}");
    assert!(ir.contains("%4 = const.i64 -5"), "{ir}");
    assert!(ir.contains("%6 = const.i64 1"), "{ir}");
    assert!(!ir.contains("%3 ="), "the folded operand is dead: {ir}");
}

#[test]
fn unreachable_blocks_are_dropped() {
    let mut f = func("f", Vec::new(), vec![Repr::I64], Repr::I64, vec![def(0, Op::ConstI64(1))], Term::Ret(Some(0)));
    f.blocks.push(Block { id: 7, params: Vec::new(), insts: Vec::new(), term: Term::Unreachable });
    let mut program = Program { funcs: vec![f], pure_natives: Vec::new() };
    optimize(&mut program);
    assert_eq!(program.funcs[0].blocks.len(), 1);
    assert_eq!(program.funcs[0].blocks[0].id, 0);
}

#[test]
fn folding_booleans() {
    // !true && false folds to false
    let f = func(
        "f",
        Vec::new(),
        vec![Repr::Bool; 4],
        Repr::Bool,
        vec![
            def(0, Op::ConstBool(true)),
            def(1, Op::Prim(PrimOp::Not, vec![0])),
            def(2, Op::ConstBool(false)),
            def(3, Op::Prim(PrimOp::And, vec![1, 2])),
        ],
        Term::Ret(Some(3)),
    );
    let ir = optimized(vec![f], Vec::new());
    assert!(!ir.contains("prim."), "{ir}");
    assert!(ir.contains("%3 = const.bool false"), "{ir}");
}

#[test]
fn negating_the_smallest_integer_is_left_for_the_runtime() {
    // -(i64::MIN) overflows: the runtime traps, so it is not folded.
    let f = func(
        "f",
        Vec::new(),
        vec![Repr::I64; 2],
        Repr::I64,
        vec![def(0, Op::ConstI64(i64::MIN)), def(1, Op::Prim(PrimOp::Neg, vec![0]))],
        Term::Ret(Some(1)),
    );
    let ir = optimized(vec![f], Vec::new());
    assert!(ir.contains("prim.neg"), "negation overflow left unfolded: {ir}");
}
