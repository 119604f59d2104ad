use neon_compiler::ir::effects::analyze;
use neon_compiler::ir::ssa::{Block, Func, Inst, Op, PrimOp, Program, Repr, Term};

/// A one-block function: `params` are the entry block's parameters.
fn func(name: &str, params: Vec<u32>, reprs: Vec<Repr>, ret: Repr, insts: Vec<Inst>, term: Term) -> Func {
    Func { name: name.to_string(), reprs, ret, entry: 0, blocks: vec![Block { id: 0, params, insts, term }] }
}

fn def(v: u32, op: Op) -> Inst {
    Inst { result: Some(v), op }
}

fn native(symbol: &str, args: Vec<u32>) -> Op {
    Op::Native { symbol: symbol.to_string(), args }
}

fn call(name: &str, args: Vec<u32>) -> Op {
    Op::Call { func: name.to_string(), args }
}

/// `fn greet(n: str) -> str { concat("hi ", n) }` with `concat` the native
/// `neon_str_concat`.
fn greet() -> Func {
    func(
        "greet",
        vec![0],
        vec![Repr::Str, Repr::Str, Repr::Str],
        Repr::Str,
        vec![def(1, Op::ConstStr("hi ".to_string())), def(2, native("neon_str_concat", vec![1, 0]))],
        Term::Ret(Some(2)),
    )
}

#[test]
fn io_is_effectful_and_reaches_its_callers() {
    // @native("neon_io_println") fn println(s: str)
    // fn shout(s: str) { println(s); }
    // fn calls_io(s: str) { shout(s); }
    let shout = func(
        "shout",
        vec![0],
        vec![Repr::Str, Repr::Unit],
        Repr::Unit,
        vec![def(1, native("neon_io_println", vec![0]))],
        Term::Ret(None),
    );
    let calls_io = func(
        "calls_io",
        vec![0],
        vec![Repr::Str, Repr::Unit],
        Repr::Unit,
        vec![def(1, call("shout", vec![0]))],
        Term::Ret(None),
    );
    let e = analyze(&Program { funcs: vec![shout, calls_io], pure_natives: Vec::new() });
    assert_eq!(e.get("shout"), Some(false), "calls io -> effectful");
    assert_eq!(e.get("calls_io"), Some(false), "reaches io transitively");
}

#[test]
fn i64_arithmetic_traps_and_f64_does_not() {
    // fn double(x: i64) -> i64 { x + x }
    let double = func(
        "double",
        vec![0],
        vec![Repr::I64, Repr::I64],
        Repr::I64,
        vec![def(1, Op::Prim(PrimOp::Add, vec![0, 0]))],
        Term::Ret(Some(1)),
    );
    // fn scale(x: f64) -> f64 { x * 2.0 }
    let scale = func(
        "scale",
        vec![0],
        vec![Repr::F64, Repr::F64, Repr::F64],
        Repr::F64,
        vec![def(1, Op::ConstF64(2.0f64.to_bits())), def(2, Op::Prim(PrimOp::Mul, vec![0, 1]))],
        Term::Ret(Some(2)),
    );
    // fn compare(a: i64, b: i64) -> bool { a < b }
    let compare = func(
        "compare",
        vec![0, 1],
        vec![Repr::I64, Repr::I64, Repr::Bool],
        Repr::Bool,
        vec![def(2, Op::Prim(PrimOp::Lt, vec![0, 1]))],
        Term::Ret(Some(2)),
    );
    let e = analyze(&Program { funcs: vec![double, scale, compare], pure_natives: Vec::new() });
    assert_eq!(e.get("double"), Some(false), "i64 `+` can overflow-trap");
    assert_eq!(e.get("scale"), Some(true), "f64 arithmetic cannot trap");
    assert_eq!(e.get("compare"), Some(true), "a comparison cannot trap");
}

#[test]
fn a_pure_native_stays_pure() {
    // @pure @native("neon_str_concat") fn concat(a: str, b: str) -> str
    let e = analyze(&Program { funcs: vec![greet()], pure_natives: vec!["neon_str_concat".to_string()] });
    assert_eq!(e.get("greet"), Some(true), "string concat is declared pure");
}

#[test]
fn an_unannotated_native_is_effectful() {
    // @native("neon_str_concat") fn concat(a: str, b: str) -> str
    let e = analyze(&Program { funcs: vec![greet()], pure_natives: Vec::new() });
    assert_eq!(e.get("greet"), Some(false), "no `@pure` means effectful");
}

#[test]
fn a_function_is_as_pure_as_what_it_calls() {
    // A pure function, a caller of it, and a caller of an unknown closure.
    let leaf = func("leaf", vec![0], vec![Repr::I64, Repr::Bool], Repr::Bool, vec![def(1, Op::Prim(PrimOp::Lt, vec![0, 0]))], Term::Ret(Some(1)));
    let mid = func("mid", vec![0], vec![Repr::I64, Repr::Bool], Repr::Bool, vec![def(1, call("leaf", vec![0]))], Term::Ret(Some(1)));
    let dyn_call = func(
        "dyn_call",
        vec![0],
        vec![Repr::Closure, Repr::I64],
        Repr::I64,
        vec![def(1, Op::CallClosure { callee: 0, args: Vec::new() })],
        Term::Ret(Some(1)),
    );
    let e = analyze(&Program { funcs: vec![leaf, mid, dyn_call], pure_natives: Vec::new() });
    assert_eq!(e.get("leaf"), Some(true));
    assert_eq!(e.get("mid"), Some(true));
    assert_eq!(e.get("dyn_call"), Some(false));
    assert_eq!(e.get("absent"), None);
}

#[test]
fn mutually_recursive_pure_functions_stay_pure() {
    // The greatest solution: a cycle with nothing effectful in it is pure.
    let even = func("even", vec![0], vec![Repr::I64, Repr::Bool], Repr::Bool, vec![def(1, call("odd", vec![0]))], Term::Ret(Some(1)));
    let odd = func("odd", vec![0], vec![Repr::I64, Repr::Bool], Repr::Bool, vec![def(1, call("even", vec![0]))], Term::Ret(Some(1)));
    let e = analyze(&Program { funcs: vec![even, odd], pure_natives: Vec::new() });
    assert_eq!(e.get("even"), Some(true));
    assert_eq!(e.get("odd"), Some(true));
}
