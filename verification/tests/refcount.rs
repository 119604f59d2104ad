use neon_compiler::ir::refcount::insert;
use neon_compiler::ir::ssa::{Block, Func, Inst, Op, Program, Repr, Target, Term};

fn def(v: u32, op: Op) -> Inst {
    Inst { result: Some(v), op }
}

fn call(name: &str, args: Vec<u32>) -> Op {
    Op::Call { func: name.to_string(), args }
}

fn counted(funcs: Vec<Func>) -> Program {
    let mut program = Program { funcs, pure_natives: Vec::new() };
    insert(&mut program);
    program
}

/// Each instruction as a short word: the op's kind and, for counts, the value.
fn shape(insts: &[Inst]) -> Vec<String> {
    insts
        .iter()
        .map(|i| match &i.op {
            Op::Retain(v) => format!("retain {v}"),
            Op::Release(v) => format!("release {v}"),
            Op::Call { func, .. } => format!("call {func}"),
            Op::ConstStr(_) => "str".to_string(),
            Op::ConstI64(_) => "i64".to_string(),
            Op::Field { .. } => "field".to_string(),
            Op::MakeTuple(_) => "tuple".to_string(),
            other => format!("{other:?}"),
        })
        .collect()
}

#[test]
fn a_value_used_again_is_retained_before_it_is_handed_on() {
    // fn f(s: str) { g(s); g(s); }
    let f = Func {
        name: "f".to_string(),
        reprs: vec![Repr::Str, Repr::Unit, Repr::Unit],
        ret: Repr::Unit,
        entry: 0,
        blocks: vec![Block {
            id: 0,
            params: vec![0],
            insts: vec![def(1, call("g", vec![0])), def(2, call("g", vec![0]))],
            term: Term::Ret(None),
        }],
    };
    let p = counted(vec![f]);
    assert_eq!(shape(&p.funcs[0].blocks[0].insts), vec!["retain 0", "call g", "call g"]);
}

#[test]
fn a_dead_result_is_released_right_after_it_is_made() {
    // fn f() -> i64 { let s = "hi"; 1 }
    let f = Func {
        name: "f".to_string(),
        reprs: vec![Repr::Str, Repr::I64],
        ret: Repr::I64,
        entry: 0,
        blocks: vec![Block {
            id: 0,
            params: Vec::new(),
            insts: vec![def(0, Op::ConstStr("hi".to_string())), def(1, Op::ConstI64(1))],
            term: Term::Ret(Some(1)),
        }],
    };
    let p = counted(vec![f]);
    assert_eq!(shape(&p.funcs[0].blocks[0].insts), vec!["str", "release 0", "i64"]);
}

#[test]
fn an_unused_parameter_is_released_on_entry() {
    // fn f(s: str) {}
    let f = Func {
        name: "f".to_string(),
        reprs: vec![Repr::Str],
        ret: Repr::Unit,
        entry: 0,
        blocks: vec![Block { id: 0, params: vec![0], insts: Vec::new(), term: Term::Ret(None) }],
    };
    let p = counted(vec![f]);
    assert_eq!(shape(&p.funcs[0].blocks[0].insts), vec!["release 0"]);
}

#[test]
fn a_function_with_no_counted_values_is_left_alone() {
    let f = Func {
        name: "f".to_string(),
        reprs: vec![Repr::I64, Repr::I64],
        ret: Repr::I64,
        entry: 0,
        blocks: vec![Block { id: 0, params: vec![0], insts: vec![def(1, call("g", vec![0]))], term: Term::Ret(Some(1)) }],
    };
    let p = counted(vec![f]);
    assert_eq!(shape(&p.funcs[0].blocks[0].insts), vec!["call g"]);
}

#[test]
fn a_borrowed_value_dies_after_its_last_read_and_a_returned_view_gets_its_own_reference() {
    // fn f(t: (str, str)) -> str { t.0 }: the field read is a view into `t`, so returning
    // it needs a reference of its own, and `t` outlives the read.
    let f = Func {
        name: "f".to_string(),
        reprs: vec![Repr::Tuple, Repr::Str],
        ret: Repr::Str,
        entry: 0,
        blocks: vec![Block {
            id: 0,
            params: vec![0],
            insts: vec![def(1, Op::Elem { base: 0, pos: 0 })],
            term: Term::Ret(Some(1)),
        }],
    };
    let p = counted(vec![f]);
    let insts = shape(&p.funcs[0].blocks[0].insts);
    assert_eq!(insts, vec!["Elem { base: 0, pos: 0 }", "retain 1"]);
}

#[test]
fn a_value_live_out_of_every_predecessor_but_not_into_a_block_dies_on_entry() {
    // block0(s): branch on a flag to block1 or block2, both of which ignore `s`.
    let f = Func {
        name: "f".to_string(),
        reprs: vec![Repr::Str, Repr::Bool, Repr::I64],
        ret: Repr::I64,
        entry: 0,
        blocks: vec![
            Block {
                id: 0,
                params: vec![0, 1],
                insts: Vec::new(),
                term: Term::Branch {
                    cond: 1,
                    then: Target { to: 1, args: Vec::new() },
                    els: Target { to: 2, args: Vec::new() },
                },
            },
            Block { id: 1, params: Vec::new(), insts: vec![def(2, Op::ConstI64(1))], term: Term::Ret(Some(2)) },
            Block { id: 2, params: Vec::new(), insts: vec![def(2, Op::ConstI64(2))], term: Term::Ret(Some(2)) },
        ],
    };
    let p = counted(vec![f]);
    // Nothing after block0 needs `s`, so it is released there on entry: it is not live
    // out of block0 either.
    assert_eq!(shape(&p.funcs[0].blocks[0].insts), vec!["release 0"]);
    assert_eq!(shape(&p.funcs[0].blocks[1].insts), vec!["i64"]);
    assert_eq!(shape(&p.funcs[0].blocks[2].insts), vec!["i64"]);
}

#[test]
fn a_value_handed_on_as_a_block_argument_moves() {
    // block0(s): jump block1(s); block1(t): g(t)
    let f = Func {
        name: "f".to_string(),
        reprs: vec![Repr::Str, Repr::Str, Repr::Unit],
        ret: Repr::Unit,
        entry: 0,
        blocks: vec![
            Block { id: 0, params: vec![0], insts: Vec::new(), term: Term::Jump(Target { to: 1, args: vec![0] }) },
            Block { id: 1, params: vec![1], insts: vec![def(2, call("g", vec![1]))], term: Term::Ret(None) },
        ],
    };
    let p = counted(vec![f]);
    assert!(p.funcs[0].blocks[0].insts.is_empty());
    assert_eq!(shape(&p.funcs[0].blocks[1].insts), vec!["call g"]);
}

#[test]
fn only_counts_are_added_and_the_rest_keeps_its_order() {
    let f = Func {
        name: "f".to_string(),
        reprs: vec![Repr::Str, Repr::Unit, Repr::Tuple, Repr::Unit],
        ret: Repr::Unit,
        entry: 0,
        blocks: vec![Block {
            id: 0,
            params: vec![0],
            insts: vec![def(1, call("g", vec![0])), def(2, Op::MakeTuple(vec![0, 0])), def(3, call("h", vec![2]))],
            term: Term::Ret(None),
        }],
    };
    let p = counted(vec![f]);
    let kept: Vec<String> = shape(&p.funcs[0].blocks[0].insts)
        .into_iter()
        .filter(|s| !s.starts_with("retain") && !s.starts_with("release"))
        .collect();
    assert_eq!(kept, vec!["call g", "tuple", "call h"]);
}

/// How many references `v` holds after running `blocks` one after another (each followed by
/// its terminator's consumption of `v`, if any), counting from its definition; `None` if an
/// instruction needs a reference that is not there.
fn count_along(blocks: &[&Block], v: u32) -> Option<i64> {
    let mut c: i64 = 0;
    for b in blocks {
        for inst in &b.insts {
            let (consumed, borrowed): (Vec<u32>, Vec<u32>) = match &inst.op {
                Op::Call { args, .. } | Op::Native { args, .. } => (args.clone(), Vec::new()),
                Op::MakeTuple(args) | Op::MakeList(args) => (args.clone(), Vec::new()),
                Op::CallClosure { callee, args } => (args.clone(), vec![*callee]),
                Op::MakeClosure { captures, .. } => (captures.clone(), Vec::new()),
                Op::MakeRecord { fields, .. } => (fields.iter().map(|f| f.1).collect(), Vec::new()),
                Op::Field { base, .. } | Op::Elem { base, .. } => (Vec::new(), vec![*base]),
                Op::Index { base, index } => (Vec::new(), vec![*base, *index]),
                Op::Cast(x) | Op::IsNull(x) | Op::IsErr(x) | Op::UnwrapOk(x) | Op::UnwrapErr(x) => (Vec::new(), vec![*x]),
                Op::IsVariant { value, .. } => (Vec::new(), vec![*value]),
                Op::Prim(_, xs) => (Vec::new(), xs.clone()),
                _ => (Vec::new(), Vec::new()),
            };
            match inst.op {
                Op::Retain(x) if x == v => {
                    if c < 1 {
                        return None;
                    }
                    c += 1;
                }
                Op::Release(x) if x == v => {
                    if c < 1 {
                        return None;
                    }
                    c -= 1;
                }
                _ => {
                    let m = consumed.iter().filter(|&&x| x == v).count() as i64;
                    if (borrowed.contains(&v) && c < 1) || c < m {
                        return None;
                    }
                    c -= m;
                }
            }
            if inst.result == Some(v) {
                c = 1;
            }
        }
        let handed: Vec<u32> = match &b.term {
            Term::Ret(Some(x)) | Term::Throw(x) => vec![*x],
            _ => Vec::new(),
        };
        let m = handed.iter().filter(|&&x| x == v).count() as i64;
        if c < m {
            return None;
        }
        c -= m;
    }
    Some(c)
}

#[test]
fn a_value_is_released_exactly_once_along_every_route() {
    // block0(c): s = "hi"; g(s); branch c to block1 (h(s)) or block2 (ignores s).
    let f = Func {
        name: "f".to_string(),
        reprs: vec![Repr::Bool, Repr::Str, Repr::Unit, Repr::Unit],
        ret: Repr::Unit,
        entry: 0,
        blocks: vec![
            Block {
                id: 0,
                params: vec![0],
                insts: vec![def(1, Op::ConstStr("hi".to_string())), def(2, call("g", vec![1]))],
                term: Term::Branch {
                    cond: 0,
                    then: Target { to: 1, args: Vec::new() },
                    els: Target { to: 2, args: Vec::new() },
                },
            },
            Block { id: 1, params: Vec::new(), insts: vec![def(3, call("h", vec![1]))], term: Term::Ret(None) },
            Block { id: 2, params: Vec::new(), insts: Vec::new(), term: Term::Ret(None) },
        ],
    };
    let p = counted(vec![f]);
    let b = &p.funcs[0].blocks;
    assert_eq!(count_along(&[&b[0], &b[1]], 1), Some(0));
    assert_eq!(count_along(&[&b[0], &b[2]], 1), Some(0));
    // The block that has no use for it releases it on entry.
    assert_eq!(shape(&b[2].insts), vec!["release 1"]);
}

#[test]
fn a_returned_value_leaves_with_its_one_reference() {
    // fn f() -> str { let s = "hi"; g(s); s }
    let f = Func {
        name: "f".to_string(),
        reprs: vec![Repr::Str, Repr::Unit],
        ret: Repr::Str,
        entry: 0,
        blocks: vec![Block {
            id: 0,
            params: Vec::new(),
            insts: vec![def(0, Op::ConstStr("hi".to_string())), def(1, call("g", vec![0]))],
            term: Term::Ret(Some(0)),
        }],
    };
    let p = counted(vec![f]);
    assert_eq!(shape(&p.funcs[0].blocks[0].insts), vec!["str", "retain 0", "call g"]);
    assert_eq!(count_along(&[&p.funcs[0].blocks[0]], 0), Some(0));
}

#[test]
fn a_consumed_view_is_retained_and_never_released() {
    // fn f(t: (str, str)) { g(t.0) }: the view gets a reference for the call, and only `t`
    // is ever released.
    let f = Func {
        name: "f".to_string(),
        reprs: vec![Repr::Tuple, Repr::Str, Repr::Unit],
        ret: Repr::Unit,
        entry: 0,
        blocks: vec![Block {
            id: 0,
            params: vec![0],
            insts: vec![def(1, Op::Elem { base: 0, pos: 0 }), def(2, call("g", vec![1]))],
            term: Term::Ret(None),
        }],
    };
    let p = counted(vec![f]);
    let insts = shape(&p.funcs[0].blocks[0].insts);
    assert!(!insts.contains(&"release 1".to_string()), "{insts:?}");
    let call_at = insts.iter().position(|s| s == "call g").unwrap();
    assert_eq!(insts[call_at - 1], "retain 1");
}
