use neon_compiler::typecheck::result::TypecheckResult;

#[test]
fn recorded_facts_come_back_by_expression() {
    let mut r: TypecheckResult<&str> = TypecheckResult::new();
    assert!(r.is_empty());
    assert_eq!(r.len(), 0);
    r.set_ty(1, 10);
    r.set_ty(2, 20);
    r.set_ty(1, 11);
    assert_eq!(r.len(), 2);
    assert!(!r.is_empty());
    assert_eq!(r.ty(1), Some(11));
    assert_eq!(r.ty(3), None);
    let mut types = r.types();
    types.sort();
    assert_eq!(types, vec![(1, 11), (2, 20)]);

    r.set_call(5, "println");
    assert_eq!(r.call(5), Some(&"println"));
    assert_eq!(r.call(6), None);
    r.set_lambda(7, 70);
    assert_eq!(r.lambda(7), Some(70));
    r.set_caught(8, 80);
    assert_eq!(r.caught(8), Some(80));
    assert_eq!(r.caught(7), None);
    r.set_declared(9, 90);
    assert_eq!(r.declared(9), Some(90));
    r.set_generics(4, vec![("T".to_string(), 1)]);
    assert_eq!(r.generics(4), Some(&[("T".to_string(), 1)][..]));
    assert_eq!(r.generics(5), None);
    // Only typing an expression counts towards the length.
    assert_eq!(r.len(), 2);
}
