use polytype::{Context, Type, TypeSchema, UnificationError};

fn con(name: &str, args: Vec<Type>) -> Type {
    Type::Constructed(name.to_string(), args)
}

fn var(v: u64) -> Type {
    Type::Variable(v)
}

fn int_t() -> Type {
    con("int", vec![])
}

fn boolean() -> Type {
    con("bool", vec![])
}

fn arrow(a: Type, b: Type) -> Type {
    con("arrow", vec![a, b])
}

#[test]
fn new_variable_counts_up() {
    let mut ctx = Context::default();
    assert_eq!(ctx.new_variable(), var(0));
    assert_eq!(ctx.new_variable(), var(1));
    assert_eq!(ctx.new_variable(), var(2));
    ctx.extend(5, int_t());
    assert_eq!(ctx.new_variable(), var(6));
}

#[test]
fn extend_below_watermark_keeps_it() {
    let mut ctx = Context::new();
    ctx.new_variable();
    ctx.new_variable();
    ctx.new_variable();
    ctx.extend(1, boolean());
    assert_eq!(ctx.new_variable(), var(3));
    assert_eq!(ctx.substitution()[&1], boolean());
}

#[test]
fn extend_overwrites_binding() {
    let mut ctx = Context::new();
    ctx.extend(0, int_t());
    ctx.extend(0, boolean());
    assert_eq!(ctx.substitution().len(), 1);
    assert_eq!(ctx.substitution()[&0], boolean());
}

#[test]
fn unify_arrows_resolves_both_sides() {
    let mut ctx = Context::default();
    let t1 = arrow(int_t(), var(0));
    let t2 = arrow(var(1), boolean());
    assert_eq!(ctx.unify(&t1, &t2), Ok(()));
    assert_eq!(var(0).apply(&ctx), boolean());
    assert_eq!(var(1).apply(&ctx), int_t());
    assert_eq!(t1.apply(&ctx), arrow(int_t(), boolean()));
    assert_eq!(t2.apply(&ctx), arrow(int_t(), boolean()));
}

#[test]
fn unify_occurs_leaves_context_unchanged() {
    let mut ctx = Context::default();
    ctx.extend(0, int_t());
    let res = ctx.unify(&var(1), &arrow(boolean(), var(1)));
    assert_eq!(res, Err(UnificationError::Occurs(1)));
    assert_eq!(ctx.substitution().len(), 1);
    assert_eq!(ctx.substitution()[&0], int_t());
    assert_eq!(ctx.new_variable(), var(1));
}

#[test]
fn unify_failure_reports_argument_types() {
    let mut ctx = Context::default();
    let t1 = arrow(int_t(), var(0));
    let t2 = arrow(boolean(), var(1));
    let res = ctx.unify(&t1, &t2);
    assert_eq!(res, Err(UnificationError::Failure(int_t(), boolean())));
    assert!(ctx.substitution().is_empty());
}

#[test]
fn unify_different_symbols_at_top() {
    let mut ctx = Context::default();
    let t1 = con("list", vec![var(0)]);
    let t2 = con("set", vec![var(0)]);
    assert_eq!(
        ctx.unify(&t1, &t2),
        Err(UnificationError::Failure(t1.duplicate(), t2.duplicate()))
    );
}

#[test]
fn unify_failed_late_keeps_context_but_fast_does_not() {
    // The first argument binds v0 before the second argument fails.
    let t1 = arrow(var(0), int_t());
    let t2 = arrow(boolean(), boolean());

    let mut ctx = Context::default();
    assert!(ctx.unify(&t1, &t2).is_err());
    assert!(ctx.substitution().is_empty());

    let mut fast = Context::default();
    let res = fast.unify_fast(t1.duplicate(), t2.duplicate());
    assert_eq!(res, Err(UnificationError::Failure(int_t(), boolean())));
    assert_eq!(fast.substitution().len(), 1);
    assert_eq!(fast.substitution()[&0], boolean());
}

#[test]
fn unify_self_adds_nothing() {
    let t = arrow(var(3), con("list", vec![var(4)]));
    let mut ctx = Context::default();
    assert_eq!(ctx.unify(&t, &t), Ok(()));
    assert!(ctx.substitution().is_empty());
    assert_eq!(ctx.unify(&var(2), &var(2)), Ok(()));
    assert!(ctx.substitution().is_empty());
}

#[test]
fn unify_variable_binds_resolved_type() {
    let mut ctx = Context::default();
    ctx.extend(1, int_t());
    assert_eq!(ctx.unify(&var(0), &arrow(var(1), var(2))), Ok(()));
    assert_eq!(ctx.substitution()[&0], arrow(int_t(), var(2)));
    assert_eq!(ctx.new_variable(), var(2));
}

#[test]
fn unify_variable_on_right() {
    let mut ctx = Context::default();
    assert_eq!(ctx.unify(&int_t(), &var(4)), Ok(()));
    assert_eq!(ctx.substitution()[&4], int_t());
    assert_eq!(ctx.new_variable(), var(5));
}

#[test]
fn unify_indirect_occurs() {
    let mut ctx = Context::default();
    ctx.extend(1, var(2));
    let res = ctx.unify(&var(2), &con("list", vec![var(1)]));
    assert_eq!(res, Err(UnificationError::Occurs(2)));
    assert_eq!(ctx.substitution().len(), 1);
}

#[test]
fn unify_later_arguments_see_earlier_bindings() {
    let mut ctx = Context::default();
    let t1 = con("pair", vec![var(0), var(0)]);
    let t2 = con("pair", vec![int_t(), boolean()]);
    assert_eq!(
        ctx.unify(&t1, &t2),
        Err(UnificationError::Failure(int_t(), boolean()))
    );
    let t3 = con("pair", vec![int_t(), int_t()]);
    assert_eq!(ctx.unify(&t1, &t3), Ok(()));
    assert_eq!(t1.apply(&ctx), t3);
}

#[test]
fn confine_keeps_listed_bindings() {
    let mut ctx = Context::default();
    let v0 = ctx.new_variable();
    let v1 = ctx.new_variable();
    ctx.unify(&v0, &int_t()).unwrap();
    ctx.unify(&v1, &boolean()).unwrap();
    assert_eq!(ctx.substitution().len(), 2);
    assert_eq!(ctx.substitution()[&0], int_t());
    assert_eq!(ctx.substitution()[&1], boolean());
    ctx.confine(&[1]);
    assert_eq!(ctx.substitution().len(), 1);
    assert_eq!(ctx.substitution()[&1], boolean());
    assert_eq!(ctx.new_variable(), var(2));
}

#[test]
fn confine_to_nothing() {
    let mut ctx = Context::default();
    ctx.extend(0, int_t());
    ctx.confine(&[]);
    assert!(ctx.substitution().is_empty());
}

#[test]
fn merge_without_sacreds() {
    let mut ctx = Context::default();
    let a = ctx.new_variable();
    let b = ctx.new_variable();
    ctx.unify(&arrow(a, b), &arrow(int_t(), boolean())).unwrap();

    let mut ctx2 = Context::default();
    let c = ctx2.new_variable();
    let d = ctx2.new_variable();
    let mut t = arrow(c, d);
    ctx2.extend(0, boolean());
    assert_eq!(t.apply(&ctx2), arrow(boolean(), var(1)));

    let change = ctx.merge(ctx2, vec![]);
    change.reify_type(&mut t);
    assert_eq!(t, arrow(var(2), var(3)));
    assert_eq!(t.apply(&ctx), arrow(boolean(), var(3)));
    assert_eq!(ctx.new_variable(), var(4));
}

#[test]
fn merge_with_sacreds() {
    let mut ctx = Context::default();
    let a = ctx.new_variable();
    let b = ctx.new_variable();
    ctx.unify(&arrow(a, b), &arrow(int_t(), boolean())).unwrap();

    let mut ctx2 = Context::default();
    let c = ctx2.new_variable();
    let d = ctx2.new_variable();
    let mut t = arrow(c, d);
    ctx2.extend(0, boolean());

    let change = ctx.merge(ctx2, vec![1]);
    change.reify_type(&mut t);
    assert_eq!(t, arrow(var(2), var(1)));
    assert_eq!(t.apply(&ctx), arrow(boolean(), boolean()));
    assert_eq!(ctx.new_variable(), var(4));
}

#[test]
fn merge_renames_bound_types() {
    let mut ctx = Context::default();
    ctx.new_variable();
    ctx.new_variable();
    ctx.new_variable();

    let mut other = Context::default();
    other.extend(0, con("list", vec![var(1)]));
    other.extend(1, int_t());
    let mut t = var(0);
    let before = t.apply(&other);
    assert_eq!(before, con("list", vec![int_t()]));

    let change = ctx.merge(other, vec![]);
    change.reify_type(&mut t);
    assert_eq!(t, var(3));
    assert_eq!(ctx.substitution()[&3], con("list", vec![var(4)]));
    assert_eq!(t.apply(&ctx), before);
}

#[test]
fn reify_typeschema_shifts_binders() {
    let mut ctx = Context::default();
    ctx.new_variable();
    ctx.new_variable();
    let other = Context::default();
    let change = ctx.merge(other, vec![1]);
    let mut s = TypeSchema::Polytype {
        variable: 0,
        body: Box::new(TypeSchema::Polytype {
            variable: 1,
            body: Box::new(TypeSchema::Monotype(arrow(var(0), var(1)))),
        }),
    };
    change.reify_typeschema(&mut s);
    let expected = TypeSchema::Polytype {
        variable: 2,
        body: Box::new(TypeSchema::Polytype {
            variable: 1,
            body: Box::new(TypeSchema::Monotype(arrow(var(2), var(1)))),
        }),
    };
    assert_eq!(s, expected);
}

#[test]
fn reduct_substitution_compresses_chains() {
    let mut ctx = Context::default();
    ctx.extend(0, var(1));
    ctx.extend(1, var(2));
    ctx.extend(2, arrow(int_t(), var(3)));
    let t = arrow(var(0), var(1));
    let before = t.apply(&ctx);
    ctx.reduct_substitution();
    assert_eq!(ctx.substitution().len(), 3);
    assert_eq!(ctx.substitution()[&0], arrow(int_t(), var(3)));
    assert_eq!(ctx.substitution()[&1], arrow(int_t(), var(3)));
    assert_eq!(ctx.substitution()[&2], arrow(int_t(), var(3)));
    assert_eq!(t.apply(&ctx), before);
    assert_eq!(ctx.new_variable(), var(3));
}

#[test]
fn occurs_and_same() {
    let t = arrow(int_t(), con("list", vec![var(7)]));
    assert!(t.occurs(7));
    assert!(!t.occurs(6));
    assert!(t.same(&t.duplicate()));
    assert!(!t.same(&arrow(int_t(), con("list", vec![var(6)]))));
    assert!(!int_t().same(&boolean()));
}
