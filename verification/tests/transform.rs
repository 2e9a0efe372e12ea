//! Behavioral tests: a small reference interpreter evaluates trees before
//! and after the transformation and compares observable behavior (values,
//! side-effect order) as well as exact output structure for small cases.

use remove_return::ir::{expr_ty, Expression, FieldName, NameKind, TempName, Type};
use remove_return::names::NameGen;
use remove_return::pass::{
    cleanup_empty_block, codeblock_with_expr, make_struct, process_expression, ExpressionResult,
};
use remove_return::{remove_return, Component, Document};

// ---- tree builders ----

fn bx(e: Expression) -> Box<Expression> {
    Box::new(e)
}

fn ret(v: Expression) -> Expression {
    Expression::ReturnStatement(Some(bx(v)))
}

fn ret_void() -> Expression {
    Expression::ReturnStatement(None)
}

fn block(stmts: Vec<Expression>) -> Expression {
    Expression::CodeBlock(stmts)
}

fn cond(c: Expression, t: Expression, f: Expression) -> Expression {
    Expression::Condition { condition: bx(c), true_expr: bx(t), false_expr: bx(f) }
}

fn lit(b: bool) -> Expression {
    Expression::BoolLiteral(b)
}

/// An opaque side-effecting marker expression of an opaque value type; its
/// id is logged when it runs and is also its value.
fn marker(id: u64) -> Expression {
    Expression::Opaque { id, ty: Type::Other(1), children: vec![] }
}

/// An opaque side-effecting statement of void type.
fn void_marker(id: u64) -> Expression {
    Expression::Opaque { id, ty: Type::Void, children: vec![] }
}

fn doc_of(e: Expression) -> Document {
    Document { components: vec![Component { root_expressions: vec![e] }] }
}

fn transformed(e: Expression) -> Expression {
    let mut doc = doc_of(e);
    let mut gen = NameGen::new();
    remove_return(&mut doc, &mut gen);
    doc.components.remove(0).root_expressions.remove(0)
}

// ---- reference interpreter ----

#[derive(Debug, Clone, PartialEq)]
enum Value {
    Unit,
    Bool(bool),
    Opaque(u64),
    Record(Vec<(FieldName, Value)>),
}

#[derive(Debug, Clone, PartialEq)]
enum Flow {
    Normal(Value),
    Returned(Value),
}

fn default_value(t: &Type) -> Value {
    match t {
        Type::Void | Type::Invalid => Value::Unit,
        Type::Bool => Value::Bool(false),
        Type::Record { condition, actual, returned } => {
            let mut fields = vec![];
            if *condition {
                fields.push((FieldName::Condition, Value::Bool(false)));
            }
            if let Some(a) = actual {
                fields.push((FieldName::Actual, default_value(a)));
            }
            if let Some(r) = returned {
                fields.push((FieldName::Returned, default_value(r)));
            }
            Value::Record(fields)
        }
        Type::Other(_) => Value::Opaque(0),
    }
}

fn eval(e: &Expression, env: &mut Vec<(TempName, Value)>, log: &mut Vec<u64>) -> Flow {
    match e {
        Expression::ReturnStatement(p) => match p {
            Some(v) => match eval(v, env, log) {
                Flow::Normal(val) => Flow::Returned(val),
                r => r,
            },
            None => Flow::Returned(Value::Unit),
        },
        Expression::CodeBlock(stmts) => {
            let mut last = Value::Unit;
            for s in stmts {
                match eval(s, env, log) {
                    Flow::Normal(v) => last = v,
                    r => return r,
                }
            }
            Flow::Normal(last)
        }
        Expression::Condition { condition, true_expr, false_expr } => {
            match eval(condition, env, log) {
                Flow::Normal(Value::Bool(true)) => eval(true_expr, env, log),
                Flow::Normal(Value::Bool(false)) => eval(false_expr, env, log),
                Flow::Normal(v) => panic!("condition evaluated to non-boolean {v:?}"),
                r => r,
            }
        }
        Expression::ReadLocalVariable { name, .. } => {
            for (n, v) in env.iter().rev() {
                if n == name {
                    return Flow::Normal(v.clone());
                }
            }
            panic!("read of unbound temporary {name:?}")
        }
        Expression::StoreLocalVariable { name, value } => match eval(value, env, log) {
            Flow::Normal(v) => {
                env.push((*name, v));
                Flow::Normal(Value::Unit)
            }
            r => r,
        },
        Expression::StructFieldAccess { base, field } => match eval(base, env, log) {
            Flow::Normal(Value::Record(fields)) => {
                for (f, v) in &fields {
                    if f == field {
                        return Flow::Normal(v.clone());
                    }
                }
                panic!("record has no slot {field:?}")
            }
            Flow::Normal(v) => panic!("field access on non-record {v:?}"),
            r => r,
        },
        Expression::Record { condition, actual, returned, .. } => {
            let mut fields = vec![];
            if let Some(c) = condition {
                match eval(c, env, log) {
                    Flow::Normal(v) => fields.push((FieldName::Condition, v)),
                    r => return r,
                }
            }
            if let Some(a) = actual {
                match eval(a, env, log) {
                    Flow::Normal(v) => fields.push((FieldName::Actual, v)),
                    r => return r,
                }
            }
            if let Some(rx) = returned {
                match eval(rx, env, log) {
                    Flow::Normal(v) => fields.push((FieldName::Returned, v)),
                    r => return r,
                }
            }
            Flow::Normal(Value::Record(fields))
        }
        Expression::BoolLiteral(b) => Flow::Normal(Value::Bool(*b)),
        Expression::LogicalNot(sub) => match eval(sub, env, log) {
            Flow::Normal(Value::Bool(b)) => Flow::Normal(Value::Bool(!b)),
            Flow::Normal(v) => panic!("negation of non-boolean {v:?}"),
            r => r,
        },
        Expression::DefaultValue(t) => Flow::Normal(default_value(t)),
        Expression::Opaque { id, ty, children } => {
            for c in children {
                match eval(c, env, log) {
                    Flow::Normal(_) => {}
                    r => return r,
                }
            }
            log.push(*id);
            match ty {
                Type::Void => Flow::Normal(Value::Unit),
                _ => Flow::Normal(Value::Opaque(*id)),
            }
        }
    }
}

/// Evaluate a whole function-like scope: a return yields the scope's value.
fn run_scope(e: &Expression) -> (Value, Vec<u64>) {
    let mut env = vec![];
    let mut log = vec![];
    match eval(e, &mut env, &mut log) {
        Flow::Normal(v) | Flow::Returned(v) => (v, log),
    }
}

fn assert_no_returns(e: &Expression) {
    match e {
        Expression::ReturnStatement(_) => panic!("return construct left in output"),
        Expression::CodeBlock(stmts) => stmts.iter().for_each(assert_no_returns),
        Expression::Condition { condition, true_expr, false_expr } => {
            assert_no_returns(condition);
            assert_no_returns(true_expr);
            assert_no_returns(false_expr);
        }
        Expression::StoreLocalVariable { value, .. } => assert_no_returns(value),
        Expression::StructFieldAccess { base, .. } => assert_no_returns(base),
        Expression::Record { condition, actual, returned, .. } => {
            for o in [condition, actual, returned] {
                if let Some(b) = o {
                    assert_no_returns(b);
                }
            }
        }
        Expression::LogicalNot(sub) => assert_no_returns(sub),
        Expression::Opaque { children, .. } => children.iter().for_each(assert_no_returns),
        _ => {}
    }
}

fn collect_temp_names(e: &Expression, out: &mut Vec<TempName>) {
    match e {
        Expression::ReturnStatement(p) => {
            if let Some(b) = p {
                collect_temp_names(b, out);
            }
        }
        Expression::CodeBlock(stmts) => stmts.iter().for_each(|s| collect_temp_names(s, out)),
        Expression::Condition { condition, true_expr, false_expr } => {
            collect_temp_names(condition, out);
            collect_temp_names(true_expr, out);
            collect_temp_names(false_expr, out);
        }
        Expression::ReadLocalVariable { name, .. } => out.push(*name),
        Expression::StoreLocalVariable { name, value } => {
            out.push(*name);
            collect_temp_names(value, out);
        }
        Expression::StructFieldAccess { base, .. } => collect_temp_names(base, out),
        Expression::Record { condition, actual, returned, .. } => {
            for o in [condition, actual, returned] {
                if let Some(b) = o {
                    collect_temp_names(b, out);
                }
            }
        }
        Expression::LogicalNot(sub) => collect_temp_names(sub, out),
        Expression::Opaque { children, .. } => {
            children.iter().for_each(|c| collect_temp_names(c, out))
        }
        _ => {}
    }
}

// ---- the tests ----

#[test]
fn return_free_tree_unchanged() {
    let e = block(vec![
        marker(1),
        cond(lit(true), marker(2), marker(3)),
        void_marker(4),
    ]);
    let copy = block(vec![
        marker(1),
        cond(lit(true), marker(2), marker(3)),
        void_marker(4),
    ]);
    assert_eq!(transformed(e), copy);
}

#[test]
fn dead_code_dropped_structurally() {
    // [A; return V; B; C]  ==>  [A; V]
    let e = block(vec![marker(1), ret(marker(2)), marker(3), marker(4)]);
    let expected = block(vec![marker(1), marker(2)]);
    assert_eq!(transformed(e), expected);
}

#[test]
fn dead_code_never_runs() {
    let e = block(vec![marker(1), ret(marker(2)), marker(3), marker(4)]);
    let (orig_val, orig_log) = run_scope(&e);
    let out = transformed(e);
    assert_no_returns(&out);
    let (new_val, new_log) = run_scope(&out);
    assert_eq!(orig_val, new_val);
    assert_eq!(orig_log, new_log);
    assert!(!new_log.contains(&3) && !new_log.contains(&4));
}

#[test]
fn conditional_merge_both_branches() {
    for c in [true, false] {
        // if (c) { return X } else { Y }
        let e = cond(lit(c), ret(marker(10)), marker(20));
        let (orig_val, orig_log) = run_scope(&e);
        let out = transformed(e);
        assert_no_returns(&out);
        let (new_val, new_log) = run_scope(&out);
        assert_eq!(orig_val, new_val);
        assert_eq!(orig_log, new_log);
        let expect = if c { Value::Opaque(10) } else { Value::Opaque(20) };
        assert_eq!(new_val, expect);
    }
}

#[test]
fn both_sides_return() {
    for c in [true, false] {
        // if (c) { return X } else { return Y }
        let e = cond(lit(c), ret(marker(10)), ret(marker(20)));
        let (orig_val, orig_log) = run_scope(&e);
        let out = transformed(e);
        assert_no_returns(&out);
        let (new_val, new_log) = run_scope(&out);
        assert_eq!(orig_val, new_val);
        assert_eq!(orig_log, new_log);
        let expect = if c { Value::Opaque(10) } else { Value::Opaque(20) };
        assert_eq!(new_val, expect);
    }
}

#[test]
fn multi_statement_threading() {
    for c in [true, false] {
        // [ if (c) { return X } ; S2 ; S3 ]
        let e = block(vec![
            cond(lit(c), ret(marker(10)), block(vec![])),
            marker(2),
            marker(3),
        ]);
        let (orig_val, orig_log) = run_scope(&e);
        let out = transformed(e);
        assert_no_returns(&out);
        let (new_val, new_log) = run_scope(&out);
        assert_eq!(orig_val, new_val);
        assert_eq!(orig_log, new_log);
        assert_eq!(new_log.contains(&2), !c);
        assert_eq!(new_log.contains(&3), !c);
    }
}

#[test]
fn void_safety() {
    for c in [true, false] {
        // void scope: [ if (c) { return } else {} ; S2 ]
        let e = block(vec![
            cond(lit(c), block(vec![ret_void()]), block(vec![])),
            void_marker(7),
        ]);
        let (orig_val, orig_log) = run_scope(&e);
        let out = transformed(e);
        assert_no_returns(&out);
        assert_eq!(expr_ty(&out), Type::Void);
        let (new_val, new_log) = run_scope(&out);
        assert_eq!(orig_val, new_val);
        assert_eq!(orig_log, new_log);
        assert_eq!(new_log.contains(&7), !c);
    }
}

#[test]
fn names_unique_across_runs() {
    let make = || {
        doc_of(block(vec![
            cond(lit(false), ret(marker(10)), block(vec![])),
            marker(2),
        ]))
    };
    let mut gen = NameGen::new();
    let mut d1 = make();
    let mut d2 = make();
    remove_return(&mut d1, &mut gen);
    remove_return(&mut d2, &mut gen);
    let mut n1 = vec![];
    let mut n2 = vec![];
    for c in &d1.components {
        for e in &c.root_expressions {
            collect_temp_names(e, &mut n1);
        }
    }
    for c in &d2.components {
        for e in &c.root_expressions {
            collect_temp_names(e, &mut n2);
        }
    }
    assert!(!n1.is_empty() && !n2.is_empty());
    for a in &n1 {
        for b in &n2 {
            assert_ne!(a, b);
        }
    }
}

#[test]
fn illegal_nested_return_left_in_place() {
    // A return hidden inside an opaque payload violates the upstream
    // invariant; the pass leaves it untouched.
    let e = Expression::Opaque { id: 9, ty: Type::Other(1), children: vec![ret(marker(1))] };
    let copy = Expression::Opaque { id: 9, ty: Type::Other(1), children: vec![ret(marker(1))] };
    assert_eq!(transformed(e), copy);
}

#[test]
fn return_type_drives_record_slots() {
    // A value-less return in a void scope: the merged record must carry no
    // `returned` slot and the guard must fall back to a void default.
    let e = block(vec![
        cond(lit(true), ret_void(), block(vec![])),
        void_marker(5),
    ]);
    let out = transformed(e);
    assert_no_returns(&out);
    assert_eq!(expr_ty(&out), Type::Void);
    let (v, log) = run_scope(&out);
    assert_eq!(v, Value::Unit);
    assert!(!log.contains(&5));
}

#[test]
fn empty_block_root_untouched() {
    let e = block(vec![]);
    assert_eq!(transformed(e), block(vec![]));
}

#[test]
fn cleanup_empty_block_cases() {
    assert_eq!(cleanup_empty_block(block(vec![])), None);
    assert_eq!(cleanup_empty_block(marker(1)), Some(marker(1)));
    assert_eq!(
        cleanup_empty_block(block(vec![marker(1)])),
        Some(block(vec![marker(1)]))
    );
}

#[test]
fn codeblock_with_expr_cases() {
    assert_eq!(codeblock_with_expr(vec![], marker(1)), marker(1));
    assert_eq!(
        codeblock_with_expr(vec![marker(1)], marker(2)),
        block(vec![marker(1), marker(2)])
    );
}

#[test]
fn counters_advance_and_mint_expected_names() {
    let mut gen = NameGen::new();
    let a = gen.fresh_merge();
    let b = gen.fresh_merge();
    let c = gen.fresh_materialize();
    assert_eq!(a, TempName { kind: NameKind::Merge, index: 0 });
    assert_eq!(b, TempName { kind: NameKind::Merge, index: 1 });
    assert_eq!(c, TempName { kind: NameKind::Materialize, index: 0 });
    assert_ne!(a, b);
    assert_ne!(a, c);
}

#[test]
fn classifier_maps_return_statement() {
    let mut gen = NameGen::new();
    let r = process_expression(ret(marker(1)), &Type::Other(1), &mut gen);
    assert_eq!(r, ExpressionResult::Return(Some(marker(1))));
    let r2 = process_expression(ret_void(), &Type::Void, &mut gen);
    assert_eq!(r2, ExpressionResult::Return(None));
    assert_eq!(gen.merge, 0);
}

#[test]
fn record_builder_drops_void_slots() {
    let items = vec![
        (FieldName::Condition, Type::Bool, lit(true)),
        (FieldName::Actual, Type::Void, void_marker(3)),
        (FieldName::Returned, Type::Other(1), Expression::DefaultValue(Type::Other(1))),
    ];
    let out = make_struct(items);
    match out {
        Expression::CodeBlock(w) => {
            assert_eq!(w.len(), 2);
            assert_eq!(w[0], void_marker(3));
            match &w[1] {
                Expression::Record { ty, condition, actual, returned } => {
                    assert_eq!(
                        *ty,
                        Type::Record {
                            condition: true,
                            actual: None,
                            returned: Some(Box::new(Type::Other(1))),
                        }
                    );
                    assert!(condition.is_some());
                    assert!(actual.is_none());
                    assert!(returned.is_some());
                }
                other => panic!("expected a record, got {other:?}"),
            }
        }
        other => panic!("expected a block, got {other:?}"),
    }
}

#[test]
fn classifier_results_compare() {
    // Two classifications of the same payload are equal, and differ from a
    // classification of another payload.
    let a = ExpressionResult::Return(Some(marker(1)));
    let b = ExpressionResult::Return(Some(marker(1)));
    let c = ExpressionResult::Return(None);
    assert_eq!(a, b);
    assert_ne!(a, c);
}
