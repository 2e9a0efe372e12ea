//! The pass itself: classifier, sequencer, promotion to record form,
//! materializer, and the driver over a compilation unit.

use vstd::prelude::*;
use crate::ir::{
    dup_type, expr_equiv, expr_ty, is_unit, is_unit_type, lemma_expr_equiv_refl,
    lemma_no_returns_seq_build, lemma_no_returns_seq_index, lemma_returns_legal_seq_index,
    lemma_seq_equiv_build, lemma_seq_temps_bounded_widen, lemma_size_pos,
    lemma_temps_bounded_widen, name_in, no_returns, no_returns_seq, opt_no_returns,
    opt_temps_bounded, returns_legal, returns_legal_seq, seq_temps_bounded, size, size_seq,
    spec_ty, temps_bounded, Expression, FieldName, NameKind, TempName, Type,
};
use crate::names::NameGen;

verus! {

/// The control-flow classification of a processed sub-expression.
#[derive(PartialEq, Eq, Debug)]
pub enum ExpressionResult {
    /// No return is reachable from the expression; it behaves as written.
    Just(Expression),
    /// A conditional where exactly one arm returns: `condition` is true when
    /// execution continues normally, `returned_value` is the payload when it
    /// does not, `actual_value` the continuing value (absent for an empty
    /// block), after the side effects of `pre_statements`.
    MaybeReturn {
        pre_statements: Vec<Expression>,
        condition: Expression,
        returned_value: Option<Expression>,
        actual_value: Option<Expression>,
    },
    /// The expression always exits via return, with this payload.
    Return(Option<Expression>),
    /// The fully general form: `value` evaluates to a record
    /// `{condition, actual?, returned?}`; the flags say which optional
    /// slots its type has.
    ReturnObject { value: Expression, has_value: bool, has_return_value: bool },
}

/// No return construct occurs in any expression a classified result carries.
pub open spec fn result_no_returns(r: ExpressionResult) -> bool {
    match r {
        ExpressionResult::Just(e) => no_returns(e),
        ExpressionResult::MaybeReturn { pre_statements, condition, returned_value, actual_value } => {
            &&& no_returns_seq(pre_statements@)
            &&& no_returns(condition)
            &&& opt_e_no_returns(returned_value)
            &&& opt_e_no_returns(actual_value)
        },
        ExpressionResult::Return(v) => opt_e_no_returns(v),
        ExpressionResult::ReturnObject { value, .. } => no_returns(value),
    }
}

pub open spec fn opt_e_no_returns(v: Option<Expression>) -> bool {
    match v {
        Some(e) => no_returns(e),
        None => true,
    }
}

/// The payload of an optional boxed expression, unboxed.
pub open spec fn unbox_opt(p: Option<Box<Expression>>) -> Option<Expression> {
    match p {
        Some(b) => Some(*b),
        None => None,
    }
}

/// What `cleanup_empty_block` returns: the expression, unless it is an empty
/// block, which stands for "no value".
pub open spec fn spec_cleanup_empty_block(te: Expression) -> Option<Expression> {
    if te matches Expression::CodeBlock(stmts) && stmts@.len() == 0 {
        None
    } else {
        Some(te)
    }
}

/// Drop an empty block: such an expression carries no value at all.
pub fn cleanup_empty_block(te: Expression) -> (r: Option<Expression>)
    ensures
        r == spec_cleanup_empty_block(te),
{
    match te {
        Expression::CodeBlock(stmts) => {
            if stmts.len() == 0 {
                None
            } else {
                Some(Expression::CodeBlock(stmts))
            }
        },
        other => Some(other),
    }
}

/// What `codeblock_with_expr` returns: the expression alone when there are
/// no leading statements, otherwise a block of the statements followed by it.
pub open spec fn codeblock_with_expr_post(
    pre: Seq<Expression>,
    expr: Expression,
    r: Expression,
) -> bool {
    if pre.len() == 0 {
        r == expr
    } else {
        r matches Expression::CodeBlock(w) && w@ == pre.push(expr)
    }
}

/// Prefix an expression with statements, without wrapping when there are
/// none.
pub fn codeblock_with_expr(pre_statements: Vec<Expression>, expr: Expression) -> (r: Expression)
    ensures
        codeblock_with_expr_post(pre_statements@, expr, r),
{
    if pre_statements.len() == 0 {
        expr
    } else {
        let mut v = pre_statements;
        v.push(expr);
        Expression::CodeBlock(v)
    }
}

/// The record-builder's inputs whose type is `Void`: their values must still
/// run for their side effects, as free-standing statements ahead of the
/// record, in the order given.
pub open spec fn ms_voids(items: Seq<(FieldName, Type, Expression)>) -> Seq<Expression>
    decreases items.len(),
{
    if items.len() == 0 {
        Seq::empty()
    } else {
        let rest = ms_voids(items.drop_last());
        if items.last().1 is Void {
            rest.push(items.last().2)
        } else {
            rest
        }
    }
}

/// The slot a field name ends up with: the last item of that name whose type
/// can hold a value.
pub open spec fn ms_slot(
    items: Seq<(FieldName, Type, Expression)>,
    f: FieldName,
) -> Option<(Type, Expression)>
    decreases items.len(),
{
    if items.len() == 0 {
        None
    } else if items.last().0 == f && !is_unit_type(items.last().1) {
        Some((items.last().1, items.last().2))
    } else {
        ms_slot(items.drop_last(), f)
    }
}

pub open spec fn slot_ty_matches(o: Option<Box<Type>>, s: Option<(Type, Expression)>) -> bool {
    match s {
        Some(p) => o matches Some(b) && *b == p.0,
        None => o is None,
    }
}

pub open spec fn slot_val_matches(
    o: Option<Box<Expression>>,
    s: Option<(Type, Expression)>,
) -> bool {
    match s {
        Some(p) => o matches Some(b) && *b == p.1,
        None => o is None,
    }
}

/// The record node `make_struct` builds from its items.
pub open spec fn record_node(items: Seq<(FieldName, Type, Expression)>, r: Expression) -> bool {
    &&& r matches Expression::Record { ty, condition, actual, returned }
    &&& ty matches Type::Record { condition: cflag, actual: aty, returned: rty }
    &&& cflag == (ms_slot(items, FieldName::Condition) is Some)
    &&& slot_ty_matches(aty, ms_slot(items, FieldName::Actual))
    &&& slot_ty_matches(rty, ms_slot(items, FieldName::Returned))
    &&& slot_val_matches(condition, ms_slot(items, FieldName::Condition))
    &&& slot_val_matches(actual, ms_slot(items, FieldName::Actual))
    &&& slot_val_matches(returned, ms_slot(items, FieldName::Returned))
}

/// What `make_struct` returns: the record node, preceded by the void-typed
/// values as free-standing statements when there are any.
pub open spec fn make_struct_post(items: Seq<(FieldName, Type, Expression)>, r: Expression) -> bool {
    let voids = ms_voids(items);
    if voids.len() == 0 {
        record_node(items, r)
    } else {
        &&& r matches Expression::CodeBlock(w)
        &&& w@.len() == voids.len() + 1
        &&& w@.subrange(0, voids.len() as int) == voids
        &&& record_node(items, w@[w@.len() - 1])
    }
}

/// Build a record value from named, typed slot values.  Slots whose type
/// cannot hold a value are left out of the record; a `Void`-typed value is
/// kept as a free-standing statement ahead of it so its side effects still
/// run, while an `Invalid`-typed one is dropped entirely.
pub fn make_struct(items: Vec<(FieldName, Type, Expression)>) -> (r: Expression)
    ensures
        make_struct_post(items@, r),
{
    let ghost all = items@;
    let mut rest = items;
    let mut voids: Vec<Expression> = Vec::new();
    let mut cond_slot: Option<(Type, Expression)> = None;
    let mut act_slot: Option<(Type, Expression)> = None;
    let mut ret_slot: Option<(Type, Expression)> = None;
    while rest.len() > 0
        invariant
            rest@.len() <= all.len(),
            all.subrange(all.len() - rest@.len(), all.len() as int) == rest@,
            voids@ == ms_voids(all.take(all.len() - rest@.len())),
            cond_slot == ms_slot(all.take(all.len() - rest@.len()), FieldName::Condition),
            act_slot == ms_slot(all.take(all.len() - rest@.len()), FieldName::Actual),
            ret_slot == ms_slot(all.take(all.len() - rest@.len()), FieldName::Returned),
        decreases rest@.len(),
    {
        let ghost k = all.len() - rest@.len();
        proof {
            assert(all[k] == rest@[0]);
            assert(all.take(k + 1).drop_last() =~= all.take(k));
            assert(all.take(k + 1).last() == all[k]);
        }
        let (f, t, e) = rest.remove(0);
        if is_unit(&t) {
            if matches!(t, Type::Void) {
                voids.push(e);
            }
        } else {
            match f {
                FieldName::Condition => { cond_slot = Some((t, e)) },
                FieldName::Actual => { act_slot = Some((t, e)) },
                FieldName::Returned => { ret_slot = Some((t, e)) },
            }
        }
    }
    proof {
        assert(all.take(all.len() as int) =~= all);
    }
    let cflag = cond_slot.is_some();
    let cval = match cond_slot {
        Some(p) => Some(Box::new(p.1)),
        None => None,
    };
    let (aty, aval) = match act_slot {
        Some(p) => (Some(Box::new(p.0)), Some(Box::new(p.1))),
        None => (None, None),
    };
    let (rty, rval) = match ret_slot {
        Some(p) => (Some(Box::new(p.0)), Some(Box::new(p.1))),
        None => (None, None),
    };
    let rec = Expression::Record {
        ty: Type::Record { condition: cflag, actual: aty, returned: rty },
        condition: cval,
        actual: aval,
        returned: rval,
    };
    proof {
        assert(record_node(all, rec));
        assert(voids@.push(rec).subrange(0, voids@.len() as int) =~= voids@);
    }
    codeblock_with_expr(voids, rec)
}

/// Every void-typed value the record builder keeps as a statement is one of
/// its item expressions.
proof fn lemma_ms_voids_no_returns(items: Seq<(FieldName, Type, Expression)>)
    requires
        forall|i: int| 0 <= i < items.len() ==> no_returns(#[trigger] items[i].2),
    ensures
        forall|j: int|
            0 <= j < ms_voids(items).len() ==> no_returns(#[trigger] ms_voids(items)[j]),
    decreases items.len(),
{
    if items.len() > 0 {
        let prev = items.drop_last();
        assert forall|i: int| 0 <= i < prev.len() implies no_returns(#[trigger] prev[i].2) by {
            assert(prev[i] == items[i]);
        }
        lemma_ms_voids_no_returns(prev);
        let v = ms_voids(items);
        assert(items.last() == items[items.len() - 1]);
        assert forall|j: int| 0 <= j < v.len() implies no_returns(#[trigger] v[j]) by {
            if items.last().1 is Void {
                if j < v.len() - 1 {
                    assert(v[j] == ms_voids(prev)[j]);
                } else {
                    assert(v[j] == items.last().2);
                }
            } else {
                assert(v[j] == ms_voids(prev)[j]);
            }
        }
    }
}

/// Every slot the record builder fills is one of its item expressions.
proof fn lemma_ms_slot_no_returns(items: Seq<(FieldName, Type, Expression)>, f: FieldName)
    requires
        forall|i: int| 0 <= i < items.len() ==> no_returns(#[trigger] items[i].2),
    ensures
        ms_slot(items, f) matches Some(p) ==> no_returns(p.1),
    decreases items.len(),
{
    if items.len() > 0 {
        let prev = items.drop_last();
        assert forall|i: int| 0 <= i < prev.len() implies no_returns(#[trigger] prev[i].2) by {
            assert(prev[i] == items[i]);
        }
        lemma_ms_slot_no_returns(prev, f);
        assert(items.last() == items[items.len() - 1]);
    }
}

/// A record node built from return-free values is return-free.
proof fn lemma_record_node_no_returns(items: Seq<(FieldName, Type, Expression)>, g: Expression)
    requires
        record_node(items, g),
        forall|i: int| 0 <= i < items.len() ==> no_returns(#[trigger] items[i].2),
    ensures
        no_returns(g),
{
    lemma_ms_slot_no_returns(items, FieldName::Condition);
    lemma_ms_slot_no_returns(items, FieldName::Actual);
    lemma_ms_slot_no_returns(items, FieldName::Returned);
    match g {
        Expression::Record { condition, actual, returned, .. } => {
            assert(opt_no_returns(condition));
            assert(opt_no_returns(actual));
            assert(opt_no_returns(returned));
        },
        _ => {},
    }
}

/// A record built from return-free values is return-free.
proof fn lemma_make_struct_no_returns(items: Seq<(FieldName, Type, Expression)>, r: Expression)
    requires
        make_struct_post(items, r),
        forall|i: int| 0 <= i < items.len() ==> no_returns(#[trigger] items[i].2),
    ensures
        no_returns(r),
{
    lemma_ms_voids_no_returns(items);
    let voids = ms_voids(items);
    if voids.len() == 0 {
        lemma_record_node_no_returns(items, r);
    } else {
        match r {
            Expression::CodeBlock(wv) => {
                lemma_record_node_no_returns(items, wv@[wv@.len() - 1]);
                assert forall|i: int| 0 <= i < wv@.len() implies no_returns(#[trigger] wv@[i]) by {
                    if i < voids.len() {
                        assert(wv@.subrange(0, voids.len() as int)[i] == wv@[i]);
                        assert(no_returns(voids[i]));
                    }
                }
                crate::ir::lemma_no_returns_seq_build(wv@);
            },
            _ => {},
        }
    }
}

/// Every temporary name a classified result carries lies in the given
/// counter ranges.
pub open spec fn result_temps_bounded(
    r: ExpressionResult,
    mlo: int,
    mhi: int,
    tlo: int,
    thi: int,
) -> bool {
    match r {
        ExpressionResult::Just(e) => temps_bounded(e, mlo, mhi, tlo, thi),
        ExpressionResult::MaybeReturn { pre_statements, condition, returned_value, actual_value } => {
            &&& seq_temps_bounded(pre_statements@, mlo, mhi, tlo, thi)
            &&& temps_bounded(condition, mlo, mhi, tlo, thi)
            &&& opt_e_temps_bounded(returned_value, mlo, mhi, tlo, thi)
            &&& opt_e_temps_bounded(actual_value, mlo, mhi, tlo, thi)
        },
        ExpressionResult::Return(v) => opt_e_temps_bounded(v, mlo, mhi, tlo, thi),
        ExpressionResult::ReturnObject { value, .. } => temps_bounded(value, mlo, mhi, tlo, thi),
    }
}

pub open spec fn opt_e_temps_bounded(
    v: Option<Expression>,
    mlo: int,
    mhi: int,
    tlo: int,
    thi: int,
) -> bool {
    match v {
        Some(e) => temps_bounded(e, mlo, mhi, tlo, thi),
        None => true,
    }
}

/// Every void-typed value the record builder keeps is one of its items.
proof fn lemma_ms_voids_temps(
    items: Seq<(FieldName, Type, Expression)>,
    mlo: int,
    mhi: int,
    tlo: int,
    thi: int,
)
    requires
        forall|i: int|
            0 <= i < items.len() ==> temps_bounded(#[trigger] items[i].2, mlo, mhi, tlo, thi),
    ensures
        forall|j: int|
            0 <= j < ms_voids(items).len() ==> temps_bounded(
                #[trigger] ms_voids(items)[j],
                mlo,
                mhi,
                tlo,
                thi,
            ),
    decreases items.len(),
{
    if items.len() > 0 {
        let prev = items.drop_last();
        assert forall|i: int| 0 <= i < prev.len() implies temps_bounded(
            #[trigger] prev[i].2,
            mlo,
            mhi,
            tlo,
            thi,
        ) by {
            assert(prev[i] == items[i]);
        }
        lemma_ms_voids_temps(prev, mlo, mhi, tlo, thi);
        let v = ms_voids(items);
        assert(items.last() == items[items.len() - 1]);
        assert forall|j: int| 0 <= j < v.len() implies temps_bounded(
            #[trigger] v[j],
            mlo,
            mhi,
            tlo,
            thi,
        ) by {
            if items.last().1 is Void {
                if j < v.len() - 1 {
                    assert(v[j] == ms_voids(prev)[j]);
                } else {
                    assert(v[j] == items.last().2);
                }
            } else {
                assert(v[j] == ms_voids(prev)[j]);
            }
        }
    }
}

/// Every slot the record builder fills is one of its items.
proof fn lemma_ms_slot_temps(
    items: Seq<(FieldName, Type, Expression)>,
    f: FieldName,
    mlo: int,
    mhi: int,
    tlo: int,
    thi: int,
)
    requires
        forall|i: int|
            0 <= i < items.len() ==> temps_bounded(#[trigger] items[i].2, mlo, mhi, tlo, thi),
    ensures
        ms_slot(items, f) matches Some(p) ==> temps_bounded(p.1, mlo, mhi, tlo, thi),
    decreases items.len(),
{
    if items.len() > 0 {
        let prev = items.drop_last();
        assert forall|i: int| 0 <= i < prev.len() implies temps_bounded(
            #[trigger] prev[i].2,
            mlo,
            mhi,
            tlo,
            thi,
        ) by {
            assert(prev[i] == items[i]);
        }
        lemma_ms_slot_temps(prev, f, mlo, mhi, tlo, thi);
        assert(items.last() == items[items.len() - 1]);
    }
}

/// A record built from bounded values is bounded.
proof fn lemma_make_struct_temps(
    items: Seq<(FieldName, Type, Expression)>,
    r: Expression,
    mlo: int,
    mhi: int,
    tlo: int,
    thi: int,
)
    requires
        make_struct_post(items, r),
        forall|i: int|
            0 <= i < items.len() ==> temps_bounded(#[trigger] items[i].2, mlo, mhi, tlo, thi),
    ensures
        temps_bounded(r, mlo, mhi, tlo, thi),
{
    lemma_ms_voids_temps(items, mlo, mhi, tlo, thi);
    lemma_ms_slot_temps(items, FieldName::Condition, mlo, mhi, tlo, thi);
    lemma_ms_slot_temps(items, FieldName::Actual, mlo, mhi, tlo, thi);
    lemma_ms_slot_temps(items, FieldName::Returned, mlo, mhi, tlo, thi);
    let voids = ms_voids(items);
    if voids.len() == 0 {
        match r {
            Expression::Record { condition, actual, returned, .. } => {
                assert(opt_temps_bounded(condition, mlo, mhi, tlo, thi));
                assert(opt_temps_bounded(actual, mlo, mhi, tlo, thi));
                assert(opt_temps_bounded(returned, mlo, mhi, tlo, thi));
            },
            _ => {},
        }
    } else {
        match r {
            Expression::CodeBlock(wv) => {
                match wv@[wv@.len() - 1] {
                    Expression::Record { condition, actual, returned, .. } => {
                        assert(opt_temps_bounded(condition, mlo, mhi, tlo, thi));
                        assert(opt_temps_bounded(actual, mlo, mhi, tlo, thi));
                        assert(opt_temps_bounded(returned, mlo, mhi, tlo, thi));
                    },
                    _ => {},
                }
                assert forall|i: int| 0 <= i < wv@.len() implies temps_bounded(
                    #[trigger] wv@[i],
                    mlo,
                    mhi,
                    tlo,
                    thi,
                ) by {
                    if i < voids.len() {
                        assert(wv@.subrange(0, voids.len() as int)[i] == wv@[i]);
                        assert(temps_bounded(voids[i], mlo, mhi, tlo, thi));
                    }
                }
                lemma_seq_temps_bounded_build(wv@, mlo, mhi, tlo, thi);
            },
            _ => {},
        }
    }
}

/// A sequence of bounded elements is bounded.
proof fn lemma_seq_temps_bounded_build(
    s: Seq<Expression>,
    mlo: int,
    mhi: int,
    tlo: int,
    thi: int,
)
    requires
        forall|i: int| 0 <= i < s.len() ==> temps_bounded(#[trigger] s[i], mlo, mhi, tlo, thi),
    ensures
        seq_temps_bounded(s, mlo, mhi, tlo, thi),
    decreases s,
{
    if s.len() > 0 {
        assert forall|i: int| 0 <= i < s.drop_first().len() implies temps_bounded(
            #[trigger] s.drop_first()[i],
            mlo,
            mhi,
            tlo,
            thi,
        ) by {
            assert(s.drop_first()[i] == s[i + 1]);
        }
        lemma_seq_temps_bounded_build(s.drop_first(), mlo, mhi, tlo, thi);
    }
}

/// Elementwise view of a bounded sequence.
proof fn lemma_seq_temps_bounded_index(
    s: Seq<Expression>,
    mlo: int,
    mhi: int,
    tlo: int,
    thi: int,
)
    requires
        seq_temps_bounded(s, mlo, mhi, tlo, thi),
    ensures
        forall|i: int| 0 <= i < s.len() ==> temps_bounded(#[trigger] s[i], mlo, mhi, tlo, thi),
    decreases s,
{
    if s.len() > 0 {
        lemma_seq_temps_bounded_index(s.drop_first(), mlo, mhi, tlo, thi);
        assert forall|i: int| 0 <= i < s.len() implies temps_bounded(
            #[trigger] s[i],
            mlo,
            mhi,
            tlo,
            thi,
        ) by {
            if i > 0 {
                assert(s.drop_first()[i - 1] == s[i]);
            }
        }
    }
}

/// Widening the counter ranges preserves the bound on a classified result.
proof fn lemma_result_temps_widen(
    r: ExpressionResult,
    mlo: int,
    mhi: int,
    tlo: int,
    thi: int,
    mlo2: int,
    mhi2: int,
    tlo2: int,
    thi2: int,
)
    requires
        result_temps_bounded(r, mlo, mhi, tlo, thi),
        mlo2 <= mlo,
        mhi <= mhi2,
        tlo2 <= tlo,
        thi <= thi2,
    ensures
        result_temps_bounded(r, mlo2, mhi2, tlo2, thi2),
{
    match r {
        ExpressionResult::Just(e) => {
            lemma_temps_bounded_widen(e, mlo, mhi, tlo, thi, mlo2, mhi2, tlo2, thi2);
        },
        ExpressionResult::MaybeReturn { pre_statements, condition, returned_value, actual_value } => {
            lemma_seq_temps_bounded_widen(
                pre_statements@,
                mlo,
                mhi,
                tlo,
                thi,
                mlo2,
                mhi2,
                tlo2,
                thi2,
            );
            lemma_temps_bounded_widen(condition, mlo, mhi, tlo, thi, mlo2, mhi2, tlo2, thi2);
            match returned_value {
                Some(e) => lemma_temps_bounded_widen(e, mlo, mhi, tlo, thi, mlo2, mhi2, tlo2, thi2),
                None => {},
            }
            match actual_value {
                Some(e) => lemma_temps_bounded_widen(e, mlo, mhi, tlo, thi, mlo2, mhi2, tlo2, thi2),
                None => {},
            }
        },
        ExpressionResult::Return(v) => {
            match v {
                Some(e) => lemma_temps_bounded_widen(e, mlo, mhi, tlo, thi, mlo2, mhi2, tlo2, thi2),
                None => {},
            }
        },
        ExpressionResult::ReturnObject { value, .. } => {
            lemma_temps_bounded_widen(value, mlo, mhi, tlo, thi, mlo2, mhi2, tlo2, thi2);
        },
    }
}

/// The value a guard's continuing branch is promoted from: the actual value
/// when there is one, the declared type's default otherwise.
pub open spec fn av_or_default(av: Option<Expression>, ty: Type) -> Expression {
    match av {
        Some(a) => a,
        None => Expression::DefaultValue(ty),
    }
}

/// The record items a plain (non-returning) value is promoted with:
/// continuing, with the value itself and a defaulted return slot.
pub open spec fn just_items(e: Expression, ret_ty: Type) -> Seq<(FieldName, Type, Expression)> {
    seq![
        (FieldName::Condition, Type::Bool, Expression::BoolLiteral(true)),
        (FieldName::Actual, crate::ir::spec_ty(e), e),
        (FieldName::Returned, ret_ty, Expression::DefaultValue(ret_ty)),
    ]
}

/// The record items an unconditional return is promoted with: not
/// continuing, with its payload (when present) and a defaulted actual slot
/// (when the declared type can hold a value).
pub open spec fn return_items(
    r0: Option<Expression>,
    ty: Type,
    ret_ty: Type,
) -> Seq<(FieldName, Type, Expression)> {
    seq![(FieldName::Condition, Type::Bool, Expression::BoolLiteral(false))] + (match r0 {
        Some(v) => seq![(FieldName::Returned, ret_ty, v)],
        None => Seq::empty(),
    }) + (if !is_unit_type(ty) {
        seq![(FieldName::Actual, ty, Expression::DefaultValue(ty))]
    } else {
        Seq::empty()
    })
}

/// The conditional a guarded result is promoted to: the promoted continuing
/// value when the condition holds, the promoted return otherwise.
pub open spec fn guard_node(
    c: Expression,
    rv: Option<Expression>,
    av: Option<Expression>,
    ty: Type,
    ret_ty: Type,
    g: Expression,
) -> bool {
    &&& g matches Expression::Condition { condition, true_expr, false_expr }
    &&& *condition == c
    &&& make_struct_post(just_items(av_or_default(av, ty), ret_ty), *true_expr)
    &&& make_struct_post(return_items(rv, ty, ret_ty), *false_expr)
}

/// What promotion to the record form returns, for each classification.
pub open spec fn promoted_post(
    res: ExpressionResult,
    ty: Type,
    ret_ty: Type,
    out: Expression,
) -> bool {
    match res {
        ExpressionResult::Just(e) => make_struct_post(just_items(e, ret_ty), out),
        ExpressionResult::MaybeReturn { pre_statements, condition, returned_value, actual_value } => {
            let pre = pre_statements@;
            if pre.len() == 0 {
                guard_node(condition, returned_value, actual_value, ty, ret_ty, out)
            } else {
                &&& out matches Expression::CodeBlock(w)
                &&& w@.len() == pre.len() + 1
                &&& w@.subrange(0, pre.len() as int) == pre
                &&& guard_node(
                    condition,
                    returned_value,
                    actual_value,
                    ty,
                    ret_ty,
                    w@[w@.len() - 1],
                )
            }
        },
        ExpressionResult::Return(r0) => make_struct_post(return_items(r0, ty, ret_ty), out),
        ExpressionResult::ReturnObject { value, .. } => out == value,
    }
}

/// Promotion recurses only from the guarded form into the two simple forms.
pub open spec fn promote_rank(r: ExpressionResult) -> nat {
    match r {
        ExpressionResult::MaybeReturn { .. } => 1,
        _ => 0,
    }
}

impl ExpressionResult {
    /// Convert any classification into the general record form
    /// `{condition, actual?, returned?}`, used whenever it must be combined
    /// with a sibling that is already in that form.
    pub fn into_return_object(self, ty: &Type, ret_ty: &Type) -> (r: Expression)
        ensures
            promoted_post(self, *ty, *ret_ty, r),
            result_no_returns(self) ==> no_returns(r),
            forall|mlo: int, mhi: int, tlo: int, thi: int|
                result_temps_bounded(self, mlo, mhi, tlo, thi) ==> temps_bounded(
                    r,
                    mlo,
                    mhi,
                    tlo,
                    thi,
                ),
        decreases promote_rank(self),
    {
        match self {
            ExpressionResult::Just(e) => {
                let ghost e0 = e;
                let ety = expr_ty(&e);
                let rt1 = dup_type(ret_ty);
                let rt2 = dup_type(ret_ty);
                let items = vec![
                    (FieldName::Condition, Type::Bool, Expression::BoolLiteral(true)),
                    (FieldName::Actual, ety, e),
                    (FieldName::Returned, rt1, Expression::DefaultValue(rt2)),
                ];
                proof {
                    assert(items@ =~= just_items(e0, *ret_ty));
                }
                let r = make_struct(items);
                proof {
                    if result_no_returns(ExpressionResult::Just(e0)) {
                        assert(forall|i: int|
                            0 <= i < items@.len() ==> no_returns(#[trigger] items@[i].2));
                        lemma_make_struct_no_returns(items@, r);
                    }
                    assert forall|mlo: int, mhi: int, tlo: int, thi: int|
                        result_temps_bounded(
                            ExpressionResult::Just(e0),
                            mlo,
                            mhi,
                            tlo,
                            thi,
                        ) implies temps_bounded(r, mlo, mhi, tlo, thi) by {
                        assert forall|i: int| 0 <= i < items@.len() implies temps_bounded(
                            #[trigger] items@[i].2,
                            mlo,
                            mhi,
                            tlo,
                            thi,
                        ) by {
                            assert(temps_bounded(items@[i].2, mlo, mhi, tlo, thi));
                        }
                        lemma_make_struct_temps(items@, r, mlo, mhi, tlo, thi);
                    }
                }
                r
            },
            ExpressionResult::Return(r0) => {
                let ghost r0g = r0;
                let mut items: Vec<(FieldName, Type, Expression)> = Vec::new();
                items.push((FieldName::Condition, Type::Bool, Expression::BoolLiteral(false)));
                match r0 {
                    Some(v) => items.push((FieldName::Returned, dup_type(ret_ty), v)),
                    None => {},
                }
                if !is_unit(ty) {
                    items.push(
                        (FieldName::Actual, dup_type(ty), Expression::DefaultValue(dup_type(ty))),
                    );
                }
                proof {
                    assert(items@ =~= return_items(r0g, *ty, *ret_ty));
                }
                let r = make_struct(items);
                proof {
                    if result_no_returns(ExpressionResult::Return(r0g)) {
                        assert(forall|i: int|
                            0 <= i < items@.len() ==> no_returns(#[trigger] items@[i].2));
                        lemma_make_struct_no_returns(items@, r);
                    }
                    assert forall|mlo: int, mhi: int, tlo: int, thi: int|
                        result_temps_bounded(
                            ExpressionResult::Return(r0g),
                            mlo,
                            mhi,
                            tlo,
                            thi,
                        ) implies temps_bounded(r, mlo, mhi, tlo, thi) by {
                        assert forall|i: int| 0 <= i < items@.len() implies temps_bounded(
                            #[trigger] items@[i].2,
                            mlo,
                            mhi,
                            tlo,
                            thi,
                        ) by {
                            assert(temps_bounded(items@[i].2, mlo, mhi, tlo, thi));
                        }
                        lemma_make_struct_temps(items@, r, mlo, mhi, tlo, thi);
                    }
                }
                r
            },
            ExpressionResult::MaybeReturn {
                pre_statements,
                condition,
                returned_value,
                actual_value,
            } => {
                let ghost selfg = ExpressionResult::MaybeReturn {
                    pre_statements,
                    condition,
                    returned_value,
                    actual_value,
                };
                let ghost avg = actual_value;
                let ghost rvg = returned_value;
                let ghost preg = pre_statements@;
                let ghost cg = condition;
                let av = match actual_value {
                    Some(a) => a,
                    None => Expression::DefaultValue(dup_type(ty)),
                };
                let ghost avx = av;
                let tb = ExpressionResult::Just(av).into_return_object(ty, ret_ty);
                let fb = ExpressionResult::Return(returned_value).into_return_object(ty, ret_ty);
                let g = Expression::Condition {
                    condition: Box::new(condition),
                    true_expr: Box::new(tb),
                    false_expr: Box::new(fb),
                };
                let out = codeblock_with_expr(pre_statements, g);
                proof {
                    assert(av == av_or_default(avg, *ty));
                    if preg.len() > 0 {
                        assert(preg.push(g).subrange(0, preg.len() as int) =~= preg);
                    }
                    if result_no_returns(selfg) {
                        crate::ir::lemma_no_returns_seq_index(preg);
                        crate::ir::lemma_no_returns_seq_build(preg.push(g));
                    }
                    assert forall|mlo: int, mhi: int, tlo: int, thi: int|
                        result_temps_bounded(selfg, mlo, mhi, tlo, thi) implies temps_bounded(
                        out,
                        mlo,
                        mhi,
                        tlo,
                        thi,
                    ) by {
                        assert(opt_e_temps_bounded(avg, mlo, mhi, tlo, thi));
                        match avg {
                            Some(a2) => {
                                assert(temps_bounded(a2, mlo, mhi, tlo, thi));
                            },
                            None => {},
                        }
                        assert(temps_bounded(avx, mlo, mhi, tlo, thi));
                        assert(result_temps_bounded(
                            ExpressionResult::Just(avx),
                            mlo,
                            mhi,
                            tlo,
                            thi,
                        ));
                        assert(result_temps_bounded(
                            ExpressionResult::Return(rvg),
                            mlo,
                            mhi,
                            tlo,
                            thi,
                        ));
                        assert(temps_bounded(tb, mlo, mhi, tlo, thi));
                        assert(temps_bounded(fb, mlo, mhi, tlo, thi));
                        assert(temps_bounded(cg, mlo, mhi, tlo, thi));
                        assert(temps_bounded(g, mlo, mhi, tlo, thi));
                        if preg.len() > 0 {
                            lemma_seq_temps_bounded_index(preg, mlo, mhi, tlo, thi);
                            assert forall|i: int|
                                0 <= i < preg.push(g).len() implies temps_bounded(
                                #[trigger] preg.push(g)[i],
                                mlo,
                                mhi,
                                tlo,
                                thi,
                            ) by {
                                if i < preg.len() {
                                    assert(preg.push(g)[i] == preg[i]);
                                } else {
                                    assert(preg.push(g)[i] == g);
                                }
                            }
                            lemma_seq_temps_bounded_build(preg.push(g), mlo, mhi, tlo, thi);
                        }
                    }
                }
                out
            },
            ExpressionResult::ReturnObject { value, .. } => value,
        }
    }
}

/// How an optional slot materializes: the value itself when present, an
/// empty block otherwise.
pub open spec fn opt_or_empty(o: Option<Expression>, x: Expression) -> bool {
    match o {
        Some(v) => x == v,
        None => x matches Expression::CodeBlock(w) && w@.len() == 0,
    }
}

/// The conditional a guarded result materializes to: the actual value when
/// the condition holds, the returned value otherwise, either defaulting to
/// an empty block when absent.
pub open spec fn guard_cond(
    g: Expression,
    c: Expression,
    rv: Option<Expression>,
    av: Option<Expression>,
) -> bool {
    &&& g matches Expression::Condition { condition, true_expr, false_expr }
    &&& *condition == c
    &&& opt_or_empty(av, *true_expr)
    &&& opt_or_empty(rv, *false_expr)
}

/// What a guarded result materializes to: its leading statements followed
/// by the guard conditional, always as a block.
pub open spec fn maybe_materialized(
    pre: Seq<Expression>,
    c: Expression,
    rv: Option<Expression>,
    av: Option<Expression>,
    r: Expression,
) -> bool {
    &&& r matches Expression::CodeBlock(w)
    &&& w@.len() == pre.len() + 1
    &&& w@.subrange(0, pre.len() as int) == pre
    &&& guard_cond(w@[w@.len() - 1], c, rv, av)
}

/// The materialization guard: a conditional on the stored record's
/// `condition` slot that reads the `actual` or `returned` slot, or falls
/// back to the declared type's default where the record has no such slot.
pub open spec fn mat_guard(
    g: Expression,
    name: TempName,
    rty: Type,
    has_value: bool,
    has_rv: bool,
    ty: Type,
) -> bool {
    &&& g matches Expression::Condition { condition, true_expr, false_expr }
    &&& ((*condition) matches Expression::StructFieldAccess { base, field } && field
        == FieldName::Condition && *base == (Expression::ReadLocalVariable { name, ty: rty }))
    &&& (if has_value {
        (*true_expr) matches Expression::StructFieldAccess { base, field } && field
            == FieldName::Actual && *base == (Expression::ReadLocalVariable { name, ty: rty })
    } else {
        *true_expr == Expression::DefaultValue(ty)
    })
    &&& (if has_rv {
        (*false_expr) matches Expression::StructFieldAccess { base, field } && field
            == FieldName::Returned && *base == (Expression::ReadLocalVariable { name, ty: rty })
    } else {
        *false_expr == Expression::DefaultValue(ty)
    })
}

/// What a merged result materializes to: the record stored into a fresh
/// materialization temporary, then the guard on its `condition` slot.
pub open spec fn materialized_post(
    r: Expression,
    value: Expression,
    has_value: bool,
    has_return_value: bool,
    ty: Type,
    idx: u64,
) -> bool {
    let name = TempName { kind: NameKind::Materialize, index: idx };
    &&& r matches Expression::CodeBlock(w)
    &&& w@.len() == 2
    &&& (w@[0] matches Expression::StoreLocalVariable { name: n1, value: sv } && n1 == name && *sv
        == value)
    &&& mat_guard(w@[1], name, spec_ty(value), has_value, has_return_value, ty)
}

impl ExpressionResult {
    /// Convert the top-level classified result of a whole function-like
    /// expression back into a plain, return-free expression with the
    /// scope's declared value type `ty`.
    pub fn to_expression(self, ty: &Type, gen: &mut NameGen) -> (r: Expression)
        requires
            self is ReturnObject ==> old(gen).materialize < u64::MAX,
        ensures
            self matches ExpressionResult::Just(e) ==> r == e && *final(gen) == *old(gen),
            self matches ExpressionResult::Return(v) ==> opt_or_empty(v, r) && *final(gen)
                == *old(gen),
            self matches ExpressionResult::MaybeReturn {
                pre_statements,
                condition,
                returned_value,
                actual_value,
            } ==> maybe_materialized(pre_statements@, condition, returned_value, actual_value, r)
                && *final(gen) == *old(gen),
            self matches ExpressionResult::ReturnObject { value, has_value, has_return_value }
                ==> materialized_post(
                r,
                value,
                has_value,
                has_return_value,
                *ty,
                old(gen).materialize,
            ) && final(gen).materialize == old(gen).materialize + 1,
            result_no_returns(self) ==> no_returns(r),
            forall|mlo: int, tlo: int|
                (mlo <= old(gen).merge && tlo <= old(gen).materialize && result_temps_bounded(
                    self,
                    mlo,
                    old(gen).merge as int,
                    tlo,
                    old(gen).materialize as int,
                )) ==> temps_bounded(
                    r,
                    mlo,
                    final(gen).merge as int,
                    tlo,
                    final(gen).materialize as int,
                ),
            final(gen).merge == old(gen).merge,
            old(gen).materialize <= final(gen).materialize <= old(gen).materialize + 1,
    {
        match self {
            ExpressionResult::Just(e) => e,
            ExpressionResult::Return(v) => {
                let ghost vg2 = v;
                let r = match v {
                    Some(x) => x,
                    None => Expression::CodeBlock(Vec::new()),
                };
                proof {
                    let rg = r;
                    match rg {
                        Expression::CodeBlock(w2) => {
                            if w2@.len() == 0 {
                                assert(no_returns_seq(w2@));
                            }
                        },
                        _ => {},
                    }
                    assert forall|mlo: int, tlo: int|
                        (mlo <= old(gen).merge && tlo <= old(gen).materialize
                            && result_temps_bounded(
                            ExpressionResult::Return(vg2),
                            mlo,
                            old(gen).merge as int,
                            tlo,
                            old(gen).materialize as int,
                        )) implies temps_bounded(
                        r,
                        mlo,
                        gen.merge as int,
                        tlo,
                        gen.materialize as int,
                    ) by {
                        match vg2 {
                            Some(x) => {
                                assert(temps_bounded(
                                    x,
                                    mlo,
                                    old(gen).merge as int,
                                    tlo,
                                    old(gen).materialize as int,
                                ));
                            },
                            None => {
                                match rg {
                                    Expression::CodeBlock(w2) => {
                                        assert(seq_temps_bounded(
                                            w2@,
                                            mlo,
                                            old(gen).merge as int,
                                            tlo,
                                            old(gen).materialize as int,
                                        ));
                                    },
                                    _ => {},
                                }
                            },
                        }
                    }
                }
                r
            },
            ExpressionResult::MaybeReturn {
                pre_statements,
                condition,
                returned_value,
                actual_value,
            } => {
                let ghost preg = pre_statements@;
                let ghost selfg = ExpressionResult::MaybeReturn {
                    pre_statements,
                    condition,
                    returned_value,
                    actual_value,
                };
                let ghost avg = actual_value;
                let ghost rvg = returned_value;
                let mut pre = pre_statements;
                let tb = match actual_value {
                    Some(a) => a,
                    None => Expression::CodeBlock(Vec::new()),
                };
                let ghost tbg = tb;
                let fb = match returned_value {
                    Some(x) => x,
                    None => Expression::CodeBlock(Vec::new()),
                };
                let ghost fbg = fb;
                let guard = Expression::Condition {
                    condition: Box::new(condition),
                    true_expr: Box::new(tb),
                    false_expr: Box::new(fb),
                };
                let ghost guardg = guard;
                pre.push(guard);
                let r = Expression::CodeBlock(pre);
                proof {
                    assert(preg.push(guardg).subrange(0, preg.len() as int) =~= preg);
                    if result_no_returns(selfg) {
                        assert(opt_e_no_returns(avg));
                        assert(opt_e_no_returns(rvg));
                        match avg {
                            Some(a2) => {
                                assert(no_returns(a2));
                                assert(tbg == a2);
                            },
                            None => {
                                match tbg {
                                    Expression::CodeBlock(w2) => {
                                        assert(w2@.len() == 0);
                                        assert(no_returns_seq(w2@));
                                    },
                                    _ => {},
                                }
                            },
                        }
                        match rvg {
                            Some(x2) => {
                                assert(no_returns(x2));
                                assert(fbg == x2);
                            },
                            None => {
                                match fbg {
                                    Expression::CodeBlock(w2) => {
                                        assert(w2@.len() == 0);
                                        assert(no_returns_seq(w2@));
                                    },
                                    _ => {},
                                }
                            },
                        }
                        assert(no_returns(tbg));
                        assert(no_returns(fbg));
                        assert(no_returns(guardg));
                        lemma_no_returns_seq_index(preg);
                        assert forall|i: int| 0 <= i < preg.push(guardg).len() implies no_returns(
                            #[trigger] preg.push(guardg)[i],
                        ) by {
                            if i < preg.len() {
                                assert(preg.push(guardg)[i] == preg[i]);
                            } else {
                                assert(preg.push(guardg)[i] == guardg);
                            }
                        }
                        lemma_no_returns_seq_build(preg.push(guardg));
                    }
                    assert forall|mlo: int, tlo: int|
                        (mlo <= old(gen).merge && tlo <= old(gen).materialize
                            && result_temps_bounded(
                            selfg,
                            mlo,
                            old(gen).merge as int,
                            tlo,
                            old(gen).materialize as int,
                        )) implies temps_bounded(
                        r,
                        mlo,
                        gen.merge as int,
                        tlo,
                        gen.materialize as int,
                    ) by {
                        let ml = old(gen).merge as int;
                        let tl = old(gen).materialize as int;
                        match avg {
                            Some(a2) => {
                                assert(temps_bounded(a2, mlo, ml, tlo, tl));
                            },
                            None => {
                                match tbg {
                                    Expression::CodeBlock(w2) => {
                                        assert(w2@.len() == 0);
                                        assert(seq_temps_bounded(w2@, mlo, ml, tlo, tl));
                                    },
                                    _ => {},
                                }
                            },
                        }
                        match rvg {
                            Some(x2) => {
                                assert(temps_bounded(x2, mlo, ml, tlo, tl));
                            },
                            None => {
                                match fbg {
                                    Expression::CodeBlock(w2) => {
                                        assert(w2@.len() == 0);
                                        assert(seq_temps_bounded(w2@, mlo, ml, tlo, tl));
                                    },
                                    _ => {},
                                }
                            },
                        }
                        assert(temps_bounded(tbg, mlo, ml, tlo, tl));
                        assert(temps_bounded(fbg, mlo, ml, tlo, tl));
                        assert(temps_bounded(guardg, mlo, ml, tlo, tl));
                        lemma_seq_temps_bounded_index(preg, mlo, ml, tlo, tl);
                        assert forall|i: int|
                            0 <= i < preg.push(guardg).len() implies temps_bounded(
                            #[trigger] preg.push(guardg)[i],
                            mlo,
                            ml,
                            tlo,
                            tl,
                        ) by {
                            if i < preg.len() {
                                assert(preg.push(guardg)[i] == preg[i]);
                            } else {
                                assert(preg.push(guardg)[i] == guardg);
                            }
                        }
                        lemma_seq_temps_bounded_build(preg.push(guardg), mlo, ml, tlo, tl);
                    }
                }
                r
            },
            ExpressionResult::ReturnObject { value, has_value, has_return_value } => {
                let ghost vg = value;
                let name = gen.fresh_materialize();
                let vty = expr_ty(&value);
                let vty2 = dup_type(&vty);
                let vty3 = dup_type(&vty);
                let mut w: Vec<Expression> = Vec::new();
                w.push(Expression::StoreLocalVariable { name, value: Box::new(value) });
                let tb = if has_value {
                    Expression::StructFieldAccess {
                        base: Box::new(Expression::ReadLocalVariable { name, ty: vty2 }),
                        field: FieldName::Actual,
                    }
                } else {
                    Expression::DefaultValue(dup_type(ty))
                };
                let fb = if has_return_value {
                    Expression::StructFieldAccess {
                        base: Box::new(Expression::ReadLocalVariable { name, ty: vty3 }),
                        field: FieldName::Returned,
                    }
                } else {
                    Expression::DefaultValue(dup_type(ty))
                };
                let guard = Expression::Condition {
                    condition: Box::new(
                        Expression::StructFieldAccess {
                            base: Box::new(Expression::ReadLocalVariable { name, ty: vty }),
                            field: FieldName::Condition,
                        },
                    ),
                    true_expr: Box::new(tb),
                    false_expr: Box::new(fb),
                };
                let ghost guardg = guard;
                w.push(guard);
                let r = Expression::CodeBlock(w);
                proof {
                    if no_returns(vg) {
                        match guardg {
                            Expression::Condition { condition, true_expr, false_expr } => {
                                match *condition {
                                    Expression::StructFieldAccess { base, .. } => {
                                        assert(no_returns(*base));
                                    },
                                    _ => {},
                                }
                                match *true_expr {
                                    Expression::StructFieldAccess { base, .. } => {
                                        assert(no_returns(*base));
                                    },
                                    _ => {},
                                }
                                match *false_expr {
                                    Expression::StructFieldAccess { base, .. } => {
                                        assert(no_returns(*base));
                                    },
                                    _ => {},
                                }
                                assert(no_returns(*condition));
                                assert(no_returns(*true_expr));
                                assert(no_returns(*false_expr));
                            },
                            _ => {},
                        }
                        assert(no_returns(guardg));
                        assert forall|i: int| 0 <= i < w@.len() implies no_returns(
                            #[trigger] w@[i],
                        ) by {
                            if i == 0 {
                                match w@[0] {
                                    Expression::StoreLocalVariable { value: sv, .. } => {
                                        assert(no_returns(*sv));
                                    },
                                    _ => {},
                                }
                            }
                            assert(no_returns(w@[i]));
                        }
                        lemma_no_returns_seq_build(w@);
                    }
                    assert forall|mlo: int, tlo: int|
                        (mlo <= old(gen).merge && tlo <= old(gen).materialize
                            && result_temps_bounded(
                            ExpressionResult::ReturnObject {
                                value: vg,
                                has_value,
                                has_return_value,
                            },
                            mlo,
                            old(gen).merge as int,
                            tlo,
                            old(gen).materialize as int,
                        )) implies temps_bounded(
                        r,
                        mlo,
                        gen.merge as int,
                        tlo,
                        gen.materialize as int,
                    ) by {
                        let ml = old(gen).merge as int;
                        let tl = old(gen).materialize as int;
                        assert(temps_bounded(vg, mlo, ml, tlo, tl));
                        lemma_temps_bounded_widen(vg, mlo, ml, tlo, tl, mlo, ml, tlo, tl + 1);
                        assert(name_in(name, mlo, ml, tlo, tl + 1));
                        match guardg {
                            Expression::Condition { condition, true_expr, false_expr } => {
                                match *condition {
                                    Expression::StructFieldAccess { base, .. } => {
                                        assert(temps_bounded(*base, mlo, ml, tlo, tl + 1));
                                    },
                                    _ => {},
                                }
                                match *true_expr {
                                    Expression::StructFieldAccess { base, .. } => {
                                        assert(temps_bounded(*base, mlo, ml, tlo, tl + 1));
                                    },
                                    _ => {},
                                }
                                match *false_expr {
                                    Expression::StructFieldAccess { base, .. } => {
                                        assert(temps_bounded(*base, mlo, ml, tlo, tl + 1));
                                    },
                                    _ => {},
                                }
                                assert(temps_bounded(*condition, mlo, ml, tlo, tl + 1));
                                assert(temps_bounded(*true_expr, mlo, ml, tlo, tl + 1));
                                assert(temps_bounded(*false_expr, mlo, ml, tlo, tl + 1));
                            },
                            _ => {},
                        }
                        assert(temps_bounded(guardg, mlo, ml, tlo, tl + 1));
                        match w@[0] {
                            Expression::StoreLocalVariable { value: sv, .. } => {
                                assert(temps_bounded(*sv, mlo, ml, tlo, tl + 1));
                            },
                            _ => {},
                        }
                        assert forall|i: int| 0 <= i < w@.len() implies temps_bounded(
                            #[trigger] w@[i],
                            mlo,
                            ml,
                            tlo,
                            tl + 1,
                        ) by {
                            assert(temps_bounded(w@[i], mlo, ml, tlo, tl + 1));
                        }
                        lemma_seq_temps_bounded_build(w@, mlo, ml, tlo, tl + 1);
                    }
                }
                r
            },
        }
    }
}

/// How a processed conditional arm relates to `cleanup_empty_block` of the
/// original arm: absent exactly when the arm was an empty block, otherwise
/// present and structurally equivalent.
pub open spec fn cleanup_equiv(av: Option<Expression>, orig: Expression) -> bool {
    if orig matches Expression::CodeBlock(s) && s@.len() == 0 {
        av is None
    } else {
        av matches Some(a) && expr_equiv(a, orig)
    }
}

/// Statement `k` is a return construct and every statement before it is
/// return-free.
pub open spec fn first_return_at(s: Seq<Expression>, k: int) -> bool {
    &&& 0 <= k < s.len()
    &&& s[k] is ReturnStatement
    &&& forall|j: int| 0 <= j < k ==> no_returns(#[trigger] s[j])
}

/// What the sequencer returns when statement `k` is the first return: an
/// unconditional return whose block holds the prefix statements followed by
/// the return's payload; everything after statement `k` is dropped.
pub open spec fn short_circuit_post(
    r: ExpressionResult,
    acc: Seq<Expression>,
    s: Seq<Expression>,
    k: int,
) -> bool {
    match s[k] {
        Expression::ReturnStatement(p) => match p {
            Some(pv) => {
                &&& r matches ExpressionResult::Return(ov)
                &&& ov matches Some(b)
                &&& b matches Expression::CodeBlock(w)
                &&& w@.len() == acc.len() + k + 1
                &&& w@.subrange(0, acc.len() as int) == acc
                &&& (forall|j: int|
                    0 <= j < k ==> expr_equiv(#[trigger] w@[acc.len() + j], s[j]))
                &&& w@[acc.len() + k] == *pv
            },
            None => {
                if acc.len() + k == 0 {
                    r == ExpressionResult::Return(None::<Expression>)
                } else {
                    &&& r matches ExpressionResult::Return(ov)
                    &&& ov matches Some(b)
                    &&& b matches Expression::CodeBlock(w)
                    &&& w@.len() == acc.len() + k
                    &&& w@.subrange(0, acc.len() as int) == acc
                    &&& (forall|j: int|
                        0 <= j < k ==> expr_equiv(#[trigger] w@[acc.len() + j], s[j]))
                }
            },
        },
        _ => true,
    }
}

/// The optional payload the merge guard's return branch carries: a read of
/// the stored record's `returned` slot when the scope's return type holds a
/// value, nothing otherwise.
pub open spec fn returned_read_opt(
    o: Option<Expression>,
    name: TempName,
    rty: Type,
    has_rv: bool,
) -> bool {
    if has_rv {
        &&& o matches Some(x)
        &&& x matches Expression::StructFieldAccess { base, field }
        &&& field == FieldName::Returned
        &&& *base == (Expression::ReadLocalVariable { name, ty: rty })
    } else {
        o is None
    }
}

/// The merge guard: a conditional on the stored record's `condition` slot
/// whose false branch is the promoted unconditional return of the stored
/// record's `returned` slot.
pub open spec fn guard_shape(
    g: Expression,
    name: TempName,
    rty: Type,
    has_rv: bool,
    ty: Type,
    ret_ty: Type,
) -> bool {
    &&& g matches Expression::Condition { condition, true_expr, false_expr }
    &&& (*condition) matches Expression::StructFieldAccess { base, field }
    &&& field == FieldName::Condition
    &&& *base == (Expression::ReadLocalVariable { name, ty: rty })
    &&& exists|o: Option<Expression>|
        returned_read_opt(o, name, rty, has_rv) && make_struct_post(
            return_items(o, ty, ret_ty),
            *false_expr,
        )
}

/// The classifier's result for a plain expression: the same tree, unchanged
/// up to rebuilt containers.
pub open spec fn just_equiv(r: ExpressionResult, e: Expression) -> bool {
    r matches ExpressionResult::Just(x) && expr_equiv(x, e)
}

/// The classifier's result for a conditional with exactly one returning
/// arm: an unmerged guard with no leading statements, the given continue
/// condition and return payload, and the continuing arm after empty-block
/// cleanup.
pub open spec fn guarded_result(
    r: ExpressionResult,
    cond: Expression,
    rv: Option<Expression>,
    orig_arm: Expression,
) -> bool {
    &&& r matches ExpressionResult::MaybeReturn {
        pre_statements,
        condition,
        returned_value,
        actual_value,
    }
    &&& pre_statements@.len() == 0
    &&& condition == cond
    &&& returned_value == rv
    &&& cleanup_equiv(actual_value, orig_arm)
}

/// The classifier's result for a conditional both of whose arms return: the
/// merged record form, a conditional between the two promoted returns, with
/// the slot flags taken from the conditional's own type and the declared
/// return type.
pub open spec fn merged_both_return(
    r: ExpressionResult,
    cond: Box<Expression>,
    tp: Option<Expression>,
    fp: Option<Expression>,
    ty: Type,
    ret_ty: Type,
) -> bool {
    &&& r matches ExpressionResult::ReturnObject { value, has_value, has_return_value }
    &&& has_value == !is_unit_type(ty)
    &&& has_return_value == !is_unit_type(ret_ty)
    &&& value matches Expression::Condition { condition: c1, true_expr: t1, false_expr: f1 }
    &&& c1 == cond
    &&& promoted_post(ExpressionResult::Return(tp), ty, ret_ty, *t1)
    &&& promoted_post(ExpressionResult::Return(fp), ty, ret_ty, *f1)
}

/// Classify an expression into one of the four control-flow shapes,
/// given the declared return type of the enclosing function-like scope.
pub fn process_expression(e: Expression, ret_ty: &Type, gen: &mut NameGen) -> (r:
    ExpressionResult)
    requires
        old(gen).merge + size(e) <= u64::MAX,
    ensures
        (e !is ReturnStatement && e !is CodeBlock && e !is Condition) ==> r
            == ExpressionResult::Just(e) && *final(gen) == *old(gen),
        e matches Expression::ReturnStatement(p) ==> r == ExpressionResult::Return(unbox_opt(p))
            && *final(gen) == *old(gen),
        no_returns(e) ==> just_equiv(r, e) && *final(gen) == *old(gen),
        e matches Expression::Condition { condition, true_expr, false_expr } ==> (no_returns(
            *true_expr,
        ) ==> ((*false_expr) matches Expression::ReturnStatement(fp) ==> guarded_result(
            r,
            *condition,
            unbox_opt(fp),
            *true_expr,
        ) && *final(gen) == *old(gen))),
        e matches Expression::Condition { condition, true_expr, false_expr } ==> ((*true_expr)
            matches Expression::ReturnStatement(tp) ==> (no_returns(*false_expr)
            ==> guarded_result(
            r,
            Expression::LogicalNot(condition),
            unbox_opt(tp),
            *false_expr,
        ) && *final(gen) == *old(gen))),
        e matches Expression::Condition { condition, true_expr, false_expr } ==> ((*true_expr)
            matches Expression::ReturnStatement(tp) ==> ((*false_expr) matches
            Expression::ReturnStatement(fp) ==> merged_both_return(
            r,
            condition,
            unbox_opt(tp),
            unbox_opt(fp),
            spec_ty(e),
            *ret_ty,
        ) && *final(gen) == *old(gen))),
        returns_legal(e) ==> result_no_returns(r),
        classify_rel(e, *ret_ty, old(gen).merge as int, r, final(gen).merge as int),
        forall|mlo: int, tlo: int|
            (mlo <= old(gen).merge && tlo <= old(gen).materialize && temps_bounded(
                e,
                mlo,
                old(gen).merge as int,
                tlo,
                old(gen).materialize as int,
            )) ==> result_temps_bounded(
                r,
                mlo,
                final(gen).merge as int,
                tlo,
                final(gen).materialize as int,
            ),
        final(gen).merge >= old(gen).merge,
        final(gen).merge + 1 <= old(gen).merge + size(e),
        final(gen).materialize == old(gen).materialize,
    decreases size(e), 0int,
{
    let ghost e0 = e;
    let ty = expr_ty(&e);
    match e {
        Expression::ReturnStatement(expr) => {
            let ghost pg = expr;
            let payload = match expr {
                Some(b) => Some(*b),
                None => None,
            };
            let rr = ExpressionResult::Return(payload);
            proof {
                assert forall|mlo: int, tlo: int|
                    (mlo <= old(gen).merge && tlo <= old(gen).materialize && temps_bounded(
                        e0,
                        mlo,
                        old(gen).merge as int,
                        tlo,
                        old(gen).materialize as int,
                    )) implies result_temps_bounded(
                    rr,
                    mlo,
                    gen.merge as int,
                    tlo,
                    gen.materialize as int,
                ) by {
                    assert(opt_temps_bounded(
                        pg,
                        mlo,
                        old(gen).merge as int,
                        tlo,
                        old(gen).materialize as int,
                    ));
                    match pg {
                        Some(b) => {
                            assert(temps_bounded(
                                *b,
                                mlo,
                                old(gen).merge as int,
                                tlo,
                                old(gen).materialize as int,
                            ));
                        },
                        None => {},
                    }
                }
            }
            rr
        },
        Expression::CodeBlock(stmts) => {
            let ghost sg = stmts@;
            let r = process_codeblock(stmts, Vec::new(), &ty, ret_ty, gen);
            proof {
                assert forall|mlo: int, tlo: int|
                    (mlo <= old(gen).merge && tlo <= old(gen).materialize && temps_bounded(
                        e0,
                        mlo,
                        old(gen).merge as int,
                        tlo,
                        old(gen).materialize as int,
                    )) implies result_temps_bounded(
                    r,
                    mlo,
                    gen.merge as int,
                    tlo,
                    gen.materialize as int,
                ) by {
                    assert(seq_temps_bounded(
                        sg,
                        mlo,
                        old(gen).merge as int,
                        tlo,
                        old(gen).materialize as int,
                    ));
                    assert(seq_temps_bounded(
                        Seq::<Expression>::empty(),
                        mlo,
                        old(gen).merge as int,
                        tlo,
                        old(gen).materialize as int,
                    ));
                }
                let rg = r;
                if no_returns(e0) {
                    match rg {
                        ExpressionResult::Just(x) => {
                            match x {
                                Expression::CodeBlock(w) => {
                                    assert(w@.len() == sg.len());
                                    assert forall|j: int| 0 <= j < sg.len() implies expr_equiv(
                                        #[trigger] w@[j],
                                        sg[j],
                                    ) by {
                                        assert(expr_equiv(w@[0 + j], sg[j]));
                                    }
                                    lemma_seq_equiv_build(w@, sg);
                                },
                                _ => {},
                            }
                        },
                        _ => {},
                    }
                }
            }
            r
        },
        Expression::Condition { condition, true_expr, false_expr } => {
            let ghost tg = *true_expr;
            let ghost fg = *false_expr;
            let ghost cg = *condition;
            proof {
                lemma_size_pos(cg);
            }
            let ghost m0 = old(gen).merge as int;
            let ghost t0 = old(gen).materialize as int;
            let te = process_expression(*true_expr, ret_ty, gen);
            let ghost m1 = gen.merge as int;
            let ghost teg0 = te;
            let fe = process_expression(*false_expr, ret_ty, gen);
            let ghost m2 = gen.merge as int;
            let ghost feg0 = fe;
            proof {
                assert forall|mlo: int, tlo: int|
                    (mlo <= m0 && tlo <= t0 && temps_bounded(e0, mlo, m0, tlo, t0)) implies (
                temps_bounded(cg, mlo, m2, tlo, t0) && result_temps_bounded(
                    teg0,
                    mlo,
                    m2,
                    tlo,
                    t0,
                ) && result_temps_bounded(feg0, mlo, m2, tlo, t0)) by {
                    assert(temps_bounded(cg, mlo, m0, tlo, t0));
                    assert(temps_bounded(tg, mlo, m0, tlo, t0));
                    assert(temps_bounded(fg, mlo, m0, tlo, t0));
                    lemma_temps_bounded_widen(cg, mlo, m0, tlo, t0, mlo, m2, tlo, t0);
                    lemma_temps_bounded_widen(fg, mlo, m0, tlo, t0, mlo, m1, tlo, t0);
                    assert(result_temps_bounded(teg0, mlo, m1, tlo, t0));
                    lemma_result_temps_widen(teg0, mlo, m1, tlo, t0, mlo, m2, tlo, t0);
                    assert(result_temps_bounded(feg0, mlo, m2, tlo, t0));
                }
            }
            match (te, fe) {
                (ExpressionResult::Just(t2), ExpressionResult::Just(f2)) => {
                    proof {
                        lemma_expr_equiv_refl(cg);
                    }
                    let rr = ExpressionResult::Just(
                        Expression::Condition {
                            condition,
                            true_expr: Box::new(t2),
                            false_expr: Box::new(f2),
                        },
                    );
                    proof {
                        assert(classify_rel(e0, *ret_ty, m0, rr, m2)) by {
                            assert(classify_rel(tg, *ret_ty, m0, teg0, m1));
                            assert(classify_rel(fg, *ret_ty, m1, feg0, m2));
                            assert(cond_arms(tg, fg, *ret_ty, m0, teg0, m1, feg0, m2));
                            assert(classified_arms_witness(teg0, m1, feg0));
                            assert(cond_shape(teg0, feg0, cg, spec_ty(e0), *ret_ty, rr));
                        }
                        assert forall|mlo: int, tlo: int|
                            (mlo <= m0 && tlo <= t0 && temps_bounded(
                                e0,
                                mlo,
                                m0,
                                tlo,
                                t0,
                            )) implies result_temps_bounded(
                            rr,
                            mlo,
                            gen.merge as int,
                            tlo,
                            gen.materialize as int,
                        ) by {
                            assert(temps_bounded(cg, mlo, m2, tlo, t0));
                            assert(result_temps_bounded(teg0, mlo, m2, tlo, t0));
                            assert(result_temps_bounded(feg0, mlo, m2, tlo, t0));
                        }
                    }
                    rr
                },
                (ExpressionResult::Just(t2), ExpressionResult::Return(fv)) => {
                    let ghost t2g = t2;
                    proof {
                        if no_returns(tg) {
                            lemma_cleanup_equiv(t2g, tg);
                        }
                    }
                    let rr = ExpressionResult::MaybeReturn {
                        pre_statements: Vec::new(),
                        condition: *condition,
                        returned_value: fv,
                        actual_value: cleanup_empty_block(t2),
                    };
                    proof {
                        assert(classify_rel(e0, *ret_ty, m0, rr, m2)) by {
                            assert(classify_rel(tg, *ret_ty, m0, teg0, m1));
                            assert(classify_rel(fg, *ret_ty, m1, feg0, m2));
                            assert(cond_arms(tg, fg, *ret_ty, m0, teg0, m1, feg0, m2));
                            assert(classified_arms_witness(teg0, m1, feg0));
                            assert(cond_shape(teg0, feg0, cg, spec_ty(e0), *ret_ty, rr));
                        }
                        assert forall|mlo: int, tlo: int|
                            (mlo <= m0 && tlo <= t0 && temps_bounded(
                                e0,
                                mlo,
                                m0,
                                tlo,
                                t0,
                            )) implies result_temps_bounded(
                            rr,
                            mlo,
                            gen.merge as int,
                            tlo,
                            gen.materialize as int,
                        ) by {
                            assert(temps_bounded(cg, mlo, m2, tlo, t0));
                            assert(result_temps_bounded(teg0, mlo, m2, tlo, t0));
                            assert(result_temps_bounded(feg0, mlo, m2, tlo, t0));
                            assert(temps_bounded(t2g, mlo, m2, tlo, t0));
                        }
                    }
                    rr
                },
                (ExpressionResult::Return(tv), ExpressionResult::Just(f2)) => {
                    let ghost f2g = f2;
                    proof {
                        if no_returns(fg) {
                            lemma_cleanup_equiv(f2g, fg);
                        }
                    }
                    let rr = ExpressionResult::MaybeReturn {
                        pre_statements: Vec::new(),
                        condition: Expression::LogicalNot(condition),
                        returned_value: tv,
                        actual_value: cleanup_empty_block(f2),
                    };
                    proof {
                        assert(classify_rel(e0, *ret_ty, m0, rr, m2)) by {
                            assert(classify_rel(tg, *ret_ty, m0, teg0, m1));
                            assert(classify_rel(fg, *ret_ty, m1, feg0, m2));
                            assert(cond_arms(tg, fg, *ret_ty, m0, teg0, m1, feg0, m2));
                            assert(classified_arms_witness(teg0, m1, feg0));
                            assert(cond_shape(teg0, feg0, cg, spec_ty(e0), *ret_ty, rr));
                        }
                        assert forall|mlo: int, tlo: int|
                            (mlo <= m0 && tlo <= t0 && temps_bounded(
                                e0,
                                mlo,
                                m0,
                                tlo,
                                t0,
                            )) implies result_temps_bounded(
                            rr,
                            mlo,
                            gen.merge as int,
                            tlo,
                            gen.materialize as int,
                        ) by {
                            assert(temps_bounded(cg, mlo, m2, tlo, t0));
                            assert(result_temps_bounded(teg0, mlo, m2, tlo, t0));
                            assert(result_temps_bounded(feg0, mlo, m2, tlo, t0));
                            assert(temps_bounded(f2g, mlo, m2, tlo, t0));
                        }
                    }
                    rr
                },
                (te2, fe2) => {
                    let ghost teg = te2;
                    let ghost feg = fe2;
                    let tro = te2.into_return_object(&ty, ret_ty);
                    let ghost trog = tro;
                    let fro = fe2.into_return_object(&ty, ret_ty);
                    let ghost frog = fro;
                    let hv = !is_unit(&ty);
                    let hrv = !is_unit(ret_ty);
                    let rr = ExpressionResult::ReturnObject {
                        value: Expression::Condition {
                            condition,
                            true_expr: Box::new(tro),
                            false_expr: Box::new(fro),
                        },
                        has_value: hv,
                        has_return_value: hrv,
                    };
                    proof {
                        assert(classify_rel(e0, *ret_ty, m0, rr, m2)) by {
                            assert(classify_rel(tg, *ret_ty, m0, teg0, m1));
                            assert(classify_rel(fg, *ret_ty, m1, feg0, m2));
                            assert(cond_arms(tg, fg, *ret_ty, m0, teg0, m1, feg0, m2));
                            assert(classified_arms_witness(teg0, m1, feg0));
                            assert(promoted_post(teg, spec_ty(e0), *ret_ty, trog));
                            assert(promoted_post(feg, spec_ty(e0), *ret_ty, frog));
                            assert(promoted_pair(teg, feg, spec_ty(e0), *ret_ty, trog, frog));
                            assert(merged_shape(rr, cg, trog, frog, spec_ty(e0), *ret_ty));
                            assert(cond_shape(teg0, feg0, cg, spec_ty(e0), *ret_ty, rr));
                        }
                        assert forall|mlo: int, tlo: int|
                            (mlo <= m0 && tlo <= t0 && temps_bounded(
                                e0,
                                mlo,
                                m0,
                                tlo,
                                t0,
                            )) implies result_temps_bounded(
                            rr,
                            mlo,
                            gen.merge as int,
                            tlo,
                            gen.materialize as int,
                        ) by {
                            assert(temps_bounded(cg, mlo, m2, tlo, t0));
                            assert(result_temps_bounded(teg, mlo, m2, tlo, t0));
                            assert(result_temps_bounded(feg, mlo, m2, tlo, t0));
                            assert(temps_bounded(tro, mlo, m2, tlo, t0));
                            assert(temps_bounded(fro, mlo, m2, tlo, t0));
                        }
                    }
                    rr
                },
            }
        },
        other => {
            proof {
                lemma_expr_equiv_refl(e0);
            }
            ExpressionResult::Just(other)
        },
    }
}

/// Cleaning up a processed arm relates to the original arm: absent exactly
/// when the original was an empty block.
proof fn lemma_cleanup_equiv(t2: Expression, orig: Expression)
    requires
        expr_equiv(t2, orig),
    ensures
        cleanup_equiv(spec_cleanup_empty_block(t2), orig),
{
    match t2 {
        Expression::CodeBlock(v) => {
            match orig {
                Expression::CodeBlock(y) => {
                    assert(crate::ir::seq_equiv(v@, y@));
                },
                _ => {},
            }
        },
        _ => {},
    }
}

/// The sequencer's result for a block of return-free statements: a plain
/// block holding the prefix followed by the statements, unchanged up to
/// rebuilt containers.
pub open spec fn plain_block_result(
    r: ExpressionResult,
    acc: Seq<Expression>,
    stmts: Seq<Expression>,
) -> bool {
    &&& r matches ExpressionResult::Just(x)
    &&& x matches Expression::CodeBlock(w)
    &&& w@.len() == acc.len() + stmts.len()
    &&& w@.subrange(0, acc.len() as int) == acc
    &&& forall|j: int| 0 <= j < stmts.len() ==> expr_equiv(#[trigger] w@[acc.len() + j], stmts[j])
}

/// Process a block's statements left to right, folding each classified
/// statement into the already-finalized prefix `acc`.  `ty` is the block's
/// own declared value type.
pub fn process_codeblock(
    stmts: Vec<Expression>,
    acc: Vec<Expression>,
    ty: &Type,
    ret_ty: &Type,
    gen: &mut NameGen,
) -> (r: ExpressionResult)
    requires
        old(gen).merge + size_seq(stmts@) <= u64::MAX,
    ensures
        no_returns_seq(stmts@) ==> plain_block_result(r, acc@, stmts@) && *final(gen) == *old(
            gen,
        ),
        forall|k: int|
            first_return_at(stmts@, k) ==> short_circuit_post(r, acc@, stmts@, k) && *final(gen)
                == *old(gen),
        (returns_legal_seq(stmts@) && no_returns_seq(acc@)) ==> result_no_returns(r),
        codeblock_rel(
            stmts@,
            acc@,
            *ty,
            *ret_ty,
            old(gen).merge as int,
            r,
            final(gen).merge as int,
        ),
        forall|mlo: int, tlo: int|
            (mlo <= old(gen).merge && tlo <= old(gen).materialize && seq_temps_bounded(
                stmts@,
                mlo,
                old(gen).merge as int,
                tlo,
                old(gen).materialize as int,
            ) && seq_temps_bounded(
                acc@,
                mlo,
                old(gen).merge as int,
                tlo,
                old(gen).materialize as int,
            )) ==> result_temps_bounded(
                r,
                mlo,
                final(gen).merge as int,
                tlo,
                final(gen).materialize as int,
            ),
        final(gen).merge >= old(gen).merge,
        final(gen).merge <= old(gen).merge + size_seq(stmts@),
        final(gen).materialize == old(gen).materialize,
    decreases size_seq(stmts@), 1int,
{
    let ghost s0 = stmts@;
    let ghost a0 = acc@;
    let ghost m0 = old(gen).merge as int;
    let ghost t0 = old(gen).materialize as int;
    if stmts.len() == 0 {
        proof {
            assert(a0.subrange(0, a0.len() as int) =~= a0);
        }
        let rr = ExpressionResult::Just(Expression::CodeBlock(acc));
        proof {
            assert(codeblock_rel(s0, a0, *ty, *ret_ty, m0, rr, m0));
        }
        return rr;
    }
    let mut rest = stmts;
    let e0 = rest.remove(0);
    proof {
        assert(s0.drop_first() =~= rest@);
        lemma_size_pos(e0);
        if returns_legal_seq(s0) {
            lemma_returns_legal_seq_index(s0);
        }
        if no_returns_seq(s0) {
            lemma_no_returns_seq_index(s0);
        }
    }
    let res = process_expression(e0, ret_ty, gen);
    let ghost m1 = gen.merge as int;
    let ghost resg = res;
    match res {
        ExpressionResult::Just(x) => {
            let ghost xg = x;
            let mut acc2 = acc;
            acc2.push(x);
            proof {
                if returns_legal_seq(s0) && no_returns_seq(a0) {
                    lemma_no_returns_seq_index(a0);
                    lemma_no_returns_seq_build(acc2@);
                }
            }
            let r = process_codeblock(rest, acc2, ty, ret_ty, gen);
            proof {
                assert(codeblock_rel(s0, a0, *ty, *ret_ty, m0, r, gen.merge as int)) by {
                    assert(classify_rel(s0[0], *ret_ty, m0, resg, m1));
                    assert(classified_step_witness(resg, m1));
                    assert(codeblock_rel(
                        s0.drop_first(),
                        a0.push(xg),
                        *ty,
                        *ret_ty,
                        m1,
                        r,
                        gen.merge as int,
                    ));
                    assert(fold_step_shape(resg, s0, a0, *ty, *ret_ty, m1, r, gen.merge as int));
                }
                assert(!(s0[0] is ReturnStatement));
                lemma_sequencer_just_steps(r, a0, xg, s0, rest@);
                assert forall|k: int| first_return_at(s0, k) implies short_circuit_post(
                    r,
                    a0,
                    s0,
                    k,
                ) && *gen == *old(gen) by {
                    assert(first_return_at(rest@, k - 1));
                    assert(no_returns(s0[0]));
                }
                assert forall|mlo: int, tlo: int|
                    (mlo <= m0 && tlo <= t0 && seq_temps_bounded(s0, mlo, m0, tlo, t0)
                        && seq_temps_bounded(a0, mlo, m0, tlo, t0)) implies result_temps_bounded(
                    r,
                    mlo,
                    gen.merge as int,
                    tlo,
                    gen.materialize as int,
                ) by {
                    assert(temps_bounded(s0[0], mlo, m0, tlo, t0));
                    assert(result_temps_bounded(ExpressionResult::Just(xg), mlo, m1, tlo, t0));
                    assert(temps_bounded(xg, mlo, m1, tlo, t0));
                    lemma_seq_temps_bounded_widen(a0, mlo, m0, tlo, t0, mlo, m1, tlo, t0);
                    lemma_seq_temps_bounded_index(a0, mlo, m1, tlo, t0);
                    assert forall|i: int| 0 <= i < a0.push(xg).len() implies temps_bounded(
                        #[trigger] a0.push(xg)[i],
                        mlo,
                        m1,
                        tlo,
                        t0,
                    ) by {
                        if i < a0.len() {
                            assert(a0.push(xg)[i] == a0[i]);
                        } else {
                            assert(a0.push(xg)[i] == xg);
                        }
                    }
                    lemma_seq_temps_bounded_build(a0.push(xg), mlo, m1, tlo, t0);
                    lemma_seq_temps_bounded_widen(
                        s0.drop_first(),
                        mlo,
                        m0,
                        tlo,
                        t0,
                        mlo,
                        m1,
                        tlo,
                        t0,
                    );
                }
            }
            r
        },
        ExpressionResult::Return(x) => {
            let ghost xg = x;
            let mut acc2 = acc;
            match x {
                Some(v) => acc2.push(v),
                None => {},
            }
            let ghost acc2g = acc2@;
            let r = if acc2.len() == 0 {
                ExpressionResult::Return(None)
            } else {
                ExpressionResult::Return(Some(Expression::CodeBlock(acc2)))
            };
            proof {
                assert(codeblock_rel(s0, a0, *ty, *ret_ty, m0, r, gen.merge as int)) by {
                    assert(classify_rel(s0[0], *ret_ty, m0, resg, m1));
                    assert(classified_step_witness(resg, m1));
                    assert(short_circuit_shape(r, a0, xg));
                    assert(fold_step_shape(resg, s0, a0, *ty, *ret_ty, m1, r, gen.merge as int));
                }
                assert forall|mlo: int, tlo: int|
                    (mlo <= m0 && tlo <= t0 && seq_temps_bounded(s0, mlo, m0, tlo, t0)
                        && seq_temps_bounded(a0, mlo, m0, tlo, t0)) implies result_temps_bounded(
                    r,
                    mlo,
                    gen.merge as int,
                    tlo,
                    gen.materialize as int,
                ) by {
                    assert(temps_bounded(s0[0], mlo, m0, tlo, t0));
                    assert(result_temps_bounded(ExpressionResult::Return(xg), mlo, m1, tlo, t0));
                    lemma_seq_temps_bounded_widen(a0, mlo, m0, tlo, t0, mlo, m1, tlo, t0);
                    lemma_seq_temps_bounded_index(a0, mlo, m1, tlo, t0);
                    assert forall|i: int| 0 <= i < acc2g.len() implies temps_bounded(
                        #[trigger] acc2g[i],
                        mlo,
                        m1,
                        tlo,
                        t0,
                    ) by {
                        match xg {
                            Some(v) => {
                                if i < a0.len() {
                                    assert(acc2g[i] == a0[i]);
                                } else {
                                    assert(acc2g[i] == v);
                                    assert(temps_bounded(v, mlo, m1, tlo, t0));
                                }
                            },
                            None => {
                                assert(acc2g[i] == a0[i]);
                            },
                        }
                    }
                    lemma_seq_temps_bounded_build(acc2g, mlo, m1, tlo, t0);
                }
                assert(acc2@.subrange(0, a0.len() as int) =~= a0);
                if returns_legal_seq(s0) && no_returns_seq(a0) {
                    lemma_no_returns_seq_index(a0);
                    lemma_no_returns_seq_build(acc2@);
                }
                assert forall|k: int| first_return_at(s0, k) implies short_circuit_post(
                    r,
                    a0,
                    s0,
                    k,
                ) by {
                    assert(k == 0);
                }
            }
            r
        },
        ExpressionResult::MaybeReturn { pre_statements, condition, returned_value, actual_value } => {
            let ghost preg2 = pre_statements@;
            let ghost cg3 = condition;
            let ghost rvg3 = returned_value;
            let ghost avg3 = actual_value;
            let mut acc2 = acc;
            let mut pre = pre_statements;
            acc2.append(&mut pre);
            let ghost acc2g = acc2@;
            proof {
                if returns_legal_seq(s0) && no_returns_seq(a0) {
                    lemma_no_returns_seq_index(a0);
                    lemma_no_returns_seq_index(preg2);
                    lemma_no_returns_seq_build(acc2@);
                }
            }
            if rest.len() == 0 {
                let r = ExpressionResult::MaybeReturn {
                    pre_statements: acc2,
                    condition,
                    returned_value,
                    actual_value,
                };
                proof {
                    assert(codeblock_rel(s0, a0, *ty, *ret_ty, m0, r, gen.merge as int)) by {
                        assert(classify_rel(s0[0], *ret_ty, m0, resg, m1));
                        assert(classified_step_witness(resg, m1));
                        assert(s0.len() == 1);
                        assert(acc2g == a0 + preg2);
                        assert(propagate_guard_shape(r, a0 + preg2, cg3, rvg3, avg3));
                        assert(fold_step_shape(resg, s0, a0, *ty, *ret_ty, m1, r, gen.merge as int));
                    }
                    assert forall|mlo: int, tlo: int|
                        (mlo <= m0 && tlo <= t0 && seq_temps_bounded(s0, mlo, m0, tlo, t0)
                            && seq_temps_bounded(
                            a0,
                            mlo,
                            m0,
                            tlo,
                            t0,
                        )) implies result_temps_bounded(
                        r,
                        mlo,
                        gen.merge as int,
                        tlo,
                        gen.materialize as int,
                    ) by {
                        assert(temps_bounded(s0[0], mlo, m0, tlo, t0));
                        assert(result_temps_bounded(resg, mlo, m1, tlo, t0));
                        lemma_seq_temps_bounded_widen(a0, mlo, m0, tlo, t0, mlo, m1, tlo, t0);
                        lemma_seq_temps_bounded_index(a0, mlo, m1, tlo, t0);
                        lemma_seq_temps_bounded_index(preg2, mlo, m1, tlo, t0);
                        assert forall|i: int| 0 <= i < acc2g.len() implies temps_bounded(
                            #[trigger] acc2g[i],
                            mlo,
                            m1,
                            tlo,
                            t0,
                        ) by {
                            if i < a0.len() {
                                assert(acc2g[i] == a0[i]);
                            } else {
                                assert(acc2g[i] == preg2[i - a0.len()]);
                            }
                        }
                        lemma_seq_temps_bounded_build(acc2g, mlo, m1, tlo, t0);
                    }
                }
                r
            } else {
                let wrapped = ExpressionResult::MaybeReturn {
                    pre_statements: Vec::new(),
                    condition,
                    returned_value,
                    actual_value,
                };
                let ghost wg = wrapped;
                let ro = wrapped.into_return_object(ty, ret_ty);
                let ghost rog = ro;
                let hrv = !is_unit(ret_ty);
                let hv = !is_unit(ty);
                let r = continue_codeblock(rest, ty, ret_ty, gen, ro, acc2, hrv, hv);
                proof {
                    assert(codeblock_rel(s0, a0, *ty, *ret_ty, m0, r, gen.merge as int)) by {
                        assert(classify_rel(s0[0], *ret_ty, m0, resg, m1));
                        assert(classified_step_witness(resg, m1));
                        assert(s0.len() > 1);
                        assert(promoted_post(wg, *ty, *ret_ty, rog));
                        match wg {
                            ExpressionResult::MaybeReturn {
                                pre_statements: wp,
                                condition: wc,
                                returned_value: wrv,
                                actual_value: wav,
                            } => {
                                assert(wp@.len() == 0);
                                assert(guard_node(wc, wrv, wav, *ty, *ret_ty, rog));
                            },
                            _ => {},
                        }
                        assert(continue_rel(
                            s0.drop_first(),
                            *ty,
                            *ret_ty,
                            m1,
                            rog,
                            a0 + preg2,
                            !is_unit_type(*ret_ty),
                            !is_unit_type(*ty),
                            r,
                            gen.merge as int,
                        ));
                        assert(fold_step_shape(resg, s0, a0, *ty, *ret_ty, m1, r, gen.merge as int));
                    }
                    assert forall|mlo: int, tlo: int|
                        (mlo <= m0 && tlo <= t0 && seq_temps_bounded(s0, mlo, m0, tlo, t0)
                            && seq_temps_bounded(
                            a0,
                            mlo,
                            m0,
                            tlo,
                            t0,
                        )) implies result_temps_bounded(
                        r,
                        mlo,
                        gen.merge as int,
                        tlo,
                        gen.materialize as int,
                    ) by {
                        assert(temps_bounded(s0[0], mlo, m0, tlo, t0));
                        assert(result_temps_bounded(resg, mlo, m1, tlo, t0));
                        assert(result_temps_bounded(wg, mlo, m1, tlo, t0));
                        assert(temps_bounded(rog, mlo, m1, tlo, t0));
                        lemma_seq_temps_bounded_widen(a0, mlo, m0, tlo, t0, mlo, m1, tlo, t0);
                        lemma_seq_temps_bounded_index(a0, mlo, m1, tlo, t0);
                        lemma_seq_temps_bounded_index(preg2, mlo, m1, tlo, t0);
                        assert forall|i: int| 0 <= i < acc2g.len() implies temps_bounded(
                            #[trigger] acc2g[i],
                            mlo,
                            m1,
                            tlo,
                            t0,
                        ) by {
                            if i < a0.len() {
                                assert(acc2g[i] == a0[i]);
                            } else {
                                assert(acc2g[i] == preg2[i - a0.len()]);
                            }
                        }
                        lemma_seq_temps_bounded_build(acc2g, mlo, m1, tlo, t0);
                        lemma_seq_temps_bounded_widen(
                            s0.drop_first(),
                            mlo,
                            m0,
                            tlo,
                            t0,
                            mlo,
                            m1,
                            tlo,
                            t0,
                        );
                    }
                }
                r
            }
        },
        ExpressionResult::ReturnObject { value, has_value, has_return_value } => {
            let ghost vg = value;
            if rest.len() == 0 {
                let ghost ag = acc@;
                let r = ExpressionResult::ReturnObject {
                    value: codeblock_with_expr(acc, value),
                    has_value,
                    has_return_value,
                };
                proof {
                    assert(codeblock_rel(s0, a0, *ty, *ret_ty, m0, r, gen.merge as int)) by {
                        assert(classify_rel(s0[0], *ret_ty, m0, resg, m1));
                        assert(classified_step_witness(resg, m1));
                        assert(s0.len() == 1);
                        assert(propagate_merged_shape(r, a0, vg, has_value, has_return_value));
                        assert(fold_step_shape(resg, s0, a0, *ty, *ret_ty, m1, r, gen.merge as int));
                    }
                    if returns_legal_seq(s0) && no_returns_seq(a0) {
                        lemma_no_returns_seq_index(a0);
                        lemma_no_returns_seq_build(ag.push(vg));
                    }
                    assert forall|mlo: int, tlo: int|
                        (mlo <= m0 && tlo <= t0 && seq_temps_bounded(s0, mlo, m0, tlo, t0)
                            && seq_temps_bounded(
                            a0,
                            mlo,
                            m0,
                            tlo,
                            t0,
                        )) implies result_temps_bounded(
                        r,
                        mlo,
                        gen.merge as int,
                        tlo,
                        gen.materialize as int,
                    ) by {
                        assert(temps_bounded(s0[0], mlo, m0, tlo, t0));
                        assert(result_temps_bounded(resg, mlo, m1, tlo, t0));
                        assert(temps_bounded(vg, mlo, m1, tlo, t0));
                        lemma_seq_temps_bounded_widen(a0, mlo, m0, tlo, t0, mlo, m1, tlo, t0);
                        lemma_seq_temps_bounded_index(a0, mlo, m1, tlo, t0);
                        if a0.len() > 0 {
                            assert forall|i: int| 0 <= i < a0.push(vg).len() implies temps_bounded(
                                #[trigger] a0.push(vg)[i],
                                mlo,
                                m1,
                                tlo,
                                t0,
                            ) by {
                                if i < a0.len() {
                                    assert(a0.push(vg)[i] == a0[i]);
                                } else {
                                    assert(a0.push(vg)[i] == vg);
                                }
                            }
                            lemma_seq_temps_bounded_build(a0.push(vg), mlo, m1, tlo, t0);
                        }
                    }
                }
                r
            } else {
                let r = continue_codeblock(
                    rest,
                    ty,
                    ret_ty,
                    gen,
                    value,
                    acc,
                    has_return_value,
                    has_value,
                );
                proof {
                    assert(codeblock_rel(s0, a0, *ty, *ret_ty, m0, r, gen.merge as int)) by {
                        assert(classify_rel(s0[0], *ret_ty, m0, resg, m1));
                        assert(classified_step_witness(resg, m1));
                        assert(s0.len() > 1);
                        assert(continue_rel(
                            s0.drop_first(),
                            *ty,
                            *ret_ty,
                            m1,
                            vg,
                            a0,
                            has_return_value,
                            has_value,
                            r,
                            gen.merge as int,
                        ));
                        assert(fold_step_shape(resg, s0, a0, *ty, *ret_ty, m1, r, gen.merge as int));
                    }
                    assert forall|mlo: int, tlo: int|
                        (mlo <= m0 && tlo <= t0 && seq_temps_bounded(s0, mlo, m0, tlo, t0)
                            && seq_temps_bounded(
                            a0,
                            mlo,
                            m0,
                            tlo,
                            t0,
                        )) implies result_temps_bounded(
                        r,
                        mlo,
                        gen.merge as int,
                        tlo,
                        gen.materialize as int,
                    ) by {
                        assert(temps_bounded(s0[0], mlo, m0, tlo, t0));
                        assert(result_temps_bounded(resg, mlo, m1, tlo, t0));
                        assert(temps_bounded(vg, mlo, m1, tlo, t0));
                        lemma_seq_temps_bounded_widen(a0, mlo, m0, tlo, t0, mlo, m1, tlo, t0);
                        lemma_seq_temps_bounded_widen(
                            s0.drop_first(),
                            mlo,
                            m0,
                            tlo,
                            t0,
                            mlo,
                            m1,
                            tlo,
                            t0,
                        );
                    }
                }
                r
            }
        },
    }
}

/// Transfer the sequencer's postconditions across one plain step: statement
/// `0` classified plain and pushed onto the prefix.
proof fn lemma_sequencer_just_steps(
    r: ExpressionResult,
    a0: Seq<Expression>,
    x: Expression,
    s0: Seq<Expression>,
    rest: Seq<Expression>,
)
    requires
        s0.len() > 0,
        !(s0[0] is ReturnStatement),
        rest == s0.drop_first(),
        no_returns(s0[0]) ==> expr_equiv(x, s0[0]),
        no_returns_seq(rest) ==> plain_block_result(r, a0.push(x), rest),
        forall|k: int| first_return_at(rest, k) ==> short_circuit_post(r, a0.push(x), rest, k),
    ensures
        no_returns_seq(s0) ==> plain_block_result(r, a0, s0),
        forall|k: int| first_return_at(s0, k) ==> short_circuit_post(r, a0, s0, k),
        forall|k: int| first_return_at(s0, k) ==> first_return_at(rest, k - 1),
{
    assert forall|k: int| first_return_at(s0, k) implies first_return_at(rest, k - 1) by {
        assert(k > 0);
        assert(rest[k - 1] == s0[k]);
        assert(forall|j: int| 0 <= j < k - 1 ==> #[trigger] rest[j] == s0[j + 1]);
    }
    if no_returns_seq(s0) {
        match r {
            ExpressionResult::Just(y) => {
                match y {
                    Expression::CodeBlock(w) => {
                        assert(w@.subrange(0, a0.len() as int) =~= a0) by {
                            assert(forall|i: int|
                                0 <= i < a0.len() + 1 ==> w@.subrange(0, a0.len() as int + 1)[i]
                                    == #[trigger] w@[i]);
                            assert(forall|i: int|
                                0 <= i < a0.len() ==> a0.push(x)[i] == #[trigger] a0[i]);
                        }
                        assert forall|j: int| 0 <= j < s0.len() implies expr_equiv(
                            #[trigger] w@[a0.len() + j],
                            s0[j],
                        ) by {
                            if j == 0 {
                                assert(w@.subrange(0, a0.len() as int + 1)[a0.len() as int]
                                    == w@[a0.len() as int]);
                                assert(a0.push(x)[a0.len() as int] == x);
                            } else {
                                assert(expr_equiv(w@[a0.len() + 1 + (j - 1)], rest[j - 1]));
                                assert(rest[j - 1] == s0[j]);
                            }
                        }
                    },
                    _ => {},
                }
            },
            _ => {},
        }
    }
    assert forall|k: int| first_return_at(s0, k) implies short_circuit_post(r, a0, s0, k) by {
        assert(k > 0);
        assert(first_return_at(rest, k - 1)) by {
            assert(rest[k - 1] == s0[k]);
            assert(forall|j: int| 0 <= j < k - 1 ==> #[trigger] rest[j] == s0[j + 1]);
        }
        assert(short_circuit_post(r, a0.push(x), rest, k - 1));
        lemma_short_circuit_shift(r, a0, x, s0, rest, k);
    }
}

/// Shift a short-circuit description across one pushed prefix element.
proof fn lemma_short_circuit_shift(
    r: ExpressionResult,
    a0: Seq<Expression>,
    x: Expression,
    s0: Seq<Expression>,
    rest: Seq<Expression>,
    k: int,
)
    requires
        s0.len() > 0,
        rest == s0.drop_first(),
        0 < k < s0.len(),
        no_returns(s0[0]),
        expr_equiv(x, s0[0]),
        s0[k] is ReturnStatement,
        short_circuit_post(r, a0.push(x), rest, k - 1),
    ensures
        short_circuit_post(r, a0, s0, k),
{
    assert(rest[k - 1] == s0[k]);
    let acc1 = a0.push(x);
    match s0[k] {
        Expression::ReturnStatement(p) => {
            let prefix_ok = |w: Seq<Expression>|
                {
                    &&& w.subrange(0, acc1.len() as int) == acc1
                };
            match r {
                ExpressionResult::Return(ov) => {
                    match ov {
                        Some(b) => {
                            match b {
                                Expression::CodeBlock(w) => {
                                    assert(w@.subrange(0, a0.len() as int) =~= a0) by {
                                        assert(forall|i: int|
                                            0 <= i < acc1.len() ==> w@.subrange(
                                                0,
                                                acc1.len() as int,
                                            )[i] == #[trigger] w@[i]);
                                        assert(forall|i: int|
                                            0 <= i < a0.len() ==> acc1[i] == #[trigger] a0[i]);
                                    }
                                    assert forall|j: int| 0 <= j < k implies expr_equiv(
                                        #[trigger] w@[a0.len() + j],
                                        s0[j],
                                    ) by {
                                        if j == 0 {
                                            assert(w@.subrange(0, acc1.len() as int)[a0.len() as int]
                                                == w@[a0.len() as int]);
                                            assert(acc1[a0.len() as int] == x);
                                        } else {
                                            assert(expr_equiv(
                                                w@[acc1.len() + (j - 1)],
                                                rest[j - 1],
                                            ));
                                            assert(rest[j - 1] == s0[j]);
                                        }
                                    }
                                },
                                _ => {},
                            }
                        },
                        None => {},
                    }
                },
                _ => {},
            }
        },
        _ => {},
    }
}

/// The store of the merged record into a freshly minted temporary of the
/// merge naming scheme, followed by the guard on the stored `condition`
/// slot.
pub open spec fn store_shape(
    st: Expression,
    return_object: Expression,
    mlo: int,
    mhi: int,
    has_rv: bool,
    ty: Type,
    ret_ty: Type,
    g: Expression,
) -> bool {
    &&& st matches Expression::StoreLocalVariable { name, value: sv }
    &&& *sv == return_object
    &&& name.kind == NameKind::Merge
    &&& mlo <= name.index < mhi
    &&& guard_shape(g, name, spec_ty(return_object), has_rv, ty, ret_ty)
}

/// What folding a merged statement into the remaining block returns: the
/// merged record form whose block is the prefix, the store of the record
/// into a fresh temporary, and the guard conditional.
pub open spec fn continue_post(
    r: ExpressionResult,
    stmts: Seq<Expression>,
    return_object: Expression,
    has_value: bool,
    has_return_value: bool,
    mlo: int,
    mhi: int,
    ty: Type,
    ret_ty: Type,
) -> bool {
    &&& r matches ExpressionResult::ReturnObject { value, has_value: hv2, has_return_value: hr2 }
    &&& hv2 == has_value
    &&& hr2 == has_return_value
    &&& value matches Expression::CodeBlock(w)
    &&& w@.len() == stmts.len() + 2
    &&& w@.subrange(0, stmts.len() as int) == stmts
    &&& store_shape(
        w@[stmts.len() as int],
        return_object,
        mlo,
        mhi,
        has_return_value,
        ty,
        ret_ty,
        w@[w@.len() - 1],
    )
}

/// Marker naming the classifications of a conditional's two arms; the
/// quantifiers of the transformation relation match on it.
pub open spec fn classified_arms_witness(te: ExpressionResult, ma: int, fe: ExpressionResult) -> bool {
    true
}

/// Marker naming one classified statement of a block.
pub open spec fn classified_step_witness(res: ExpressionResult, ma: int) -> bool {
    true
}

/// Marker naming the processed remainder of a block and its promotion.
pub open spec fn folded_rest_witness(rec: ExpressionResult, ma: int, rest_obj: Expression) -> bool {
    true
}

/// The transformation itself, as a relation between an expression, the
/// merge counter before, the classified result, and the counter after.
/// It mirrors the classifier case by case and, with `codeblock_rel` and
/// `continue_rel`, fixes the output of the whole pass: for given inputs and
/// counter exactly one result satisfies it.
pub open spec fn classify_rel(
    e: Expression,
    ret: Type,
    m0: int,
    r: ExpressionResult,
    m1: int,
) -> bool
    decreases size(e), 0int, 0int,
{
    match e {
        Expression::ReturnStatement(p) => r == ExpressionResult::Return(unbox_opt(p)) && m1 == m0,
        Expression::CodeBlock(stmts) => codeblock_rel(
            stmts@,
            Seq::empty(),
            spec_ty(e),
            ret,
            m0,
            r,
            m1,
        ),
        Expression::Condition { condition, true_expr, false_expr } => {
            exists|te: ExpressionResult, ma: int, fe: ExpressionResult|
                {
                    &&& #[trigger] classified_arms_witness(te, ma, fe)
                    &&& cond_arms(*true_expr, *false_expr, ret, m0, te, ma, fe, m1)
                    &&& cond_shape(te, fe, *condition, spec_ty(e), ret, r)
                }
        },
        _ => r == ExpressionResult::Just(e) && m1 == m0,
    }
}

/// Both arms of a conditional, classified in order with the counter
/// threaded through.
pub open spec fn cond_arms(
    t: Expression,
    f: Expression,
    ret: Type,
    m0: int,
    te: ExpressionResult,
    ma: int,
    fe: ExpressionResult,
    m1: int,
) -> bool
    decreases size(t) + size(f), 0int, 1int,
{
    &&& classify_rel(t, ret, m0, te, ma)
    &&& classify_rel(f, ret, ma, fe, m1)
}

/// How the classifier combines the two classified arms of a conditional
/// with continue condition `cond` and declared type `ty`.
pub open spec fn cond_shape(
    te: ExpressionResult,
    fe: ExpressionResult,
    cond: Expression,
    ty: Type,
    ret: Type,
    r: ExpressionResult,
) -> bool {
    match (te, fe) {
        (ExpressionResult::Just(t2), ExpressionResult::Just(f2)) => {
            &&& r matches ExpressionResult::Just(x)
            &&& x matches Expression::Condition { condition: c2, true_expr: t3, false_expr: f3 }
            &&& *c2 == cond
            &&& *t3 == t2
            &&& *f3 == f2
        },
        (ExpressionResult::Just(t2), ExpressionResult::Return(fv)) => {
            &&& r matches ExpressionResult::MaybeReturn {
                pre_statements,
                condition: c2,
                returned_value,
                actual_value,
            }
            &&& pre_statements@.len() == 0
            &&& c2 == cond
            &&& returned_value == fv
            &&& actual_value == spec_cleanup_empty_block(t2)
        },
        (ExpressionResult::Return(tv), ExpressionResult::Just(f2)) => {
            &&& r matches ExpressionResult::MaybeReturn {
                pre_statements,
                condition: c2,
                returned_value,
                actual_value,
            }
            &&& pre_statements@.len() == 0
            &&& (c2 matches Expression::LogicalNot(nb) && *nb == cond)
            &&& returned_value == tv
            &&& actual_value == spec_cleanup_empty_block(f2)
        },
        _ => {
            exists|tro: Expression, fro: Expression|
                {
                    &&& #[trigger] promoted_pair(te, fe, ty, ret, tro, fro)
                    &&& merged_shape(r, cond, tro, fro, ty, ret)
                }
        },
    }
}

/// The merged record form the classifier builds when neither arm stays
/// plain or purely returning: a conditional between the two promoted
/// records, flagged by whether the conditional's own type and the return
/// type can hold values.
pub open spec fn merged_shape(
    r: ExpressionResult,
    cond: Expression,
    tro: Expression,
    fro: Expression,
    ty: Type,
    ret: Type,
) -> bool {
    &&& r matches ExpressionResult::ReturnObject { value, has_value, has_return_value }
    &&& has_value == !is_unit_type(ty)
    &&& has_return_value == !is_unit_type(ret)
    &&& value matches Expression::Condition { condition: c2, true_expr: t3, false_expr: f3 }
    &&& *c2 == cond
    &&& *t3 == tro
    &&& *f3 == fro
}

/// Both classified arms promoted to the record form.
pub open spec fn promoted_pair(
    te: ExpressionResult,
    fe: ExpressionResult,
    ty: Type,
    ret: Type,
    tro: Expression,
    fro: Expression,
) -> bool {
    promoted_post(te, ty, ret, tro) && promoted_post(fe, ty, ret, fro)
}

/// The sequencer as a relation: fold the statements left to right onto the
/// finalized prefix `acc`, short-circuiting on an unconditional return and
/// folding a guarded or merged statement with trailing code through
/// `continue_rel`; a guarded or merged last statement is propagated with
/// the prefix attached and no temporary minted.
pub open spec fn codeblock_rel(
    stmts: Seq<Expression>,
    acc: Seq<Expression>,
    ty: Type,
    ret: Type,
    m0: int,
    r: ExpressionResult,
    m1: int,
) -> bool
    decreases size_seq(stmts), stmts.len(), 1int,
{
    if stmts.len() == 0 {
        &&& r matches ExpressionResult::Just(x)
        &&& x matches Expression::CodeBlock(w)
        &&& w@ == acc
        &&& m1 == m0
    } else {
        exists|res: ExpressionResult, ma: int|
            {
                &&& #[trigger] classified_step_witness(res, ma)
                &&& classify_rel(stmts[0], ret, m0, res, ma)
                &&& fold_step_shape(res, stmts, acc, ty, ret, ma, r, m1)
            }
    }
}

/// How the sequencer folds one classified statement into the block: a plain
/// statement joins the prefix, an unconditional return short-circuits, and
/// a guarded or merged statement is propagated when last or folded through
/// `continue_rel` when followed by more statements.
pub open spec fn fold_step_shape(
    res: ExpressionResult,
    stmts: Seq<Expression>,
    acc: Seq<Expression>,
    ty: Type,
    ret: Type,
    ma: int,
    r: ExpressionResult,
    m1: int,
) -> bool
    decreases size_seq(stmts), stmts.len(), 0int,
{
    if stmts.len() == 0 {
        true
    } else {
        match res {
            ExpressionResult::Just(x) => codeblock_rel(
                stmts.drop_first(),
                acc.push(x),
                ty,
                ret,
                ma,
                r,
                m1,
            ),
            ExpressionResult::Return(v) => m1 == ma && short_circuit_shape(r, acc, v),
            ExpressionResult::MaybeReturn {
                pre_statements,
                condition,
                returned_value,
                actual_value,
            } => {
                if stmts.len() == 1 {
                    &&& propagate_guard_shape(
                        r,
                        acc + pre_statements@,
                        condition,
                        returned_value,
                        actual_value,
                    )
                    &&& m1 == ma
                } else {
                    exists|ro: Expression|
                        {
                            &&& #[trigger] guard_node(
                                condition,
                                returned_value,
                                actual_value,
                                ty,
                                ret,
                                ro,
                            )
                            &&& continue_rel(
                                stmts.drop_first(),
                                ty,
                                ret,
                                ma,
                                ro,
                                acc + pre_statements@,
                                !is_unit_type(ret),
                                !is_unit_type(ty),
                                r,
                                m1,
                            )
                        }
                }
            },
            ExpressionResult::ReturnObject { value, has_value, has_return_value } => {
                if stmts.len() == 1 {
                    &&& propagate_merged_shape(r, acc, value, has_value, has_return_value)
                    &&& m1 == ma
                } else {
                    continue_rel(
                        stmts.drop_first(),
                        ty,
                        ret,
                        ma,
                        value,
                        acc,
                        has_return_value,
                        has_value,
                        r,
                        m1,
                    )
                }
            },
        }
    }
}

/// A statement classified as an unconditional return ends the block: the
/// prefix followed by the payload, and everything after it dropped.
pub open spec fn short_circuit_shape(
    r: ExpressionResult,
    acc: Seq<Expression>,
    v: Option<Expression>,
) -> bool {
    match v {
        Some(x) => {
            &&& r matches ExpressionResult::Return(ov)
            &&& ov matches Some(b)
            &&& b matches Expression::CodeBlock(w)
            &&& w@ == acc.push(x)
        },
        None => {
            if acc.len() == 0 {
                r == ExpressionResult::Return(None::<Expression>)
            } else {
                &&& r matches ExpressionResult::Return(ov)
                &&& ov matches Some(b)
                &&& b matches Expression::CodeBlock(w)
                &&& w@ == acc
            }
        },
    }
}

/// A guarded last statement is propagated unchanged, with the finalized
/// prefix attached to its leading statements.
pub open spec fn propagate_guard_shape(
    r: ExpressionResult,
    pre: Seq<Expression>,
    condition: Expression,
    returned_value: Option<Expression>,
    actual_value: Option<Expression>,
) -> bool {
    &&& r matches ExpressionResult::MaybeReturn {
        pre_statements: p2,
        condition: c2,
        returned_value: rv2,
        actual_value: av2,
    }
    &&& p2@ == pre
    &&& c2 == condition
    &&& rv2 == returned_value
    &&& av2 == actual_value
}

/// A merged last statement is propagated unchanged, with both flags kept
/// and the finalized prefix attached to its record expression.
pub open spec fn propagate_merged_shape(
    r: ExpressionResult,
    acc: Seq<Expression>,
    value: Expression,
    has_value: bool,
    has_return_value: bool,
) -> bool {
    &&& r matches ExpressionResult::ReturnObject {
        value: v2,
        has_value: hv2,
        has_return_value: hr2,
    }
    &&& hv2 == has_value
    &&& hr2 == has_return_value
    &&& codeblock_with_expr_post(acc, value, v2)
}

/// Folding a merged statement into the remaining block, as a relation: the
/// remainder is processed and promoted, one merge temporary is minted (so
/// the counter grows by exactly one past the remainder's), the record is
/// stored into it once, and the guard on the stored `condition` slot holds
/// the promoted remainder as its continue branch and the promoted return of
/// the stored `returned` slot as its other branch.
pub open spec fn continue_rel(
    rest: Seq<Expression>,
    ty: Type,
    ret: Type,
    m0: int,
    robj: Expression,
    stmts: Seq<Expression>,
    has_rv: bool,
    has_v: bool,
    r: ExpressionResult,
    m1: int,
) -> bool
    decreases size_seq(rest), rest.len(), 3int,
{
    exists|rec: ExpressionResult, ma: int, rest_obj: Expression|
        {
            &&& #[trigger] folded_rest_witness(rec, ma, rest_obj)
            &&& continue_step(rest, ty, ret, m0, rec, ma, rest_obj)
            &&& m1 == ma + 1
            &&& continue_shape(r, stmts, robj, has_rv, has_v, ma, rest_obj, ty, ret)
        }
}

/// The expression one merge-point fold builds: the finalized prefix, the
/// single store of the statement's record into the temporary minted at
/// counter value `ma`, and the guard on the stored `condition` slot whose
/// continue branch is the promoted remainder `rest_obj` and whose other
/// branch is the promoted return of the stored `returned` slot.
pub open spec fn continue_shape(
    r: ExpressionResult,
    stmts: Seq<Expression>,
    robj: Expression,
    has_rv: bool,
    has_v: bool,
    ma: int,
    rest_obj: Expression,
    ty: Type,
    ret: Type,
) -> bool {
    &&& r matches ExpressionResult::ReturnObject {
        value,
        has_value: hv2,
        has_return_value: hr2,
    }
    &&& hv2 == has_v
    &&& hr2 == has_rv
    &&& value matches Expression::CodeBlock(w)
    &&& w@.len() == stmts.len() + 2
    &&& w@.subrange(0, stmts.len() as int) == stmts
    &&& w@[stmts.len() as int] matches Expression::StoreLocalVariable { name, value: sv }
    &&& *sv == robj
    &&& name == (TempName { kind: NameKind::Merge, index: ma as u64 })
    &&& w@[w@.len() - 1] matches Expression::Condition {
        condition: gc,
        true_expr: gt,
        false_expr: gf,
    }
    &&& (*gc) matches Expression::StructFieldAccess { base, field }
    &&& field == FieldName::Condition
    &&& *base == (Expression::ReadLocalVariable { name, ty: spec_ty(robj) })
    &&& *gt == rest_obj
    &&& exists|o: Option<Expression>|
        returned_read_opt(o, name, spec_ty(robj), has_rv) && make_struct_post(
            return_items(o, ty, ret),
            *gf,
        )
}

/// The remainder of a block processed and promoted to the record form: the
/// witness of one merge-point fold.
pub open spec fn continue_step(
    rest: Seq<Expression>,
    ty: Type,
    ret: Type,
    m0: int,
    rec: ExpressionResult,
    ma: int,
    rest_obj: Expression,
) -> bool
    decreases size_seq(rest), rest.len(), 2int,
{
    &&& codeblock_rel(rest, Seq::empty(), ty, ret, m0, rec, ma)
    &&& promoted_post(rec, ty, ret, rest_obj)
}

/// Introduction form of `continue_rel`: the witnesses of one merge-point
/// fold given explicitly.
proof fn lemma_continue_rel_intro(
    rest: Seq<Expression>,
    ty: Type,
    ret: Type,
    m0: int,
    robj: Expression,
    stmts: Seq<Expression>,
    has_rv: bool,
    has_v: bool,
    r: ExpressionResult,
    m1: int,
    rec: ExpressionResult,
    ma: int,
    rest_obj: Expression,
)
    requires
        continue_step(rest, ty, ret, m0, rec, ma, rest_obj),
        m1 == ma + 1,
        continue_shape(r, stmts, robj, has_rv, has_v, ma, rest_obj, ty, ret),
    ensures
        continue_rel(rest, ty, ret, m0, robj, stmts, has_rv, has_v, r, m1),
{
    assert(folded_rest_witness(rec, ma, rest_obj));
}

/// The materializer as a relation between the classified result, the
/// materialization counter before, the rebuilt expression, and the counter
/// after: only the merged form mints a temporary.
pub open spec fn materialize_rel(
    res: ExpressionResult,
    ty: Type,
    t0: int,
    r: Expression,
    t1: int,
) -> bool {
    match res {
        ExpressionResult::Just(e) => r == e && t1 == t0,
        ExpressionResult::Return(v) => opt_or_empty(v, r) && t1 == t0,
        ExpressionResult::MaybeReturn { pre_statements, condition, returned_value, actual_value } => {
            &&& maybe_materialized(pre_statements@, condition, returned_value, actual_value, r)
            &&& t1 == t0
        },
        ExpressionResult::ReturnObject { value, has_value, has_return_value } => {
            &&& materialized_post(r, value, has_value, has_return_value, ty, t0 as u64)
            &&& t1 == t0 + 1
        },
    }
}

/// Fold a guarded or merged statement into the block: store its record in a
/// fresh temporary, then guard the processed remainder of the block on the
/// stored `condition` slot, returning to the stored `returned` slot
/// otherwise.
pub fn continue_codeblock(
    rest: Vec<Expression>,
    ty: &Type,
    ret_ty: &Type,
    gen: &mut NameGen,
    return_object: Expression,
    stmts: Vec<Expression>,
    has_return_value: bool,
    has_value: bool,
) -> (r: ExpressionResult)
    requires
        old(gen).merge + size_seq(rest@) + 1 <= u64::MAX,
    ensures
        continue_post(
            r,
            stmts@,
            return_object,
            has_value,
            has_return_value,
            old(gen).merge as int,
            final(gen).merge as int,
            *ty,
            *ret_ty,
        ),
        (returns_legal_seq(rest@) && no_returns_seq(stmts@) && no_returns(return_object))
            ==> result_no_returns(r),
        continue_rel(
            rest@,
            *ty,
            *ret_ty,
            old(gen).merge as int,
            return_object,
            stmts@,
            has_return_value,
            has_value,
            r,
            final(gen).merge as int,
        ),
        forall|mlo: int, tlo: int|
            (mlo <= old(gen).merge && tlo <= old(gen).materialize && seq_temps_bounded(
                rest@,
                mlo,
                old(gen).merge as int,
                tlo,
                old(gen).materialize as int,
            ) && seq_temps_bounded(
                stmts@,
                mlo,
                old(gen).merge as int,
                tlo,
                old(gen).materialize as int,
            ) && temps_bounded(
                return_object,
                mlo,
                old(gen).merge as int,
                tlo,
                old(gen).materialize as int,
            )) ==> result_temps_bounded(
                r,
                mlo,
                final(gen).merge as int,
                tlo,
                final(gen).materialize as int,
            ),
        final(gen).merge >= old(gen).merge,
        final(gen).merge <= old(gen).merge + size_seq(rest@) + 1,
        final(gen).materialize == old(gen).materialize,
    decreases size_seq(rest@), 2int,
{
    let ghost restg = rest@;
    let ghost stmtsg = stmts@;
    let ghost rog = return_object;
    let ghost m0c = old(gen).merge as int;
    let ghost t0c = old(gen).materialize as int;
    let rec = process_codeblock(rest, Vec::new(), ty, ret_ty, gen);
    let ghost recg = rec;
    let ghost m2 = gen.merge as int;
    let rest_obj = rec.into_return_object(ty, ret_ty);
    let ghost rest_objg = rest_obj;
    let name = gen.fresh_merge();
    let ghost m3 = gen.merge as int;
    let roty = expr_ty(&return_object);
    let roty2 = dup_type(&roty);
    let mut out = stmts;
    out.push(Expression::StoreLocalVariable { name, value: Box::new(return_object) });
    let cond_access = Expression::StructFieldAccess {
        base: Box::new(Expression::ReadLocalVariable { name, ty: roty }),
        field: FieldName::Condition,
    };
    let else_payload = if has_return_value {
        Some(
            Expression::StructFieldAccess {
                base: Box::new(Expression::ReadLocalVariable { name, ty: roty2 }),
                field: FieldName::Returned,
            },
        )
    } else {
        None
    };
    let ghost epg = else_payload;
    let else_obj = ExpressionResult::Return(else_payload).into_return_object(ty, ret_ty);
    let ghost else_objg = else_obj;
    out.push(
        Expression::Condition {
            condition: Box::new(cond_access),
            true_expr: Box::new(rest_obj),
            false_expr: Box::new(else_obj),
        },
    );
    let r = ExpressionResult::ReturnObject {
        value: Expression::CodeBlock(out),
        has_value,
        has_return_value,
    };
    proof {
        assert(out@.subrange(0, stmtsg.len() as int) =~= stmtsg);
        assert(returned_read_opt(epg, name, spec_ty(rog), has_return_value));
        assert(codeblock_rel(restg, Seq::empty(), *ty, *ret_ty, m0c, recg, m2));
        assert(promoted_post(recg, *ty, *ret_ty, rest_objg));
        assert(continue_step(restg, *ty, *ret_ty, m0c, recg, m2, rest_objg));
        assert(name == (TempName { kind: NameKind::Merge, index: m2 as u64 }));
        assert(make_struct_post(return_items(epg, *ty, *ret_ty), else_objg));
        assert(gen.merge as int == m2 + 1);
        {
            let rg0 = r;
            match rg0 {
                ExpressionResult::ReturnObject { value: rv0, has_value: hv0, has_return_value: hr0 } => {
                    assert(hv0 == has_value);
                    assert(hr0 == has_return_value);
                    match rv0 {
                        Expression::CodeBlock(w0) => {
                            assert(w0@.len() == stmtsg.len() + 2);
                            assert(w0@.subrange(0, stmtsg.len() as int) == stmtsg);
                            match w0@[stmtsg.len() as int] {
                                Expression::StoreLocalVariable { name: n2, value: sv2 } => {
                                    assert(*sv2 == rog);
                                    assert(n2 == (TempName { kind: NameKind::Merge, index: m2 as u64 }));
                                },
                                _ => {},
                            }
                            match w0@[w0@.len() - 1] {
                                Expression::Condition { condition: gc0, true_expr: gt0, false_expr: gf0 } => {
                                    assert((*gc0) matches Expression::StructFieldAccess { base, field } && field == FieldName::Condition && *base == (Expression::ReadLocalVariable { name, ty: spec_ty(rog) }));
                                    assert(*gt0 == rest_objg);
                                    assert(returned_read_opt(epg, name, spec_ty(rog), has_return_value) && make_struct_post(return_items(epg, *ty, *ret_ty), *gf0));
                                    assert(exists|o: Option<Expression>| returned_read_opt(o, name, spec_ty(rog), has_return_value) && make_struct_post(return_items(o, *ty, *ret_ty), *gf0));
                                },
                                _ => {},
                            }
                        },
                        _ => {},
                    }
                },
                _ => {},
            }
        }
        assert(continue_shape(
            r,
            stmtsg,
            rog,
            has_return_value,
            has_value,
            m2,
            rest_objg,
            *ty,
            *ret_ty,
        ));
        lemma_continue_rel_intro(
            restg,
            *ty,
            *ret_ty,
            m0c,
            rog,
            stmtsg,
            has_return_value,
            has_value,
            r,
            gen.merge as int,
            recg,
            m2,
            rest_objg,
        );
        assert forall|mlo: int, tlo: int|
            (mlo <= m0c && tlo <= t0c && seq_temps_bounded(restg, mlo, m0c, tlo, t0c)
                && seq_temps_bounded(stmtsg, mlo, m0c, tlo, t0c) && temps_bounded(
                rog,
                mlo,
                m0c,
                tlo,
                t0c,
            )) implies result_temps_bounded(
            r,
            mlo,
            gen.merge as int,
            tlo,
            gen.materialize as int,
        ) by {
            assert(seq_temps_bounded(Seq::<Expression>::empty(), mlo, m0c, tlo, t0c));
            assert(result_temps_bounded(recg, mlo, m2, tlo, t0c));
            assert(temps_bounded(rest_objg, mlo, m2, tlo, t0c));
            lemma_temps_bounded_widen(rest_objg, mlo, m2, tlo, t0c, mlo, m3, tlo, t0c);
            assert(name_in(name, mlo, m3, tlo, t0c));
            match epg {
                Some(px) => {
                    match px {
                        Expression::StructFieldAccess { base, .. } => {
                            assert(temps_bounded(*base, mlo, m3, tlo, t0c));
                        },
                        _ => {},
                    }
                    assert(temps_bounded(px, mlo, m3, tlo, t0c));
                },
                None => {},
            }
            assert(result_temps_bounded(
                ExpressionResult::Return(epg),
                mlo,
                m3,
                tlo,
                t0c,
            ));
            assert(temps_bounded(else_objg, mlo, m3, tlo, t0c));
            lemma_temps_bounded_widen(rog, mlo, m0c, tlo, t0c, mlo, m3, tlo, t0c);
            lemma_seq_temps_bounded_widen(stmtsg, mlo, m0c, tlo, t0c, mlo, m3, tlo, t0c);
            lemma_seq_temps_bounded_index(stmtsg, mlo, m3, tlo, t0c);
            match out@[stmtsg.len() as int + 1] {
                Expression::Condition { condition, true_expr, false_expr } => {
                    match *condition {
                        Expression::StructFieldAccess { base, .. } => {
                            assert(temps_bounded(*base, mlo, m3, tlo, t0c));
                        },
                        _ => {},
                    }
                    assert(temps_bounded(*condition, mlo, m3, tlo, t0c));
                    assert(temps_bounded(*true_expr, mlo, m3, tlo, t0c));
                    assert(temps_bounded(*false_expr, mlo, m3, tlo, t0c));
                },
                _ => {},
            }
            assert forall|i: int| 0 <= i < out@.len() implies temps_bounded(
                #[trigger] out@[i],
                mlo,
                m3,
                tlo,
                t0c,
            ) by {
                if i < stmtsg.len() {
                    assert(out@[i] == stmtsg[i]);
                } else if i == stmtsg.len() {
                    assert(temps_bounded(out@[i], mlo, m3, tlo, t0c));
                } else {
                    assert(temps_bounded(out@[i], mlo, m3, tlo, t0c));
                }
            }
            lemma_seq_temps_bounded_build(out@, mlo, m3, tlo, t0c);
        }
        if returns_legal_seq(restg) && no_returns_seq(stmtsg) && no_returns(rog) {
            lemma_no_returns_seq_index(stmtsg);
            match epg {
                Some(px) => {
                    match px {
                        Expression::StructFieldAccess { base, .. } => {
                            assert(no_returns(*base));
                        },
                        _ => {},
                    }
                    assert(no_returns(px));
                },
                None => {},
            }
            assert(opt_e_no_returns(epg));
            match out@[stmtsg.len() as int + 1] {
                Expression::Condition { condition, true_expr, false_expr } => {
                    match *condition {
                        Expression::StructFieldAccess { base, .. } => {
                            assert(no_returns(*base));
                        },
                        _ => {},
                    }
                    assert(no_returns(*condition));
                    assert(no_returns(*true_expr));
                    assert(no_returns(*false_expr));
                },
                _ => {},
            }
            assert forall|i: int| 0 <= i < out@.len() implies no_returns(#[trigger] out@[i]) by {
                if i < stmtsg.len() {
                    assert(out@[i] == stmtsg[i]);
                } else if i == stmtsg.len() {
                    assert(no_returns(out@[i]));
                } else {
                    assert(no_returns(out@[i]));
                }
            }
            lemma_no_returns_seq_build(out@);
        }
    }
    r
}

} // verus!
