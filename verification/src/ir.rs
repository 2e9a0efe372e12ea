//! The expression and type model the pass works on, together with the
//! structural spec functions (size, return-freedom, legality of return
//! placement, temporary-name occurrence) that the contracts are stated over.

use vstd::prelude::*;

verus! {

/// Field names of the record values this pass synthesizes to thread
/// "did we return, and with what value" across statement boundaries.
#[derive(Clone, Copy, PartialEq, Eq, Structural, Debug)]
pub enum FieldName {
    /// Boolean: true means execution continues normally (no return fired).
    Condition,
    /// The normal value of the expression, when it did not return.
    Actual,
    /// The propagated return payload, when it did return.
    Returned,
}

/// Which of the two independent naming schemes a temporary belongs to:
/// one for per-merge-point temporaries, one for final materialization
/// temporaries.
#[derive(Clone, Copy, PartialEq, Eq, Structural, Debug)]
pub enum NameKind {
    Merge,
    Materialize,
}

/// A synthesized, pass-private local variable name.  Source programs never
/// contain local-variable nodes, so these names cannot collide with anything
/// user-visible; a monotonically increasing counter per kind keeps them
/// unique across a whole compilation run.
#[derive(Clone, Copy, PartialEq, Eq, Structural, Debug)]
pub struct TempName {
    pub kind: NameKind,
    pub index: u64,
}

/// The type of an expression, as far as this pass needs to tell types apart:
/// a "no value" type, an erroneous/never type, booleans, the record types the
/// pass itself synthesizes (with their optional `actual` and `returned` slot
/// types; the `condition` slot is always a boolean), and an opaque bucket for
/// every other type, compared only for identity.
#[derive(PartialEq, Eq, Debug)]
pub enum Type {
    Void,
    Invalid,
    Bool,
    Record { condition: bool, actual: Option<Box<Type>>, returned: Option<Box<Type>> },
    Other(u64),
}

/// A tree-shaped IR expression.  Returns may legally occur only directly as
/// statements of a `CodeBlock` or directly as arms of a `Condition`; every
/// node kind the pass does not understand is an `Opaque` payload with a
/// declared type and child expressions the pass never rewrites.
#[derive(PartialEq, Eq, Debug)]
#[allow(inconsistent_fields)]
pub enum Expression {
    /// Early exit from the enclosing function-like scope, optionally
    /// carrying a value.
    ReturnStatement(Option<Box<Expression>>),
    /// Evaluates each element in order; the last element is the block's
    /// value; an empty block has the "no value" type.
    CodeBlock(Vec<Expression>),
    /// Standard branch.
    Condition {
        condition: Box<Expression>,
        true_expr: Box<Expression>,
        false_expr: Box<Expression>,
    },
    /// Read of a synthesized temporary slot; never present in source
    /// programs, always introduced by this pass.
    ReadLocalVariable { name: TempName, ty: Type },
    /// Store into a synthesized temporary slot; never present in source
    /// programs, always introduced by this pass.
    StoreLocalVariable { name: TempName, value: Box<Expression> },
    /// Read of one named slot of a record value.
    StructFieldAccess { base: Box<Expression>, field: FieldName },
    /// Construction of a record value; each slot is present only when its
    /// type can hold a value.
    Record {
        ty: Type,
        condition: Option<Box<Expression>>,
        actual: Option<Box<Expression>>,
        returned: Option<Box<Expression>>,
    },
    BoolLiteral(bool),
    /// Logical negation of a boolean expression.
    LogicalNot(Box<Expression>),
    /// The canonical default value for a type; fills unreachable or absent
    /// slots.
    DefaultValue(Type),
    /// Any other node kind: an opaque payload with a declared type and child
    /// expressions, which the pass passes through unchanged.
    Opaque { id: u64, ty: Type, children: Vec<Expression> },
}

/// Number of nodes of an expression tree; the measure every recursion in the
/// pass terminates by, and the bound on how many temporaries processing the
/// tree can mint.
pub open spec fn size(e: Expression) -> nat
    decreases e,
{
    match e {
        Expression::ReturnStatement(p) => 1 + opt_size(p),
        Expression::CodeBlock(stmts) => 1 + size_seq(stmts@),
        Expression::Condition { condition, true_expr, false_expr } => {
            1 + size(*condition) + size(*true_expr) + size(*false_expr)
        },
        Expression::ReadLocalVariable { .. } => 1,
        Expression::StoreLocalVariable { value, .. } => 1 + size(*value),
        Expression::StructFieldAccess { base, .. } => 1 + size(*base),
        Expression::Record { condition, actual, returned, .. } => {
            1 + opt_size(condition) + opt_size(actual) + opt_size(returned)
        },
        Expression::BoolLiteral(_) => 1,
        Expression::LogicalNot(sub) => 1 + size(*sub),
        Expression::DefaultValue(_) => 1,
        Expression::Opaque { children, .. } => 1 + size_seq(children@),
    }
}

pub open spec fn opt_size(p: Option<Box<Expression>>) -> nat
    decreases p,
{
    match p {
        Some(b) => size(*b),
        None => 0,
    }
}

pub open spec fn size_seq(s: Seq<Expression>) -> nat
    decreases s,
{
    if s.len() == 0 {
        0
    } else {
        size(s[0]) + size_seq(s.drop_first())
    }
}

/// No return construct occurs anywhere in the tree.
pub open spec fn no_returns(e: Expression) -> bool
    decreases e,
{
    match e {
        Expression::ReturnStatement(_) => false,
        Expression::CodeBlock(stmts) => no_returns_seq(stmts@),
        Expression::Condition { condition, true_expr, false_expr } => {
            no_returns(*condition) && no_returns(*true_expr) && no_returns(*false_expr)
        },
        Expression::ReadLocalVariable { .. } => true,
        Expression::StoreLocalVariable { value, .. } => no_returns(*value),
        Expression::StructFieldAccess { base, .. } => no_returns(*base),
        Expression::Record { condition, actual, returned, .. } => {
            opt_no_returns(condition) && opt_no_returns(actual) && opt_no_returns(returned)
        },
        Expression::BoolLiteral(_) => true,
        Expression::LogicalNot(sub) => no_returns(*sub),
        Expression::DefaultValue(_) => true,
        Expression::Opaque { children, .. } => no_returns_seq(children@),
    }
}

pub open spec fn opt_no_returns(p: Option<Box<Expression>>) -> bool
    decreases p,
{
    match p {
        Some(b) => no_returns(*b),
        None => true,
    }
}

pub open spec fn no_returns_seq(s: Seq<Expression>) -> bool
    decreases s,
{
    if s.len() == 0 {
        true
    } else {
        no_returns(s[0]) && no_returns_seq(s.drop_first())
    }
}

/// The upstream invariant the pass assumes: return constructs occur only
/// directly as statements of a sequential block or directly as arms of a
/// conditional, never nested inside any other node (in particular never
/// inside an opaque payload or a return's own payload).
pub open spec fn returns_legal(e: Expression) -> bool
    decreases e,
{
    match e {
        Expression::ReturnStatement(p) => opt_no_returns(p),
        Expression::CodeBlock(stmts) => returns_legal_seq(stmts@),
        Expression::Condition { condition, true_expr, false_expr } => {
            no_returns(*condition) && returns_legal(*true_expr) && returns_legal(*false_expr)
        },
        _ => no_returns(e),
    }
}

pub open spec fn returns_legal_seq(s: Seq<Expression>) -> bool
    decreases s,
{
    if s.len() == 0 {
        true
    } else {
        returns_legal(s[0]) && returns_legal_seq(s.drop_first())
    }
}

/// The declared value type of an expression.
pub open spec fn spec_ty(e: Expression) -> Type
    decreases e,
{
    match e {
        Expression::ReturnStatement(_) => Type::Invalid,
        Expression::CodeBlock(stmts) => {
            if stmts@.len() == 0 {
                Type::Void
            } else {
                spec_ty(stmts@[stmts@.len() - 1])
            }
        },
        Expression::Condition { true_expr, false_expr, .. } => {
            if spec_ty(*true_expr) is Invalid {
                spec_ty(*false_expr)
            } else {
                spec_ty(*true_expr)
            }
        },
        Expression::ReadLocalVariable { ty, .. } => ty,
        Expression::StoreLocalVariable { .. } => Type::Void,
        Expression::StructFieldAccess { base, field } => record_field_ty(spec_ty(*base), field),
        Expression::Record { ty, .. } => ty,
        Expression::BoolLiteral(_) => Type::Bool,
        Expression::LogicalNot(_) => Type::Bool,
        Expression::DefaultValue(ty) => ty,
        Expression::Opaque { ty, .. } => ty,
    }
}

/// The type of one named slot of a record type.
pub open spec fn record_field_ty(t: Type, f: FieldName) -> Type {
    match t {
        Type::Record { condition, actual, returned } => match f {
            FieldName::Condition => if condition {
                Type::Bool
            } else {
                Type::Invalid
            },
            FieldName::Actual => match actual {
                Some(b) => *b,
                None => Type::Invalid,
            },
            FieldName::Returned => match returned {
                Some(b) => *b,
                None => Type::Invalid,
            },
        },
        _ => Type::Invalid,
    }
}

/// A type that cannot hold a value: the record slots and default values the
/// pass synthesizes are omitted exactly for these.
pub open spec fn is_unit_type(t: Type) -> bool {
    t is Void || t is Invalid
}

/// Structural equivalence of expression trees: equal node shapes in equal
/// order, compared through containers.
pub open spec fn expr_equiv(a: Expression, b: Expression) -> bool
    decreases a,
{
    match a {
        Expression::ReturnStatement(p) => {
            b matches Expression::ReturnStatement(q) && opt_equiv(p, q)
        },
        Expression::CodeBlock(x) => {
            b matches Expression::CodeBlock(y) && seq_equiv(x@, y@)
        },
        Expression::Condition { condition, true_expr, false_expr } => {
            &&& b matches Expression::Condition {
                condition: c2,
                true_expr: t2,
                false_expr: f2,
            }
            &&& expr_equiv(*condition, *c2)
            &&& expr_equiv(*true_expr, *t2)
            &&& expr_equiv(*false_expr, *f2)
        },
        Expression::ReadLocalVariable { name, ty } => {
            b matches Expression::ReadLocalVariable { name: n2, ty: ty2 } && name == n2 && ty
                == ty2
        },
        Expression::StoreLocalVariable { name, value } => {
            &&& b matches Expression::StoreLocalVariable { name: n2, value: v2 }
            &&& name == n2
            &&& expr_equiv(*value, *v2)
        },
        Expression::StructFieldAccess { base, field } => {
            &&& b matches Expression::StructFieldAccess { base: b2, field: f2 }
            &&& expr_equiv(*base, *b2)
            &&& field == f2
        },
        Expression::Record { ty, condition, actual, returned } => {
            &&& b matches Expression::Record {
                ty: ty2,
                condition: c2,
                actual: a2,
                returned: r2,
            }
            &&& ty == ty2
            &&& opt_equiv(condition, c2)
            &&& opt_equiv(actual, a2)
            &&& opt_equiv(returned, r2)
        },
        Expression::BoolLiteral(v) => b matches Expression::BoolLiteral(v2) && v == v2,
        Expression::LogicalNot(sub) => {
            b matches Expression::LogicalNot(s2) && expr_equiv(*sub, *s2)
        },
        Expression::DefaultValue(ty) => b matches Expression::DefaultValue(ty2) && ty == ty2,
        Expression::Opaque { id, ty, children } => {
            &&& b matches Expression::Opaque { id: id2, ty: ty2, children: ch2 }
            &&& id == id2
            &&& ty == ty2
            &&& seq_equiv(children@, ch2@)
        },
    }
}

pub open spec fn opt_equiv(p: Option<Box<Expression>>, q: Option<Box<Expression>>) -> bool
    decreases p,
{
    match p {
        Some(a) => q matches Some(b) && expr_equiv(*a, *b),
        None => q is None,
    }
}

pub open spec fn seq_equiv(x: Seq<Expression>, y: Seq<Expression>) -> bool
    decreases x,
{
    if x.len() != y.len() {
        false
    } else if x.len() == 0 {
        true
    } else {
        expr_equiv(x[0], y[0]) && seq_equiv(x.drop_first(), y.drop_first())
    }
}

/// Equivalence is reflexive: every tree is equivalent to itself.
pub proof fn lemma_expr_equiv_refl(e: Expression)
    ensures
        expr_equiv(e, e),
    decreases e,
{
    match e {
        Expression::ReturnStatement(p) => {
            lemma_opt_equiv_refl(p);
        },
        Expression::CodeBlock(stmts) => lemma_seq_equiv_refl(stmts@),
        Expression::Condition { condition, true_expr, false_expr } => {
            lemma_expr_equiv_refl(*condition);
            lemma_expr_equiv_refl(*true_expr);
            lemma_expr_equiv_refl(*false_expr);
        },
        Expression::StoreLocalVariable { value, .. } => lemma_expr_equiv_refl(*value),
        Expression::StructFieldAccess { base, .. } => lemma_expr_equiv_refl(*base),
        Expression::Record { condition, actual, returned, .. } => {
            lemma_opt_equiv_refl(condition);
            lemma_opt_equiv_refl(actual);
            lemma_opt_equiv_refl(returned);
        },
        Expression::LogicalNot(sub) => lemma_expr_equiv_refl(*sub),
        Expression::Opaque { children, .. } => lemma_seq_equiv_refl(children@),
        _ => {},
    }
}

pub proof fn lemma_opt_equiv_refl(p: Option<Box<Expression>>)
    ensures
        opt_equiv(p, p),
    decreases p,
{
    match p {
        Some(b) => lemma_expr_equiv_refl(*b),
        None => {},
    }
}

pub proof fn lemma_seq_equiv_refl(s: Seq<Expression>)
    ensures
        seq_equiv(s, s),
    decreases s,
{
    if s.len() > 0 {
        lemma_expr_equiv_refl(s[0]);
        lemma_seq_equiv_refl(s.drop_first());
    }
}

/// Building helper: sequences equivalent elementwise are equivalent.
pub proof fn lemma_seq_equiv_build(x: Seq<Expression>, y: Seq<Expression>)
    requires
        x.len() == y.len(),
        forall|i: int| 0 <= i < x.len() ==> expr_equiv(x[i], y[i]),
    ensures
        seq_equiv(x, y),
    decreases x,
{
    if x.len() > 0 {
        assert(expr_equiv(x[0], y[0]));
        assert forall|i: int| 0 <= i < x.drop_first().len() implies expr_equiv(
            x.drop_first()[i],
            y.drop_first()[i],
        ) by {
            assert(x.drop_first()[i] == x[i + 1]);
            assert(y.drop_first()[i] == y[i + 1]);
        }
        lemma_seq_equiv_build(x.drop_first(), y.drop_first());
    }
}

/// Whether a temporary name lies in the given half-open counter ranges:
/// `[mlo, mhi)` for the merge scheme, `[tlo, thi)` for materialization.
pub open spec fn name_in(n: TempName, mlo: int, mhi: int, tlo: int, thi: int) -> bool {
    match n.kind {
        NameKind::Merge => mlo <= n.index < mhi,
        NameKind::Materialize => tlo <= n.index < thi,
    }
}

/// Every temporary name occurring in the tree lies in the given counter
/// ranges.  With two empty ranges this says the tree holds no temporary at
/// all, as every source program must.
pub open spec fn temps_bounded(e: Expression, mlo: int, mhi: int, tlo: int, thi: int) -> bool
    decreases e,
{
    match e {
        Expression::ReturnStatement(p) => opt_temps_bounded(p, mlo, mhi, tlo, thi),
        Expression::CodeBlock(stmts) => seq_temps_bounded(stmts@, mlo, mhi, tlo, thi),
        Expression::Condition { condition, true_expr, false_expr } => {
            &&& temps_bounded(*condition, mlo, mhi, tlo, thi)
            &&& temps_bounded(*true_expr, mlo, mhi, tlo, thi)
            &&& temps_bounded(*false_expr, mlo, mhi, tlo, thi)
        },
        Expression::ReadLocalVariable { name, .. } => name_in(name, mlo, mhi, tlo, thi),
        Expression::StoreLocalVariable { name, value } => name_in(name, mlo, mhi, tlo, thi)
            && temps_bounded(*value, mlo, mhi, tlo, thi),
        Expression::StructFieldAccess { base, .. } => temps_bounded(*base, mlo, mhi, tlo, thi),
        Expression::Record { condition, actual, returned, .. } => {
            &&& opt_temps_bounded(condition, mlo, mhi, tlo, thi)
            &&& opt_temps_bounded(actual, mlo, mhi, tlo, thi)
            &&& opt_temps_bounded(returned, mlo, mhi, tlo, thi)
        },
        Expression::BoolLiteral(_) => true,
        Expression::LogicalNot(sub) => temps_bounded(*sub, mlo, mhi, tlo, thi),
        Expression::DefaultValue(_) => true,
        Expression::Opaque { children, .. } => seq_temps_bounded(children@, mlo, mhi, tlo, thi),
    }
}

pub open spec fn opt_temps_bounded(
    p: Option<Box<Expression>>,
    mlo: int,
    mhi: int,
    tlo: int,
    thi: int,
) -> bool
    decreases p,
{
    match p {
        Some(b) => temps_bounded(*b, mlo, mhi, tlo, thi),
        None => true,
    }
}

pub open spec fn seq_temps_bounded(
    s: Seq<Expression>,
    mlo: int,
    mhi: int,
    tlo: int,
    thi: int,
) -> bool
    decreases s,
{
    if s.len() == 0 {
        true
    } else {
        temps_bounded(s[0], mlo, mhi, tlo, thi) && seq_temps_bounded(
            s.drop_first(),
            mlo,
            mhi,
            tlo,
            thi,
        )
    }
}

/// A source tree: no temporary names at all.
pub open spec fn no_temps(e: Expression) -> bool {
    temps_bounded(e, 0, 0, 0, 0)
}

/// The given temporary name occurs somewhere in the tree.
pub open spec fn has_temp(e: Expression, n: TempName) -> bool
    decreases e,
{
    match e {
        Expression::ReturnStatement(p) => opt_has_temp(p, n),
        Expression::CodeBlock(stmts) => seq_has_temp(stmts@, n),
        Expression::Condition { condition, true_expr, false_expr } => {
            has_temp(*condition, n) || has_temp(*true_expr, n) || has_temp(*false_expr, n)
        },
        Expression::ReadLocalVariable { name, .. } => name == n,
        Expression::StoreLocalVariable { name, value } => name == n || has_temp(*value, n),
        Expression::StructFieldAccess { base, .. } => has_temp(*base, n),
        Expression::Record { condition, actual, returned, .. } => {
            opt_has_temp(condition, n) || opt_has_temp(actual, n) || opt_has_temp(returned, n)
        },
        Expression::BoolLiteral(_) => false,
        Expression::LogicalNot(sub) => has_temp(*sub, n),
        Expression::DefaultValue(_) => false,
        Expression::Opaque { children, .. } => seq_has_temp(children@, n),
    }
}

pub open spec fn opt_has_temp(p: Option<Box<Expression>>, n: TempName) -> bool
    decreases p,
{
    match p {
        Some(b) => has_temp(*b, n),
        None => false,
    }
}

pub open spec fn seq_has_temp(s: Seq<Expression>, n: TempName) -> bool
    decreases s,
{
    if s.len() == 0 {
        false
    } else {
        has_temp(s[0], n) || seq_has_temp(s.drop_first(), n)
    }
}

/// Widening the counter ranges preserves the bound.
pub proof fn lemma_temps_bounded_widen(
    e: Expression,
    mlo: int,
    mhi: int,
    tlo: int,
    thi: int,
    mlo2: int,
    mhi2: int,
    tlo2: int,
    thi2: int,
)
    requires
        temps_bounded(e, mlo, mhi, tlo, thi),
        (mlo2 <= mlo && mhi <= mhi2) || mhi <= mlo,
        (tlo2 <= tlo && thi <= thi2) || thi <= tlo,
    ensures
        temps_bounded(e, mlo2, mhi2, tlo2, thi2),
    decreases e,
{
    match e {
        Expression::ReturnStatement(p) => {
            lemma_opt_temps_bounded_widen(p, mlo, mhi, tlo, thi, mlo2, mhi2, tlo2, thi2);
        },
        Expression::CodeBlock(stmts) => {
            lemma_seq_temps_bounded_widen(stmts@, mlo, mhi, tlo, thi, mlo2, mhi2, tlo2, thi2);
        },
        Expression::Condition { condition, true_expr, false_expr } => {
            lemma_temps_bounded_widen(*condition, mlo, mhi, tlo, thi, mlo2, mhi2, tlo2, thi2);
            lemma_temps_bounded_widen(*true_expr, mlo, mhi, tlo, thi, mlo2, mhi2, tlo2, thi2);
            lemma_temps_bounded_widen(*false_expr, mlo, mhi, tlo, thi, mlo2, mhi2, tlo2, thi2);
        },
        Expression::StoreLocalVariable { value, .. } => {
            lemma_temps_bounded_widen(*value, mlo, mhi, tlo, thi, mlo2, mhi2, tlo2, thi2);
        },
        Expression::StructFieldAccess { base, .. } => {
            lemma_temps_bounded_widen(*base, mlo, mhi, tlo, thi, mlo2, mhi2, tlo2, thi2);
        },
        Expression::Record { condition, actual, returned, .. } => {
            lemma_opt_temps_bounded_widen(condition, mlo, mhi, tlo, thi, mlo2, mhi2, tlo2, thi2);
            lemma_opt_temps_bounded_widen(actual, mlo, mhi, tlo, thi, mlo2, mhi2, tlo2, thi2);
            lemma_opt_temps_bounded_widen(returned, mlo, mhi, tlo, thi, mlo2, mhi2, tlo2, thi2);
        },
        Expression::LogicalNot(sub) => {
            lemma_temps_bounded_widen(*sub, mlo, mhi, tlo, thi, mlo2, mhi2, tlo2, thi2);
        },
        Expression::Opaque { children, .. } => {
            lemma_seq_temps_bounded_widen(children@, mlo, mhi, tlo, thi, mlo2, mhi2, tlo2, thi2);
        },
        _ => {},
    }
}

pub proof fn lemma_opt_temps_bounded_widen(
    p: Option<Box<Expression>>,
    mlo: int,
    mhi: int,
    tlo: int,
    thi: int,
    mlo2: int,
    mhi2: int,
    tlo2: int,
    thi2: int,
)
    requires
        opt_temps_bounded(p, mlo, mhi, tlo, thi),
        (mlo2 <= mlo && mhi <= mhi2) || mhi <= mlo,
        (tlo2 <= tlo && thi <= thi2) || thi <= tlo,
    ensures
        opt_temps_bounded(p, mlo2, mhi2, tlo2, thi2),
    decreases p,
{
    match p {
        Some(b) => lemma_temps_bounded_widen(*b, mlo, mhi, tlo, thi, mlo2, mhi2, tlo2, thi2),
        None => {},
    }
}

pub proof fn lemma_seq_temps_bounded_widen(
    s: Seq<Expression>,
    mlo: int,
    mhi: int,
    tlo: int,
    thi: int,
    mlo2: int,
    mhi2: int,
    tlo2: int,
    thi2: int,
)
    requires
        seq_temps_bounded(s, mlo, mhi, tlo, thi),
        (mlo2 <= mlo && mhi <= mhi2) || mhi <= mlo,
        (tlo2 <= tlo && thi <= thi2) || thi <= tlo,
    ensures
        seq_temps_bounded(s, mlo2, mhi2, tlo2, thi2),
    decreases s,
{
    if s.len() > 0 {
        lemma_temps_bounded_widen(s[0], mlo, mhi, tlo, thi, mlo2, mhi2, tlo2, thi2);
        lemma_seq_temps_bounded_widen(s.drop_first(), mlo, mhi, tlo, thi, mlo2, mhi2, tlo2, thi2);
    }
}

/// A name occurring in a bounded tree lies in the tree's counter ranges.
pub proof fn lemma_has_temp_in_range(
    e: Expression,
    n: TempName,
    mlo: int,
    mhi: int,
    tlo: int,
    thi: int,
)
    requires
        temps_bounded(e, mlo, mhi, tlo, thi),
        has_temp(e, n),
    ensures
        name_in(n, mlo, mhi, tlo, thi),
    decreases e,
{
    match e {
        Expression::ReturnStatement(p) => {
            lemma_opt_has_temp_in_range(p, n, mlo, mhi, tlo, thi);
        },
        Expression::CodeBlock(stmts) => lemma_seq_has_temp_in_range(stmts@, n, mlo, mhi, tlo, thi),
        Expression::Condition { condition, true_expr, false_expr } => {
            if has_temp(*condition, n) {
                lemma_has_temp_in_range(*condition, n, mlo, mhi, tlo, thi);
            } else if has_temp(*true_expr, n) {
                lemma_has_temp_in_range(*true_expr, n, mlo, mhi, tlo, thi);
            } else {
                lemma_has_temp_in_range(*false_expr, n, mlo, mhi, tlo, thi);
            }
        },
        Expression::StoreLocalVariable { name, value } => {
            if name != n {
                lemma_has_temp_in_range(*value, n, mlo, mhi, tlo, thi);
            }
        },
        Expression::StructFieldAccess { base, .. } => {
            lemma_has_temp_in_range(*base, n, mlo, mhi, tlo, thi);
        },
        Expression::Record { condition, actual, returned, .. } => {
            if opt_has_temp(condition, n) {
                lemma_opt_has_temp_in_range(condition, n, mlo, mhi, tlo, thi);
            } else if opt_has_temp(actual, n) {
                lemma_opt_has_temp_in_range(actual, n, mlo, mhi, tlo, thi);
            } else {
                lemma_opt_has_temp_in_range(returned, n, mlo, mhi, tlo, thi);
            }
        },
        Expression::LogicalNot(sub) => lemma_has_temp_in_range(*sub, n, mlo, mhi, tlo, thi),
        Expression::Opaque { children, .. } => {
            lemma_seq_has_temp_in_range(children@, n, mlo, mhi, tlo, thi)
        },
        _ => {},
    }
}

pub proof fn lemma_opt_has_temp_in_range(
    p: Option<Box<Expression>>,
    n: TempName,
    mlo: int,
    mhi: int,
    tlo: int,
    thi: int,
)
    requires
        opt_temps_bounded(p, mlo, mhi, tlo, thi),
        opt_has_temp(p, n),
    ensures
        name_in(n, mlo, mhi, tlo, thi),
    decreases p,
{
    match p {
        Some(b) => lemma_has_temp_in_range(*b, n, mlo, mhi, tlo, thi),
        None => {},
    }
}

pub proof fn lemma_seq_has_temp_in_range(
    s: Seq<Expression>,
    n: TempName,
    mlo: int,
    mhi: int,
    tlo: int,
    thi: int,
)
    requires
        seq_temps_bounded(s, mlo, mhi, tlo, thi),
        seq_has_temp(s, n),
    ensures
        name_in(n, mlo, mhi, tlo, thi),
    decreases s,
{
    if s.len() > 0 {
        if has_temp(s[0], n) {
            lemma_has_temp_in_range(s[0], n, mlo, mhi, tlo, thi);
        } else {
            lemma_seq_has_temp_in_range(s.drop_first(), n, mlo, mhi, tlo, thi);
        }
    }
}

/// Every expression has at least one node.
pub proof fn lemma_size_pos(e: Expression)
    ensures
        size(e) >= 1,
{
}

/// Elementwise view of return-freedom of a sequence.
pub proof fn lemma_no_returns_seq_index(s: Seq<Expression>)
    requires
        no_returns_seq(s),
    ensures
        forall|i: int| 0 <= i < s.len() ==> no_returns(s[i]),
    decreases s,
{
    if s.len() > 0 {
        lemma_no_returns_seq_index(s.drop_first());
        assert forall|i: int| 0 <= i < s.len() implies no_returns(s[i]) by {
            if i > 0 {
                assert(s.drop_first()[i - 1] == s[i]);
            }
        }
    }
}

/// A sequence of return-free elements is return-free.
pub proof fn lemma_no_returns_seq_build(s: Seq<Expression>)
    requires
        forall|i: int| 0 <= i < s.len() ==> no_returns(s[i]),
    ensures
        no_returns_seq(s),
    decreases s,
{
    if s.len() > 0 {
        assert forall|i: int| 0 <= i < s.drop_first().len() implies no_returns(
            s.drop_first()[i],
        ) by {
            assert(s.drop_first()[i] == s[i + 1]);
        }
        lemma_no_returns_seq_build(s.drop_first());
    }
}

/// Elementwise view of legality of a sequence of statements.
pub proof fn lemma_returns_legal_seq_index(s: Seq<Expression>)
    requires
        returns_legal_seq(s),
    ensures
        forall|i: int| 0 <= i < s.len() ==> returns_legal(s[i]),
    decreases s,
{
    if s.len() > 0 {
        lemma_returns_legal_seq_index(s.drop_first());
        assert forall|i: int| 0 <= i < s.len() implies returns_legal(s[i]) by {
            if i > 0 {
                assert(s.drop_first()[i - 1] == s[i]);
            }
        }
    }
}

/// Produce a copy of a type, equal to the original.
pub fn dup_type(t: &Type) -> (r: Type)
    ensures
        r == *t,
    decreases *t,
{
    match t {
        Type::Void => Type::Void,
        Type::Invalid => Type::Invalid,
        Type::Bool => Type::Bool,
        Type::Record { condition, actual, returned } => {
            let a = match actual {
                Some(b) => Some(Box::new(dup_type(b))),
                None => None,
            };
            let r = match returned {
                Some(b) => Some(Box::new(dup_type(b))),
                None => None,
            };
            Type::Record { condition: *condition, actual: a, returned: r }
        },
        Type::Other(id) => Type::Other(*id),
    }
}

/// The declared value type of an expression, as executable code.
pub fn expr_ty(e: &Expression) -> (r: Type)
    ensures
        r == spec_ty(*e),
    decreases *e,
{
    match e {
        Expression::ReturnStatement(_) => Type::Invalid,
        Expression::CodeBlock(stmts) => {
            if stmts.len() == 0 {
                Type::Void
            } else {
                expr_ty(&stmts[stmts.len() - 1])
            }
        },
        Expression::Condition { true_expr, false_expr, .. } => {
            let tt = expr_ty(true_expr);
            if matches!(tt, Type::Invalid) {
                expr_ty(false_expr)
            } else {
                tt
            }
        },
        Expression::ReadLocalVariable { ty, .. } => dup_type(ty),
        Expression::StoreLocalVariable { .. } => Type::Void,
        Expression::StructFieldAccess { base, field } => {
            let bt = expr_ty(base);
            match bt {
                Type::Record { condition, actual, returned } => match field {
                    FieldName::Condition => if condition {
                        Type::Bool
                    } else {
                        Type::Invalid
                    },
                    FieldName::Actual => match actual {
                        Some(b) => *b,
                        None => Type::Invalid,
                    },
                    FieldName::Returned => match returned {
                        Some(b) => *b,
                        None => Type::Invalid,
                    },
                },
                _ => Type::Invalid,
            }
        },
        Expression::Record { ty, .. } => dup_type(ty),
        Expression::BoolLiteral(_) => Type::Bool,
        Expression::LogicalNot(_) => Type::Bool,
        Expression::DefaultValue(ty) => dup_type(ty),
        Expression::Opaque { ty, .. } => dup_type(ty),
    }
}

/// Whether a type cannot hold a value, as executable code.
pub fn is_unit(t: &Type) -> (r: bool)
    ensures
        r == is_unit_type(*t),
{
    matches!(t, Type::Void | Type::Invalid)
}

} // verus!
