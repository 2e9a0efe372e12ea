//! The driver: walks every root expression of every component of a
//! compilation unit, skips the ones that contain no return construct, and
//! rewrites the others in place through the classifier and the materializer.

use vstd::prelude::*;
use crate::ir::{
    expr_ty, lemma_size_pos, lemma_temps_bounded_widen, no_returns, no_returns_seq, no_temps,
    opt_no_returns, returns_legal, size, size_seq, spec_ty, temps_bounded, Expression, Type,
};
use crate::names::NameGen;
use crate::pass::{
    classified_step_witness, classify_rel, materialize_rel, process_expression,
    result_temps_bounded, ExpressionResult,
};

verus! {

/// One component of a compilation unit: an owning collection of root
/// expressions, each replaceable in place.
pub struct Component {
    pub root_expressions: Vec<Expression>,
}

/// A compilation unit: the main component together with all sub-components
/// and globals, each visited once.
pub struct Document {
    pub components: Vec<Component>,
}

/// The declared return type of the scope a root expression belongs to: the
/// value type of the first return construct found in a left-to-right,
/// depth-first scan (the upstream language guarantees all returns of one
/// scope share it), or nothing when the tree holds no return at all.
pub open spec fn spec_find_ret_ty(e: Expression) -> Option<Type>
    decreases e,
{
    match e {
        Expression::ReturnStatement(p) => Some(
            match p {
                Some(b) => spec_ty(*b),
                None => Type::Void,
            },
        ),
        Expression::CodeBlock(stmts) => find_seq(stmts@),
        Expression::Condition { condition, true_expr, false_expr } => or_else(
            spec_find_ret_ty(*condition),
            or_else(spec_find_ret_ty(*true_expr), spec_find_ret_ty(*false_expr)),
        ),
        Expression::ReadLocalVariable { .. } => None,
        Expression::StoreLocalVariable { value, .. } => spec_find_ret_ty(*value),
        Expression::StructFieldAccess { base, .. } => spec_find_ret_ty(*base),
        Expression::Record { condition, actual, returned, .. } => or_else(
            opt_find(condition),
            or_else(opt_find(actual), opt_find(returned)),
        ),
        Expression::BoolLiteral(_) => None,
        Expression::LogicalNot(sub) => spec_find_ret_ty(*sub),
        Expression::DefaultValue(_) => None,
        Expression::Opaque { children, .. } => find_seq(children@),
    }
}

pub open spec fn opt_find(p: Option<Box<Expression>>) -> Option<Type>
    decreases p,
{
    match p {
        Some(b) => spec_find_ret_ty(*b),
        None => None,
    }
}

pub open spec fn find_seq(s: Seq<Expression>) -> Option<Type>
    decreases s,
{
    if s.len() == 0 {
        None
    } else {
        or_else(spec_find_ret_ty(s[0]), find_seq(s.drop_first()))
    }
}

/// The first of two scan results.
pub open spec fn or_else(a: Option<Type>, b: Option<Type>) -> Option<Type> {
    if a is Some {
        a
    } else {
        b
    }
}

/// The scan finds nothing exactly on return-free trees.
pub proof fn lemma_find_none(e: Expression)
    ensures
        spec_find_ret_ty(e) is None <==> no_returns(e),
    decreases e,
{
    match e {
        Expression::ReturnStatement(_) => {},
        Expression::CodeBlock(stmts) => lemma_find_none_seq(stmts@),
        Expression::Condition { condition, true_expr, false_expr } => {
            lemma_find_none(*condition);
            lemma_find_none(*true_expr);
            lemma_find_none(*false_expr);
        },
        Expression::StoreLocalVariable { value, .. } => lemma_find_none(*value),
        Expression::StructFieldAccess { base, .. } => lemma_find_none(*base),
        Expression::Record { condition, actual, returned, .. } => {
            lemma_find_none_opt(condition);
            lemma_find_none_opt(actual);
            lemma_find_none_opt(returned);
        },
        Expression::LogicalNot(sub) => lemma_find_none(*sub),
        Expression::Opaque { children, .. } => lemma_find_none_seq(children@),
        _ => {},
    }
}

pub proof fn lemma_find_none_opt(p: Option<Box<Expression>>)
    ensures
        opt_find(p) is None <==> opt_no_returns(p),
    decreases p,
{
    match p {
        Some(b) => lemma_find_none(*b),
        None => {},
    }
}

pub proof fn lemma_find_none_seq(s: Seq<Expression>)
    ensures
        find_seq(s) is None <==> no_returns_seq(s),
    decreases s,
{
    if s.len() > 0 {
        lemma_find_none(s[0]);
        lemma_find_none_seq(s.drop_first());
    }
}

/// Scan a tree for a return construct, short-circuiting on the first one
/// found, and give its value type.
pub fn find_return_type(e: &Expression) -> (r: Option<Type>)
    ensures
        r == spec_find_ret_ty(*e),
    decreases size(*e), 0int,
{
    match e {
        Expression::ReturnStatement(p) => {
            let rr = Some(
                match p {
                    Some(b) => expr_ty(b),
                    None => Type::Void,
                },
            );
            proof {
                assert(rr == spec_find_ret_ty(*e));
            }
            rr
        },
        Expression::CodeBlock(stmts) => {
            proof {
                assert(stmts@.skip(0) =~= stmts@);
            }
            let rr = find_in_vec(stmts, 0);
            proof {
                assert(rr == spec_find_ret_ty(*e));
            }
            rr
        },
        Expression::Condition { condition, true_expr, false_expr } => {
            let rr = match find_return_type(condition) {
                Some(t) => Some(t),
                None => match find_return_type(true_expr) {
                    Some(t) => Some(t),
                    None => find_return_type(false_expr),
                },
            };
            proof {
                assert(rr == spec_find_ret_ty(*e));
            }
            rr
        },
        Expression::ReadLocalVariable { .. } => None,
        Expression::StoreLocalVariable { value, .. } => find_return_type(value),
        Expression::StructFieldAccess { base, .. } => find_return_type(base),
        Expression::Record { condition, actual, returned, .. } => {
            let c = match condition {
                Some(b) => {
                    proof {
                        assert(crate::ir::opt_size(*condition) == size(**b));
                    }
                    find_return_type(b)
                },
                None => None,
            };
            proof {
                assert(c == opt_find(*condition));
            }
            let rr = match c {
                Some(t) => Some(t),
                None => {
                    let a = match actual {
                        Some(b) => {
                            proof {
                                assert(crate::ir::opt_size(*actual) == size(**b));
                            }
                            find_return_type(b)
                        },
                        None => None,
                    };
                    proof {
                        assert(a == opt_find(*actual));
                    }
                    match a {
                        Some(t) => Some(t),
                        None => {
                            let rb = match returned {
                                Some(b) => {
                                    proof {
                                        assert(crate::ir::opt_size(*returned) == size(**b));
                                    }
                                    find_return_type(b)
                                },
                                None => None,
                            };
                            proof {
                                assert(rb == opt_find(*returned));
                            }
                            rb
                        },
                    }
                },
            };
            proof {
                assert(rr == spec_find_ret_ty(*e));
            }
            rr
        },
        Expression::BoolLiteral(_) => None,
        Expression::LogicalNot(sub) => find_return_type(sub),
        Expression::DefaultValue(_) => None,
        Expression::Opaque { children, .. } => {
            proof {
                assert(children@.skip(0) =~= children@);
            }
            find_in_vec(children, 0)
        },
    }
}

/// Scan the elements of a sequence from position `i` on.
fn find_in_vec(stmts: &Vec<Expression>, i: usize) -> (r: Option<Type>)
    requires
        i <= stmts.len(),
    ensures
        r == find_seq(stmts@.skip(i as int)),
    decreases size_seq(stmts@.skip(i as int)), 1int,
{
    if i == stmts.len() {
        proof {
            assert(stmts@.skip(i as int) =~= Seq::<Expression>::empty());
        }
        None
    } else {
        proof {
            assert(stmts@.skip(i as int)[0] == stmts@[i as int]);
            assert(stmts@.skip(i as int).drop_first() =~= stmts@.skip(i as int + 1));
            lemma_size_pos(stmts@[i as int]);
        }
        match find_return_type(&stmts[i]) {
            Some(t) => Some(t),
            None => find_in_vec(stmts, i + 1),
        }
    }
}

/// The whole per-root transformation as a relation: when the scan finds no
/// return the tree and both counters are untouched; when it finds one with
/// value type `rt`, the new tree is exactly the materialization of the
/// classification of the old tree under `rt`, with the counters threaded
/// through.
pub open spec fn root_transform_rel(
    old_e: Expression,
    new_e: Expression,
    m0: int,
    m1: int,
    t0: int,
    t1: int,
) -> bool {
    match spec_find_ret_ty(old_e) {
        None => new_e == old_e && m1 == m0 && t1 == t0,
        Some(rt) => exists|res: ExpressionResult|
            {
                &&& #[trigger] classified_step_witness(res, m1)
                &&& classify_rel(old_e, rt, m0, res, m1)
                &&& materialize_rel(res, rt, t0, new_e, t1)
            },
    }
}

/// How a rewritten root expression relates to the original: untouched when
/// the scan finds no return (in particular on every return-free tree), and
/// return-free afterwards whenever the upstream placement invariant held.
pub open spec fn root_rewritten(old_e: Expression, new_e: Expression) -> bool {
    &&& spec_find_ret_ty(old_e) is None ==> new_e == old_e
    &&& no_returns(old_e) ==> new_e == old_e
    &&& (spec_find_ret_ty(old_e) is Some && returns_legal(old_e)) ==> no_returns(new_e)
}

/// How a rewritten component relates to the original: the same number of
/// root expressions, each rewritten in place.
pub open spec fn comp_rewritten(oldc: Component, newc: Component) -> bool {
    &&& newc.root_expressions@.len() == oldc.root_expressions@.len()
    &&& forall|j: int|
        0 <= j < oldc.root_expressions@.len() ==> root_rewritten(
            oldc.root_expressions@[j],
            #[trigger] newc.root_expressions@[j],
        )
}

/// Total number of expression nodes in a sequence of components: the bound
/// on how many merge temporaries one run can mint.
pub open spec fn comp_sizes(cs: Seq<Component>) -> nat
    decreases cs,
{
    if cs.len() == 0 {
        0
    } else {
        size_seq(cs[0].root_expressions@) + comp_sizes(cs.drop_first())
    }
}

/// Total number of root expressions: the bound on how many materialization
/// temporaries one run can mint.
pub open spec fn comp_roots(cs: Seq<Component>) -> nat
    decreases cs,
{
    if cs.len() == 0 {
        0
    } else {
        cs[0].root_expressions@.len() + comp_roots(cs.drop_first())
    }
}

/// Rewrite one root expression: scan for a return construct; when none is
/// found the tree is handed back untouched, otherwise it is classified with
/// the found return type and materialized back into a return-free tree.
pub fn transform_root(e: Expression, gen: &mut NameGen) -> (r: Expression)
    requires
        old(gen).merge + size(e) <= u64::MAX,
        old(gen).materialize < u64::MAX,
    ensures
        root_rewritten(e, r),
        root_transform_rel(
            e,
            r,
            old(gen).merge as int,
            final(gen).merge as int,
            old(gen).materialize as int,
            final(gen).materialize as int,
        ),
        spec_find_ret_ty(e) is None ==> *final(gen) == *old(gen),
        no_temps(e) ==> temps_bounded(
            r,
            old(gen).merge as int,
            final(gen).merge as int,
            old(gen).materialize as int,
            final(gen).materialize as int,
        ),
        final(gen).merge >= old(gen).merge,
        final(gen).merge <= old(gen).merge + size(e),
        final(gen).materialize >= old(gen).materialize,
        final(gen).materialize <= old(gen).materialize + 1,
{
    let ghost eg = e;
    let ghost m0 = old(gen).merge as int;
    let ghost t0 = old(gen).materialize as int;
    let rt = find_return_type(&e);
    match rt {
        None => {
            proof {
                lemma_find_none(eg);
                if no_temps(eg) {
                    lemma_temps_bounded_widen(eg, 0, 0, 0, 0, m0, m0, t0, t0);
                }
            }
            e
        },
        Some(ret_ty) => {
            let ghost rtg = ret_ty;
            let res = process_expression(e, &ret_ty, gen);
            let ghost resg = res;
            let ghost m1 = gen.merge as int;
            let r = res.to_expression(&ret_ty, gen);
            proof {
                lemma_find_none(eg);
                if no_temps(eg) {
                    lemma_temps_bounded_widen(eg, 0, 0, 0, 0, m0, m0, t0, t0);
                    assert(temps_bounded(eg, m0, m0, t0, t0));
                    assert(result_temps_bounded(resg, m0, m1, t0, t0));
                }
                assert(classified_step_witness(resg, m1));
                assert(classify_rel(eg, rtg, m0, resg, m1));
                assert(materialize_rel(resg, rtg, t0, r, gen.materialize as int));
            }
            r
        },
    }
}

/// Remove every return construct from every root expression of the
/// compilation unit, rewriting each tree in place; trees without a return
/// are left untouched.  The naming context carries the unique counters
/// across runs, so temporaries minted by different runs never collide.
pub fn remove_return(doc: &mut Document, gen: &mut NameGen) -> (wits: Ghost<
    Seq<Seq<(int, int, int, int)>>,
>)
    requires
        old(gen).merge + comp_sizes(old(doc).components@) <= u64::MAX,
        old(gen).materialize + comp_roots(old(doc).components@) <= u64::MAX,
    ensures
        final(doc).components@.len() == old(doc).components@.len(),
        forall|i: int|
            0 <= i < old(doc).components@.len() ==> comp_rewritten(
                old(doc).components@[i],
                #[trigger] final(doc).components@[i],
            ),
        forall|i: int, j: int|
            (0 <= i < old(doc).components@.len() && 0 <= j
                < old(doc).components@[i].root_expressions@.len() && no_temps(
                old(doc).components@[i].root_expressions@[j],
            )) ==> temps_bounded(
                #[trigger] final(doc).components@[i].root_expressions@[j],
                old(gen).merge as int,
                final(gen).merge as int,
                old(gen).materialize as int,
                final(gen).materialize as int,
            ),
        wits@.len() == old(doc).components@.len(),
        forall|i: int|
            0 <= i < old(doc).components@.len() ==> (#[trigger] wits@[i]).len()
                == old(doc).components@[i].root_expressions@.len(),
        forall|i: int, j: int|
            #![trigger wits@[i][j]]
            (0 <= i < old(doc).components@.len() && 0 <= j
                < old(doc).components@[i].root_expressions@.len()) ==> (root_transform_rel(
                old(doc).components@[i].root_expressions@[j],
                final(doc).components@[i].root_expressions@[j],
                wits@[i][j].0,
                wits@[i][j].1,
                wits@[i][j].2,
                wits@[i][j].3,
            ) && old(gen).merge <= wits@[i][j].0 && wits@[i][j].1 <= final(gen).merge && old(
                gen,
            ).materialize <= wits@[i][j].2 && wits@[i][j].3 <= final(gen).materialize),
        final(gen).merge >= old(gen).merge,
        final(gen).materialize >= old(gen).materialize,
        final(gen).merge <= old(gen).merge + comp_sizes(old(doc).components@),
        final(gen).materialize <= old(gen).materialize + comp_roots(old(doc).components@),
{
    let ghost allc = old(doc).components@;
    let mut work: Vec<Component> = Vec::new();
    core::mem::swap(&mut doc.components, &mut work);
    let mut done: Vec<Component> = Vec::new();
    let ghost mut witsc: Seq<Seq<(int, int, int, int)>> = Seq::empty();
    while work.len() > 0
        invariant
            done@.len() + work@.len() == allc.len(),
            work@ == allc.skip(done@.len() as int),
            forall|i: int| 0 <= i < done@.len() ==> comp_rewritten(allc[i], #[trigger] done@[i]),
            forall|i: int, j: int|
                (0 <= i < done@.len() && 0 <= j < allc[i].root_expressions@.len() && no_temps(
                    allc[i].root_expressions@[j],
                )) ==> temps_bounded(
                    #[trigger] done@[i].root_expressions@[j],
                    (old(gen).merge as int),
                    gen.merge as int,
                    (old(gen).materialize as int),
                    gen.materialize as int,
                ),
            witsc.len() == done@.len(),
            forall|i: int|
                0 <= i < done@.len() ==> (#[trigger] witsc[i]).len()
                    == allc[i].root_expressions@.len(),
            forall|i: int, j: int|
                #![trigger witsc[i][j]]
                (0 <= i < done@.len() && 0 <= j < allc[i].root_expressions@.len()) ==> (
                root_transform_rel(
                    allc[i].root_expressions@[j],
                    done@[i].root_expressions@[j],
                    witsc[i][j].0,
                    witsc[i][j].1,
                    witsc[i][j].2,
                    witsc[i][j].3,
                ) && old(gen).merge <= witsc[i][j].0 && witsc[i][j].1 <= gen.merge && old(
                    gen,
                ).materialize <= witsc[i][j].2 && witsc[i][j].3 <= gen.materialize),
            gen.merge + comp_sizes(work@) <= u64::MAX,
            gen.materialize + comp_roots(work@) <= u64::MAX,
            gen.merge + comp_sizes(work@) <= old(gen).merge + comp_sizes(allc),
            gen.materialize + comp_roots(work@) <= old(gen).materialize + comp_roots(allc),
            gen.merge >= old(gen).merge,
            gen.materialize >= old(gen).materialize,
        decreases work@.len(),
    {
        let ghost ci = done@.len() as int;
        let ghost mg_outer = gen.merge as int;
        let ghost tg_outer = gen.materialize as int;
        proof {
            assert(work@[0] == allc[ci]);
            assert(work@.drop_first() =~= allc.skip(ci + 1));
            assert(comp_sizes(work@) == size_seq(allc[ci].root_expressions@) + comp_sizes(
                allc.skip(ci + 1),
            ));
            assert(comp_roots(work@) == allc[ci].root_expressions@.len() + comp_roots(
                allc.skip(ci + 1),
            ));
        }
        let c = work.remove(0);
        let mut roots = c.root_expressions;
        let ghost allr = roots@;
        let mut newroots: Vec<Expression> = Vec::new();
        let ghost mut wits: Seq<(int, int, int, int)> = Seq::empty();
        while roots.len() > 0
            invariant
                newroots@.len() + roots@.len() == allr.len(),
                roots@ == allr.skip(newroots@.len() as int),
                forall|j: int|
                    0 <= j < newroots@.len() ==> root_rewritten(
                        allr[j],
                        #[trigger] newroots@[j],
                    ),
                forall|j: int|
                    (0 <= j < newroots@.len() && no_temps(allr[j])) ==> temps_bounded(
                        #[trigger] newroots@[j],
                        (old(gen).merge as int),
                        gen.merge as int,
                        (old(gen).materialize as int),
                        gen.materialize as int,
                    ),
                wits.len() == newroots@.len(),
                forall|j: int|
                    #![trigger wits[j]]
                    0 <= j < newroots@.len() ==> (root_transform_rel(
                        allr[j],
                        newroots@[j],
                        wits[j].0,
                        wits[j].1,
                        wits[j].2,
                        wits[j].3,
                    ) && old(gen).merge <= wits[j].0 && wits[j].1 <= gen.merge && old(
                        gen,
                    ).materialize <= wits[j].2 && wits[j].3 <= gen.materialize),
                forall|i: int, j: int|
                    (0 <= i < done@.len() && 0 <= j < allc[i].root_expressions@.len() && no_temps(
                        allc[i].root_expressions@[j],
                    )) ==> temps_bounded(
                        #[trigger] done@[i].root_expressions@[j],
                        (old(gen).merge as int),
                        gen.merge as int,
                        (old(gen).materialize as int),
                        gen.materialize as int,
                    ),
                witsc.len() == done@.len(),
                forall|i: int|
                    0 <= i < done@.len() ==> (#[trigger] witsc[i]).len()
                        == allc[i].root_expressions@.len(),
                forall|i: int, j: int|
                    #![trigger witsc[i][j]]
                    (0 <= i < done@.len() && 0 <= j < allc[i].root_expressions@.len()) ==> (
                    root_transform_rel(
                        allc[i].root_expressions@[j],
                        done@[i].root_expressions@[j],
                        witsc[i][j].0,
                        witsc[i][j].1,
                        witsc[i][j].2,
                        witsc[i][j].3,
                    ) && old(gen).merge <= witsc[i][j].0 && witsc[i][j].1 <= gen.merge && old(
                        gen,
                    ).materialize <= witsc[i][j].2 && witsc[i][j].3 <= gen.materialize),
                gen.merge + size_seq(roots@) + comp_sizes(allc.skip(ci + 1)) <= u64::MAX,
                gen.materialize + roots@.len() + comp_roots(allc.skip(ci + 1)) <= u64::MAX,
                gen.merge + size_seq(roots@) + comp_sizes(allc.skip(ci + 1)) <= old(gen).merge
                    + comp_sizes(allc),
                gen.materialize + roots@.len() + comp_roots(allc.skip(ci + 1)) <= old(
                    gen,
                ).materialize + comp_roots(allc),
                gen.merge >= old(gen).merge,
                gen.materialize >= old(gen).materialize,
                gen.merge >= mg_outer,
                gen.materialize >= tg_outer,
            decreases roots@.len(),
        {
            let ghost rj = newroots@.len() as int;
            let ghost mg_in = gen.merge as int;
            let ghost tg_in = gen.materialize as int;
            proof {
                assert(roots@[0] == allr[rj]);
                assert(roots@.drop_first() =~= allr.skip(rj + 1));
            }
            let e = roots.remove(0);
            let e2 = transform_root(e, gen);
            newroots.push(e2);
            proof {
                wits = wits.push((mg_in, gen.merge as int, tg_in, gen.materialize as int));
                let mg_new = gen.merge as int;
                let tg_new = gen.materialize as int;
                assert forall|j: int|
                    (0 <= j < newroots@.len() && no_temps(allr[j])) implies temps_bounded(
                    #[trigger] newroots@[j],
                    (old(gen).merge as int),
                    mg_new,
                    (old(gen).materialize as int),
                    tg_new,
                ) by {
                    if j < rj {
                        lemma_temps_bounded_widen(
                            newroots@[j],
                            (old(gen).merge as int),
                            mg_in,
                            (old(gen).materialize as int),
                            tg_in,
                            (old(gen).merge as int),
                            mg_new,
                            (old(gen).materialize as int),
                            tg_new,
                        );
                    } else {
                        lemma_temps_bounded_widen(
                            newroots@[j],
                            mg_in,
                            mg_new,
                            tg_in,
                            tg_new,
                            (old(gen).merge as int),
                            mg_new,
                            (old(gen).materialize as int),
                            tg_new,
                        );
                    }
                }
                assert forall|i: int, j: int|
                    (0 <= i < done@.len() && 0 <= j < allc[i].root_expressions@.len() && no_temps(
                        allc[i].root_expressions@[j],
                    )) implies temps_bounded(
                    #[trigger] done@[i].root_expressions@[j],
                    (old(gen).merge as int),
                    mg_new,
                    (old(gen).materialize as int),
                    tg_new,
                ) by {
                    lemma_temps_bounded_widen(
                        done@[i].root_expressions@[j],
                        (old(gen).merge as int),
                        mg_in,
                        (old(gen).materialize as int),
                        tg_in,
                        (old(gen).merge as int),
                        mg_new,
                        (old(gen).materialize as int),
                        tg_new,
                    );
                }
                assert forall|j: int| #![trigger wits[j]] 0 <= j < newroots@.len() implies (
                root_transform_rel(
                    allr[j],
                    newroots@[j],
                    wits[j].0,
                    wits[j].1,
                    wits[j].2,
                    wits[j].3,
                ) && old(gen).merge <= wits[j].0 && wits[j].1 <= mg_new && old(gen).materialize
                    <= wits[j].2 && wits[j].3 <= tg_new) by {
                    if j < rj {
                        assert(wits[j] == wits.drop_last()[j]);
                        assert(newroots@[j] == newroots@.subrange(0, rj)[j]);
                    } else {
                        assert(wits[j] == (mg_in, mg_new, tg_in, tg_new));
                        assert(newroots@[j] == e2);
                    }
                }
            }
        }
        done.push(Component { root_expressions: newroots });
        proof {
            witsc = witsc.push(wits);
        }
    }
    core::mem::swap(&mut doc.components, &mut done);
    proof {
        assert(comp_sizes(work@) == 0);
        assert(comp_roots(work@) == 0);
    }
    Ghost(witsc)
}

} // verus!
