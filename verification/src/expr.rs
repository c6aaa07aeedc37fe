//! The abstract expression denoted by a tree, and what evaluating it
//! means. [`sub_view`] reads the expression out of the arena, and the
//! two `eval_rel` relations say which results an evaluation may
//! produce, given relations describing the caller-supplied callbacks.

use vstd::prelude::*;

use crate::child::Child;
use crate::model::acyclic;
use crate::model::rank_ok;
use crate::model::lemma_the_rank;
use crate::model::node_ok;
use crate::model::nodes_ok;
use crate::model::rank_ok_at;
use crate::model::the_rank;
use crate::model::TreeModel;
use crate::node::Node;

verus! {

/// The shape of (a part of) an expression: nothing, a bare atom, or a
/// node carrying an optional operator and two sub-expressions.
pub enum ExprView<Op, Atom> {
    Missing,
    Leaf(Atom),
    Branch { op: Option<Op>, left: Box<ExprView<Op, Atom>>, right: Box<ExprView<Op, Atom>> },
}

/// the expression hanging below node `idx` of the arena
pub open spec fn sub_view<Op, Atom>(nodes: Seq<Node<Op>>, atoms: Seq<Atom>, idx: int) -> ExprView<
    Op,
    Atom,
>
    decreases the_rank(nodes)[idx],
        when 0 <= idx < nodes.len() && nodes_ok(nodes, atoms.len() as int) && acyclic(nodes)
{
    proof {
        lemma_the_rank(nodes);
        assert(rank_ok_at(nodes, the_rank(nodes), idx));
    }
    let nd = nodes[idx];
    ExprView::Branch {
        op: nd.operator,
        left: Box::new(
            match nd.left {
                Child::Absent => ExprView::Missing,
                Child::Atom(a) => ExprView::Leaf(atoms[a as int]),
                Child::Node(c) => sub_view(nodes, atoms, c as int),
            },
        ),
        right: Box::new(
            match nd.right {
                Child::Absent => ExprView::Missing,
                Child::Atom(a) => ExprView::Leaf(atoms[a as int]),
                Child::Node(c) => sub_view(nodes, atoms, c as int),
            },
        ),
    }
}

/// the expression a child slot points to
pub open spec fn child_view<Op, Atom>(nodes: Seq<Node<Op>>, atoms: Seq<Atom>, c: Child) -> ExprView<
    Op,
    Atom,
> {
    match c {
        Child::Absent => ExprView::Missing,
        Child::Atom(a) => ExprView::Leaf(atoms[a as int]),
        Child::Node(i) => sub_view(nodes, atoms, i as int),
    }
}

impl<Op, Atom> TreeModel<Op, Atom> {
    /// the expression hanging below node `idx`
    pub open spec fn sub(self, idx: int) -> ExprView<Op, Atom> {
        sub_view(self.nodes, self.atoms, idx)
    }

    /// the whole expression held by the tree, from its head
    pub open spec fn expr(self) -> ExprView<Op, Atom> {
        self.sub(self.head as int)
    }
}

/// what an atom-evaluation callback may answer, as a relation
pub open spec fn atom_sem<Atom, R, F: Fn(&Atom) -> R>(f: F) -> spec_fn(Atom, R) -> bool {
    |a: Atom, x: R| call_ensures(f, (&a,), x)
}

/// what an operator-application callback may answer, as a relation
pub open spec fn op_sem<Op, R, F: Fn(&Op, R, Option<R>) -> R>(f: F) -> spec_fn(
    Op,
    R,
    Option<R>,
    R,
) -> bool {
    |o: Op, l: R, rv: Option<R>, y: R| call_ensures(f, (&o, l, rv), y)
}

/// what a short-circuit callback may answer, as a relation
pub open spec fn sc_sem<Op, R, F: Fn(&Op, &R) -> bool>(f: F) -> spec_fn(Op, R, bool) -> bool {
    |o: Op, l: R, b: bool| call_ensures(f, (&o, &l), b)
}

/// what a fallible atom-evaluation callback may answer
pub open spec fn atom_sem_f<Atom, R, E, F: Fn(&Atom) -> Result<R, E>>(f: F) -> spec_fn(
    Atom,
    Result<R, E>,
) -> bool {
    |a: Atom, x: Result<R, E>| call_ensures(f, (&a,), x)
}

/// what a fallible operator-application callback may answer
pub open spec fn op_sem_f<Op, R, E, F: Fn(&Op, R, Option<R>) -> Result<R, E>>(f: F) -> spec_fn(
    Op,
    R,
    Option<R>,
    Result<R, E>,
) -> bool {
    |o: Op, l: R, rv: Option<R>, y: Result<R, E>| call_ensures(f, (&o, l, rv), y)
}

/// Marks a candidate result for the evaluation of an expression
/// part: always true, it only serves as the matching term for the
/// quantifiers of [`eval_rel`] and [`eval_rel_f`].
pub open spec fn candidate<Op, Atom, X>(v: ExprView<Op, Atom>, res: X) -> bool {
    true
}

/// Which results evaluating `v` may produce, when the atom callback
/// answers within `ra`, the operator callback within `ro` and the
/// short-circuit callback within `rs`.
///
/// A missing part evaluates to no value. A leaf evaluates to what the
/// atom callback answers. At a branch the left part is evaluated
/// first; without an operator its value is passed through; an
/// operator over no value yields no value; when the short-circuit
/// callback answers true on the operator and the left value, that
/// value is the result and the right part plays no role; otherwise
/// the right part is evaluated and the operator callback answers.
pub open spec fn eval_rel<Op, Atom, R>(
    v: ExprView<Op, Atom>,
    ra: spec_fn(Atom, R) -> bool,
    ro: spec_fn(Op, R, Option<R>, R) -> bool,
    rs: spec_fn(Op, R, bool) -> bool,
    res: Option<R>,
) -> bool
    decreases v,
{
    match v {
        ExprView::Missing => res is None,
        ExprView::Leaf(a) => exists|x: R| #[trigger] ra(a, x) && res == Some(x),
        ExprView::Branch { op, left, right } => exists|lv: Option<R>|
            #[trigger] candidate(*left, lv) && eval_rel(*left, ra, ro, rs, lv) && match op {
                None => res == lv,
                Some(o) => match lv {
                    None => res is None,
                    Some(l) => exists|b: bool| #[trigger] rs(o, l, b) && if b {
                        res == Some(l)
                    } else {
                        exists|rv: Option<R>|
                            #[trigger] candidate(*right, rv) && eval_rel(*right, ra, ro, rs, rv)
                                && exists|y: R| #[trigger] ro(o, l, rv, y) && res == Some(y)
                    },
                },
            },
    }
}

pub proof fn lemma_eval_missing<Op, Atom, R>(
    ra: spec_fn(Atom, R) -> bool,
    ro: spec_fn(Op, R, Option<R>, R) -> bool,
    rs: spec_fn(Op, R, bool) -> bool,
)
    ensures
        eval_rel(ExprView::<Op, Atom>::Missing, ra, ro, rs, Option::<R>::None),
{
}

pub proof fn lemma_eval_leaf<Op, Atom, R>(
    a: Atom,
    x: R,
    ra: spec_fn(Atom, R) -> bool,
    ro: spec_fn(Op, R, Option<R>, R) -> bool,
    rs: spec_fn(Op, R, bool) -> bool,
)
    requires
        ra(a, x),
    ensures
        eval_rel(ExprView::<Op, Atom>::Leaf(a), ra, ro, rs, Some(x)),
{
    let v = ExprView::<Op, Atom>::Leaf(a);
    assert(v->Leaf_0 == a);
    assert(eval_rel(v, ra, ro, rs, Some(x)));
}

pub proof fn lemma_eval_branch_no_op<Op, Atom, R>(
    le: ExprView<Op, Atom>,
    re: ExprView<Op, Atom>,
    ra: spec_fn(Atom, R) -> bool,
    ro: spec_fn(Op, R, Option<R>, R) -> bool,
    rs: spec_fn(Op, R, bool) -> bool,
    lv: Option<R>,
)
    requires
        eval_rel(le, ra, ro, rs, lv),
    ensures
        eval_rel(
            ExprView::<Op, Atom>::Branch { op: None, left: Box::new(le), right: Box::new(re) },
            ra,
            ro,
            rs,
            lv,
        ),
{
    let v = ExprView::<Op, Atom>::Branch { op: None, left: Box::new(le), right: Box::new(re) };
    assert(*(v->Branch_left) == le);
    assert(candidate(*(v->Branch_left), lv) && eval_rel(*(v->Branch_left), ra, ro, rs, lv));
    assert(eval_rel(v, ra, ro, rs, lv));
}

pub proof fn lemma_eval_branch_no_left<Op, Atom, R>(
    o: Op,
    le: ExprView<Op, Atom>,
    re: ExprView<Op, Atom>,
    ra: spec_fn(Atom, R) -> bool,
    ro: spec_fn(Op, R, Option<R>, R) -> bool,
    rs: spec_fn(Op, R, bool) -> bool,
)
    requires
        eval_rel(le, ra, ro, rs, Option::<R>::None),
    ensures
        eval_rel(
            ExprView::<Op, Atom>::Branch { op: Some(o), left: Box::new(le), right: Box::new(re) },
            ra,
            ro,
            rs,
            Option::<R>::None,
        ),
{
    let v = ExprView::<Op, Atom>::Branch { op: Some(o), left: Box::new(le), right: Box::new(re) };
    assert(v->Branch_op == Some(o));
    assert(*(v->Branch_left) == le);
    assert(candidate(*(v->Branch_left), Option::<R>::None) && eval_rel(
        *(v->Branch_left),
        ra,
        ro,
        rs,
        Option::<R>::None,
    ));
    assert(eval_rel(v, ra, ro, rs, Option::<R>::None));
}

pub proof fn lemma_eval_branch_short<Op, Atom, R>(
    o: Op,
    le: ExprView<Op, Atom>,
    re: ExprView<Op, Atom>,
    ra: spec_fn(Atom, R) -> bool,
    ro: spec_fn(Op, R, Option<R>, R) -> bool,
    rs: spec_fn(Op, R, bool) -> bool,
    l: R,
)
    requires
        eval_rel(le, ra, ro, rs, Some(l)),
        rs(o, l, true),
    ensures
        eval_rel(
            ExprView::<Op, Atom>::Branch { op: Some(o), left: Box::new(le), right: Box::new(re) },
            ra,
            ro,
            rs,
            Some(l),
        ),
{
    let v = ExprView::<Op, Atom>::Branch { op: Some(o), left: Box::new(le), right: Box::new(re) };
    assert(v->Branch_op == Some(o));
    assert(*(v->Branch_left) == le);
    assert(candidate(*(v->Branch_left), Some(l)) && eval_rel(
        *(v->Branch_left),
        ra,
        ro,
        rs,
        Some(l),
    ));
    assert((v->Branch_op)->Some_0 == o);
    assert((Some(l))->Some_0 == l);
    assert(rs(o, l, true));
    assert(eval_rel(v, ra, ro, rs, Some(l)));
}

pub proof fn lemma_eval_branch_apply<Op, Atom, R>(
    o: Op,
    le: ExprView<Op, Atom>,
    re: ExprView<Op, Atom>,
    ra: spec_fn(Atom, R) -> bool,
    ro: spec_fn(Op, R, Option<R>, R) -> bool,
    rs: spec_fn(Op, R, bool) -> bool,
    l: R,
    rv: Option<R>,
    y: R,
)
    requires
        eval_rel(le, ra, ro, rs, Some(l)),
        rs(o, l, false),
        eval_rel(re, ra, ro, rs, rv),
        ro(o, l, rv, y),
    ensures
        eval_rel(
            ExprView::<Op, Atom>::Branch { op: Some(o), left: Box::new(le), right: Box::new(re) },
            ra,
            ro,
            rs,
            Some(y),
        ),
{
    let v = ExprView::<Op, Atom>::Branch { op: Some(o), left: Box::new(le), right: Box::new(re) };
    assert(v->Branch_op == Some(o));
    assert(*(v->Branch_left) == le);
    assert(*(v->Branch_right) == re);
    assert(candidate(*(v->Branch_left), Some(l)) && eval_rel(
        *(v->Branch_left),
        ra,
        ro,
        rs,
        Some(l),
    ));
    assert(candidate(*(v->Branch_right), rv) && eval_rel(*(v->Branch_right), ra, ro, rs, rv));
    assert((v->Branch_op)->Some_0 == o);
    assert((Some(l))->Some_0 == l);
    assert(rs(o, l, false));
    assert(ro(o, l, rv, y));
    assert(eval_rel(v, ra, ro, rs, Some(y)));
}

pub proof fn lemma_eval_leaf_inv<Op, Atom, R>(
    a: Atom,
    ra: spec_fn(Atom, R) -> bool,
    ro: spec_fn(Op, R, Option<R>, R) -> bool,
    rs: spec_fn(Op, R, bool) -> bool,
    res: Option<R>,
)
    requires
        eval_rel(ExprView::<Op, Atom>::Leaf(a), ra, ro, rs, res),
    ensures
        exists|x: R| #[trigger] ra(a, x) && res == Some(x),
{
    let v = ExprView::<Op, Atom>::Leaf(a);
    assert(v->Leaf_0 == a);
}

/// What an evaluation of a branch can have done, read back from
/// [`eval_rel`]: the operator was missing and the left value passed
/// through; or the left part evaluated to nothing and so did the
/// branch; or the short-circuit callback answered true on the left
/// value, which became the result with the right part playing no
/// role; or it answered false, the right part was evaluated and the
/// operator callback answered the result.
pub proof fn lemma_eval_branch_inv<Op, Atom, R>(
    op: Option<Op>,
    le: ExprView<Op, Atom>,
    re: ExprView<Op, Atom>,
    ra: spec_fn(Atom, R) -> bool,
    ro: spec_fn(Op, R, Option<R>, R) -> bool,
    rs: spec_fn(Op, R, bool) -> bool,
    res: Option<R>,
)
    requires
        eval_rel(
            ExprView::<Op, Atom>::Branch { op, left: Box::new(le), right: Box::new(re) },
            ra,
            ro,
            rs,
            res,
        ),
    ensures
        op is None ==> exists|lv: Option<R>|
            #[trigger] candidate(le, lv) && eval_rel(le, ra, ro, rs, lv) && res == lv,
        op is Some ==> {
            ||| (eval_rel(le, ra, ro, rs, Option::<R>::None) && res is None)
            ||| (exists|l: R, b: bool|
                eval_rel(le, ra, ro, rs, Some(l)) && #[trigger] rs(op->Some_0, l, b) && b && res
                    == Some(l))
            ||| (exists|l: R, rv: Option<R>, y: R|
                eval_rel(le, ra, ro, rs, Some(l)) && rs(op->Some_0, l, false) && eval_rel(
                    re,
                    ra,
                    ro,
                    rs,
                    rv,
                ) && #[trigger] ro(op->Some_0, l, rv, y) && res == Some(y))
        },
{
    let v = ExprView::<Op, Atom>::Branch { op, left: Box::new(le), right: Box::new(re) };
    assert(*(v->Branch_left) == le);
    assert(*(v->Branch_right) == re);
    assert(v->Branch_op == op);
    let lv = choose|lv: Option<R>|
        #[trigger] candidate(*(v->Branch_left), lv) && eval_rel(*(v->Branch_left), ra, ro, rs, lv)
            && match v->Branch_op {
            None => res == lv,
            Some(o) => match lv {
                None => res is None,
                Some(l) => exists|b: bool| #[trigger] rs(o, l, b) && if b {
                    res == Some(l)
                } else {
                    exists|rv: Option<R>|
                        #[trigger] candidate(*(v->Branch_right), rv) && eval_rel(
                            *(v->Branch_right),
                            ra,
                            ro,
                            rs,
                            rv,
                        ) && exists|y: R| #[trigger] ro(o, l, rv, y) && res == Some(y)
                },
            },
        };
    assert(candidate(le, lv) && eval_rel(le, ra, ro, rs, lv));
    match op {
        None => {
            assert(res == lv);
        },
        Some(o) => {
            assert((v->Branch_op)->Some_0 == o);
            match lv {
                None => {
                    assert(res is None);
                },
                Some(l) => {
                    assert(lv->Some_0 == l);
                    let b = choose|b: bool| #[trigger] rs(o, l, b) && if b {
                        res == Some(l)
                    } else {
                        exists|rv: Option<R>|
                            #[trigger] candidate(*(v->Branch_right), rv) && eval_rel(
                                *(v->Branch_right),
                                ra,
                                ro,
                                rs,
                                rv,
                            ) && exists|y: R| #[trigger] ro(o, l, rv, y) && res == Some(y)
                    };
                    if b {
                        assert(eval_rel(le, ra, ro, rs, Some(l)) && rs(o, l, b) && b && res == Some(
                            l,
                        ));
                    } else {
                        let rv = choose|rv: Option<R>|
                            #[trigger] candidate(*(v->Branch_right), rv) && eval_rel(
                                *(v->Branch_right),
                                ra,
                                ro,
                                rs,
                                rv,
                            ) && exists|y: R| #[trigger] ro(o, l, rv, y) && res == Some(y);
                        let y = choose|y: R| #[trigger] ro(o, l, rv, y) && res == Some(y);
                        assert(eval_rel(le, ra, ro, rs, Some(l)) && rs(o, l, false) && eval_rel(
                            re,
                            ra,
                            ro,
                            rs,
                            rv,
                        ) && ro(o, l, rv, y) && res == Some(y));
                    }
                },
            }
        },
    }
}

/// an atom's fallible evaluation, lifted to the result of the
/// expression part around it: a value becomes a present value, an
/// error stays itself
pub open spec fn lift_atom<R, E>(x: Result<R, E>) -> Result<Option<R>, E> {
    match x {
        Ok(xv) => Ok(Some(xv)),
        Err(e) => Err(e),
    }
}

/// Which results a fallible evaluation of `v` may produce: as
/// [`eval_rel`], except that the atom and operator callbacks may
/// answer an error, and the first error anywhere is the overall
/// result, with nothing evaluated beyond it.
pub open spec fn eval_rel_f<Op, Atom, R, E>(
    v: ExprView<Op, Atom>,
    ra: spec_fn(Atom, Result<R, E>) -> bool,
    ro: spec_fn(Op, R, Option<R>, Result<R, E>) -> bool,
    rs: spec_fn(Op, R, bool) -> bool,
    res: Result<Option<R>, E>,
) -> bool
    decreases v,
{
    match v {
        ExprView::Missing => res == Ok::<Option<R>, E>(None),
        ExprView::Leaf(a) => exists|x: Result<R, E>| #[trigger] ra(a, x) && res == lift_atom(x),
        ExprView::Branch { op, left, right } => exists|lv: Result<Option<R>, E>|
            #[trigger] candidate(*left, lv) && eval_rel_f(*left, ra, ro, rs, lv) && match lv {
                Err(e) => res == Err::<Option<R>, E>(e),
                Ok(lvo) => match op {
                    None => res == Ok::<Option<R>, E>(lvo),
                    Some(o) => match lvo {
                        None => res == Ok::<Option<R>, E>(None),
                        Some(l) => exists|b: bool| #[trigger] rs(o, l, b) && if b {
                            res == Ok::<Option<R>, E>(Some(l))
                        } else {
                            exists|rv: Result<Option<R>, E>|
                                #[trigger] candidate(*right, rv) && eval_rel_f(*right, ra, ro, rs, rv)
                                    && match rv {
                                    Err(e) => res == Err::<Option<R>, E>(e),
                                    Ok(rvo) => exists|y: Result<R, E>| #[trigger] ro(o, l, rvo, y)
                                        && res == lift_atom(y),
                                }
                        },
                    },
                },
            },
    }
}

pub proof fn lemma_evalf_missing<Op, Atom, R, E>(
    ra: spec_fn(Atom, Result<R, E>) -> bool,
    ro: spec_fn(Op, R, Option<R>, Result<R, E>) -> bool,
    rs: spec_fn(Op, R, bool) -> bool,
)
    ensures
        eval_rel_f(ExprView::<Op, Atom>::Missing, ra, ro, rs, Ok::<Option<R>, E>(None)),
{
}

pub proof fn lemma_evalf_leaf<Op, Atom, R, E>(
    a: Atom,
    x: Result<R, E>,
    ra: spec_fn(Atom, Result<R, E>) -> bool,
    ro: spec_fn(Op, R, Option<R>, Result<R, E>) -> bool,
    rs: spec_fn(Op, R, bool) -> bool,
)
    requires
        ra(a, x),
    ensures
        eval_rel_f(ExprView::<Op, Atom>::Leaf(a), ra, ro, rs, lift_atom(x)),
{
    let v = ExprView::<Op, Atom>::Leaf(a);
    assert(v->Leaf_0 == a);
    assert(eval_rel_f(v, ra, ro, rs, lift_atom(x)));
}

pub proof fn lemma_evalf_branch_err_left<Op, Atom, R, E>(
    op: Option<Op>,
    le: ExprView<Op, Atom>,
    re: ExprView<Op, Atom>,
    ra: spec_fn(Atom, Result<R, E>) -> bool,
    ro: spec_fn(Op, R, Option<R>, Result<R, E>) -> bool,
    rs: spec_fn(Op, R, bool) -> bool,
    e: E,
)
    requires
        eval_rel_f(le, ra, ro, rs, Err::<Option<R>, E>(e)),
    ensures
        eval_rel_f(
            ExprView::<Op, Atom>::Branch { op, left: Box::new(le), right: Box::new(re) },
            ra,
            ro,
            rs,
            Err::<Option<R>, E>(e),
        ),
{
    let v = ExprView::<Op, Atom>::Branch { op, left: Box::new(le), right: Box::new(re) };
    assert(*(v->Branch_left) == le);
    assert(candidate(*(v->Branch_left), Err::<Option<R>, E>(e)) && eval_rel_f(
        *(v->Branch_left),
        ra,
        ro,
        rs,
        Err::<Option<R>, E>(e),
    ));
    assert(eval_rel_f(v, ra, ro, rs, Err::<Option<R>, E>(e)));
}

pub proof fn lemma_evalf_branch_no_op<Op, Atom, R, E>(
    le: ExprView<Op, Atom>,
    re: ExprView<Op, Atom>,
    ra: spec_fn(Atom, Result<R, E>) -> bool,
    ro: spec_fn(Op, R, Option<R>, Result<R, E>) -> bool,
    rs: spec_fn(Op, R, bool) -> bool,
    lvo: Option<R>,
)
    requires
        eval_rel_f(le, ra, ro, rs, Ok::<Option<R>, E>(lvo)),
    ensures
        eval_rel_f(
            ExprView::<Op, Atom>::Branch { op: None, left: Box::new(le), right: Box::new(re) },
            ra,
            ro,
            rs,
            Ok::<Option<R>, E>(lvo),
        ),
{
    let v = ExprView::<Op, Atom>::Branch { op: None, left: Box::new(le), right: Box::new(re) };
    assert(*(v->Branch_left) == le);
    assert(candidate(*(v->Branch_left), Ok::<Option<R>, E>(lvo)) && eval_rel_f(
        *(v->Branch_left),
        ra,
        ro,
        rs,
        Ok::<Option<R>, E>(lvo),
    ));
    assert(eval_rel_f(v, ra, ro, rs, Ok::<Option<R>, E>(lvo)));
}

pub proof fn lemma_evalf_branch_no_left<Op, Atom, R, E>(
    o: Op,
    le: ExprView<Op, Atom>,
    re: ExprView<Op, Atom>,
    ra: spec_fn(Atom, Result<R, E>) -> bool,
    ro: spec_fn(Op, R, Option<R>, Result<R, E>) -> bool,
    rs: spec_fn(Op, R, bool) -> bool,
)
    requires
        eval_rel_f(le, ra, ro, rs, Ok::<Option<R>, E>(None)),
    ensures
        eval_rel_f(
            ExprView::<Op, Atom>::Branch { op: Some(o), left: Box::new(le), right: Box::new(re) },
            ra,
            ro,
            rs,
            Ok::<Option<R>, E>(None),
        ),
{
    let v = ExprView::<Op, Atom>::Branch { op: Some(o), left: Box::new(le), right: Box::new(re) };
    assert(v->Branch_op == Some(o));
    assert(*(v->Branch_left) == le);
    assert(candidate(*(v->Branch_left), Ok::<Option<R>, E>(None)) && eval_rel_f(
        *(v->Branch_left),
        ra,
        ro,
        rs,
        Ok::<Option<R>, E>(None),
    ));
    assert(eval_rel_f(v, ra, ro, rs, Ok::<Option<R>, E>(None)));
}

pub proof fn lemma_evalf_branch_short<Op, Atom, R, E>(
    o: Op,
    le: ExprView<Op, Atom>,
    re: ExprView<Op, Atom>,
    ra: spec_fn(Atom, Result<R, E>) -> bool,
    ro: spec_fn(Op, R, Option<R>, Result<R, E>) -> bool,
    rs: spec_fn(Op, R, bool) -> bool,
    l: R,
)
    requires
        eval_rel_f(le, ra, ro, rs, Ok::<Option<R>, E>(Some(l))),
        rs(o, l, true),
    ensures
        eval_rel_f(
            ExprView::<Op, Atom>::Branch { op: Some(o), left: Box::new(le), right: Box::new(re) },
            ra,
            ro,
            rs,
            Ok::<Option<R>, E>(Some(l)),
        ),
{
    let v = ExprView::<Op, Atom>::Branch { op: Some(o), left: Box::new(le), right: Box::new(re) };
    assert(v->Branch_op == Some(o));
    assert(*(v->Branch_left) == le);
    assert(candidate(*(v->Branch_left), Ok::<Option<R>, E>(Some(l))) && eval_rel_f(
        *(v->Branch_left),
        ra,
        ro,
        rs,
        Ok::<Option<R>, E>(Some(l)),
    ));
    assert((v->Branch_op)->Some_0 == o);
    assert((Ok::<Option<R>, E>(Some(l)))->Ok_0 == Some(l));
    assert((Some(l))->Some_0 == l);
    assert(rs(o, l, true));
    assert(eval_rel_f(v, ra, ro, rs, Ok::<Option<R>, E>(Some(l))));
}

pub proof fn lemma_evalf_branch_err_right<Op, Atom, R, E>(
    o: Op,
    le: ExprView<Op, Atom>,
    re: ExprView<Op, Atom>,
    ra: spec_fn(Atom, Result<R, E>) -> bool,
    ro: spec_fn(Op, R, Option<R>, Result<R, E>) -> bool,
    rs: spec_fn(Op, R, bool) -> bool,
    l: R,
    e: E,
)
    requires
        eval_rel_f(le, ra, ro, rs, Ok::<Option<R>, E>(Some(l))),
        rs(o, l, false),
        eval_rel_f(re, ra, ro, rs, Err::<Option<R>, E>(e)),
    ensures
        eval_rel_f(
            ExprView::<Op, Atom>::Branch { op: Some(o), left: Box::new(le), right: Box::new(re) },
            ra,
            ro,
            rs,
            Err::<Option<R>, E>(e),
        ),
{
    let v = ExprView::<Op, Atom>::Branch { op: Some(o), left: Box::new(le), right: Box::new(re) };
    assert(v->Branch_op == Some(o));
    assert(*(v->Branch_left) == le);
    assert(*(v->Branch_right) == re);
    assert(candidate(*(v->Branch_left), Ok::<Option<R>, E>(Some(l))) && eval_rel_f(
        *(v->Branch_left),
        ra,
        ro,
        rs,
        Ok::<Option<R>, E>(Some(l)),
    ));
    assert(candidate(*(v->Branch_right), Err::<Option<R>, E>(e)) && eval_rel_f(
        *(v->Branch_right),
        ra,
        ro,
        rs,
        Err::<Option<R>, E>(e),
    ));
    assert((v->Branch_op)->Some_0 == o);
    assert((Ok::<Option<R>, E>(Some(l)))->Ok_0 == Some(l));
    assert((Some(l))->Some_0 == l);
    assert(rs(o, l, false));
    assert(eval_rel_f(v, ra, ro, rs, Err::<Option<R>, E>(e)));
}

pub proof fn lemma_evalf_branch_apply<Op, Atom, R, E>(
    o: Op,
    le: ExprView<Op, Atom>,
    re: ExprView<Op, Atom>,
    ra: spec_fn(Atom, Result<R, E>) -> bool,
    ro: spec_fn(Op, R, Option<R>, Result<R, E>) -> bool,
    rs: spec_fn(Op, R, bool) -> bool,
    l: R,
    rvo: Option<R>,
    y: Result<R, E>,
)
    requires
        eval_rel_f(le, ra, ro, rs, Ok::<Option<R>, E>(Some(l))),
        rs(o, l, false),
        eval_rel_f(re, ra, ro, rs, Ok::<Option<R>, E>(rvo)),
        ro(o, l, rvo, y),
    ensures
        eval_rel_f(
            ExprView::<Op, Atom>::Branch { op: Some(o), left: Box::new(le), right: Box::new(re) },
            ra,
            ro,
            rs,
            lift_atom(y),
        ),
{
    let v = ExprView::<Op, Atom>::Branch { op: Some(o), left: Box::new(le), right: Box::new(re) };
    assert(v->Branch_op == Some(o));
    assert(*(v->Branch_left) == le);
    assert(*(v->Branch_right) == re);
    assert(candidate(*(v->Branch_left), Ok::<Option<R>, E>(Some(l))) && eval_rel_f(
        *(v->Branch_left),
        ra,
        ro,
        rs,
        Ok::<Option<R>, E>(Some(l)),
    ));
    assert(candidate(*(v->Branch_right), Ok::<Option<R>, E>(rvo)) && eval_rel_f(
        *(v->Branch_right),
        ra,
        ro,
        rs,
        Ok::<Option<R>, E>(rvo),
    ));
    assert((v->Branch_op)->Some_0 == o);
    assert((Ok::<Option<R>, E>(Some(l)))->Ok_0 == Some(l));
    assert((Some(l))->Some_0 == l);
    assert((Ok::<Option<R>, E>(rvo))->Ok_0 == rvo);
    assert(rs(o, l, false));
    assert(ro(o, l, rvo, y));
    assert(eval_rel_f(v, ra, ro, rs, lift_atom(y)));
}

pub proof fn lemma_evalf_missing_inv<Op, Atom, R, E>(
    ra: spec_fn(Atom, Result<R, E>) -> bool,
    ro: spec_fn(Op, R, Option<R>, Result<R, E>) -> bool,
    rs: spec_fn(Op, R, bool) -> bool,
    res: Result<Option<R>, E>,
)
    requires
        eval_rel_f(ExprView::<Op, Atom>::Missing, ra, ro, rs, res),
    ensures
        res == Ok::<Option<R>, E>(None),
{
}

pub proof fn lemma_evalf_leaf_inv<Op, Atom, R, E>(
    a: Atom,
    ra: spec_fn(Atom, Result<R, E>) -> bool,
    ro: spec_fn(Op, R, Option<R>, Result<R, E>) -> bool,
    rs: spec_fn(Op, R, bool) -> bool,
    res: Result<Option<R>, E>,
)
    requires
        eval_rel_f(ExprView::<Op, Atom>::Leaf(a), ra, ro, rs, res),
    ensures
        exists|x: Result<R, E>| #[trigger] ra(a, x) && res == lift_atom(x),
{
    let v = ExprView::<Op, Atom>::Leaf(a);
    assert(v->Leaf_0 == a);
}

/// What a fallible evaluation of a branch can have done, read back
/// from [`eval_rel_f`]: the left part may have failed, and its error
/// is the result; or the branch behaved as in [`eval_rel`]; or the
/// right part or the operator callback failed, and that error is the
/// result.
pub proof fn lemma_evalf_branch_inv<Op, Atom, R, E>(
    op: Option<Op>,
    le: ExprView<Op, Atom>,
    re: ExprView<Op, Atom>,
    ra: spec_fn(Atom, Result<R, E>) -> bool,
    ro: spec_fn(Op, R, Option<R>, Result<R, E>) -> bool,
    rs: spec_fn(Op, R, bool) -> bool,
    res: Result<Option<R>, E>,
)
    requires
        eval_rel_f(
            ExprView::<Op, Atom>::Branch { op, left: Box::new(le), right: Box::new(re) },
            ra,
            ro,
            rs,
            res,
        ),
    ensures
        ({
            ||| (res is Err && eval_rel_f(le, ra, ro, rs, res))
            ||| (op is None && res is Ok && eval_rel_f(le, ra, ro, rs, res))
            ||| (op is Some && eval_rel_f(le, ra, ro, rs, Ok::<Option<R>, E>(None)) && res == Ok::<
                Option<R>,
                E,
            >(None))
            ||| (op is Some && exists|l: R, b: bool|
                eval_rel_f(le, ra, ro, rs, Ok::<Option<R>, E>(Some(l))) && #[trigger] rs(
                    op->Some_0,
                    l,
                    b,
                ) && b && res == Ok::<Option<R>, E>(Some(l)))
            ||| (op is Some && res is Err && exists|l: R|
                #[trigger] rs(op->Some_0, l, false) && eval_rel_f(
                    le,
                    ra,
                    ro,
                    rs,
                    Ok::<Option<R>, E>(Some(l)),
                ) && eval_rel_f(re, ra, ro, rs, res))
            ||| (op is Some && exists|l: R, rvo: Option<R>, y: Result<R, E>|
                eval_rel_f(le, ra, ro, rs, Ok::<Option<R>, E>(Some(l))) && rs(op->Some_0, l, false)
                    && eval_rel_f(re, ra, ro, rs, Ok::<Option<R>, E>(rvo)) && #[trigger] ro(
                    op->Some_0,
                    l,
                    rvo,
                    y,
                ) && res == lift_atom(y))
        }),
{
    let v = ExprView::<Op, Atom>::Branch { op, left: Box::new(le), right: Box::new(re) };
    assert(*(v->Branch_left) == le);
    assert(*(v->Branch_right) == re);
    assert(v->Branch_op == op);
    let lv = choose|lv: Result<Option<R>, E>|
        #[trigger] candidate(*(v->Branch_left), lv) && eval_rel_f(
            *(v->Branch_left),
            ra,
            ro,
            rs,
            lv,
        ) && match lv {
            Err(e) => res == Err::<Option<R>, E>(e),
            Ok(lvo) => match v->Branch_op {
                None => res == Ok::<Option<R>, E>(lvo),
                Some(o) => match lvo {
                    None => res == Ok::<Option<R>, E>(None),
                    Some(l) => exists|b: bool| #[trigger] rs(o, l, b) && if b {
                        res == Ok::<Option<R>, E>(Some(l))
                    } else {
                        exists|rv: Result<Option<R>, E>|
                            #[trigger] candidate(*(v->Branch_right), rv) && eval_rel_f(
                                *(v->Branch_right),
                                ra,
                                ro,
                                rs,
                                rv,
                            ) && match rv {
                                Err(e) => res == Err::<Option<R>, E>(e),
                                Ok(rvo) => exists|y: Result<R, E>| #[trigger] ro(o, l, rvo, y)
                                    && res == lift_atom(y),
                            }
                    },
                },
            },
        };
    assert(candidate(le, lv) && eval_rel_f(le, ra, ro, rs, lv));
    match lv {
        Err(e) => {
            assert(lv->Err_0 == e);
            assert(res == Err::<Option<R>, E>(e));
        },
        Ok(lvo) => {
            assert(lv->Ok_0 == lvo);
            match op {
                None => {
                    assert(res == Ok::<Option<R>, E>(lvo));
                },
                Some(o) => {
                    assert((v->Branch_op)->Some_0 == o);
                    match lvo {
                        None => {
                            assert(res == Ok::<Option<R>, E>(None));
                        },
                        Some(l) => {
                            assert(lvo->Some_0 == l);
                            let b = choose|b: bool| #[trigger] rs(o, l, b) && if b {
                                res == Ok::<Option<R>, E>(Some(l))
                            } else {
                                exists|rv: Result<Option<R>, E>|
                                    #[trigger] candidate(*(v->Branch_right), rv) && eval_rel_f(
                                        *(v->Branch_right),
                                        ra,
                                        ro,
                                        rs,
                                        rv,
                                    ) && match rv {
                                        Err(e) => res == Err::<Option<R>, E>(e),
                                        Ok(rvo) => exists|y: Result<R, E>| #[trigger] ro(
                                            o,
                                            l,
                                            rvo,
                                            y,
                                        ) && res == lift_atom(y),
                                    }
                            };
                            if b {
                                assert(eval_rel_f(le, ra, ro, rs, Ok::<Option<R>, E>(Some(l))) && rs(
                                    o,
                                    l,
                                    b,
                                ) && b && res == Ok::<Option<R>, E>(Some(l)));
                            } else {
                                let rv = choose|rv: Result<Option<R>, E>|
                                    #[trigger] candidate(*(v->Branch_right), rv) && eval_rel_f(
                                        *(v->Branch_right),
                                        ra,
                                        ro,
                                        rs,
                                        rv,
                                    ) && match rv {
                                        Err(e) => res == Err::<Option<R>, E>(e),
                                        Ok(rvo) => exists|y: Result<R, E>| #[trigger] ro(
                                            o,
                                            l,
                                            rvo,
                                            y,
                                        ) && res == lift_atom(y),
                                    };
                                match rv {
                                    Err(e) => {
                                        assert(rv->Err_0 == e);
                                        assert(res == Err::<Option<R>, E>(e));
                                        assert(rs(o, l, false) && eval_rel_f(
                                            le,
                                            ra,
                                            ro,
                                            rs,
                                            Ok::<Option<R>, E>(Some(l)),
                                        ) && eval_rel_f(re, ra, ro, rs, res));
                                    },
                                    Ok(rvo) => {
                                        assert(rv->Ok_0 == rvo);
                                        let y = choose|y: Result<R, E>|
                                            #[trigger] ro(o, l, rvo, y) && res == lift_atom(y);
                                        assert(eval_rel_f(le, ra, ro, rs, Ok::<Option<R>, E>(Some(l)))
                                            && rs(o, l, false) && eval_rel_f(
                                            re,
                                            ra,
                                            ro,
                                            rs,
                                            Ok::<Option<R>, E>(rvo),
                                        ) && ro(o, l, rvo, y) && res == lift_atom(y));
                                    },
                                }
                            }
                        },
                    }
                },
            }
        },
    }
}

/// The expression below a node reads only the operators and the
/// child slots of the arena: two arenas that agree on them, however
/// their parent links differ, hold the same expressions.
pub proof fn lemma_sub_view_ignores_parents<Op, Atom>(
    nodes1: Seq<Node<Op>>,
    nodes2: Seq<Node<Op>>,
    atoms: Seq<Atom>,
    idx: int,
)
    requires
        nodes1.len() == nodes2.len(),
        forall|i: int|
            0 <= i < nodes1.len() ==> {
                &&& (#[trigger] nodes2[i]).operator == nodes1[i].operator
                &&& nodes2[i].left == nodes1[i].left
                &&& nodes2[i].right == nodes1[i].right
            },
        0 <= idx < nodes1.len(),
        nodes_ok(nodes1, atoms.len() as int),
        acyclic(nodes1),
        nodes_ok(nodes2, atoms.len() as int),
        acyclic(nodes2),
    ensures
        sub_view(nodes1, atoms, idx) == sub_view(nodes2, atoms, idx),
    decreases the_rank(nodes1)[idx],
{
    lemma_the_rank(nodes1);
    assert(rank_ok_at(nodes1, the_rank(nodes1), idx));
    assert(nodes2[idx].operator == nodes1[idx].operator && nodes2[idx].left == nodes1[idx].left
        && nodes2[idx].right == nodes1[idx].right);
    match nodes1[idx].left {
        Child::Node(c) => {
            lemma_sub_view_ignores_parents(nodes1, nodes2, atoms, c as int);
        },
        _ => {
        },
    }
    match nodes1[idx].right {
        Child::Node(c) => {
            lemma_sub_view_ignores_parents(nodes1, nodes2, atoms, c as int);
        },
        _ => {
        },
    }
}

/// Appending nodes to the arena leaves the expressions below the
/// existing nodes unchanged: they cannot reach the new ones.
pub proof fn lemma_sub_view_push<Op, Atom>(
    nodes: Seq<Node<Op>>,
    fresh: Node<Op>,
    atoms: Seq<Atom>,
    idx: int,
)
    requires
        0 <= idx < nodes.len(),
        nodes_ok(nodes, atoms.len() as int),
        acyclic(nodes),
        nodes_ok(nodes.push(fresh), atoms.len() as int),
        acyclic(nodes.push(fresh)),
    ensures
        sub_view(nodes.push(fresh), atoms, idx) == sub_view(nodes, atoms, idx),
    decreases the_rank(nodes)[idx],
{
    lemma_the_rank(nodes);
    assert(rank_ok_at(nodes, the_rank(nodes), idx));
    assert(node_ok(nodes[idx], nodes.len() as int, atoms.len() as int));
    assert(nodes.push(fresh)[idx] == nodes[idx]);
    match nodes[idx].left {
        Child::Node(c) => {
            lemma_sub_view_push(nodes, fresh, atoms, c as int);
        },
        _ => {
        },
    }
    match nodes[idx].right {
        Child::Node(c) => {
            lemma_sub_view_push(nodes, fresh, atoms, c as int);
        },
        _ => {
        },
    }
}

/// The expression below a node only reads the nodes below its rank:
/// two arenas that agree on the operators and child slots of every
/// node up to the rank of `idx` hold the same expression there,
/// whatever they hold elsewhere.
pub proof fn lemma_sub_view_frame<Op, Atom>(
    nodes1: Seq<Node<Op>>,
    nodes2: Seq<Node<Op>>,
    atoms: Seq<Atom>,
    r: Seq<nat>,
    idx: int,
)
    requires
        nodes1.len() == nodes2.len(),
        rank_ok(nodes1, r),
        forall|j: int|
            0 <= j < nodes1.len() && r[j] <= r[idx] ==> {
                &&& (#[trigger] nodes2[j]).operator == nodes1[j].operator
                &&& nodes2[j].left == nodes1[j].left
                &&& nodes2[j].right == nodes1[j].right
            },
        0 <= idx < nodes1.len(),
        nodes_ok(nodes1, atoms.len() as int),
        acyclic(nodes1),
        nodes_ok(nodes2, atoms.len() as int),
        acyclic(nodes2),
    ensures
        sub_view(nodes1, atoms, idx) == sub_view(nodes2, atoms, idx),
    decreases r[idx],
{
    assert(rank_ok_at(nodes1, r, idx));
    assert(nodes2[idx].operator == nodes1[idx].operator && nodes2[idx].left == nodes1[idx].left
        && nodes2[idx].right == nodes1[idx].right);
    match nodes1[idx].left {
        Child::Node(c) => {
            lemma_sub_view_frame(nodes1, nodes2, atoms, r, c as int);
        },
        _ => {
        },
    }
    match nodes1[idx].right {
        Child::Node(c) => {
            lemma_sub_view_frame(nodes1, nodes2, atoms, r, c as int);
        },
        _ => {
        },
    }
}

} // verus!
