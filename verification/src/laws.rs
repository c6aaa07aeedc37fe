//! General laws of the library, stated and proved over the model:
//! what holds of every tree and every evaluation, not of one example.

use vstd::prelude::*;

use crate::be_tree::TokenType;
use crate::child::Child;
use crate::expr::candidate;
use crate::expr::eval_rel;
use crate::expr::eval_rel_f;
use crate::expr::lemma_eval_branch_inv;
use crate::expr::lemma_eval_branch_no_left;
use crate::expr::lemma_eval_branch_no_op;
use crate::expr::lemma_eval_branch_short;
use crate::expr::lemma_eval_leaf_inv;
use crate::expr::lemma_evalf_branch_inv;
use crate::expr::lemma_evalf_leaf_inv;
use crate::expr::lemma_evalf_missing_inv;
use crate::expr::lemma_sub_view_frame;
use crate::expr::lemma_sub_view_ignores_parents;
use crate::expr::lemma_sub_view_push;
use crate::expr::lift_atom;
use crate::expr::sub_view;
use crate::expr::ExprView;
use crate::model::acyclic;
use crate::model::double_push;
use crate::model::lemma_the_rank;
use crate::model::node_ok;
use crate::model::nodes_ok;
use crate::model::rank_ok;
use crate::model::rank_ok_at;
use crate::model::the_rank;
use crate::model::TreeModel;
use crate::node::Node;

verus! {

/// A closing parenthesis pushed while no parenthesis is open is a
/// no-op: the openness count stays at zero, the insertion cursor and
/// the whole tree are unchanged; only the last-pushed state records
/// the token.
pub proof fn lemma_close_par_at_zero_openness<Op, Atom>(m: TreeModel<Op, Atom>)
    requires
        m.openness == 0,
    ensures
        m.closed_par().openness == 0,
        m.closed_par().tail == m.tail,
        m.closed_par().head == m.head,
        m.closed_par().nodes == m.nodes,
        m.closed_par().atoms == m.atoms,
        m.closed_par().op_count == m.op_count,
        m.closed_par().last == TokenType::ClosingPar,
{
}

/// Mapping the atoms through a transformation that can only answer
/// each atom back unchanged gives a tree equal to the original: same
/// node topology, same atoms, same cursor state. The premises are
/// what [`crate::BeTree::try_map_atoms`] ensures of a successful
/// run, with `rf` describing the transformation's possible answers.
pub proof fn lemma_map_identity<Op, Atom, E>(
    m: TreeModel<Op, Atom>,
    m2: TreeModel<Op, Atom>,
    rf: spec_fn(Atom, Result<Atom, E>) -> bool,
)
    requires
        forall|a: Atom, out: Result<Atom, E>| #[trigger] rf(a, out) ==> out == Ok::<Atom, E>(a),
        m2.nodes == m.nodes,
        m2.head == m.head,
        m2.tail == m.tail,
        m2.last == m.last,
        m2.op_count == m.op_count,
        m2.openness == m.openness,
        m2.atoms.len() == m.atoms.len(),
        forall|i: int|
            0 <= i < m.atoms.len() ==> rf(m.atoms[i], Ok::<Atom, E>(#[trigger] m2.atoms[i])),
    ensures
        m2 == m,
{
    assert forall|i: int| 0 <= i < m.atoms.len() implies m2.atoms[i] == m.atoms[i] by {
        assert(rf(m.atoms[i], Ok::<Atom, E>(m2.atoms[i])));
    }
    assert(m2.atoms =~= m.atoms);
    assert(m2 =~= m);
}

/// Short-circuit law, first half: at a binary node whose operator
/// short-circuits on every value the left part can evaluate to, the
/// node's value is exactly a value of the left part — the operator
/// callback contributes nothing.
pub proof fn lemma_short_circuit_keeps_left<Op, Atom, R>(
    o: Op,
    le: ExprView<Op, Atom>,
    re: ExprView<Op, Atom>,
    ra: spec_fn(Atom, R) -> bool,
    ro: spec_fn(Op, R, Option<R>, R) -> bool,
    rs: spec_fn(Op, R, bool) -> bool,
    res: Option<R>,
)
    requires
        eval_rel(
            ExprView::<Op, Atom>::Branch { op: Some(o), left: Box::new(le), right: Box::new(re) },
            ra,
            ro,
            rs,
            res,
        ),
        forall|l: R, b: bool| eval_rel(le, ra, ro, rs, Some(l)) && #[trigger] rs(o, l, b) ==> b,
    ensures
        eval_rel(le, ra, ro, rs, res),
{
    lemma_eval_branch_inv(Some(o), le, re, ra, ro, rs, res);
    assert((Some(o))->Some_0 == o);
}

/// Short-circuit law, second half: at such a node the right part
/// plays no role at all — it can be replaced by anything without
/// changing which results the evaluation may produce.
pub proof fn lemma_short_circuit_ignores_right<Op, Atom, R>(
    o: Op,
    le: ExprView<Op, Atom>,
    re1: ExprView<Op, Atom>,
    re2: ExprView<Op, Atom>,
    ra: spec_fn(Atom, R) -> bool,
    ro: spec_fn(Op, R, Option<R>, R) -> bool,
    rs: spec_fn(Op, R, bool) -> bool,
    res: Option<R>,
)
    requires
        eval_rel(
            ExprView::<Op, Atom>::Branch { op: Some(o), left: Box::new(le), right: Box::new(re1) },
            ra,
            ro,
            rs,
            res,
        ),
        forall|l: R, b: bool| eval_rel(le, ra, ro, rs, Some(l)) && #[trigger] rs(o, l, b) ==> b,
    ensures
        eval_rel(
            ExprView::<Op, Atom>::Branch { op: Some(o), left: Box::new(le), right: Box::new(re2) },
            ra,
            ro,
            rs,
            res,
        ),
{
    lemma_eval_branch_inv(Some(o), le, re1, ra, ro, rs, res);
    assert((Some(o))->Some_0 == o);
    if eval_rel(le, ra, ro, rs, Option::<R>::None) && res is None {
        lemma_eval_branch_no_left(o, le, re2, ra, ro, rs);
    } else {
        let (l, b) = choose|l: R, b: bool|
            eval_rel(le, ra, ro, rs, Some(l)) && #[trigger] rs(o, l, b) && b && res == Some(l);
        assert(rs(o, l, true));
        lemma_eval_branch_short(o, le, re2, ra, ro, rs, l);
    }
}

/// Fallible evaluation, first half: when neither the atom callback
/// nor the operator callback can answer an error, the evaluation
/// cannot produce one.
pub proof fn lemma_no_callback_error_no_result_error<Op, Atom, R, E>(
    v: ExprView<Op, Atom>,
    ra: spec_fn(Atom, Result<R, E>) -> bool,
    ro: spec_fn(Op, R, Option<R>, Result<R, E>) -> bool,
    rs: spec_fn(Op, R, bool) -> bool,
    res: Result<Option<R>, E>,
)
    requires
        eval_rel_f(v, ra, ro, rs, res),
        forall|a: Atom, x: Result<R, E>| #[trigger] ra(a, x) ==> x is Ok,
        forall|o: Op, l: R, rvo: Option<R>, y: Result<R, E>| #[trigger] ro(o, l, rvo, y) ==> y
            is Ok,
    ensures
        res is Ok,
    decreases v,
{
    match v {
        ExprView::Missing => {
            lemma_evalf_missing_inv(ra, ro, rs, res);
        },
        ExprView::Leaf(a) => {
            lemma_evalf_leaf_inv(a, ra, ro, rs, res);
            let x = choose|x: Result<R, E>| #[trigger] ra(a, x) && res == lift_atom(x);
            assert(x is Ok);
        },
        ExprView::Branch { op, left, right } => {
            assert(v == (ExprView::Branch {
                op,
                left: Box::new(*left),
                right: Box::new(*right),
            }));
            lemma_evalf_branch_inv(op, *left, *right, ra, ro, rs, res);
            if eval_rel_f(*left, ra, ro, rs, res) {
                lemma_no_callback_error_no_result_error(*left, ra, ro, rs, res);
            }
            if eval_rel_f(*right, ra, ro, rs, res) {
                lemma_no_callback_error_no_result_error(*right, ra, ro, rs, res);
            }
        },
    }
}

/// Fallible evaluation, second half: an error coming out of the
/// evaluation is the exact error some callback answered during the
/// walk — errors are passed through verbatim, never invented.
pub proof fn lemma_result_error_is_a_callback_error<Op, Atom, R, E>(
    v: ExprView<Op, Atom>,
    ra: spec_fn(Atom, Result<R, E>) -> bool,
    ro: spec_fn(Op, R, Option<R>, Result<R, E>) -> bool,
    rs: spec_fn(Op, R, bool) -> bool,
    e: E,
)
    requires
        eval_rel_f(v, ra, ro, rs, Err::<Option<R>, E>(e)),
    ensures
        (exists|a: Atom| #[trigger] ra(a, Err::<R, E>(e))) || (exists|o: Op, l: R, rvo: Option<R>|
            #[trigger] ro(o, l, rvo, Err::<R, E>(e))),
    decreases v,
{
    let res = Err::<Option<R>, E>(e);
    match v {
        ExprView::Missing => {
            lemma_evalf_missing_inv(ra, ro, rs, res);
        },
        ExprView::Leaf(a) => {
            lemma_evalf_leaf_inv(a, ra, ro, rs, res);
            let x = choose|x: Result<R, E>| #[trigger] ra(a, x) && res == lift_atom(x);
            assert(x == Err::<R, E>(e));
        },
        ExprView::Branch { op, left, right } => {
            assert(v == (ExprView::Branch {
                op,
                left: Box::new(*left),
                right: Box::new(*right),
            }));
            lemma_evalf_branch_inv(op, *left, *right, ra, ro, rs, res);
            if eval_rel_f(*left, ra, ro, rs, res) {
                lemma_result_error_is_a_callback_error(*left, ra, ro, rs, e);
            } else if eval_rel_f(*right, ra, ro, rs, res) {
                lemma_result_error_is_a_callback_error(*right, ra, ro, rs, e);
            } else {
                let (l, rvo, y) = choose|l: R, rvo: Option<R>, y: Result<R, E>|
                    eval_rel_f(*left, ra, ro, rs, Ok::<Option<R>, E>(Some(l))) && rs(
                        op->Some_0,
                        l,
                        false,
                    ) && eval_rel_f(*right, ra, ro, rs, Ok::<Option<R>, E>(rvo)) && #[trigger] ro(
                        op->Some_0,
                        l,
                        rvo,
                        y,
                    ) && res == lift_atom(y);
                assert(y == Err::<R, E>(e));
                assert(ro(op->Some_0, l, rvo, Err::<R, E>(e)));
            }
        },
    }
}

/// the state after `k` further opening parentheses
pub open spec fn opened_n<Op, Atom>(m: TreeModel<Op, Atom>, k: nat) -> TreeModel<Op, Atom>
    decreases k,
{
    if k == 0 {
        m
    } else {
        opened_n(m, (k - 1) as nat).opened_par()
    }
}

/// the state after `k` further closing parentheses
pub open spec fn closed_n<Op, Atom>(m: TreeModel<Op, Atom>, k: nat) -> TreeModel<Op, Atom>
    decreases k,
{
    if k == 0 {
        m
    } else {
        closed_n(m, (k - 1) as nat).closed_par()
    }
}

/// the node arena of a tree built from `k` nested parentheses: a
/// chain of `k + 1` pass-through nodes, each holding the next in its
/// left slot, the innermost holding `leaf`
pub open spec fn wrap_nodes<Op>(k: nat, leaf: Child) -> Seq<Node<Op>> {
    Seq::new(
        k + 1,
        |i: int|
            Node {
                operator: None,
                parent: if i == 0 {
                    None
                } else {
                    Some((i - 1) as usize)
                },
                left: if i < k {
                    Child::Node((i + 1) as usize)
                } else {
                    leaf
                },
                right: Child::Absent,
                unary: false,
            },
    )
}

/// the state reached from a fresh tree by `k` opening parentheses
proof fn lemma_opened_n_shape<Op, Atom>(k: nat)
    requires
        k < usize::MAX,
    ensures
        opened_n(TreeModel::<Op, Atom>::init(), k) == (TreeModel::<Op, Atom> {
            atoms: Seq::empty(),
            nodes: wrap_nodes(k, Child::Absent),
            head: 0,
            tail: k as usize,
            last: if k == 0 {
                TokenType::Nothing
            } else {
                TokenType::OpeningPar
            },
            op_count: 0,
            openness: k as usize,
        }),
    decreases k,
{
    if k == 0 {
        assert(opened_n(TreeModel::<Op, Atom>::init(), 0).nodes =~= wrap_nodes(
            0,
            Child::Absent,
        ));
        assert(opened_n(TreeModel::<Op, Atom>::init(), 0) =~= (TreeModel::<Op, Atom> {
            atoms: Seq::empty(),
            nodes: wrap_nodes(0, Child::Absent),
            head: 0,
            tail: 0,
            last: TokenType::Nothing,
            op_count: 0,
            openness: 0,
        }));
    } else {
        lemma_opened_n_shape::<Op, Atom>((k - 1) as nat);
        let prev = opened_n(TreeModel::<Op, Atom>::init(), (k - 1) as nat);
        let cur = prev.opened_par();
        assert(cur.nodes =~= wrap_nodes(k, Child::Absent));
        assert(cur =~= (TreeModel::<Op, Atom> {
            atoms: Seq::empty(),
            nodes: wrap_nodes(k, Child::Absent),
            head: 0,
            tail: k as usize,
            last: TokenType::OpeningPar,
            op_count: 0,
            openness: k as usize,
        }));
    }
}

/// the chain state between the atom and the `j`-th closing
/// parenthesis
spec fn wrapped_atom_mid<Op, Atom>(k: nat, a: Atom, j: nat) -> TreeModel<Op, Atom> {
    TreeModel {
        atoms: seq![a],
        nodes: wrap_nodes(k, Child::Atom(0)),
        head: 0,
        tail: (k - j) as usize,
        last: if j == 0 {
            TokenType::Atom
        } else {
            TokenType::ClosingPar
        },
        op_count: 0,
        openness: (k - j) as usize,
    }
}

/// the state reached by `k` opening parentheses, the atom, and `j`
/// closing parentheses
proof fn lemma_closed_n_shape<Op, Atom>(k: nat, a: Atom, j: nat)
    requires
        k < usize::MAX,
        j <= k,
    ensures
        closed_n(opened_n(TreeModel::<Op, Atom>::init(), k).pushed_atom(a), j)
            == wrapped_atom_mid::<Op, Atom>(k, a, j),
    decreases j,
{
    lemma_opened_n_shape::<Op, Atom>(k);
    if j == 0 {
        let s0 = opened_n(TreeModel::<Op, Atom>::init(), k).pushed_atom(a);
        assert(s0.nodes =~= wrap_nodes(k, Child::Atom(0)));
        assert(s0 =~= wrapped_atom_mid::<Op, Atom>(k, a, 0));
    } else {
        lemma_closed_n_shape::<Op, Atom>(k, a, (j - 1) as nat);
        let prev = wrapped_atom_mid::<Op, Atom>(k, a, (j - 1) as nat);
        let t = (k - j + 1) as usize;
        assert(prev.nodes[t as int] == wrap_nodes::<Op>(k, Child::Atom(0))[t as int]);
        assert(prev.closed_par() =~= wrapped_atom_mid::<Op, Atom>(k, a, j));
    }
}

/// the chain of wrappers around one atom is acyclic and in range
proof fn lemma_wrap_nodes_wf<Op>(k: nat)
    requires
        k < usize::MAX,
    ensures
        nodes_ok(wrap_nodes::<Op>(k, Child::Atom(0)), 1),
        acyclic(wrap_nodes::<Op>(k, Child::Atom(0))),
{
    let nodes = wrap_nodes::<Op>(k, Child::Atom(0));
    assert forall|i: int|
        0 <= i < nodes.len() implies node_ok(#[trigger] nodes[i], nodes.len() as int, 1) by {}
    let r = Seq::new(k + 1, |i: int| (k - i) as nat);
    assert forall|i: int| 0 <= i < nodes.len() implies rank_ok_at(nodes, r, i) by {}
    assert(rank_ok(nodes, r));
}

/// every link of the chain evaluates to the atom's evaluated value
proof fn lemma_wrap_chain_eval<Op, Atom, R>(
    k: nat,
    a: Atom,
    i: int,
    ra: spec_fn(Atom, R) -> bool,
    ro: spec_fn(Op, R, Option<R>, R) -> bool,
    rs: spec_fn(Op, R, bool) -> bool,
    res: Option<R>,
)
    requires
        k < usize::MAX,
        0 <= i <= k,
        eval_rel(sub_view(wrap_nodes::<Op>(k, Child::Atom(0)), seq![a], i), ra, ro, rs, res),
    ensures
        exists|x: R| #[trigger] ra(a, x) && res == Some(x),
    decreases k - i,
{
    let nodes = wrap_nodes::<Op>(k, Child::Atom(0));
    let atoms = seq![a];
    lemma_wrap_nodes_wf::<Op>(k);
    let v = sub_view(nodes, atoms, i);
    let inner: ExprView<Op, Atom> = if i < k {
        sub_view(nodes, atoms, i + 1)
    } else {
        ExprView::Leaf(a)
    };
    assert(v == (ExprView::Branch {
        op: None,
        left: Box::new(inner),
        right: Box::new(ExprView::<Op, Atom>::Missing),
    }));
    lemma_eval_branch_inv(
        Option::<Op>::None,
        inner,
        ExprView::<Op, Atom>::Missing,
        ra,
        ro,
        rs,
        res,
    );
    let lv = choose|lv: Option<R>|
        #[trigger] candidate(inner, lv) && eval_rel(inner, ra, ro, rs, lv) && res == lv;
    if i < k {
        lemma_wrap_chain_eval(k, a, i + 1, ra, ro, rs, lv);
    } else {
        lemma_eval_leaf_inv(a, ra, ro, rs, lv);
    }
}

/// The operator-free sequences the grammar accepts are exactly one
/// atom wrapped in balanced parentheses. Whatever the number of
/// wrapping parentheses, evaluating the resulting tree yields the
/// atom's evaluated value, unchanged.
pub proof fn lemma_wrapped_atom_evals_to_atom<Op, Atom, R>(
    k: nat,
    a: Atom,
    ra: spec_fn(Atom, R) -> bool,
    ro: spec_fn(Op, R, Option<R>, R) -> bool,
    rs: spec_fn(Op, R, bool) -> bool,
    res: Option<R>,
)
    requires
        k < usize::MAX,
        eval_rel(
            closed_n(opened_n(TreeModel::<Op, Atom>::init(), k).pushed_atom(a), k).expr(),
            ra,
            ro,
            rs,
            res,
        ),
    ensures
        exists|x: R| #[trigger] ra(a, x) && res == Some(x),
{
    lemma_closed_n_shape::<Op, Atom>(k, a, k);
    lemma_wrap_chain_eval::<Op, Atom, R>(k, a, 0, ra, ro, rs, res);
}

/// removing one redundant wrapper from the head changes neither the
/// well-formedness of the tree nor what evaluating it may answer
proof fn lemma_collapse_once_preserves_eval<Op, Atom, R>(
    m: TreeModel<Op, Atom>,
    ra: spec_fn(Atom, R) -> bool,
    ro: spec_fn(Op, R, Option<R>, R) -> bool,
    rs: spec_fn(Op, R, bool) -> bool,
    res: Option<R>,
)
    requires
        m.wf(),
        m.collapsible(),
    ensures
        m.collapsed_once().wf(),
        eval_rel(m.collapsed_once().expr(), ra, ro, rs, res) <==> eval_rel(
            m.expr(),
            ra,
            ro,
            rs,
            res,
        ),
{
    m.lemma_collapsed_once_wf();
    let m2 = m.collapsed_once();
    let h = m.nodes[m.head as int];
    let c = h.left->Node_0;
    assert((c as int) < m.nodes.len()) by {
        assert(node_ok(m.nodes[m.head as int], m.nodes.len() as int, m.atoms.len() as int));
    }
    let inner = sub_view(m.nodes, m.atoms, c as int);
    assert(m.expr() == (ExprView::<Op, Atom>::Branch {
        op: None,
        left: Box::new(inner),
        right: Box::new(ExprView::Missing),
    }));
    assert forall|i: int|
        0 <= i < m.nodes.len() implies {
        &&& (#[trigger] m2.nodes[i]).operator == m.nodes[i].operator
        &&& m2.nodes[i].left == m.nodes[i].left
        &&& m2.nodes[i].right == m.nodes[i].right
    } by {}
    lemma_sub_view_ignores_parents(m.nodes, m2.nodes, m.atoms, c as int);
    assert(m2.expr() == inner);
    if eval_rel(m.expr(), ra, ro, rs, res) {
        lemma_eval_branch_inv(
            Option::<Op>::None,
            inner,
            ExprView::<Op, Atom>::Missing,
            ra,
            ro,
            rs,
            res,
        );
        let lv = choose|lv: Option<R>|
            #[trigger] candidate(inner, lv) && eval_rel(inner, ra, ro, rs, lv) && res == lv;
        assert(eval_rel(inner, ra, ro, rs, res));
    }
    if eval_rel(inner, ra, ro, rs, res) {
        lemma_eval_branch_no_op(inner, ExprView::<Op, Atom>::Missing, ra, ro, rs, res);
    }
}

/// as [`lemma_simplify_preserves_eval`], for a bounded number of
/// collapse steps
proof fn lemma_simplified_go_preserves_eval<Op, Atom, R>(
    m: TreeModel<Op, Atom>,
    fuel: nat,
    ra: spec_fn(Atom, R) -> bool,
    ro: spec_fn(Op, R, Option<R>, R) -> bool,
    rs: spec_fn(Op, R, bool) -> bool,
    res: Option<R>,
)
    requires
        m.wf(),
    ensures
        m.simplified_go(fuel).wf(),
        eval_rel(m.simplified_go(fuel).expr(), ra, ro, rs, res) <==> eval_rel(
            m.expr(),
            ra,
            ro,
            rs,
            res,
        ),
    decreases fuel,
{
    if fuel > 0 && m.collapsible() {
        lemma_collapse_once_preserves_eval(m, ra, ro, rs, res);
        lemma_simplified_go_preserves_eval(m.collapsed_once(), (fuel - 1) as nat, ra, ro, rs, res);
    }
}

/// Removing the redundant wrappers from the head of a tree does not
/// alter evaluation: the simplified tree may answer a result exactly
/// when the original may.
pub proof fn lemma_simplify_preserves_eval<Op, Atom, R>(
    m: TreeModel<Op, Atom>,
    ra: spec_fn(Atom, R) -> bool,
    ro: spec_fn(Op, R, Option<R>, R) -> bool,
    rs: spec_fn(Op, R, bool) -> bool,
    res: Option<R>,
)
    requires
        m.wf(),
    ensures
        eval_rel(m.simplified().expr(), ra, ro, rs, res) <==> eval_rel(m.expr(), ra, ro, rs, res),
{
    lemma_simplified_go_preserves_eval(
        m,
        the_rank(m.nodes)[m.head as int] + 1,
        ra,
        ro,
        rs,
        res,
    );
}

/// The left-to-right, no-precedence law, as a statement about the
/// builder: a binary operator pushed while the insertion node is
/// full absorbs the entire subtree built so far at the current
/// nesting level — not just its last operand — as its left part,
/// with its right part still to come. When that node was the head,
/// the whole expression built so far becomes the left part of the
/// new head: the chain groups as `(((a op b) op c) op d)`, never by
/// precedence.
pub proof fn lemma_binary_operator_absorbs_tail<Op, Atom>(m: TreeModel<Op, Atom>, operator: Op)
    requires
        m.wf(),
        m.nodes.len() <= usize::MAX,
        m.nodes[m.tail as int].spec_is_full(),
    ensures
        ({
            let m2 = m.pushed_binary(operator);
            let wrapped = ExprView::<Op, Atom>::Branch {
                op: Some(operator),
                left: Box::new(m.sub(m.tail as int)),
                right: Box::new(ExprView::Missing),
            };
            &&& m2.tail == m.nodes.len() as usize
            &&& m2.sub(m.nodes.len() as int) == wrapped
            &&& (m.nodes[m.tail as int].parent is None ==> m2.head == m.nodes.len() as usize
                && m2.expr() == wrapped)
        }),
{
    let t = m.tail as int;
    let tl = m.nodes[t];
    lemma_the_rank(m.nodes);
    let r = the_rank(m.nodes);
    assert(rank_ok_at(m.nodes, r, t));
    assert(node_ok(m.nodes[t], m.nodes.len() as int, m.atoms.len() as int));
    let m2 = m.pushed_binary(operator);
    m.lemma_pushed_binary_wf(operator);
    let nid = m.nodes.len() as int;
    let fresh = Node {
        operator: Some(operator),
        parent: tl.parent,
        left: Child::Node(m.tail),
        right: Child::Absent,
        unary: false,
    };
    let n1 = m.nodes.push(fresh);
    let r2 = double_push(r, t);
    assert forall|i: int| 0 <= i < n1.len() implies rank_ok_at(n1, r2, i) by {
        if i < nid {
            assert(rank_ok_at(m.nodes, r, i));
        }
    }
    assert(rank_ok(n1, r2));
    assert forall|i: int|
        0 <= i < n1.len() implies node_ok(
        #[trigger] n1[i],
        n1.len() as int,
        m.atoms.len() as int,
    ) by {
        if i < nid {
            assert(node_ok(m.nodes[i], m.nodes.len() as int, m.atoms.len() as int));
        }
    }
    lemma_sub_view_push(m.nodes, fresh, m.atoms, t);
    assert forall|j: int|
        0 <= j < n1.len() && r2[j] <= r2[t] implies {
        &&& (#[trigger] m2.nodes[j]).operator == n1[j].operator
        &&& m2.nodes[j].left == n1[j].left
        &&& m2.nodes[j].right == n1[j].right
    } by {
        if j < nid && j != t {
            assert(rank_ok_at(m.nodes, r, t));
        }
    }
    lemma_sub_view_frame(n1, m2.nodes, m.atoms, r2, t);
    assert(m2.nodes[nid] == fresh);
    assert(m2.sub(nid) == (ExprView::<Op, Atom>::Branch {
        op: Some(operator),
        left: Box::new(sub_view(m2.nodes, m.atoms, t)),
        right: Box::new(ExprView::Missing),
    }));
}

} // verus!
