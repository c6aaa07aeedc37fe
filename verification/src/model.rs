//! The mathematical model of a tree: the two arenas as sequences, the
//! cursor state, well-formedness, and one spec-level transition per
//! builder operation. The contracts of the executable builder say that
//! each operation takes the view of the tree from one model state to
//! the next.

use vstd::prelude::*;

use crate::be_tree::Token;
use crate::be_tree::TokenType;
use crate::child::Child;
use crate::node::Node;

verus! {

/// The abstract state of a [`crate::BeTree`]: arenas as sequences,
/// plus the four pieces of cursor state.
#[verifier::ext_equal]
pub ghost struct TreeModel<Op, Atom> {
    pub atoms: Seq<Atom>,
    pub nodes: Seq<Node<Op>>,
    pub head: usize,
    pub tail: usize,
    pub last: TokenType,
    pub op_count: usize,
    pub openness: usize,
}

/// whether a child reference stays inside the two arenas
pub open spec fn child_ok(c: Child, n_nodes: int, n_atoms: int) -> bool {
    match c {
        Child::Absent => true,
        Child::Node(i) => (i as int) < n_nodes,
        Child::Atom(i) => (i as int) < n_atoms,
    }
}

/// whether all references of a node stay inside the two arenas
pub open spec fn node_ok<Op>(nd: Node<Op>, n_nodes: int, n_atoms: int) -> bool {
    &&& child_ok(nd.left, n_nodes, n_atoms)
    &&& child_ok(nd.right, n_nodes, n_atoms)
    &&& match nd.parent {
        Some(p) => (p as int) < n_nodes,
        None => true,
    }
}

/// whether every node of the arena keeps its references in range
pub open spec fn nodes_ok<Op>(nodes: Seq<Node<Op>>, n_atoms: int) -> bool {
    forall|i: int| 0 <= i < nodes.len() ==> node_ok(#[trigger] nodes[i], nodes.len() as int, n_atoms)
}

/// whether the ranking `r` strictly decreases from node `i` to its
/// node children, and strictly increases from `i` to its parent
pub open spec fn rank_ok_at<Op>(nodes: Seq<Node<Op>>, r: Seq<nat>, i: int) -> bool {
    &&& match nodes[i].left {
        Child::Node(c) => (c as int) < nodes.len() && r[c as int] < r[i],
        _ => true,
    }
    &&& match nodes[i].right {
        Child::Node(c) => (c as int) < nodes.len() && r[c as int] < r[i],
        _ => true,
    }
    &&& match nodes[i].parent {
        Some(p) => (p as int) < nodes.len() && r[i] < r[p as int],
        None => true,
    }
}

/// whether `r` witnesses that all child and parent links of the arena
/// are acyclic
pub open spec fn rank_ok<Op>(nodes: Seq<Node<Op>>, r: Seq<nat>) -> bool {
    &&& r.len() == nodes.len()
    &&& forall|i: int| 0 <= i < nodes.len() ==> #[trigger] rank_ok_at(nodes, r, i)
}

/// the node graph, following child or parent links, has no cycle
pub open spec fn acyclic<Op>(nodes: Seq<Node<Op>>) -> bool {
    exists|r: Seq<nat>| rank_ok(nodes, r)
}

/// some ranking witnessing acyclicity (meaningful only when `acyclic`
/// holds)
pub open spec fn the_rank<Op>(nodes: Seq<Node<Op>>) -> Seq<nat> {
    choose|r: Seq<nat>| rank_ok(nodes, r)
}

pub proof fn lemma_the_rank<Op>(nodes: Seq<Node<Op>>)
    requires
        acyclic(nodes),
    ensures
        rank_ok(nodes, the_rank(nodes)),
{
    let r = choose|r: Seq<nat>| rank_ok(nodes, r);
    assert(rank_ok(nodes, r));
}

/// the given node with `c` placed into its first free child slot:
/// `left` if `left` is still empty, `right` otherwise
pub open spec fn attach_child<Op>(nd: Node<Op>, c: Child) -> Node<Op> {
    if nd.left.spec_is_some() {
        Node { right: c, ..nd }
    } else {
        Node { left: c, ..nd }
    }
}

impl<Op, Atom> TreeModel<Op, Atom> {
    /// the whole abstract state is consistent: cursors in range, all
    /// arena references in range, and the node graph acyclic
    pub open spec fn wf(self) -> bool {
        &&& 1 <= self.nodes.len()
        &&& (self.head as int) < self.nodes.len()
        &&& (self.tail as int) < self.nodes.len()
        &&& (self.openness as int) < self.nodes.len()
        &&& (self.last == TokenType::Atom ==> self.atoms.len() > 0)
        &&& nodes_ok(self.nodes, self.atoms.len() as int)
        &&& acyclic(self.nodes)
    }

    /// the state of a freshly created tree: no atom, one empty node
    pub open spec fn init() -> Self {
        TreeModel {
            atoms: Seq::empty(),
            nodes: seq![
                Node {
                    operator: None,
                    parent: None,
                    left: Child::Absent,
                    right: Child::Absent,
                    unary: false,
                },
            ],
            head: 0,
            tail: 0,
            last: TokenType::Nothing,
            op_count: 0,
            openness: 0,
        }
    }

    /// the state after an atom was pushed: the atom appended to its
    /// arena and referenced from the first free child slot of `tail`
    pub open spec fn pushed_atom(self, a: Atom) -> Self {
        let aid = self.atoms.len() as usize;
        TreeModel {
            atoms: self.atoms.push(a),
            nodes: self.nodes.update(
                self.tail as int,
                attach_child(self.nodes[self.tail as int], Child::Atom(aid)),
            ),
            last: TokenType::Atom,
            ..self
        }
    }

    /// the state after an opening parenthesis: a fresh empty node
    /// appended, attached as a child of `tail`, which moves to it
    pub open spec fn opened_par(self) -> Self {
        let nid = self.nodes.len() as usize;
        let fresh = Node {
            operator: None,
            parent: Some(self.tail),
            left: Child::Absent,
            right: Child::Absent,
            unary: false,
        };
        TreeModel {
            nodes: self.nodes.push(fresh).update(
                self.tail as int,
                attach_child(self.nodes[self.tail as int], Child::Node(nid)),
            ),
            tail: nid,
            last: TokenType::OpeningPar,
            openness: (self.openness + 1) as usize,
            ..self
        }
    }

    /// the state after a closing parenthesis: when a parenthesis is
    /// open and `tail` has a parent, `tail` moves back to it and the
    /// parenthesis is counted as closed; an excess closing parenthesis
    /// changes nothing but the last-pushed state
    pub open spec fn closed_par(self) -> Self {
        let base = TreeModel { last: TokenType::ClosingPar, ..self };
        if self.openness > 0 {
            match self.nodes[self.tail as int].parent {
                Some(p) => TreeModel {
                    tail: p,
                    openness: (self.openness - 1) as usize,
                    ..base
                },
                None => base,
            }
        } else {
            base
        }
    }

    /// the state after a unary operator: a fresh node carrying the
    /// operator, attached as a child of `tail`, which moves to it; its
    /// single operand will fill its `left` slot
    pub open spec fn pushed_unary(self, operator: Op) -> Self {
        let nid = self.nodes.len() as usize;
        let fresh = Node {
            operator: Some(operator),
            parent: Some(self.tail),
            left: Child::Absent,
            right: Child::Absent,
            unary: true,
        };
        TreeModel {
            nodes: self.nodes.push(fresh).update(
                self.tail as int,
                attach_child(self.nodes[self.tail as int], Child::Node(nid)),
            ),
            tail: nid,
            ..self
        }
    }

    /// the state after a binary operator: either the operator simply
    /// lands on a non-full `tail`, or a fresh node absorbs the whole
    /// current `tail` subtree as its left operand and takes the place
    /// of `tail` under its old parent (or as the new `head`)
    pub open spec fn pushed_binary(self, operator: Op) -> Self {
        let t = self.tail as int;
        let tl = self.nodes[t];
        if !tl.spec_is_full() {
            TreeModel { nodes: self.nodes.update(t, Node { operator: Some(operator), ..tl }), ..self }
        } else {
            let nid = self.nodes.len() as usize;
            let fresh = Node {
                operator: Some(operator),
                parent: tl.parent,
                left: Child::Node(self.tail),
                right: Child::Absent,
                unary: false,
            };
            let nodes1 = self.nodes.push(fresh);
            let nodes2 = match tl.parent {
                Some(p) => if nodes1[p as int].left == Child::Node(self.tail) {
                    nodes1.update(p as int, Node { left: Child::Node(nid), ..nodes1[p as int] })
                } else {
                    nodes1.update(p as int, Node { right: Child::Node(nid), ..nodes1[p as int] })
                },
                None => nodes1,
            };
            let nodes3 = nodes2.update(t, Node { parent: Some(nid), ..nodes2[t] });
            TreeModel {
                nodes: nodes3,
                head: if tl.parent is None {
                    nid
                } else {
                    self.head
                },
                tail: nid,
                ..self
            }
        }
    }

    /// the state after an operator: binary right after an atom or a
    /// closing parenthesis, unary otherwise; either way the operator
    /// count grows and the operator becomes the last-pushed token
    pub open spec fn pushed_operator(self, operator: Op) -> Self {
        let m = if self.last == TokenType::Atom || self.last == TokenType::ClosingPar {
            self.pushed_binary(operator)
        } else {
            self.pushed_unary(operator)
        };
        TreeModel { last: TokenType::Operator, op_count: (m.op_count + 1) as usize, ..m }
    }

    /// whether the head node is a redundant wrapper: no operator, not
    /// unary, no parent, nothing in its right slot, and a single node
    /// child in its left slot
    pub open spec fn collapsible(self) -> bool {
        let h = self.nodes[self.head as int];
        &&& h.operator is None
        &&& h.parent is None
        &&& h.right == Child::Absent
        &&& !h.unary
        &&& h.left is Node
    }

    /// the state with the head's redundant wrapper removed: the
    /// head's single node child, freed of its parent link, becomes
    /// the head
    pub open spec fn collapsed_once(self) -> Self {
        let c = self.nodes[self.head as int].left->Node_0;
        TreeModel {
            head: c,
            nodes: self.nodes.update(c as int, (Node { parent: None, ..self.nodes[c as int] })),
            ..self
        }
    }

    /// the state after at most `fuel` redundant wrappers were removed
    /// from the head
    pub open spec fn simplified_go(self, fuel: nat) -> Self
        decreases fuel,
    {
        if fuel == 0 {
            self
        } else if self.collapsible() {
            self.collapsed_once().simplified_go((fuel - 1) as nat)
        } else {
            self
        }
    }

    /// the state with every redundant wrapper removed from the head:
    /// under well-formedness, the rank of the head bounds how many
    /// wrappers can stand above the rest of the expression
    pub open spec fn simplified(self) -> Self {
        self.simplified_go(the_rank(self.nodes)[self.head as int] + 1)
    }

    /// the state after any one token, dispatched on its kind
    pub open spec fn pushed(self, token: Token<Op, Atom>) -> Self {
        match token {
            Token::Atom(a) => self.pushed_atom(a),
            Token::Operator(op) => self.pushed_operator(op),
            Token::OpeningParenthesis => self.opened_par(),
            Token::ClosingParenthesis => self.closed_par(),
        }
    }
}

/// the ranking of an arena extended with one fresh childless node:
/// every old rank is raised by one and the fresh node gets rank zero
pub open spec fn bump_push(r: Seq<nat>) -> Seq<nat> {
    Seq::new(r.len() + 1, |i: int| if i < r.len() { (r[i] + 1) as nat } else { 0nat })
}

/// the ranking of an arena extended with one node that took the place
/// of node `t`: old ranks are doubled and the fresh node slips in
/// right above `t`
pub open spec fn double_push(r: Seq<nat>, t: int) -> Seq<nat> {
    Seq::new(
        r.len() + 1,
        |i: int| if i < r.len() { (2 * r[i]) as nat } else { (2 * r[t] + 1) as nat },
    )
}

/// attaching a fresh childless node under node `t` keeps the node
/// graph acyclic, with `bump_push` of the old ranking as witness
proof fn lemma_fresh_child_rank<Op>(nodes: Seq<Node<Op>>, r: Seq<nat>, t: int, fresh: Node<Op>)
    requires
        rank_ok(nodes, r),
        nodes.len() <= usize::MAX,
        0 <= t < nodes.len(),
        fresh.left == Child::Absent,
        fresh.right == Child::Absent,
        fresh.parent == Some(t as usize),
    ensures
        rank_ok(
            nodes.push(fresh).update(t, attach_child(nodes[t], Child::Node(nodes.len() as usize))),
            bump_push(r),
        ),
{
    let k = nodes.len() as int;
    let n2 = nodes.push(fresh).update(t, attach_child(nodes[t], Child::Node(nodes.len() as usize)));
    let r2 = bump_push(r);
    assert forall|i: int| 0 <= i < n2.len() implies rank_ok_at(n2, r2, i) by {
        if i < k {
            assert(rank_ok_at(nodes, r, i));
        }
    }
}

impl<Op, Atom> TreeModel<Op, Atom> {
    pub proof fn lemma_init_wf()
        ensures
            Self::init().wf(),
    {
        let m = Self::init();
        let r: Seq<nat> = seq![0nat];
        assert(rank_ok_at(m.nodes, r, 0));
        assert(rank_ok(m.nodes, r));
        assert(node_ok(m.nodes[0], 1, 0));
    }

    pub proof fn lemma_pushed_atom_wf(self, a: Atom)
        requires
            self.wf(),
        ensures
            self.pushed_atom(a).wf(),
    {
        let m2 = self.pushed_atom(a);
        let r = the_rank(self.nodes);
        lemma_the_rank(self.nodes);
        assert forall|i: int| 0 <= i < m2.nodes.len() implies rank_ok_at(m2.nodes, r, i) by {
            assert(rank_ok_at(self.nodes, r, i));
        }
        assert(rank_ok(m2.nodes, r));
        assert forall|i: int|
            0 <= i < m2.nodes.len() implies node_ok(
            #[trigger] m2.nodes[i],
            m2.nodes.len() as int,
            m2.atoms.len() as int,
        ) by {
            assert(node_ok(self.nodes[i], self.nodes.len() as int, self.atoms.len() as int));
        }
    }

    pub proof fn lemma_opened_par_wf(self)
        requires
            self.wf(),
            self.nodes.len() <= usize::MAX,
        ensures
            self.opened_par().wf(),
    {
        let m2 = self.opened_par();
        let t = self.tail as int;
        let fresh = Node {
            operator: None,
            parent: Some(self.tail),
            left: Child::Absent,
            right: Child::Absent,
            unary: false,
        };
        let r = the_rank(self.nodes);
        lemma_the_rank(self.nodes);
        lemma_fresh_child_rank(self.nodes, r, t, fresh);
        assert(rank_ok(m2.nodes, bump_push(r)));
        assert forall|i: int|
            0 <= i < m2.nodes.len() implies node_ok(
            #[trigger] m2.nodes[i],
            m2.nodes.len() as int,
            m2.atoms.len() as int,
        ) by {
            if i < self.nodes.len() {
                assert(node_ok(self.nodes[i], self.nodes.len() as int, self.atoms.len() as int));
            }
        }
    }

    pub proof fn lemma_pushed_unary_wf(self, operator: Op)
        requires
            self.wf(),
            self.nodes.len() <= usize::MAX,
        ensures
            self.pushed_unary(operator).wf(),
    {
        let m2 = self.pushed_unary(operator);
        let t = self.tail as int;
        let fresh = Node {
            operator: Some(operator),
            parent: Some(self.tail),
            left: Child::Absent,
            right: Child::Absent,
            unary: true,
        };
        let r = the_rank(self.nodes);
        lemma_the_rank(self.nodes);
        lemma_fresh_child_rank(self.nodes, r, t, fresh);
        assert(rank_ok(m2.nodes, bump_push(r)));
        assert forall|i: int|
            0 <= i < m2.nodes.len() implies node_ok(
            #[trigger] m2.nodes[i],
            m2.nodes.len() as int,
            m2.atoms.len() as int,
        ) by {
            if i < self.nodes.len() {
                assert(node_ok(self.nodes[i], self.nodes.len() as int, self.atoms.len() as int));
            }
        }
    }

    pub proof fn lemma_closed_par_wf(self)
        requires
            self.wf(),
        ensures
            self.closed_par().wf(),
    {
        assert(node_ok(
            self.nodes[self.tail as int],
            self.nodes.len() as int,
            self.atoms.len() as int,
        ));
    }

    pub proof fn lemma_pushed_binary_wf(self, operator: Op)
        requires
            self.wf(),
            self.nodes.len() <= usize::MAX,
        ensures
            self.pushed_binary(operator).wf(),
    {
        let m2 = self.pushed_binary(operator);
        let t = self.tail as int;
        let tl = self.nodes[t];
        let r = the_rank(self.nodes);
        lemma_the_rank(self.nodes);
        assert(rank_ok_at(self.nodes, r, t));
        if !tl.spec_is_full() {
            assert forall|i: int| 0 <= i < m2.nodes.len() implies rank_ok_at(m2.nodes, r, i) by {
                assert(rank_ok_at(self.nodes, r, i));
            }
            assert(rank_ok(m2.nodes, r));
            assert forall|i: int|
                0 <= i < m2.nodes.len() implies node_ok(
                #[trigger] m2.nodes[i],
                m2.nodes.len() as int,
                m2.atoms.len() as int,
            ) by {
                assert(node_ok(self.nodes[i], self.nodes.len() as int, self.atoms.len() as int));
            }
        } else {
            let k = self.nodes.len() as int;
            let r2 = double_push(r, t);
            assert forall|i: int| 0 <= i < m2.nodes.len() implies rank_ok_at(m2.nodes, r2, i) by {
                if i < k {
                    assert(rank_ok_at(self.nodes, r, i));
                }
            }
            assert(rank_ok(m2.nodes, r2));
            assert forall|i: int|
                0 <= i < m2.nodes.len() implies node_ok(
                #[trigger] m2.nodes[i],
                m2.nodes.len() as int,
                m2.atoms.len() as int,
            ) by {
                if i < k {
                    assert(node_ok(self.nodes[i], self.nodes.len() as int, self.atoms.len() as int));
                }
            }
        }
    }

    /// removing the head's wrapper keeps any acyclicity witness: the
    /// only change to the links is that one parent link goes away
    pub proof fn lemma_collapsed_once_rank(self, r: Seq<nat>)
        requires
            rank_ok(self.nodes, r),
            (self.head as int) < self.nodes.len(),
            self.collapsible(),
        ensures
            rank_ok(self.collapsed_once().nodes, r),
            (self.collapsed_once().head as int) < self.nodes.len(),
            r[self.collapsed_once().head as int] < r[self.head as int],
    {
        let m2 = self.collapsed_once();
        assert(rank_ok_at(self.nodes, r, self.head as int));
        assert forall|i: int| 0 <= i < m2.nodes.len() implies rank_ok_at(m2.nodes, r, i) by {
            assert(rank_ok_at(self.nodes, r, i));
        }
    }

    /// once the fuel exceeds the head's rank, more of it changes
    /// nothing: the chain of wrappers is shorter than the rank
    pub proof fn lemma_simplified_go_fuel(self, r: Seq<nat>, f1: nat, f2: nat)
        requires
            rank_ok(self.nodes, r),
            (self.head as int) < self.nodes.len(),
            f1 > r[self.head as int],
            f2 > r[self.head as int],
        ensures
            self.simplified_go(f1) == self.simplified_go(f2),
        decreases f1 + f2,
    {
        if self.collapsible() {
            self.lemma_collapsed_once_rank(r);
            let m2 = self.collapsed_once();
            m2.lemma_simplified_go_fuel(r, (f1 - 1) as nat, (f2 - 1) as nat);
        }
    }

    /// removing the head's wrapper keeps the tree well-formed
    pub proof fn lemma_collapsed_once_wf(self)
        requires
            self.wf(),
            self.collapsible(),
        ensures
            self.collapsed_once().wf(),
    {
        let m2 = self.collapsed_once();
        lemma_the_rank(self.nodes);
        let r = the_rank(self.nodes);
        self.lemma_collapsed_once_rank(r);
        assert(rank_ok(m2.nodes, r));
        assert(rank_ok_at(self.nodes, r, self.head as int));
        assert forall|i: int|
            0 <= i < m2.nodes.len() implies node_ok(
            #[trigger] m2.nodes[i],
            m2.nodes.len() as int,
            m2.atoms.len() as int,
        ) by {
            assert(node_ok(self.nodes[i], self.nodes.len() as int, self.atoms.len() as int));
        }
    }

    pub proof fn lemma_pushed_wf(self, token: Token<Op, Atom>)
        requires
            self.wf(),
            self.nodes.len() <= usize::MAX,
        ensures
            self.pushed(token).wf(),
    {
        match token {
            Token::Atom(a) => self.lemma_pushed_atom_wf(a),
            Token::Operator(op) => self.lemma_pushed_operator_wf(op),
            Token::OpeningParenthesis => self.lemma_opened_par_wf(),
            Token::ClosingParenthesis => self.lemma_closed_par_wf(),
        }
    }

    pub proof fn lemma_pushed_operator_wf(self, operator: Op)
        requires
            self.wf(),
            self.nodes.len() <= usize::MAX,
        ensures
            self.pushed_operator(operator).wf(),
    {
        if self.last == TokenType::Atom || self.last == TokenType::ClosingPar {
            self.lemma_pushed_binary_wf(operator);
        } else {
            self.lemma_pushed_unary_wf(operator);
        }
    }
}

} // verus!
