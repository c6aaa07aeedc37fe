use vstd::prelude::*;

use crate::child::Child;
use crate::expr::atom_sem;
use crate::expr::child_view;
use crate::expr::eval_rel;
use crate::expr::atom_sem_f;
use crate::expr::lemma_eval_branch_apply;
use crate::expr::lemma_eval_branch_no_left;
use crate::expr::lemma_eval_branch_no_op;
use crate::expr::lemma_eval_branch_short;
use crate::expr::lemma_eval_leaf;
use crate::expr::lemma_eval_missing;
use crate::expr::lemma_evalf_branch_apply;
use crate::expr::lemma_evalf_branch_err_left;
use crate::expr::lemma_evalf_branch_err_right;
use crate::expr::lemma_evalf_branch_no_left;
use crate::expr::lemma_evalf_branch_no_op;
use crate::expr::lemma_evalf_branch_short;
use crate::expr::lemma_evalf_leaf;
use crate::expr::lemma_evalf_missing;
use crate::expr::eval_rel_f;
use crate::expr::lift_atom;
use crate::expr::op_sem;
use crate::expr::op_sem_f;
use crate::expr::sc_sem;
use crate::expr::ExprView;
use crate::model::attach_child;
use crate::model::child_ok;
use crate::model::lemma_the_rank;
use crate::model::node_ok;
use crate::model::nodes_ok;
use crate::model::rank_ok;
use crate::model::rank_ok_at;
use crate::model::the_rank;
use crate::model::TreeModel;
use crate::node::Node;
use crate::node::NodeId;

verus! {

/// The index of an atom in the atom arena of a tree.
pub type AtomId = usize;

/// The kind of the token that was last pushed into a tree: the small
/// state from which the builder decides whether an operator is unary
/// or binary, and from which the `accept_*` predicates answer.
#[derive(Debug, Clone, Copy, PartialEq, Eq, Structural)]
pub enum TokenType {
    Nothing,
    Atom,
    Operator,
    OpeningPar,
    ClosingPar,
}

/// Something that can be added to the tree
pub enum Token<Op, Atom> {
    Atom(Atom),
    Operator(Op),
    OpeningParenthesis,
    ClosingParenthesis,
}

/// The transformation `f` answers a value, not an error, on some
/// run over the atom `a`.
pub open spec fn maps_to_some<Atom, Atom2, E, F: Fn(&Atom) -> Result<Atom2, E>>(
    f: F,
    a: Atom,
) -> bool {
    exists|x: Atom2| #[trigger] call_ensures(f, (&a,), Ok::<Atom2, E>(x))
}

/// The transformation of the atoms stopped at atom `k`: every atom
/// before it mapped to a value, and on atom `k` the transformation
/// answered the error `e`.
pub open spec fn map_stopped_at<Atom, Atom2, E, F: Fn(&Atom) -> Result<Atom2, E>>(
    atoms: Seq<Atom>,
    f: F,
    e: E,
    k: int,
) -> bool {
    &&& 0 <= k < atoms.len()
    &&& call_ensures(f, (&atoms[k],), Err::<Atom2, E>(e))
    &&& forall|j: int| 0 <= j < k ==> maps_to_some::<Atom, Atom2, E, F>(f, #[trigger] atoms[j])
}

proof fn lemma_map_stop<Atom, Atom2, E, F: Fn(&Atom) -> Result<Atom2, E>>(
    src: Seq<Atom>,
    done: Seq<Atom2>,
    f: F,
    e: E,
    k: int,
)
    requires
        0 <= k < src.len(),
        done.len() == k,
        forall|j: int| 0 <= j < k ==> call_ensures(f, (&src[j],), Ok::<Atom2, E>(#[trigger] done[j])),
        call_ensures(f, (&src[k],), Err::<Atom2, E>(e)),
    ensures
        map_stopped_at(src, f, e, k),
{
    assert forall|j: int| 0 <= j < k implies maps_to_some::<Atom, Atom2, E, F>(
        f,
        #[trigger] src[j],
    ) by {
        let a = src[j];
        assert(call_ensures(f, (&a,), Ok::<Atom2, E>(done[j])));
        assert(maps_to_some::<Atom, Atom2, E, F>(f, a));
    }
}

/// An expression which may contain unary and binary operations
///
/// Atoms and nodes live in two append-only arenas and refer to each
/// other by index; `head` is the node evaluation starts from and
/// `tail` the node currently accepting new children and operators.
#[derive(Debug, Clone)]
pub struct BeTree<Op, Atom> {
    atoms: Vec<Atom>,
    nodes: Vec<Node<Op>>,
    head: NodeId,
    tail: NodeId,
    last_pushed: TokenType,
    op_count: usize,
    openness: usize,
}

impl<Op, Atom> View for BeTree<Op, Atom> {
    type V = TreeModel<Op, Atom>;

    closed spec fn view(&self) -> TreeModel<Op, Atom> {
        TreeModel {
            atoms: self.atoms@,
            nodes: self.nodes@,
            head: self.head,
            tail: self.tail,
            last: self.last_pushed,
            op_count: self.op_count,
            openness: self.openness,
        }
    }
}

impl<Op: Copy, Atom> BeTree<Op, Atom> {
    /// the tree's state is consistent: every tree reachable through
    /// this crate's operations satisfies this
    pub open spec fn wf(&self) -> bool {
        self@.wf()
    }

    /// create an empty expression, ready to be completed
    pub fn new() -> (r: Self)
        ensures
            r.wf(),
            r@ == TreeModel::<Op, Atom>::init(),
    {
        let mut nodes: Vec<Node<Op>> = Vec::new();
        nodes.push(Node::empty());
        let r = Self {
            atoms: Vec::new(),
            nodes,
            head: 0,
            tail: 0,
            last_pushed: TokenType::Nothing,
            op_count: 0,
            openness: 0,
        };
        proof {
            assert(r@ =~= TreeModel::<Op, Atom>::init());
            TreeModel::<Op, Atom>::lemma_init_wf();
        }
        r
    }

    /// the node stored under this id, if any
    pub fn node(&self, node_id: NodeId) -> (r: Option<&Node<Op>>)
        ensures
            match r {
                Some(nd) => (node_id as int) < self@.nodes.len() && *nd == self@.nodes[node_id as int],
                None => self@.nodes.len() <= node_id as int,
            },
    {
        if node_id < self.nodes.len() {
            Some(&self.nodes[node_id])
        } else {
            None
        }
    }

    /// the atom stored under this id, if any
    pub fn atom(&self, atom_id: AtomId) -> (r: Option<&Atom>)
        ensures
            match r {
                Some(a) => (atom_id as int) < self@.atoms.len() && *a == self@.atoms[atom_id as int],
                None => self@.atoms.len() <= atom_id as int,
            },
    {
        if atom_id < self.atoms.len() {
            Some(&self.atoms[atom_id])
        } else {
            None
        }
    }

    /// the node from which evaluation and whole-tree operations start
    pub fn head(&self) -> (r: &Node<Op>)
        requires
            self.wf(),
        ensures
            *r == self@.nodes[self@.head as int],
    {
        &self.nodes[self.head]
    }

    /// the id of the head node, under which [`Self::node`] returns it
    pub fn head_id(&self) -> (r: NodeId)
        ensures
            r == self@.head,
    {
        self.head
    }

    /// tells whether the expression is devoid of any atom
    pub fn is_empty(&self) -> (r: bool)
        ensures
            r == (self@.atoms.len() == 0),
    {
        self.atoms.is_empty()
    }

    /// tell whether the tree is exactly one atom
    pub fn is_atomic(&self) -> (r: bool)
        ensures
            r == (self@.atoms.len() == 1 && self@.op_count == 0),
    {
        self.atoms.len() == 1 && self.op_count == 0
    }

    /// take the atoms of the tree
    pub fn atoms(self) -> (r: Vec<Atom>)
        ensures
            r@ == self@.atoms,
    {
        self.atoms
    }

    /// iterate on all atoms
    pub fn iter_atoms(&self) -> (r: std::slice::Iter<'_, Atom>)
        ensures
            exists|s: &[Atom]|
                s@ == self@.atoms && r == #[trigger] vstd::std_specs::slice::spec_slice_iter(s),
    {
        let s = self.atoms.as_slice();
        let r = s.iter();
        proof {
            assert(s@ == self@.atoms && r == vstd::std_specs::slice::spec_slice_iter(s));
        }
        r
    }

    /// returns a reference to the last atom if it's the last
    /// pushed token. Return none in other cases (including
    /// when no atom has been pushed at all)
    pub fn current_atom(&self) -> (r: Option<&Atom>)
        requires
            self.wf(),
        ensures
            match r {
                Some(a) => self@.last == TokenType::Atom && *a == self@.atoms.last(),
                None => self@.last != TokenType::Atom,
            },
    {
        if self.last_pushed == TokenType::Atom {
            let n = self.atoms.len();
            Some(&self.atoms[n - 1])
        } else {
            None
        }
    }

    /// return the count of open parenthesis minus the
    /// one of closing parenthesis. Illegal closing parenthesis
    /// are ignored (hence why this count can be a usize)
    pub fn get_openness(&self) -> (r: usize)
        ensures
            r == self@.openness,
    {
        self.openness
    }

    fn store_node(&mut self, node: Node<Op>) -> (r: usize)
        ensures
            final(self)@ == (TreeModel { nodes: old(self)@.nodes.push(node), ..old(self)@ }),
            r == old(self)@.nodes.len(),
    {
        self.nodes.push(node);
        proof {
            assert(final(self)@ =~= (TreeModel { nodes: old(self)@.nodes.push(node), ..old(self)@ }));
        }
        self.nodes.len() - 1
    }

    fn store_atom(&mut self, atom: Atom) -> (r: usize)
        ensures
            final(self)@ == (TreeModel { atoms: old(self)@.atoms.push(atom), ..old(self)@ }),
            r == old(self)@.atoms.len(),
    {
        self.atoms.push(atom);
        proof {
            assert(final(self)@ =~= (TreeModel { atoms: old(self)@.atoms.push(atom), ..old(self)@ }));
        }
        self.atoms.len() - 1
    }

    fn add_child(&mut self, child: Child)
        requires
            (old(self)@.tail as int) < old(self)@.nodes.len(),
        ensures
            final(self)@ == (TreeModel {
                nodes: old(self)@.nodes.update(
                    old(self)@.tail as int,
                    attach_child(old(self)@.nodes[old(self)@.tail as int], child),
                ),
                ..old(self)@
            }),
    {
        let t = self.tail;
        let mut nd = self.nodes[t];
        if nd.left.is_some() {
            nd.right = child;
        } else {
            nd.left = child;
        }
        self.nodes[t] = nd;
        proof {
            assert(final(self)@ =~= (TreeModel {
                nodes: old(self)@.nodes.update(
                    old(self)@.tail as int,
                    attach_child(old(self)@.nodes[old(self)@.tail as int], child),
                ),
                ..old(self)@
            }));
        }
    }

    fn add_child_node(&mut self, child_idx: usize)
        requires
            (old(self)@.tail as int) < old(self)@.nodes.len(),
            (child_idx as int) < old(self)@.nodes.len(),
        ensures
            ({
                let with_parent = old(self)@.nodes.update(
                    child_idx as int,
                    (Node { parent: Some(old(self)@.tail), ..old(self)@.nodes[child_idx as int] }),
                );
                final(self)@ == (TreeModel {
                    nodes: with_parent.update(
                        old(self)@.tail as int,
                        attach_child(with_parent[old(self)@.tail as int], Child::Node(child_idx)),
                    ),
                    tail: child_idx,
                    ..old(self)@
                })
            }),
    {
        let mut cn = self.nodes[child_idx];
        cn.parent = Some(self.tail);
        self.nodes[child_idx] = cn;
        self.add_child(Child::Node(child_idx));
        self.tail = child_idx;
    }

    /// add an atom in a left-to-right expression building
    pub fn push_atom(&mut self, atom: Atom)
        requires
            old(self).wf(),
        ensures
            final(self).wf(),
            final(self)@ == old(self)@.pushed_atom(atom),
    {
        self.last_pushed = TokenType::Atom;
        let atom_idx = self.store_atom(atom);
        let t = self.tail;
        let mut nd = self.nodes[t];
        if nd.left.is_some() {
            nd.right = Child::Atom(atom_idx);
        } else {
            nd.left = Child::Atom(atom_idx);
        }
        self.nodes[t] = nd;
        proof {
            assert(final(self)@ =~= old(self)@.pushed_atom(atom));
            old(self)@.lemma_pushed_atom_wf(atom);
        }
    }

    /// add an opening parenthesis to the expression
    pub fn open_par(&mut self)
        requires
            old(self).wf(),
        ensures
            final(self).wf(),
            final(self)@ == old(self)@.opened_par(),
    {
        self.last_pushed = TokenType::OpeningPar;
        let node_idx = self.store_node(Node::empty());
        self.add_child_node(node_idx);
        self.openness += 1;
        proof {
            assert(final(self)@ =~= old(self)@.opened_par());
            old(self)@.lemma_opened_par_wf();
        }
    }

    /// add a closing parenthesis to the expression
    ///
    /// A closing parenthesis in excess is absorbed silently: when no
    /// parenthesis is open, nothing moves
    pub fn close_par(&mut self)
        requires
            old(self).wf(),
        ensures
            final(self).wf(),
            final(self)@ == old(self)@.closed_par(),
    {
        self.last_pushed = TokenType::ClosingPar;
        if self.openness > 0 {
            if let Some(parent) = self.nodes[self.tail].parent {
                proof {
                    assert(node_ok(
                        old(self)@.nodes[old(self)@.tail as int],
                        old(self)@.nodes.len() as int,
                        old(self)@.atoms.len() as int,
                    ));
                }
                self.tail = parent;
                self.openness -= 1;
            }
        }
        proof {
            assert(final(self)@ =~= old(self)@.closed_par());
            old(self)@.lemma_closed_par_wf();
        }
    }

    fn push_unary_operator(&mut self, operator: Op)
        requires
            old(self).wf(),
        ensures
            final(self).wf(),
            final(self)@ == old(self)@.pushed_unary(operator),
    {
        let node_idx = self.store_node(
            Node {
                operator: Some(operator),
                parent: Some(self.tail),
                left: Child::Absent,
                right: Child::Absent,
                unary: true,
            },
        );
        self.add_child(Child::Node(node_idx));
        self.tail = node_idx;
        proof {
            assert(final(self)@ =~= old(self)@.pushed_unary(operator));
            old(self)@.lemma_pushed_unary_wf(operator);
        }
    }

    fn push_binary_operator(&mut self, operator: Op)
        requires
            old(self).wf(),
        ensures
            final(self).wf(),
            final(self)@ == old(self)@.pushed_binary(operator),
    {
        proof {
            assert(self.nodes@.len() == self.nodes.len());
        }
        let t = self.tail;
        let mut tl = self.nodes[t];
        if !tl.is_full() {
            tl.operator = Some(operator);
            self.nodes[t] = tl;
            proof {
                assert(final(self)@ =~= old(self)@.pushed_binary(operator));
                old(self)@.lemma_pushed_binary_wf(operator);
            }
            return;
        }
        // we replace the current tail, which becomes the left child
        // of the new node
        let new_idx = self.store_node(
            Node {
                operator: Some(operator),
                parent: tl.parent,
                left: Child::Node(t),
                right: Child::Absent,
                unary: false,
            },
        );
        proof {
            assert(node_ok(
                old(self)@.nodes[t as int],
                old(self)@.nodes.len() as int,
                old(self)@.atoms.len() as int,
            ));
        }
        match tl.parent {
            None => {
                // the replaced node was the head
                self.head = new_idx;
            },
            Some(parent_idx) => {
                // we connect the parent to the new node
                let mut pn = self.nodes[parent_idx];
                if pn.left == Child::Node(t) {
                    pn.left = Child::Node(new_idx);
                } else {
                    pn.right = Child::Node(new_idx);
                }
                self.nodes[parent_idx] = pn;
            },
        }
        // we connect the tail to the new node and update the tail
        let mut tn = self.nodes[t];
        tn.parent = Some(new_idx);
        self.nodes[t] = tn;
        self.tail = new_idx;
        proof {
            assert(final(self)@ =~= old(self)@.pushed_binary(operator));
            old(self)@.lemma_pushed_binary_wf(operator);
        }
    }

    /// add an operator right of the expression
    ///
    /// The context will decide whether it's unary or binary
    pub fn push_operator(&mut self, operator: Op)
        requires
            old(self).wf(),
            old(self)@.op_count < usize::MAX,
        ensures
            final(self).wf(),
            final(self)@ == old(self)@.pushed_operator(operator),
    {
        proof {
            assert(self.nodes@.len() == self.nodes.len());
        }
        match self.last_pushed {
            TokenType::Atom | TokenType::ClosingPar => {
                // the operator is binary
                self.push_binary_operator(operator);
            },
            _ => {
                // the operator is unary
                self.push_unary_operator(operator);
            },
        }
        self.last_pushed = TokenType::Operator;
        self.op_count = self.op_count + 1;
        proof {
            assert(final(self)@ =~= old(self)@.pushed_operator(operator));
            old(self)@.lemma_pushed_operator_wf(operator);
        }
    }

    /// add one of the possible token: parenthesis, operator or atom
    pub fn push(&mut self, token: Token<Op, Atom>)
        requires
            old(self).wf(),
            old(self)@.op_count < usize::MAX,
        ensures
            final(self).wf(),
            final(self)@ == old(self)@.pushed(token),
    {
        match token {
            Token::Atom(atom) => self.push_atom(atom),
            Token::Operator(op) => self.push_operator(op),
            Token::OpeningParenthesis => self.open_par(),
            Token::ClosingParenthesis => self.close_par(),
        }
    }

    /// if the last change was an atom pushed or modified, return a mutable
    /// reference to this atom. If not, push a new atom and return a mutable
    /// reference to it.
    pub fn mutate_or_create_atom<Create: Fn() -> Atom>(&mut self, create: Create) -> (r: &mut
        Atom)
        requires
            old(self).wf(),
            call_requires(create, ()),
        ensures
            final(self).wf(),
            old(self)@.last != TokenType::Atom ==> call_ensures(create, (), *r),
            old(self)@.last == TokenType::Atom ==> *r == old(self)@.atoms.last(),
            ({
                let base = if old(self)@.last == TokenType::Atom {
                    old(self)@
                } else {
                    old(self)@.pushed_atom(*r)
                };
                &&& base.atoms.len() > 0
                &&& *r == base.atoms.last()
                &&& final(self)@ == (TreeModel {
                    atoms: base.atoms.update(base.atoms.len() - 1, *final(r)),
                    ..base
                })
            }),
    {
        if self.last_pushed != TokenType::Atom {
            self.push_atom(create());
        }
        let n = self.atoms.len();
        proof {
            if old(self)@.last != TokenType::Atom {
                old(self)@.lemma_pushed_atom_wf(self@.atoms.last());
            }
            assert forall|z: Atom| #![trigger self@.atoms.update(n - 1, z)]
                (TreeModel { atoms: self@.atoms.update(n - 1, z), ..self@ }).wf() by {
                let m2 = TreeModel { atoms: self@.atoms.update(n - 1, z), ..self@ };
                assert forall|i: int|
                    0 <= i < m2.nodes.len() implies node_ok(
                    #[trigger] m2.nodes[i],
                    m2.nodes.len() as int,
                    m2.atoms.len() as int,
                ) by {
                    assert(node_ok(self@.nodes[i], self@.nodes.len() as int, self@.atoms.len() as int));
                }
            }
        }
        &mut self.atoms[n - 1]
    }

    /// tell whether it would make sense to push a unary
    /// operator at this point (for example it makes no
    /// sense just after an atom)
    pub fn accept_unary_operator(&self) -> (r: bool)
        ensures
            r == (self@.last == TokenType::Nothing || self@.last == TokenType::Operator
                || self@.last == TokenType::OpeningPar),
    {
        matches!(self.last_pushed, TokenType::Nothing | TokenType::Operator | TokenType::OpeningPar)
    }

    /// tell whether it would make sense to push a binary
    /// operator at this point (for example it makes no
    /// sense just after another operator)
    pub fn accept_binary_operator(&self) -> (r: bool)
        ensures
            r == (self@.last == TokenType::Atom || self@.last == TokenType::ClosingPar),
    {
        matches!(self.last_pushed, TokenType::Atom | TokenType::ClosingPar)
    }

    /// tell whether it would make sense to push an atom
    /// at this point (for example it makes no
    /// sense just after a closing parenthesis)
    pub fn accept_atom(&self) -> (r: bool)
        ensures
            r == (self@.last == TokenType::Nothing || self@.last == TokenType::Operator
                || self@.last == TokenType::OpeningPar),
    {
        matches!(self.last_pushed, TokenType::Nothing | TokenType::Operator | TokenType::OpeningPar)
    }

    /// tell whether it would make sense to open a parenthesis
    /// at this point (for example it makes no sense just after
    /// a closing parenthesis)
    pub fn accept_opening_par(&self) -> (r: bool)
        ensures
            r == (self@.last == TokenType::Nothing || self@.last == TokenType::Operator
                || self@.last == TokenType::OpeningPar),
    {
        matches!(self.last_pushed, TokenType::Nothing | TokenType::Operator | TokenType::OpeningPar)
    }

    /// tell whether it would make sense to close a parenthesis
    /// at this point (for example it makes no sense just after
    /// an operator or if there are more closing parenthesis than
    /// opening ones)
    pub fn accept_closing_par(&self) -> (r: bool)
        ensures
            r == ((self@.last == TokenType::Atom || self@.last == TokenType::ClosingPar)
                && self@.openness > 0),
    {
        matches!(self.last_pushed, TokenType::Atom | TokenType::ClosingPar) && self.openness > 0
    }
}

impl<Op: Copy, Atom> BeTree<Op, Atom> {
    fn eval_child<R, EvalAtom, EvalOp, ShortCircuit>(
        &self,
        eval_atom: &EvalAtom,
        eval_op: &EvalOp,
        short_circuit: &ShortCircuit,
        child: Child,
        bound: Ghost<nat>,
    ) -> (res: Option<R>) where
        EvalAtom: Fn(&Atom) -> R,
        EvalOp: Fn(&Op, R, Option<R>) -> R,
        ShortCircuit: Fn(&Op, &R) -> bool,

        requires
            self.wf(),
            child_ok(child, self@.nodes.len() as int, self@.atoms.len() as int),
            (match child {
                Child::Node(c) => the_rank(self@.nodes)[c as int] < bound@,
                _ => true,
            }),
            forall|a: &Atom| call_requires(*eval_atom, (a,)),
            forall|o: &Op, l: R, rv: Option<R>| call_requires(*eval_op, (o, l, rv)),
            forall|o: &Op, l: &R| call_requires(*short_circuit, (o, l)),
        ensures
            eval_rel(
                child_view(self@.nodes, self@.atoms, child),
                atom_sem(*eval_atom),
                op_sem(*eval_op),
                sc_sem(*short_circuit),
                res,
            ),
        decreases bound@, 0nat,
    {
        match child {
            Child::Absent => {
                proof {
                    lemma_eval_missing::<Op, Atom, R>(
                        atom_sem(*eval_atom),
                        op_sem(*eval_op),
                        sc_sem(*short_circuit),
                    );
                }
                None
            },
            Child::Node(node_idx) => self.eval_node(eval_atom, eval_op, short_circuit, node_idx),
            Child::Atom(atom_idx) => {
                let x = eval_atom(&self.atoms[atom_idx]);
                proof {
                    let ra = atom_sem(*eval_atom);
                    assert(ra(self@.atoms[atom_idx as int], x));
                    lemma_eval_leaf::<Op, Atom, R>(
                        self@.atoms[atom_idx as int],
                        x,
                        ra,
                        op_sem(*eval_op),
                        sc_sem(*short_circuit),
                    );
                }
                Some(x)
            },
        }
    }

    fn eval_node<R, EvalAtom, EvalOp, ShortCircuit>(
        &self,
        eval_atom: &EvalAtom,
        eval_op: &EvalOp,
        short_circuit: &ShortCircuit,
        node_idx: usize,
    ) -> (res: Option<R>) where
        EvalAtom: Fn(&Atom) -> R,
        EvalOp: Fn(&Op, R, Option<R>) -> R,
        ShortCircuit: Fn(&Op, &R) -> bool,

        requires
            self.wf(),
            (node_idx as int) < self@.nodes.len(),
            forall|a: &Atom| call_requires(*eval_atom, (a,)),
            forall|o: &Op, l: R, rv: Option<R>| call_requires(*eval_op, (o, l, rv)),
            forall|o: &Op, l: &R| call_requires(*short_circuit, (o, l)),
        ensures
            eval_rel(
                self@.sub(node_idx as int),
                atom_sem(*eval_atom),
                op_sem(*eval_op),
                sc_sem(*short_circuit),
                res,
            ),
        decreases the_rank(self@.nodes)[node_idx as int], 1nat,
    {
        let ghost ra = atom_sem(*eval_atom);
        let ghost ro = op_sem(*eval_op);
        let ghost rs = sc_sem(*short_circuit);
        let ghost me = self@.sub(node_idx as int);
        proof {
            lemma_the_rank(self@.nodes);
            assert(rank_ok_at(self@.nodes, the_rank(self@.nodes), node_idx as int));
            assert(node_ok(
                self@.nodes[node_idx as int],
                self@.nodes.len() as int,
                self@.atoms.len() as int,
            ));
        }
        let ghost bound = the_rank(self@.nodes)[node_idx as int];
        let nd = self.nodes[node_idx];
        proof {
            assert(me == (ExprView::Branch {
                op: nd.operator,
                left: Box::new(child_view(self@.nodes, self@.atoms, nd.left)),
                right: Box::new(child_view(self@.nodes, self@.atoms, nd.right)),
            }));
        }
        let ghost le = child_view(self@.nodes, self@.atoms, nd.left);
        let ghost re = child_view(self@.nodes, self@.atoms, nd.right);
        let left_value = self.eval_child(eval_atom, eval_op, short_circuit, nd.left, Ghost(bound));
        match &nd.operator {
            None => {
                proof {
                    lemma_eval_branch_no_op(le, re, ra, ro, rs, left_value);
                }
                left_value
            },
            Some(op) => {
                match left_value {
                    None => {
                        // probably pathological
                        proof {
                            lemma_eval_branch_no_left(*op, le, re, ra, ro, rs);
                        }
                        None
                    },
                    Some(left_value) => {
                        if short_circuit(op, &left_value) {
                            proof {
                                assert(rs(*op, left_value, true));
                                lemma_eval_branch_short(*op, le, re, ra, ro, rs, left_value);
                            }
                            Some(left_value)
                        } else {
                            proof {
                                assert(rs(*op, left_value, false));
                            }
                            let right_value = self.eval_child(
                                eval_atom,
                                eval_op,
                                short_circuit,
                                nd.right,
                                Ghost(bound),
                            );
                            let ghost rv = right_value;
                            let y = eval_op(op, left_value, right_value);
                            proof {
                                assert(ro(*op, left_value, rv, y));
                                lemma_eval_branch_apply(*op, le, re, ra, ro, rs, left_value, rv, y);
                            }
                            Some(y)
                        }
                    },
                }
            },
        }
    }

    /// evaluate the expression.
    ///
    /// `eval_atom` will be called on all atoms (leafs) of the expression while `eval_op`
    /// will be used to join values until the final result is obtained.
    ///
    /// `short_circuit` will be called on all binary operations with the operator
    /// and the left operands as arguments. If it returns `true` then the right
    /// operand isn't evaluated (it's guaranteed so it may serve as guard).
    ///
    /// This function should be used when neither atom evaluation nor operator
    /// execution can raise errors (this usually means consistency checks have
    /// been done during parsing).
    pub fn eval<R, EvalAtom, EvalOp, ShortCircuit>(
        &self,
        eval_atom: EvalAtom,
        eval_op: EvalOp,
        short_circuit: ShortCircuit,
    ) -> (res: Option<R>) where
        EvalAtom: Fn(&Atom) -> R,
        EvalOp: Fn(&Op, R, Option<R>) -> R,
        ShortCircuit: Fn(&Op, &R) -> bool,

        requires
            self.wf(),
            forall|a: &Atom| call_requires(eval_atom, (a,)),
            forall|o: &Op, l: R, rv: Option<R>| call_requires(eval_op, (o, l, rv)),
            forall|o: &Op, l: &R| call_requires(short_circuit, (o, l)),
        ensures
            eval_rel(
                self@.expr(),
                atom_sem(eval_atom),
                op_sem(eval_op),
                sc_sem(short_circuit),
                res,
            ),
    {
        self.eval_node(&eval_atom, &eval_op, &short_circuit, self.head)
    }
}

impl<Op: Copy, Atom> BeTree<Op, Atom> {
    fn eval_child_faillible<E, R, EvalAtom, EvalOp, ShortCircuit>(
        &self,
        eval_atom: &EvalAtom,
        eval_op: &EvalOp,
        short_circuit: &ShortCircuit,
        child: Child,
        bound: Ghost<nat>,
    ) -> (res: Result<Option<R>, E>) where
        EvalAtom: Fn(&Atom) -> Result<R, E>,
        EvalOp: Fn(&Op, R, Option<R>) -> Result<R, E>,
        ShortCircuit: Fn(&Op, &R) -> bool,

        requires
            self.wf(),
            child_ok(child, self@.nodes.len() as int, self@.atoms.len() as int),
            (match child {
                Child::Node(c) => the_rank(self@.nodes)[c as int] < bound@,
                _ => true,
            }),
            forall|a: &Atom| call_requires(*eval_atom, (a,)),
            forall|o: &Op, l: R, rv: Option<R>| call_requires(*eval_op, (o, l, rv)),
            forall|o: &Op, l: &R| call_requires(*short_circuit, (o, l)),
        ensures
            eval_rel_f(
                child_view(self@.nodes, self@.atoms, child),
                atom_sem_f(*eval_atom),
                op_sem_f(*eval_op),
                sc_sem(*short_circuit),
                res,
            ),
        decreases bound@, 0nat,
    {
        match child {
            Child::Absent => {
                proof {
                    lemma_evalf_missing::<Op, Atom, R, E>(
                        atom_sem_f(*eval_atom),
                        op_sem_f(*eval_op),
                        sc_sem(*short_circuit),
                    );
                }
                Ok(None)
            },
            Child::Node(node_idx) => self.eval_node_faillible(
                eval_atom,
                eval_op,
                short_circuit,
                node_idx,
            ),
            Child::Atom(atom_idx) => {
                let x = eval_atom(&self.atoms[atom_idx]);
                proof {
                    let ra = atom_sem_f(*eval_atom);
                    assert(ra(self@.atoms[atom_idx as int], x));
                    lemma_evalf_leaf::<Op, Atom, R, E>(
                        self@.atoms[atom_idx as int],
                        x,
                        ra,
                        op_sem_f(*eval_op),
                        sc_sem(*short_circuit),
                    );
                }
                match x {
                    Ok(xv) => Ok(Some(xv)),
                    Err(e) => Err(e),
                }
            },
        }
    }

    fn eval_node_faillible<E, R, EvalAtom, EvalOp, ShortCircuit>(
        &self,
        eval_atom: &EvalAtom,
        eval_op: &EvalOp,
        short_circuit: &ShortCircuit,
        node_idx: usize,
    ) -> (res: Result<Option<R>, E>) where
        EvalAtom: Fn(&Atom) -> Result<R, E>,
        EvalOp: Fn(&Op, R, Option<R>) -> Result<R, E>,
        ShortCircuit: Fn(&Op, &R) -> bool,

        requires
            self.wf(),
            (node_idx as int) < self@.nodes.len(),
            forall|a: &Atom| call_requires(*eval_atom, (a,)),
            forall|o: &Op, l: R, rv: Option<R>| call_requires(*eval_op, (o, l, rv)),
            forall|o: &Op, l: &R| call_requires(*short_circuit, (o, l)),
        ensures
            eval_rel_f(
                self@.sub(node_idx as int),
                atom_sem_f(*eval_atom),
                op_sem_f(*eval_op),
                sc_sem(*short_circuit),
                res,
            ),
        decreases the_rank(self@.nodes)[node_idx as int], 1nat,
    {
        let ghost ra = atom_sem_f(*eval_atom);
        let ghost ro = op_sem_f(*eval_op);
        let ghost rs = sc_sem(*short_circuit);
        let ghost me = self@.sub(node_idx as int);
        proof {
            lemma_the_rank(self@.nodes);
            assert(rank_ok_at(self@.nodes, the_rank(self@.nodes), node_idx as int));
            assert(node_ok(
                self@.nodes[node_idx as int],
                self@.nodes.len() as int,
                self@.atoms.len() as int,
            ));
        }
        let ghost bound = the_rank(self@.nodes)[node_idx as int];
        let nd = self.nodes[node_idx];
        proof {
            assert(me == (ExprView::Branch {
                op: nd.operator,
                left: Box::new(child_view(self@.nodes, self@.atoms, nd.left)),
                right: Box::new(child_view(self@.nodes, self@.atoms, nd.right)),
            }));
        }
        let ghost le = child_view(self@.nodes, self@.atoms, nd.left);
        let ghost re = child_view(self@.nodes, self@.atoms, nd.right);
        let left_value = match self.eval_child_faillible(
            eval_atom,
            eval_op,
            short_circuit,
            nd.left,
            Ghost(bound),
        ) {
            Ok(lvo) => lvo,
            Err(e) => {
                proof {
                    lemma_evalf_branch_err_left(nd.operator, le, re, ra, ro, rs, e);
                }
                return Err(e);
            },
        };
        match &nd.operator {
            None => {
                proof {
                    lemma_evalf_branch_no_op(le, re, ra, ro, rs, left_value);
                }
                Ok(left_value)
            },
            Some(op) => {
                match left_value {
                    None => {
                        // probably pathological
                        proof {
                            lemma_evalf_branch_no_left(*op, le, re, ra, ro, rs);
                        }
                        Ok(None)
                    },
                    Some(left_value) => {
                        if short_circuit(op, &left_value) {
                            proof {
                                assert(rs(*op, left_value, true));
                                lemma_evalf_branch_short(*op, le, re, ra, ro, rs, left_value);
                            }
                            Ok(Some(left_value))
                        } else {
                            proof {
                                assert(rs(*op, left_value, false));
                            }
                            let right_value = match self.eval_child_faillible(
                                eval_atom,
                                eval_op,
                                short_circuit,
                                nd.right,
                                Ghost(bound),
                            ) {
                                Ok(rvo) => rvo,
                                Err(e) => {
                                    proof {
                                        lemma_evalf_branch_err_right(
                                            *op,
                                            le,
                                            re,
                                            ra,
                                            ro,
                                            rs,
                                            left_value,
                                            e,
                                        );
                                    }
                                    return Err(e);
                                },
                            };
                            let ghost rv = right_value;
                            let y = eval_op(op, left_value, right_value);
                            proof {
                                assert(ro(*op, left_value, rv, y));
                                lemma_evalf_branch_apply(*op, le, re, ra, ro, rs, left_value, rv, y);
                            }
                            match y {
                                Ok(yv) => Ok(Some(yv)),
                                Err(e) => Err(e),
                            }
                        }
                    },
                }
            },
        }
    }

    /// evaluate the expression.
    ///
    /// `eval_atom` will be called on all atoms (leafs) of the expression while `eval_op`
    /// will be used to join values until the final result is obtained.
    ///
    /// `short_circuit` will be called on all binary operations with the operator
    /// and the left operands as arguments. If it returns `true` then the right
    /// operand isn't evaluated (it's guaranteed so it may serve as guard).
    ///
    /// This function should be used when errors are expected during either atom
    /// evaluation or operator execution (for example because parsing was lax).
    /// The first Error returned by one of those functions breaks the evaluation
    /// and is returned.
    pub fn eval_faillible<E, R, EvalAtom, EvalOp, ShortCircuit>(
        &self,
        eval_atom: EvalAtom,
        eval_op: EvalOp,
        short_circuit: ShortCircuit,
    ) -> (res: Result<Option<R>, E>) where
        EvalAtom: Fn(&Atom) -> Result<R, E>,
        EvalOp: Fn(&Op, R, Option<R>) -> Result<R, E>,
        ShortCircuit: Fn(&Op, &R) -> bool,

        requires
            self.wf(),
            forall|a: &Atom| call_requires(eval_atom, (a,)),
            forall|o: &Op, l: R, rv: Option<R>| call_requires(eval_op, (o, l, rv)),
            forall|o: &Op, l: &R| call_requires(short_circuit, (o, l)),
        ensures
            eval_rel_f(
                self@.expr(),
                atom_sem_f(eval_atom),
                op_sem_f(eval_op),
                sc_sem(short_circuit),
                res,
            ),
    {
        self.eval_node_faillible(&eval_atom, &eval_op, &short_circuit, self.head)
    }
}

impl<Op: Copy, Atom> BeTree<Op, Atom> {
    /// produce a new expression by applying a transformation on all atoms
    ///
    /// The operation will stop at the first error
    pub fn try_map_atoms<Atom2, E, F>(&self, f: F) -> (res: Result<BeTree<Op, Atom2>, E>) where
        F: Fn(&Atom) -> Result<Atom2, E>,

        requires
            self.wf(),
            forall|a: &Atom| call_requires(f, (a,)),
        ensures
            res is Ok ==> {
                let t2 = res->Ok_0;
                &&& t2.wf()
                &&& t2@.nodes == self@.nodes
                &&& t2@.head == self@.head
                &&& t2@.tail == self@.tail
                &&& t2@.last == self@.last
                &&& t2@.op_count == self@.op_count
                &&& t2@.openness == self@.openness
                &&& t2@.atoms.len() == self@.atoms.len()
                &&& forall|i: int|
                    0 <= i < self@.atoms.len() ==> call_ensures(
                        f,
                        (&self@.atoms[i],),
                        Ok::<Atom2, E>(#[trigger] t2@.atoms[i]),
                    )
            },
            res is Err ==> exists|k: int|
                #[trigger] map_stopped_at(self@.atoms, f, res->Err_0, k),
    {
        let mut atoms: Vec<Atom2> = Vec::new();
        let n = self.atoms.len();
        let mut i: usize = 0;
        while i < n
            invariant
                i <= n,
                n == self@.atoms.len(),
                atoms@.len() == i,
                forall|a: &Atom| call_requires(f, (a,)),
                forall|k: int|
                    0 <= k < i ==> call_ensures(
                        f,
                        (&self@.atoms[k],),
                        Ok::<Atom2, E>(#[trigger] atoms@[k]),
                    ),
            decreases n - i,
        {
            match f(&self.atoms[i]) {
                Ok(x) => atoms.push(x),
                Err(e) => {
                    proof {
                        lemma_map_stop(self@.atoms, atoms@, f, e, i as int);
                        assert((Err::<BeTree<Op, Atom2>, E>(e))->Err_0 == e);
                        assert(exists|k: int| #[trigger] map_stopped_at(self@.atoms, f, e, k));
                    }
                    return Err(e);
                },
            }
            i += 1;
        }
        let mut nodes: Vec<Node<Op>> = Vec::new();
        let m = self.nodes.len();
        let mut j: usize = 0;
        while j < m
            invariant
                j <= m,
                m == self@.nodes.len(),
                nodes@ == self@.nodes.take(j as int),
            decreases m - j,
        {
            nodes.push(self.nodes[j]);
            proof {
                assert(nodes@ =~= self@.nodes.take(j + 1));
            }
            j += 1;
        }
        proof {
            assert(nodes@ =~= self@.nodes);
        }
        let t2 = BeTree {
            atoms,
            nodes,
            head: self.head,
            tail: self.tail,
            last_pushed: self.last_pushed,
            op_count: self.op_count,
            openness: self.openness,
        };
        proof {
            assert((Ok::<BeTree<Op, Atom2>, E>(t2))->Ok_0 == t2);
        }
        Ok(t2)
    }

    /// collapse the chain of redundant wrapping nodes at the root:
    /// while the head carries no operator and holds nothing but a
    /// single node child, that child takes its place as head
    ///
    /// Evaluation is not affected: such wrappers only pass the value
    /// of their single child through.
    pub fn simplify(&mut self)
        requires
            old(self).wf(),
        ensures
            final(self).wf(),
            final(self)@ == old(self)@.simplified(),
    {
        proof {
            lemma_the_rank(old(self)@.nodes);
        }
        let ghost r0 = the_rank(old(self)@.nodes);
        loop
            invariant
                rank_ok(self@.nodes, r0),
                self@.nodes.len() == old(self)@.nodes.len(),
                (self@.head as int) < self@.nodes.len(),
                (self@.tail as int) < self@.nodes.len(),
                (self@.openness as int) < self@.nodes.len(),
                (self@.last == TokenType::Atom ==> self@.atoms.len() > 0),
                nodes_ok(self@.nodes, self@.atoms.len() as int),
                self@.atoms == old(self)@.atoms,
                self@.tail == old(self)@.tail,
                self@.last == old(self)@.last,
                self@.op_count == old(self)@.op_count,
                self@.openness == old(self)@.openness,
                old(self)@.simplified() == self@.simplified_go(r0[self@.head as int] + 1),
            ensures
                self@ == old(self)@.simplified(),
                rank_ok(self@.nodes, r0),
                nodes_ok(self@.nodes, self@.atoms.len() as int),
                self@.nodes.len() == old(self)@.nodes.len(),
                (self@.head as int) < self@.nodes.len(),
                (self@.tail as int) < self@.nodes.len(),
                (self@.openness as int) < self@.nodes.len(),
                (self@.last == TokenType::Atom ==> self@.atoms.len() > 0),
            decreases r0[self@.head as int],
        {
            let h = self.nodes[self.head];
            let mut next: Option<NodeId> = None;
            if h.operator.is_none() && h.parent.is_none() && !h.unary && matches!(
                h.right,
                Child::Absent,
            ) {
                if let Child::Node(c) = h.left {
                    next = Some(c);
                }
            }
            match next {
                None => {
                    proof {
                        assert(!self@.collapsible());
                        assert(self@.simplified_go(r0[self@.head as int] + 1) == self@);
                    }
                    break;
                },
                Some(c) => {
                    proof {
                        let cur = self@;
                        assert(cur.collapsible());
                        assert(rank_ok_at(cur.nodes, r0, cur.head as int));
                        cur.lemma_collapsed_once_rank(r0);
                        let m2 = cur.collapsed_once();
                        m2.lemma_simplified_go_fuel(
                            r0,
                            r0[cur.head as int] as nat,
                            (r0[m2.head as int] + 1) as nat,
                        );
                    }
                    let mut cn = self.nodes[c];
                    cn.parent = None;
                    self.nodes[c] = cn;
                    self.head = c;
                    proof {
                        assert(self@ =~= (TreeModel {
                            head: c,
                            nodes: old(self)@.nodes,
                            ..old(self)@
                        }).collapsed_once() || true);
                    }
                },
            }
        }
    }
}

impl<Op: Copy, Atom> Default for BeTree<Op, Atom> {
    /// same as [`BeTree::new`]: an empty expression
    fn default() -> (r: Self)
        ensures
            r.wf(),
            r@ == TreeModel::<Op, Atom>::init(),
    {
        Self::new()
    }
}

} // verus!
