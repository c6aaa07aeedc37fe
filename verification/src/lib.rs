//! A binary expression tree built incrementally from a left-to-right stream
//! of tokens (atoms, unary and binary operators, parentheses), and evaluated
//! against caller-supplied semantics.
//!
//! Expressions are built by calling [`BeTree::push_atom`],
//! [`BeTree::push_operator`], [`BeTree::open_par`] and [`BeTree::close_par`],
//! then evaluated with [`BeTree::eval`] or [`BeTree::eval_faillible`], which
//! take the atom evaluator, the operator evaluator, and a short-circuit
//! predicate as arguments. Evaluation order is left-to-right, without
//! operator precedence; parentheses are the only way to group.
//!
//! The contracts of the tree's operations speak of its abstract state,
//! a [`model::TreeModel`]; what evaluation may answer is stated by the
//! relations of [`expr`]; the laws holding of every tree stand proved
//! in [`laws`].

mod be_tree;
mod child;
pub mod expr;
pub mod laws;
pub mod model;
mod node;

pub use be_tree::AtomId;
pub use be_tree::BeTree;
pub use be_tree::Token;
pub use be_tree::TokenType;
pub use child::Child;
pub use node::Node;
pub use node::NodeId;
