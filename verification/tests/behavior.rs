//! behaviour tests: grouping, short-circuiting, atom mapping,
//! simplification, error propagation, and the query surface

use std::cell::Cell;

use bet::BeTree;
use bet::Child;
use bet::Token;

#[derive(Debug, Clone, Copy, PartialEq)]
enum BoolOperator {
    And,
    Or,
    Not,
}

impl BoolOperator {
    fn eval(self, a: bool, b: Option<bool>) -> bool {
        match (self, b) {
            (Self::And, Some(b)) => a & b,
            (Self::Or, Some(b)) => a | b,
            (Self::Not, None) => !a,
            _ => unreachable!(),
        }
    }

    fn short_circuit(self, a: bool) -> bool {
        matches!((self, a), (Self::And, false) | (Self::Or, true))
    }
}

fn parse(input: &str) -> BeTree<BoolOperator, char> {
    let mut expr = BeTree::new();
    for c in input.chars() {
        match c {
            '&' => expr.push_operator(BoolOperator::And),
            '|' => expr.push_operator(BoolOperator::Or),
            '!' => expr.push_operator(BoolOperator::Not),
            ' ' => {}
            '(' => expr.open_par(),
            ')' => expr.close_par(),
            _ => expr.push_atom(c),
        }
    }
    expr
}

fn eval_with(expr: &BeTree<BoolOperator, char>, trues: &[char]) -> Option<bool> {
    expr.eval(
        |c| trues.contains(c),
        |op, a, b| op.eval(a, b),
        |op, &a| op.short_circuit(a),
    )
}

#[test]
fn left_to_right_no_precedence() {
    // "A & B | C & D" groups as (((A & B) | C) & D): with D false the
    // whole expression is false, while the parenthesized reading of
    // the same tokens is true
    let flat = parse("A & B | C & D");
    let grouped = parse("(A & B) | (C & D)");
    assert_eq!(eval_with(&flat, &['A', 'B', 'C']), Some(false));
    assert_eq!(eval_with(&grouped, &['A', 'B', 'C']), Some(true));
    // the sets telling ((A & B) | C) & D apart from A & (B | C) & D
    assert_eq!(eval_with(&flat, &['A', 'B', 'D']), Some(true));
    assert_eq!(eval_with(&flat, &['C', 'D']), Some(true));
    assert_eq!(eval_with(&flat, &['B', 'C']), Some(false));
}

#[test]
fn named_atom_scenarios() {
    let expr = parse("(A | B) & !(C | D | E)");
    assert_eq!(eval_with(&expr, &['A', 'C', 'E']), Some(false));
    assert_eq!(eval_with(&expr, &['A', 'B']), Some(true));
}

#[test]
fn short_circuit_skips_right_subtree() {
    // T | (...) short-circuits: neither the atoms nor the operator of
    // the right subtree may be evaluated
    let expr = parse("T | (A & B)");
    let atom_calls = Cell::new(0u32);
    let op_calls = Cell::new(0u32);
    let result = expr.eval(
        |c: &char| {
            atom_calls.set(atom_calls.get() + 1);
            *c == 'T'
        },
        |op: &BoolOperator, a, b| {
            op_calls.set(op_calls.get() + 1);
            op.eval(a, b)
        },
        |op: &BoolOperator, &a| op.short_circuit(a),
    );
    assert_eq!(result, Some(true));
    // only the atom 'T' was evaluated, and only the Or was applied...
    assert_eq!(atom_calls.get(), 1);
    // ... not even the Or: its left value already decides
    assert_eq!(op_calls.get(), 0);
}

#[test]
fn short_circuit_and_false() {
    let expr = parse("F & (A | B)");
    let atom_calls = Cell::new(0u32);
    let result = expr.eval(
        |c: &char| {
            atom_calls.set(atom_calls.get() + 1);
            *c == 'T'
        },
        |op: &BoolOperator, a, b| op.eval(a, b),
        |op: &BoolOperator, &a| op.short_circuit(a),
    );
    assert_eq!(result, Some(false));
    assert_eq!(atom_calls.get(), 1);
}

#[test]
fn map_atoms_identity_round_trip() {
    let expr = parse("!((T|F)&T) | (A & B)");
    let mapped: BeTree<BoolOperator, char> = expr
        .try_map_atoms(|c| Ok::<char, ()>(*c))
        .unwrap();
    // same atoms, in the same order
    let before: Vec<char> = expr.iter_atoms().copied().collect();
    let after: Vec<char> = mapped.iter_atoms().copied().collect();
    assert_eq!(before, after);
    // same node topology
    assert_eq!(expr.head_id(), mapped.head_id());
    assert_eq!(expr.get_openness(), mapped.get_openness());
    let mut i: usize = 0;
    loop {
        match (expr.node(i), mapped.node(i)) {
            (Some(a), Some(b)) => assert_eq!(a, b),
            (None, None) => break,
            _ => panic!("node arenas differ in length"),
        }
        i += 1;
    }
    // and the same evaluation
    assert_eq!(eval_with(&expr, &['T', 'A']), eval_with(&mapped, &['T', 'A']));
}

#[test]
fn map_atoms_changes_type() {
    let expr = parse("A & B");
    let mapped: BeTree<BoolOperator, String> = expr
        .try_map_atoms(|c| Ok::<String, ()>(c.to_string()))
        .unwrap();
    let atoms: Vec<String> = mapped.atoms();
    assert_eq!(atoms, vec!["A".to_string(), "B".to_string()]);
}

#[test]
fn map_atoms_stops_at_first_error() {
    let expr = parse("A & B | C");
    let seen = Cell::new(0u32);
    let result: Result<BeTree<BoolOperator, char>, char> = expr.try_map_atoms(|c| {
        seen.set(seen.get() + 1);
        if *c == 'B' {
            Err(*c)
        } else {
            Ok(*c)
        }
    });
    assert_eq!(result.unwrap_err(), 'B');
    // 'C' was never looked at
    assert_eq!(seen.get(), 2);
}

#[test]
fn close_par_without_open_is_a_no_op() {
    let mut expr: BeTree<BoolOperator, char> = BeTree::new();
    assert_eq!(expr.get_openness(), 0);
    expr.close_par();
    assert_eq!(expr.get_openness(), 0);
    // the tree still accepts and evaluates an expression as before
    expr.push_atom('T');
    assert_eq!(eval_with(&expr, &['T']), Some(true));
    assert_eq!(expr.get_openness(), 0);

    // same when a complete expression was already pushed
    let mut expr = parse("(T)");
    assert_eq!(expr.get_openness(), 0);
    expr.close_par();
    assert_eq!(expr.get_openness(), 0);
    assert_eq!(eval_with(&expr, &['T']), Some(true));

    // the insertion cursor does not move either: the operand pushed
    // after the excess parenthesis still lands under the operator
    let mut expr: BeTree<BoolOperator, char> = BeTree::new();
    expr.push_operator(BoolOperator::Not);
    expr.close_par();
    assert_eq!(expr.get_openness(), 0);
    expr.push_atom('A');
    assert_eq!(eval_with(&expr, &[]), Some(true));
    assert_eq!(eval_with(&expr, &['A']), Some(false));
}

#[test]
fn simplify_collapses_redundant_wrappers() {
    let mut expr = parse("(((A)))");
    assert!(expr.is_atomic());
    expr.simplify();
    assert!(expr.is_atomic());
    // the head is now the atom's immediate container
    let head = expr.head();
    assert_eq!(head.left, Child::Atom(0));
    assert_eq!(head.right, Child::Absent);
    assert!(head.operator.is_none());
    assert_eq!(eval_with(&expr, &['A']), Some(true));
    assert_eq!(eval_with(&expr, &[]), Some(false));
}

#[test]
fn simplify_keeps_operators() {
    let mut expr = parse("((A & B))");
    expr.simplify();
    assert_eq!(eval_with(&expr, &['A', 'B']), Some(true));
    assert_eq!(eval_with(&expr, &['A']), Some(false));
}

#[test]
fn faillible_eval_returns_the_exact_atom_error() {
    let expr = parse("A & (B | C)");
    let result: Result<Option<bool>, String> = expr.eval_faillible(
        |c: &char| {
            if *c == 'B' {
                Err(format!("unknown atom {}", c))
            } else {
                Ok(*c == 'A')
            }
        },
        |op: &BoolOperator, a, b| Ok(op.eval(a, b)),
        |op: &BoolOperator, &a| op.short_circuit(a),
    );
    assert_eq!(result, Err("unknown atom B".to_string()));
}

#[test]
fn faillible_eval_returns_the_exact_operator_error() {
    let expr = parse("A | !B");
    let result: Result<Option<bool>, &str> = expr.eval_faillible(
        |c: &char| Ok(*c == 'B'),
        |op: &BoolOperator, a, b| match (op, b) {
            (BoolOperator::Not, None) => Err("no unary operators here"),
            _ => Ok(op.eval(a, b)),
        },
        |op: &BoolOperator, &a| op.short_circuit(a),
    );
    assert_eq!(result, Err("no unary operators here"));
}

#[test]
fn faillible_eval_without_errors() {
    let expr = parse("!((T|F)&T)");
    let result: Result<Option<bool>, ()> = expr.eval_faillible(
        |c: &char| Ok(*c == 'T'),
        |op: &BoolOperator, a, b| Ok(op.eval(a, b)),
        |op: &BoolOperator, &a| op.short_circuit(a),
    );
    assert_eq!(result, Ok(Some(false)));
}

#[test]
fn empty_tree_evaluates_to_nothing() {
    let expr: BeTree<BoolOperator, char> = BeTree::new();
    assert!(expr.is_empty());
    assert!(!expr.is_atomic());
    assert_eq!(eval_with(&expr, &['T']), None);
    let fallible: Result<Option<bool>, ()> = expr.eval_faillible(
        |c: &char| Ok(*c == 'T'),
        |op: &BoolOperator, a, b| Ok(op.eval(a, b)),
        |op: &BoolOperator, &a| op.short_circuit(a),
    );
    assert_eq!(fallible, Ok(None));
}

#[test]
fn push_dispatches_on_the_token() {
    let mut expr: BeTree<BoolOperator, char> = BeTree::new();
    expr.push(Token::OpeningParenthesis);
    expr.push(Token::Atom('T'));
    expr.push(Token::Operator(BoolOperator::Or));
    expr.push(Token::Atom('F'));
    expr.push(Token::ClosingParenthesis);
    expr.push(Token::Operator(BoolOperator::And));
    expr.push(Token::Atom('T'));
    assert_eq!(eval_with(&expr, &['T']), Some(true));
}

#[test]
fn acceptance_predicates_follow_the_grammar() {
    let mut expr: BeTree<BoolOperator, char> = BeTree::new();
    // at the start: an atom, a unary operator or an opening
    // parenthesis make sense; a binary operator or a closing one do
    // not
    assert!(expr.accept_atom());
    assert!(expr.accept_unary_operator());
    assert!(expr.accept_opening_par());
    assert!(!expr.accept_binary_operator());
    assert!(!expr.accept_closing_par());
    expr.open_par();
    assert!(expr.accept_atom());
    assert!(!expr.accept_closing_par());
    expr.push_atom('A');
    assert!(!expr.accept_atom());
    assert!(!expr.accept_unary_operator());
    assert!(!expr.accept_opening_par());
    assert!(expr.accept_binary_operator());
    assert!(expr.accept_closing_par());
    expr.push_operator(BoolOperator::And);
    assert!(expr.accept_atom());
    assert!(expr.accept_unary_operator());
    assert!(!expr.accept_binary_operator());
    assert!(!expr.accept_closing_par());
    expr.push_atom('B');
    expr.close_par();
    assert!(!expr.accept_atom());
    assert!(expr.accept_binary_operator());
    // no parenthesis left open
    assert!(!expr.accept_closing_par());
}

#[test]
fn current_atom_tracks_the_last_pushed_token() {
    let mut expr: BeTree<BoolOperator, char> = BeTree::new();
    assert_eq!(expr.current_atom(), None);
    expr.push_atom('A');
    assert_eq!(expr.current_atom(), Some(&'A'));
    expr.push_operator(BoolOperator::And);
    assert_eq!(expr.current_atom(), None);
    expr.push_atom('B');
    assert_eq!(expr.current_atom(), Some(&'B'));
}

#[test]
fn mutate_or_create_accumulates_atoms() {
    let mut expr: BeTree<BoolOperator, String> = BeTree::new();
    expr.mutate_or_create_atom(String::new).push('a');
    expr.mutate_or_create_atom(String::new).push('b');
    assert_eq!(expr.current_atom(), Some(&"ab".to_string()));
    expr.push_operator(BoolOperator::And);
    expr.mutate_or_create_atom(String::new).push('c');
    let atoms: Vec<String> = expr.atoms();
    assert_eq!(atoms, vec!["ab".to_string(), "c".to_string()]);
}

#[test]
fn query_surface() {
    let expr = parse("A & B");
    assert!(!expr.is_empty());
    assert!(!expr.is_atomic());
    let single = parse("A");
    assert!(single.is_atomic());
    // ids are stable and out-of-range lookups answer nothing
    assert_eq!(expr.atom(0), Some(&'A'));
    assert_eq!(expr.atom(1), Some(&'B'));
    assert_eq!(expr.atom(2), None);
    assert!(expr.node(0).is_some());
    assert_eq!(expr.node(100), None);
    let collected: Vec<char> = expr.iter_atoms().copied().collect();
    assert_eq!(collected, vec!['A', 'B']);
    let head = expr.head();
    assert_eq!(head.operator, Some(BoolOperator::And));
    assert_eq!(head.left, Child::Atom(0));
    assert_eq!(head.right, Child::Atom(1));
    assert!(!head.unary);
    assert!(head.is_full());
    let dflt: BeTree<BoolOperator, char> = BeTree::default();
    assert!(dflt.is_empty());
    assert_eq!(dflt.get_openness(), 0);
}

#[test]
fn openness_counts_unmatched_parentheses() {
    let mut expr: BeTree<BoolOperator, char> = BeTree::new();
    expr.open_par();
    expr.open_par();
    assert_eq!(expr.get_openness(), 2);
    expr.push_atom('A');
    expr.close_par();
    assert_eq!(expr.get_openness(), 1);
    expr.close_par();
    assert_eq!(expr.get_openness(), 0);
}
