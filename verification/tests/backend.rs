use libsmt::backends::backend::{Logic, Render, SMTError, SMTNode};
use libsmt::backends::exchange::{Action, Answer, Exchange, Goal};
use libsmt::backends::smtlib2::{EdgeData, SMTLib2};
use std::collections::HashMap;

#[derive(Clone, Copy, Debug)]
struct Ints;

#[derive(Clone, Copy, Debug, PartialEq)]
enum Sort {
    Int,
    Bool,
    BitVec(u32),
}

#[derive(Clone, Debug)]
enum Node {
    Var(String, Sort),
    Const(u64),
    Pred(&'static str),
    Op(&'static str),
}

impl Render for Ints {
    fn render(&self) -> String {
        "QF_LIA".to_owned()
    }
}

impl Render for Sort {
    fn render(&self) -> String {
        match self {
            Sort::Int => "Int".to_owned(),
            Sort::Bool => "Bool".to_owned(),
            Sort::BitVec(n) => format!("(_ BitVec {})", n),
        }
    }
}

impl Render for Node {
    fn render(&self) -> String {
        match self {
            Node::Var(name, _) => name.clone(),
            Node::Const(value) => format!("{}", value),
            Node::Pred(name) => (*name).to_owned(),
            Node::Op(name) => (*name).to_owned(),
        }
    }
}

impl SMTNode for Node {
    fn is_var(&self) -> bool {
        matches!(self, Node::Var(_, _))
    }

    fn is_const(&self) -> bool {
        matches!(self, Node::Const(_))
    }

    fn is_bool(&self) -> bool {
        match self {
            Node::Var(_, sort) => *sort == Sort::Bool,
            Node::Pred(_) => true,
            _ => false,
        }
    }
}

impl Logic for Ints {
    type Fns = Node;
    type Sorts = Sort;

    fn free_var(name: &str, sort: &Sort) -> Node {
        Node::Var(name.to_owned(), *sort)
    }
}

fn store() -> SMTLib2<Ints> {
    SMTLib2::new(Some(Ints))
}

/// Drives an exchange against a solver that answers each read with the next
/// of `replies`, and notes what was written and which bounds were asked for.
fn drive(
    solver: &SMTLib2<Ints>,
    mut exchange: Exchange,
    replies: Vec<Result<String, SMTError>>,
) -> (Result<Answer, SMTError>, Vec<String>, Vec<Option<u64>>) {
    let mut replies = replies.into_iter();
    let mut written = Vec::new();
    let mut bounds = Vec::new();
    let mut reply = None;
    for _ in 0..16 {
        match solver.step(&mut exchange, reply.take()) {
            Action::Send(text) => written.push(text),
            Action::Receive(bound) => {
                bounds.push(bound);
                reply = Some(replies.next().unwrap_or(Err(SMTError::Undefined)));
            }
            Action::Finish(result) => return (result, written, bounds),
        }
    }
    panic!("the exchange did not end");
}

#[test]
fn node_classes_follow_the_defaults() {
    assert!(Node::Op("+").is_fn());
    assert!(Node::Pred("=").is_fn());
    assert!(!Node::Const(1).is_fn());
    assert!(!Node::Var("x".to_owned(), Sort::Int).is_fn());
    assert!(!Node::Op("+").is_bool());
}

#[test]
fn edge_data_carries_the_operand_position() {
    assert_eq!(EdgeData::EdgeOrder(3).order(), 3);
}

#[test]
fn fresh_store_is_empty() {
    let solver = store();
    assert_eq!(solver.node_count(), 0);
    assert_eq!(solver.edge_count(), 0);
    assert_eq!(solver.generate_asserts(), "");
    assert_eq!(solver.lookup("x"), None);
    assert_eq!(solver.var_name(0), None);
}

#[test]
fn handles_are_issued_in_order() {
    let mut solver = store();
    assert_eq!(solver.new_var(Some("x"), Sort::Int), 0);
    assert_eq!(solver.new_const(Node::Const(4)), 1);
    assert_eq!(solver.add_assert(Node::Pred("="), &[0, 1]), 2);
    assert_eq!(solver.node_count(), 3);
    assert_eq!(solver.edge_count(), 2);
}

#[test]
fn two_variables_and_one_assertion() {
    let mut solver = store();
    let x = solver.new_var(Some("x"), Sort::Int);
    let y = solver.new_var(Some("y"), Sort::Int);
    solver.add_assert(Node::Pred("<"), &[x, y]);
    let text = solver.generate_asserts();
    let lines: Vec<&str> = text.lines().collect();
    let mut declarations: Vec<&str> =
        lines.iter().copied().filter(|l| l.starts_with("(declare-fun ")).collect();
    declarations.sort();
    assert_eq!(declarations, vec!["(declare-fun x () Int)", "(declare-fun y () Int)"]);
    let assertions: Vec<&str> = lines.iter().copied().filter(|l| l.starts_with("(assert ")).collect();
    assert_eq!(assertions, vec!["(assert (< x y))"]);
    assert_eq!(lines.len(), 3);
    assert_eq!(text, "(declare-fun x () Int)\n(declare-fun y () Int)\n(assert (< x y))\n");
}

#[test]
fn operand_order_decides_the_text() {
    let mut solver = store();
    let x = solver.new_var(Some("x"), Sort::Int);
    let y = solver.new_var(Some("y"), Sort::Int);
    let forward = solver.add_assert(Node::Pred("<"), &[x, y]);
    let backward = solver.add_assert(Node::Pred("<"), &[y, x]);
    assert_eq!(solver.expand_assertion(forward), "(< x y)");
    assert_eq!(solver.expand_assertion(backward), "(< y x)");
    assert_eq!(solver.operands(forward), vec![x, y]);
    assert_eq!(solver.operands(backward), vec![y, x]);
}

#[test]
fn three_levels_are_fully_parenthesized() {
    let mut solver = store();
    let a = solver.new_var(Some("a"), Sort::Int);
    let b = solver.new_var(Some("b"), Sort::Int);
    let c = solver.new_var(Some("c"), Sort::Int);
    let one = solver.new_const(Node::Const(1));
    let sum = solver.add_assert(Node::Op("+"), &[a, b]);
    let product = solver.add_assert(Node::Op("*"), &[c, one, sum]);
    let top = solver.add_assert(Node::Pred("="), &[product, sum, a]);
    assert_eq!(solver.expand_assertion(sum), "(+ a b)");
    assert_eq!(solver.expand_assertion(product), "(* c 1 (+ a b))");
    assert_eq!(solver.expand_assertion(top), "(= (* c 1 (+ a b)) (+ a b) a)");
    assert_eq!(solver.operands(product), vec![c, one, sum]);
    assert_eq!(solver.operands(top), vec![product, sum, a]);
}

#[test]
fn many_operands_keep_their_order() {
    let mut solver = store();
    let mut handles = Vec::new();
    for i in 0..12 {
        handles.push(solver.new_const(Node::Const(i)));
    }
    let mut mixed = handles.clone();
    mixed.reverse();
    mixed.swap(2, 9);
    let node = solver.add_assert(Node::Op("f"), &mixed);
    assert_eq!(solver.operands(node), mixed);
    assert_eq!(solver.expand_assertion(node), "(f 11 10 2 8 7 6 5 4 3 9 1 0)");
}

#[test]
fn leaves_and_empty_applications() {
    let mut solver = store();
    let x = solver.new_var(Some("x"), Sort::Int);
    let five = solver.new_const(Node::Const(5));
    let nullary = solver.add_assert(Node::Pred("p"), &[]);
    assert_eq!(solver.expand_assertion(x), "x");
    assert_eq!(solver.expand_assertion(five), "5");
    assert_eq!(solver.expand_assertion(nullary), "(p)");
    assert_eq!(solver.operands(x), Vec::<usize>::new());
}

#[test]
fn a_node_that_is_no_function_is_its_rendering_alone() {
    let mut solver = store();
    let x = solver.new_var(Some("x"), Sort::Int);
    let odd = solver.add_assert(Node::Const(3), &[x]);
    assert_eq!(solver.expand_assertion(odd), "3");
    assert_eq!(solver.operands(odd), vec![x]);
    assert!(!solver.is_root(x));
}

#[test]
fn the_same_operand_may_stand_twice() {
    let mut solver = store();
    let x = solver.new_var(Some("x"), Sort::Int);
    let twice = solver.add_assert(Node::Op("+"), &[x, x]);
    assert_eq!(solver.expand_assertion(twice), "(+ x x)");
    assert_eq!(solver.edge_count(), 2);
}

#[test]
fn only_boolean_function_roots_are_asserted() {
    let mut solver = store();
    let x = solver.new_var(Some("x"), Sort::Int);
    let flag = solver.new_var(Some("flag"), Sort::Bool);
    let one = solver.new_const(Node::Const(1));
    let sum = solver.add_assert(Node::Op("+"), &[x, one]);
    let inner = solver.add_assert(Node::Pred(">"), &[sum, one]);
    let outer = solver.add_assert(Node::Pred("and"), &[inner, flag]);
    let loose = solver.add_assert(Node::Op("-"), &[x]);
    assert!(solver.is_root(outer));
    assert!(solver.is_root(loose));
    assert!(!solver.is_root(inner));
    assert!(!solver.is_root(sum));
    assert!(!solver.is_root(x));
    assert_eq!(
        solver.generate_asserts(),
        "(declare-fun x () Int)\n(declare-fun flag () Bool)\n(assert (and (> (+ x 1) 1) flag))\n"
    );
}

#[test]
fn several_roots_come_by_ascending_handle() {
    let mut solver = store();
    let x = solver.new_var(Some("x"), Sort::BitVec(8));
    let first = solver.add_assert(Node::Pred("p"), &[x]);
    let second = solver.add_assert(Node::Pred("q"), &[x]);
    assert!(first < second);
    assert_eq!(
        solver.generate_asserts(),
        "(declare-fun x () (_ BitVec 8))\n(assert (p x))\n(assert (q x))\n"
    );
}

#[test]
fn anonymous_variables_are_numbered_from_one() {
    let mut solver = store();
    let mut names = Vec::new();
    for _ in 0..12 {
        let handle = solver.new_var(None, Sort::Int);
        names.push(solver.var_name(handle).unwrap());
    }
    assert_eq!(
        names,
        vec!["X_1", "X_2", "X_3", "X_4", "X_5", "X_6", "X_7", "X_8", "X_9", "X_10", "X_11", "X_12"]
    );
    assert_eq!(solver.lookup("X_1"), Some(0));
    assert_eq!(solver.lookup("X_12"), Some(11));
    assert_eq!(solver.lookup("X_13"), None);
    assert_eq!(solver.expand_assertion(9), "X_10");
}

#[test]
fn a_given_name_takes_no_number() {
    let mut solver = store();
    let named = solver.new_var(Some("speed"), Sort::Int);
    let anonymous = solver.new_var(None, Sort::Int);
    assert_eq!(solver.var_name(named).unwrap(), "speed");
    assert_eq!(solver.var_name(anonymous).unwrap(), "X_1");
}

#[test]
fn a_name_given_twice_is_bound_to_the_later_variable() {
    let mut solver = store();
    let first = solver.new_var(Some("x"), Sort::Int);
    let other = solver.new_var(Some("y"), Sort::Int);
    let second = solver.new_var(Some("x"), Sort::Bool);
    assert_eq!(solver.lookup("x"), Some(second));
    assert_eq!(solver.lookup("y"), Some(other));
    assert_eq!(solver.var_name(first).unwrap(), "x");
    assert_eq!(solver.var_name(second).unwrap(), "x");
    assert_eq!(solver.generate_asserts(), "(declare-fun x () Bool)\n(declare-fun y () Int)\n");
}

#[test]
fn constants_and_functions_have_no_name() {
    let mut solver = store();
    let five = solver.new_const(Node::Const(5));
    let node = solver.add_assert(Node::Pred("p"), &[five]);
    assert_eq!(solver.var_name(five), None);
    assert_eq!(solver.var_name(node), None);
    assert_eq!(solver.generate_asserts(), "(assert (p 5))\n");
}

#[test]
fn set_logic_names_the_logic() {
    assert_eq!(store().set_logic(), Some("(set-logic QF_LIA)\n".to_owned()));
    let bare: SMTLib2<Ints> = SMTLib2::new(None);
    assert_eq!(bare.set_logic(), None);
}

fn sample_model() -> &'static str {
    "(model \n  (define-fun y () (_ BitVec 32)\n    #x0000000a)\n  (define-fun x () Int\n    10)\n  (define-fun z () Bool\n    #b1)\n)\n"
}

#[test]
fn model_values_are_keyed_by_handle() {
    let mut solver = store();
    let x = solver.new_var(Some("x"), Sort::Int);
    let y = solver.new_var(Some("y"), Sort::BitVec(32));
    let z = solver.new_var(Some("z"), Sort::Bool);
    let model = solver.parse_solver_output(sample_model()).unwrap();
    let mut expected = HashMap::new();
    expected.insert(x, 10);
    expected.insert(y, 10);
    expected.insert(z, 1);
    assert_eq!(model, expected);
}

#[test]
fn model_without_blocks_is_empty() {
    let solver = store();
    assert_eq!(solver.parse_solver_output(""), Some(HashMap::new()));
    assert_eq!(solver.parse_solver_output("(model \n)\n"), Some(HashMap::new()));
    assert_eq!(solver.parse_solver_output("unsat\n"), Some(HashMap::new()));
}

#[test]
fn names_outside_the_identifier_pattern_are_passed_over() {
    let mut solver = store();
    let x = solver.new_var(Some("x"), Sort::Int);
    let text = "(model \n  (define-fun k!0 () Int\n    7)\n  (define-fun x () Int\n    3)\n)\n";
    let model = solver.parse_solver_output(text).unwrap();
    assert_eq!(model.len(), 1);
    assert_eq!(model[&x], 3);
}

#[test]
fn sort_and_value_may_be_parted_by_any_white_space() {
    let mut solver = store();
    let x = solver.new_var(Some("x"), Sort::Int);
    for text in [
        " (define-fun x () Int 10)",
        "(define-fun x () Int 10)",
        "(define-fun x () Int\n  10)",
        "(define-fun x () Int\t10)",
        "(define-fun x () Int \n\t 10)",
        "(define-fun x () Int\r\n    10\n)",
        "(model (define-fun x () Int 10))",
    ] {
        let model = solver.parse_solver_output(text).unwrap();
        assert_eq!(model.len(), 1, "{:?}", text);
        assert_eq!(model[&x], 10, "{:?}", text);
    }
}

#[test]
fn a_reply_may_begin_with_a_block() {
    let mut solver = store();
    let x = solver.new_var(Some("x"), Sort::Int);
    let y = solver.new_var(Some("y"), Sort::Int);
    let model = solver.parse_solver_output("(define-fun x () Int\n  7)\n(define-fun y () Int 8)").unwrap();
    assert_eq!(model.len(), 2);
    assert_eq!(model[&x], 7);
    assert_eq!(model[&y], 8);
}

#[test]
fn hexadecimal_digits_of_either_case_are_read() {
    let mut solver = store();
    let x = solver.new_var(Some("x"), Sort::BitVec(32));
    let upper = "(model \n  (define-fun x () (_ BitVec 32)\n    #x0000000A)\n)";
    assert_eq!(solver.parse_solver_output(upper).unwrap()[&x], 10);
    let mixed = "(model \n  (define-fun x () (_ BitVec 32)\n    #xDeadBeef)\n)";
    assert_eq!(solver.parse_solver_output(mixed).unwrap()[&x], 0xdeadbeef);
    let lower = "(model \n  (define-fun x () (_ BitVec 32) #xff)\n)";
    assert_eq!(solver.parse_solver_output(lower).unwrap()[&x], 255);
}

#[test]
fn a_value_is_taken_whole_or_not_at_all() {
    let mut solver = store();
    solver.new_var(Some("x"), Sort::Int);
    for text in [
        "(define-fun x () Real\n  1.5)",
        "(define-fun x () Int\n  10abc)",
        "(define-fun x () Int\n  #x1g)",
        "(define-fun x () Int\n  #b12)",
        "(define-fun x () Int\n  (- 5))",
        "(define-fun x () Bool\n  true)",
        "(define-fun x () Int\n  10",
        "(define-fun x () Int10)",
    ] {
        assert_eq!(solver.parse_solver_output(text), Some(HashMap::new()), "{:?}", text);
    }
}

#[test]
fn blocks_with_sorts_in_parentheses_follow_each_other() {
    let mut solver = store();
    let a = solver.new_var(Some("a"), Sort::BitVec(8));
    let b = solver.new_var(Some("b"), Sort::Bool);
    let c = solver.new_var(Some("c_1"), Sort::Int);
    let text = "(model (define-fun a () (_ BitVec 8) #b101) (define-fun b () Bool #b0)\n(define-fun c_1 () Int\n 18446744073709551615))";
    let model = solver.parse_solver_output(text).unwrap();
    assert_eq!(model.len(), 3);
    assert_eq!(model[&a], 5);
    assert_eq!(model[&b], 0);
    assert_eq!(model[&c], u64::MAX);
}

#[test]
fn a_later_block_overrides_an_earlier_one() {
    let mut solver = store();
    let x = solver.new_var(Some("x"), Sort::Int);
    let text = "\n(define-fun x () Int\n 1)\n(define-fun x () Int\n 2)\n";
    assert_eq!(solver.parse_solver_output(text).unwrap()[&x], 2);
}

#[test]
fn a_model_with_a_bad_block_is_no_model() {
    let mut solver = store();
    solver.new_var(Some("x"), Sort::Int);
    let unknown = "\n(define-fun y () Int\n 1)\n";
    assert_eq!(solver.parse_solver_output(unknown), None);
    let too_large = "\n(define-fun x () Int\n 18446744073709551616)\n";
    assert_eq!(solver.parse_solver_output(too_large), None);
    let mixed = "\n(define-fun x () Int\n 1)\n(define-fun y () Int\n 2)\n";
    assert_eq!(solver.parse_solver_output(mixed), None);
}

#[test]
fn captures_are_resolved_one_by_one() {
    let mut solver = store();
    let x = solver.new_var(Some("x"), Sort::Int);
    let y = solver.new_var(Some("y"), Sort::Int);
    let captures = vec![
        (Some("x".to_owned()), Some("#xff".to_owned())),
        (Some("y".to_owned()), Some("#b11".to_owned())),
    ];
    let model = solver.model_from_captures(&captures).unwrap();
    assert_eq!(model[&x], 255);
    assert_eq!(model[&y], 3);
    assert_eq!(solver.model_from_captures(&vec![]), Some(HashMap::new()));
    assert_eq!(solver.model_from_captures(&vec![(None, Some("1".to_owned()))]), None);
    assert_eq!(solver.model_from_captures(&vec![(Some("x".to_owned()), None)]), None);
    assert_eq!(
        solver.model_from_captures(&vec![(Some("x".to_owned()), Some("ten".to_owned()))]),
        None
    );
}

fn constrained() -> SMTLib2<Ints> {
    let mut solver = store();
    let x = solver.new_var(Some("x"), Sort::Int);
    let y = solver.new_var(Some("y"), Sort::Int);
    solver.add_assert(Node::Pred("<"), &[x, y]);
    solver
}

fn ok(text: &str) -> Result<String, SMTError> {
    Ok(text.to_owned())
}

#[test]
fn check_sat_sends_the_problem_then_the_command_and_reads_once() {
    let solver = constrained();
    let (result, written, bounds) = drive(&solver, solver.check_sat(), vec![ok("sat\n")]);
    assert!(matches!(result, Ok(Answer::Sat(true))));
    assert_eq!(written, vec![solver.generate_asserts(), "(check-sat)\n".to_owned()]);
    assert_eq!(bounds, vec![None]);
}

#[test]
fn check_sat_is_false_for_anything_but_sat() {
    let solver = constrained();
    for reply in ["unsat\n", "", "sat", "sa", "unknown\n", "(error \"x\")\n", "sat\nsat\n"] {
        let (result, _, _) = drive(&solver, solver.check_sat(), vec![ok(reply)]);
        assert!(matches!(result, Ok(Answer::Sat(false))), "{:?}", reply);
    }
}

#[test]
fn check_sat_without_a_reply_is_undefined() {
    let solver = constrained();
    let (result, _, _) = drive(&solver, solver.check_sat(), vec![Err(SMTError::Timeout)]);
    assert!(matches!(result, Err(SMTError::Undefined)));
}

#[test]
fn bounded_check_sat_times_out() {
    let solver = constrained();
    let (result, written, bounds) =
        drive(&solver, solver.check_sat_with_timeout(250), vec![Err(SMTError::Timeout)]);
    assert!(matches!(result, Err(SMTError::Timeout)));
    assert_eq!(written.len(), 2);
    assert_eq!(bounds, vec![Some(250)]);
    let (result, _, _) = drive(&solver, solver.check_sat_with_timeout(250), vec![ok("sat\n")]);
    assert!(matches!(result, Ok(Answer::Sat(true))));
}

#[test]
fn solve_reads_the_model_from_the_second_reply() {
    let solver = constrained();
    let model = "(model \n  (define-fun y () Int\n    9)\n  (define-fun x () Int\n    10)\n)\n";
    let replies = vec![ok("sat\n"), ok("ignored"), ok(model)];
    let (result, written, bounds) = drive(&solver, solver.solve(), replies);
    match result {
        Ok(Answer::Model(values)) => {
            assert_eq!(values.len(), 2);
            assert_eq!(values[&0], 10);
            assert_eq!(values[&1], 9);
        }
        _ => panic!("no model"),
    }
    assert_eq!(
        written,
        vec![solver.generate_asserts(), "(check-sat)\n".to_owned(), "(get-model)\n".to_owned()]
    );
    assert_eq!(bounds, vec![None, None, None]);
}

#[test]
fn bounded_solve_bounds_every_read() {
    let solver = constrained();
    let model = "(model \n  (define-fun y () Int\n    9)\n  (define-fun x () Int\n    10)\n)\n";
    let replies = vec![ok("sat\n"), ok(""), ok(model)];
    let (result, written, bounds) = drive(&solver, solver.solve_with_timeout(70), replies);
    assert!(matches!(result, Ok(Answer::Model(_))));
    assert_eq!(
        written,
        vec![solver.generate_asserts(), "(check-sat)\n".to_owned(), "(get-model)\n".to_owned()]
    );
    assert_eq!(bounds, vec![Some(70), Some(70), Some(70)]);
}

#[test]
fn named_and_anonymous_variables_mix() {
    let mut solver = store();
    let a = solver.new_var(None, Sort::Int);
    let b = solver.new_var(Some("b"), Sort::Int);
    let c = solver.new_var(None, Sort::Bool);
    let d = solver.new_var(Some("X_1"), Sort::Bool);
    let e = solver.new_var(None, Sort::Int);
    assert_eq!(solver.var_name(a).unwrap(), "X_1");
    assert_eq!(solver.var_name(b).unwrap(), "b");
    assert_eq!(solver.var_name(c).unwrap(), "X_2");
    assert_eq!(solver.var_name(d).unwrap(), "X_1");
    assert_eq!(solver.var_name(e).unwrap(), "X_3");
    assert_eq!(solver.lookup("X_1"), Some(d));
    assert_eq!(solver.lookup("X_2"), Some(c));
    assert_eq!(solver.lookup("X_3"), Some(e));
    assert_eq!(solver.lookup("b"), Some(b));
}

#[test]
fn solve_passes_over_a_failed_first_reply() {
    let solver = constrained();
    let model = "\n(define-fun x () Int\n 1)\n";
    let replies = vec![ok("sat\n"), Err(SMTError::Timeout), ok(model)];
    let (result, _, _) = drive(&solver, solver.solve(), replies);
    assert!(matches!(result, Ok(Answer::Model(_))));
}

#[test]
fn solve_on_unsat_never_asks_for_the_model() {
    let solver = constrained();
    for reply in ["unsat\n", "", "unknown\n"] {
        let (result, written, bounds) = drive(&solver, solver.solve(), vec![ok(reply)]);
        assert!(matches!(result, Err(SMTError::Unsat)));
        assert_eq!(written, vec![solver.generate_asserts(), "(check-sat)\n".to_owned()]);
        assert_eq!(bounds.len(), 1);
    }
    let (result, written, _) = drive(&solver, solver.solve_with_timeout(5), vec![ok("unsat\n")]);
    assert!(matches!(result, Err(SMTError::Unsat)));
    assert!(!written.contains(&"(get-model)\n".to_owned()));
}

#[test]
fn solve_without_a_verdict_is_undefined() {
    let solver = constrained();
    let (result, written, _) = drive(&solver, solver.solve(), vec![Err(SMTError::Timeout)]);
    assert!(matches!(result, Err(SMTError::Undefined)));
    assert_eq!(written.len(), 2);
    let (result, _, bounds) =
        drive(&solver, solver.solve_with_timeout(5), vec![Err(SMTError::Timeout)]);
    assert!(matches!(result, Err(SMTError::Undefined)));
    assert_eq!(bounds, vec![Some(5)]);
}

#[test]
fn solve_without_a_model_reply_fails_by_its_bound() {
    let solver = constrained();
    let replies = vec![ok("sat\n"), ok(""), Err(SMTError::Undefined)];
    let (result, _, _) = drive(&solver, solver.solve(), replies);
    assert!(matches!(result, Err(SMTError::Undefined)));
    let replies = vec![ok("sat\n"), ok(""), Err(SMTError::Undefined)];
    let (result, _, bounds) = drive(&solver, solver.solve_with_timeout(40), replies);
    assert!(matches!(result, Err(SMTError::Timeout)));
    assert_eq!(bounds, vec![Some(40), Some(40), Some(40)]);
}

#[test]
fn solve_with_a_malformed_model_is_undefined() {
    let solver = constrained();
    let replies = vec![ok("sat\n"), ok(""), ok("\n(define-fun w () Int\n 1)\n")];
    let (result, _, _) = drive(&solver, solver.solve(), replies);
    assert!(matches!(result, Err(SMTError::Undefined)));
}

#[test]
fn a_closed_exchange_stays_closed() {
    let solver = constrained();
    let mut exchange = Exchange::new(Goal::CheckSat, None);
    let mut finished = 0;
    let mut reply = None;
    for _ in 0..8 {
        match solver.step(&mut exchange, reply.take()) {
            Action::Receive(_) => reply = Some(ok("sat\n")),
            Action::Finish(Ok(_)) => finished += 1,
            Action::Finish(Err(error)) => {
                assert!(finished > 0);
                assert!(matches!(error, SMTError::Undefined));
            }
            Action::Send(_) => assert_eq!(finished, 0),
        }
    }
    assert_eq!(finished, 1);
}

#[test]
fn the_caller_error_carries_its_message() {
    let error = SMTError::AssertionError("arity".to_owned());
    match error.clone() {
        SMTError::AssertionError(message) => assert_eq!(message, "arity"),
        _ => panic!("another error"),
    }
}
