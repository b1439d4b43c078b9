use dpda::Action::{Pop, Push};
use dpda::{Action, TransitionError, DPDA};

fn balanced() -> DPDA<&'static str> {
    let mut machine: DPDA<&'static str> = DPDA::new();
    machine
        .state(
            "start",
            vec![(None, "0", Action::Push, "start"), (Some("0"), "1", Action::Pop, "end")],
        )
        .state(
            "end",
            vec![(None, "0", Action::Pop, "end"), (None, "1", Action::Pop, "end")],
        )
        .accept(&["end"]);
    machine
}

#[test]
fn machine() {
    let mut machine: DPDA<&'static str> = DPDA::new();
    machine
        .state(
            "start",
            vec![(None, "0", Push, "start"), (Some("0"), "1", Pop, "end")],
        )
        .state(
            "end",
            vec![(None, "0", Pop, "end"), (None, "1", Pop, "end")],
        )
        .accept(&["end"]);
    assert!(
        machine
            .runner(false)
            .run(vec!["0", "0", "1", "1"])
            .unwrap()
            .1
    );
}

#[test]
fn balanced_run_ends_in_end_with_empty_stack() {
    let machine = balanced();
    let mut r = machine.runner(false);
    let (popped, accepted) = r.run(vec!["0", "0", "1", "1"]).unwrap();
    assert_eq!(popped, vec![None, None, Some("0"), Some("0")]);
    assert!(accepted);
    assert!(r.stack.is_empty());
    assert_eq!(machine.graph.verts[r.current], "end");
}

#[test]
fn new_automaton_is_empty() {
    let machine: DPDA<u8> = DPDA::new();
    assert!(machine.accept.is_empty());
    assert!(machine.graph.verts.is_empty());
    assert!(machine.graph.edges.is_empty());
}

#[test]
fn declaring_a_state_twice_keeps_one_vertex() {
    let mut machine: DPDA<char> = DPDA::new();
    machine.state("a", vec![(None, 'x', Action::Push, "a")]);
    machine.state("a", vec![(None, 'y', Action::Pop, "a")]);
    assert_eq!(machine.graph.verts.len(), 1);
    assert_eq!(machine.graph.edges.len(), 2);
    let mut r = machine.runner(false);
    assert_eq!(r.next('x'), Ok(None));
    assert_eq!(r.next('y'), Ok(Some('x')));
    assert_eq!(r.current, 0);
}

#[test]
fn destination_states_are_created_on_first_mention() {
    let mut machine: DPDA<char> = DPDA::new();
    machine.state("a", vec![(None, 'x', Action::Push, "b"), (None, 'y', Action::Push, "b")]);
    assert_eq!(machine.graph.verts, vec!["a".to_string(), "b".to_string()]);
    machine.state("b", vec![]);
    assert_eq!(machine.graph.verts.len(), 2);
}

#[test]
fn redeclared_transition_replaces_the_edge() {
    let mut machine: DPDA<char> = DPDA::new();
    machine.state("a", vec![(None, 'x', Action::Push, "a")]);
    machine.state("a", vec![(None, 'x', Action::Pop, "b")]);
    assert_eq!(machine.graph.edges.len(), 1);
    let e = &machine.graph.edges[0];
    assert_eq!((e.source, e.dest), (0, 1));
    assert_eq!(e.weight, (None, 'x', Action::Pop));
    let mut r = machine.runner(false);
    assert_eq!(r.next('x'), Ok(None));
    assert_eq!(r.current, 1);
    assert!(r.stack.is_empty());
}

#[test]
fn different_guards_give_different_edges() {
    let mut machine: DPDA<char> = DPDA::new();
    machine.state("a", vec![(None, 'x', Action::Push, "a"), (Some('x'), 'x', Action::Pop, "a")]);
    assert_eq!(machine.graph.edges.len(), 2);
}

#[test]
fn pushes_then_pops_return_symbols_last_first() {
    let mut machine: DPDA<u32> = DPDA::new();
    machine.state("push", vec![(None, 1, Action::Push, "push"), (None, 2, Action::Push, "push"),
        (None, 3, Action::Push, "push"), (None, 0, Action::Pop, "pop")]);
    machine.state("pop", vec![(None, 0, Action::Pop, "pop")]);
    let mut r = machine.runner(true);
    let (popped, accepted) = r.run(vec![1, 2, 3, 0, 0, 0]).unwrap();
    assert_eq!(popped, vec![None, None, None, Some(3), Some(2), Some(1)]);
    assert!(accepted);
    assert!(r.stack.is_empty());
}

#[test]
fn pop_on_empty_stack_yields_none() {
    let mut machine: DPDA<char> = DPDA::new();
    machine.state("a", vec![(None, 'p', Action::Pop, "a")]);
    let mut r = machine.runner(false);
    assert_eq!(r.next('p'), Ok(None));
    assert!(r.stack.is_empty());
}

#[test]
fn replace_returns_the_old_top_and_pushes_the_input() {
    let mut machine: DPDA<char> = DPDA::new();
    machine.state("a", vec![(None, 'x', Action::Push, "a"), (None, 'r', Action::Replace, "a")]);
    let mut r = machine.runner(false);
    assert_eq!(r.next('r'), Ok(None));
    assert_eq!(r.stack, vec!['r']);
    assert_eq!(r.next('x'), Ok(None));
    assert_eq!(r.next('r'), Ok(Some('x')));
    assert_eq!(r.stack, vec!['r', 'r']);
}

#[test]
fn empty_stack_acceptance_ignores_the_state() {
    let mut machine: DPDA<char> = DPDA::new();
    machine.state("a", vec![(None, 'x', Action::Push, "a"), (None, 'y', Action::Pop, "a")]);
    let mut by_stack = machine.runner(true);
    assert_eq!(by_stack.run(vec!['x', 'y']), Ok((vec![None, Some('x')], true)));
    let mut by_state = machine.runner(false);
    assert_eq!(by_state.run(vec!['x', 'y']), Ok((vec![None, Some('x')], false)));
    assert!(!by_state.check());
    machine.accept(&["a"]);
    let r = machine.runner(false);
    assert!(r.check());
}

#[test]
fn non_empty_stack_accepts_only_in_an_accepting_state() {
    let mut machine: DPDA<char> = DPDA::new();
    machine.state("a", vec![(None, 'x', Action::Push, "b")]).accept(&["b"]);
    let mut r = machine.runner(true);
    assert_eq!(r.run(vec!['x']), Ok((vec![None], true)));
    assert_eq!(r.stack, vec!['x']);
    machine.state("c", vec![]);
    let mut machine2: DPDA<char> = DPDA::new();
    machine2.state("a", vec![(None, 'x', Action::Push, "c")]).accept(&["b"]);
    let mut r2 = machine2.runner(true);
    assert_eq!(r2.run(vec!['x']), Ok((vec![None], false)));
}

#[test]
fn rejected_symbol_leaves_the_runner_untouched() {
    let machine = balanced();
    let mut r = machine.runner(false);
    assert_eq!(r.next("0"), Ok(None));
    let before_stack = r.stack.clone();
    let before_current = r.current;
    assert_eq!(r.next("2"), Err(TransitionError::NoTransition));
    assert_eq!(r.stack, before_stack);
    assert_eq!(r.current, before_current);
}

#[test]
fn guard_that_differs_from_the_top_rejects() {
    let mut machine: DPDA<char> = DPDA::new();
    machine.state("a", vec![(None, 'x', Action::Push, "a"), (Some('y'), 'z', Action::Pop, "a")]);
    let mut r = machine.runner(false);
    assert_eq!(r.next('z'), Ok(None));
    assert_eq!(r.next('x'), Ok(None));
    assert_eq!(r.next('z'), Err(TransitionError::NoTransition));
    assert_eq!(r.stack, vec!['x']);
}

#[test]
fn first_matching_edge_wins() {
    let mut machine: DPDA<char> = DPDA::new();
    machine.state("a", vec![
        (None, 'x', Action::Push, "a"),
        (None, 'y', Action::Push, "wild"),
        (Some('x'), 'y', Action::Push, "guarded"),
    ]);
    let mut r = machine.runner(false);
    assert_eq!(r.next('x'), Ok(None));
    assert_eq!(r.next('y'), Ok(None));
    assert_eq!(machine.graph.verts[r.current], "wild");
}

#[test]
fn run_stops_at_the_first_rejected_symbol() {
    let machine = balanced();
    let mut r = machine.runner(false);
    assert_eq!(r.run(vec!["0", "0", "1", "2", "1"]), Err(TransitionError::NoTransition));
    assert_eq!(r.stack, vec!["0"]);
    assert_eq!(machine.graph.verts[r.current], "end");
}

#[test]
fn empty_automaton_rejects_and_accepts_only_by_empty_stack() {
    let machine: DPDA<char> = DPDA::new();
    let mut r = machine.runner(false);
    assert_eq!(r.next('x'), Err(TransitionError::NoTransition));
    assert!(!r.check());
    assert!(machine.runner(true).check());
}

#[test]
fn accepting_the_same_label_twice_is_a_no_op() {
    let mut machine: DPDA<char> = DPDA::new();
    machine.accept(&["end", "end"]).accept(&["end", "other"]);
    assert_eq!(machine.accept, vec!["end".to_string(), "other".to_string()]);
}

#[test]
fn empty_input_reports_only_acceptance() {
    let machine = balanced();
    let mut r = machine.runner(true);
    assert_eq!(r.run(vec![]), Ok((vec![], true)));
    assert_eq!(r.current, 0);
}

#[test]
fn default_is_an_empty_automaton() {
    let machine: DPDA<char> = DPDA::default();
    assert!(machine.accept.is_empty());
    assert!(machine.graph.verts.is_empty());
    assert!(machine.graph.edges.is_empty());
    assert!(!machine.runner(false).check());
}
