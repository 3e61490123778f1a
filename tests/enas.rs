use automata::{Alphabet, Automat, AutomatonError, ENASNode, ValidationError, ENAS, EPSILON};

fn names(v: &[&str]) -> Vec<String> {
    v.iter().map(|s| s.to_string()).collect()
}

fn sorted(mut v: Vec<String>) -> Vec<String> {
    v.sort();
    v
}

fn alphabet_ab() -> Alphabet {
    let mut a = Alphabet::new();
    a.add('a');
    a.add('b');
    a
}

fn scenario() -> ENAS {
    let mut enas = ENAS::new(alphabet_ab());
    let mut q0 = ENASNode::new("q0", false);
    q0.add_connection(EPSILON, names(&["q1"]));
    let mut q1 = ENASNode::new("q1", false);
    q1.add_connection('a', names(&["q2"]));
    let q2 = ENASNode::new("q2", true);
    assert_eq!(enas.add_state(q0), Ok(()));
    assert_eq!(enas.add_state(q1), Ok(()));
    assert_eq!(enas.add_state(q2), Ok(()));
    enas.set_start_state("q0");
    enas
}

#[test]
fn epsilon_nfa_scenario() {
    let enas = scenario();
    assert!(enas.validate().is_empty());
    assert!(enas.process("a"));
    assert!(!enas.process(""));
    assert!(!enas.process("b"));
    assert!(!enas.process("aa"));
}

#[test]
fn epsilon_nfa_through_the_trait() {
    let enas = scenario();
    let a: &dyn Automat = &enas;
    assert!(a.process("a"));
    assert!(!a.process(""));
}

#[test]
fn closure_of_start_absorbs_epsilon_targets() {
    let enas = scenario();
    let c = enas.epsilon_closure(&names(&["q0"]));
    assert_eq!(c, names(&["q0", "q1"]));
}

#[test]
fn closure_terminates_on_epsilon_cycle() {
    let mut enas = ENAS::new(alphabet_ab());
    let mut a = ENASNode::new("A", false);
    a.add_connection(EPSILON, names(&["B"]));
    let mut b = ENASNode::new("B", false);
    b.add_connection(EPSILON, names(&["A"]));
    assert_eq!(enas.add_state(a), Ok(()));
    assert_eq!(enas.add_state(b), Ok(()));
    let c = enas.epsilon_closure(&names(&["A"]));
    assert_eq!(sorted(c), names(&["A", "B"]));
}

#[test]
fn closure_is_idempotent() {
    let mut enas = ENAS::new(alphabet_ab());
    let mut a = ENASNode::new("A", false);
    a.add_connection(EPSILON, names(&["B", "C"]));
    let mut c = ENASNode::new("C", false);
    c.add_connection(EPSILON, names(&["D", "A"]));
    let d = ENASNode::new("D", true);
    assert_eq!(enas.add_state(a), Ok(()));
    assert_eq!(enas.add_state(c), Ok(()));
    assert_eq!(enas.add_state(d), Ok(()));
    let once = enas.epsilon_closure(&names(&["A"]));
    let twice = enas.epsilon_closure(&once);
    assert_eq!(sorted(once.clone()), names(&["A", "B", "C", "D"]));
    assert_eq!(sorted(twice), sorted(once));
}

#[test]
fn closure_keeps_given_names_once() {
    let enas = scenario();
    let c = enas.epsilon_closure(&names(&["q2", "q2", "zz"]));
    assert_eq!(c, names(&["q2", "zz"]));
    assert!(enas.epsilon_closure(&Vec::new()).is_empty());
}

#[test]
fn empty_input_accepts_through_epsilon() {
    let mut enas = ENAS::new(alphabet_ab());
    let mut s = ENASNode::new("s", false);
    s.add_connection(EPSILON, names(&["t"]));
    let t = ENASNode::new("t", true);
    assert_eq!(enas.add_state(s), Ok(()));
    assert_eq!(enas.add_state(t), Ok(()));
    enas.set_start_state("s");
    assert!(enas.process(""));
}

#[test]
fn nondeterministic_branches_are_followed() {
    let mut enas = ENAS::new(alphabet_ab());
    let mut p = ENASNode::new("p", false);
    p.add_connection('a', names(&["p", "r"]));
    p.add_connection('b', names(&["p"]));
    let mut r = ENASNode::new("r", false);
    r.add_connection('b', names(&["f"]));
    let f = ENASNode::new("f", true);
    assert_eq!(enas.add_state(p), Ok(()));
    assert_eq!(enas.add_state(r), Ok(()));
    assert_eq!(enas.add_state(f), Ok(()));
    enas.set_start_state("p");
    assert!(enas.process("ab"));
    assert!(enas.process("bbab"));
    assert!(!enas.process("ba"));
    assert!(!enas.process("abb"));
}

#[test]
fn dangling_targets_are_skipped_during_evaluation() {
    let mut enas = ENAS::new(alphabet_ab());
    let mut q0 = ENASNode::new("q0", false);
    q0.add_connection(EPSILON, names(&["ghost"]));
    q0.add_connection('a', names(&["nowhere", "q1"]));
    let q1 = ENASNode::new("q1", true);
    assert_eq!(enas.add_state(q0), Ok(()));
    assert_eq!(enas.add_state(q1), Ok(()));
    enas.set_start_state("q0");
    assert!(enas.process("a"));
    assert!(!enas.process("aa"));
}

#[test]
fn unknown_start_rejects() {
    let mut enas = scenario();
    enas.set_start_state("missing");
    assert!(!enas.process(""));
    assert!(!enas.process("a"));
}

#[test]
fn enas_duplicate_and_empty_names_are_refused() {
    let mut enas = scenario();
    assert_eq!(enas.add_state(ENASNode::new("q0", true)), Err(AutomatonError::DuplicateState));
    assert_eq!(enas.add_state(ENASNode::new("", true)), Err(AutomatonError::InvalidName));
    assert!(!enas.process(""));
}

#[test]
fn enas_validate_reports_each_dangling_target() {
    let mut enas = ENAS::new(alphabet_ab());
    let mut q0 = ENASNode::new("q0", false);
    q0.add_connection('a', names(&["q0", "qX"]));
    q0.add_connection(EPSILON, names(&["qY"]));
    assert_eq!(enas.add_state(q0), Ok(()));
    let errors = enas.validate();
    assert_eq!(
        errors,
        vec![
            ValidationError::DanglingTarget {
                state: "q0".to_string(),
                symbol: 'a',
                target: "qX".to_string(),
            },
            ValidationError::DanglingTarget {
                state: "q0".to_string(),
                symbol: EPSILON,
                target: "qY".to_string(),
            },
        ]
    );
}

#[test]
fn enas_validate_has_no_completeness_check() {
    let mut enas = ENAS::new(alphabet_ab());
    assert_eq!(enas.add_state(ENASNode::new("q0", false)), Ok(()));
    assert!(enas.validate().is_empty());
    assert_eq!(enas.alphabet().len(), 2);
}
