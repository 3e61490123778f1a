use automata::{Alphabet, Automat, AutomatonError, DASNode, ValidationError, DAS};

fn alphabet_ab() -> Alphabet {
    let mut a = Alphabet::new();
    a.add('a');
    a.add('b');
    a
}

fn parity_automaton() -> DAS {
    let mut das = DAS::new(alphabet_ab());
    let mut q0 = DASNode::new("q0", false);
    q0.add_connection('a', "q1");
    q0.add_connection('b', "q0");
    let mut q1 = DASNode::new("q1", true);
    q1.add_connection('a', "q1");
    q1.add_connection('b', "q0");
    assert_eq!(das.add_state(q0), Ok(()));
    assert_eq!(das.add_state(q1), Ok(()));
    das.set_start_state("q0");
    das
}

#[test]
fn dfa_scenario() {
    let das = parity_automaton();
    assert!(das.validate().is_empty());
    assert!(das.process("a"));
    assert!(!das.process("b"));
    assert!(das.process("ba"));
    assert!(!das.process(""));
    assert!(!das.process("ab"));
    assert!(das.process("abba"));
}

#[test]
fn dfa_through_the_trait() {
    let das = parity_automaton();
    let a: &dyn Automat = &das;
    assert!(a.process("aa"));
    assert!(!a.process("aab"));
}

#[test]
fn dfa_empty_input_accepts_when_start_accepts() {
    let mut das = DAS::new(alphabet_ab());
    assert_eq!(das.add_state(DASNode::new("s", true)), Ok(()));
    das.set_start_state("s");
    assert!(das.process(""));
    assert!(!das.process("a"));
}

#[test]
fn dfa_rejects_on_missing_transition() {
    let mut das = DAS::new(alphabet_ab());
    let mut q0 = DASNode::new("q0", true);
    q0.add_connection('a', "q0");
    assert_eq!(das.add_state(q0), Ok(()));
    das.set_start_state("q0");
    assert!(das.process("aaa"));
    assert!(!das.process("aab"));
    assert!(!das.process("c"));
}

#[test]
fn dfa_unknown_start_rejects() {
    let mut das = DAS::new(alphabet_ab());
    assert_eq!(das.add_state(DASNode::new("q0", true)), Ok(()));
    das.set_start_state("nowhere");
    assert!(!das.process(""));
    assert!(!das.process("a"));
}

#[test]
fn dfa_dangling_target_rejects_during_evaluation() {
    let mut das = DAS::new(alphabet_ab());
    let mut q0 = DASNode::new("q0", true);
    q0.add_connection('a', "qX");
    assert_eq!(das.add_state(q0), Ok(()));
    das.set_start_state("q0");
    assert!(!das.process("a"));
    assert!(!das.process("ab"));
}

#[test]
fn duplicate_state_is_refused_and_keeps_the_first() {
    let mut das = DAS::new(alphabet_ab());
    assert_eq!(das.add_state(DASNode::new("q0", true)), Ok(()));
    assert_eq!(das.add_state(DASNode::new("q0", false)), Err(AutomatonError::DuplicateState));
    das.set_start_state("q0");
    assert!(das.process(""));
}

#[test]
fn empty_state_name_is_refused() {
    let mut das = DAS::new(alphabet_ab());
    assert_eq!(das.add_state(DASNode::new("", true)), Err(AutomatonError::InvalidName));
    das.set_start_state("");
    assert!(!das.process(""));
}

#[test]
fn validate_reports_missing_symbol() {
    let mut das = DAS::new(alphabet_ab());
    let mut q0 = DASNode::new("q0", false);
    q0.add_connection('a', "q0");
    assert_eq!(das.add_state(q0), Ok(()));
    das.set_start_state("q0");
    let errors = das.validate();
    assert_eq!(
        errors,
        vec![ValidationError::MissingTransition { state: "q0".to_string(), symbol: 'b' }]
    );
}

#[test]
fn validate_reports_each_dangling_target_once() {
    let mut das = DAS::new(alphabet_ab());
    let mut q0 = DASNode::new("q0", false);
    q0.add_connection('a', "qX");
    q0.add_connection('b', "q0");
    assert_eq!(das.add_state(q0), Ok(()));
    let errors = das.validate();
    assert_eq!(
        errors,
        vec![ValidationError::DanglingTarget {
            state: "q0".to_string(),
            symbol: 'a',
            target: "qX".to_string(),
        }]
    );
    let naming_qx = errors
        .iter()
        .filter(|e| matches!(e, ValidationError::DanglingTarget { target, .. } if target == "qX"))
        .count();
    assert_eq!(naming_qx, 1);
}

#[test]
fn validate_lists_dangling_before_missing() {
    let mut das = DAS::new(alphabet_ab());
    let mut q0 = DASNode::new("q0", false);
    q0.add_connection('b', "q9");
    let q1 = DASNode::new("q1", true);
    assert_eq!(das.add_state(q0), Ok(()));
    assert_eq!(das.add_state(q1), Ok(()));
    let errors = das.validate();
    assert_eq!(
        errors,
        vec![
            ValidationError::DanglingTarget {
                state: "q0".to_string(),
                symbol: 'b',
                target: "q9".to_string(),
            },
            ValidationError::MissingTransition { state: "q0".to_string(), symbol: 'a' },
            ValidationError::MissingTransition { state: "q1".to_string(), symbol: 'a' },
            ValidationError::MissingTransition { state: "q1".to_string(), symbol: 'b' },
        ]
    );
}

#[test]
fn dfa_alphabet_is_kept() {
    let das = DAS::new(alphabet_ab());
    assert!(das.alphabet().contains(&'a'));
    assert!(!das.alphabet().contains(&'c'));
    assert_eq!(das.alphabet().len(), 2);
}
