use automata::Alphabet;

#[test]
fn alphabet_starts_empty() {
    let a = Alphabet::new();
    assert_eq!(a.len(), 0);
    assert!(!a.contains(&'a'));
}

#[test]
fn alphabet_add_is_idempotent() {
    let mut a = Alphabet::new();
    a.add('a');
    a.add('b');
    a.add('a');
    assert_eq!(a.len(), 2);
    assert!(a.contains(&'a'));
    assert!(a.contains(&'b'));
    assert!(!a.contains(&'c'));
}
