use automata::{DASNode, ENASNode, Edge, NodeBase, NodeCommon, EPSILON};

#[test]
fn node_common_keeps_name_and_flag() {
    let n = NodeCommon::new("q7", true);
    assert_eq!(n.get_name(), "q7");
    assert!(n.is_accepting());
    let m = NodeCommon::new("q8", false);
    assert!(!m.is_accepting());
}

#[test]
fn das_node_connection_overwrites_in_place() {
    let mut n = DASNode::new("q0", false);
    assert_eq!(n.get_name(), "q0");
    assert!(!n.is_accepting());
    n.add_connection('a', "q1");
    n.add_connection('b', "q2");
    n.add_connection('a', "q3");
    let expected = vec![
        Edge { symbol: 'a', target: "q3".to_string() },
        Edge { symbol: 'b', target: "q2".to_string() },
    ];
    assert_eq!(n.get_connections(), &expected);
}

#[test]
fn enas_node_connection_overwrites_in_place() {
    let mut n = ENASNode::new("p", true);
    assert!(n.is_accepting());
    n.add_connection(EPSILON, vec!["x".to_string(), "y".to_string()]);
    n.add_connection('a', vec!["z".to_string()]);
    n.add_connection(EPSILON, vec!["w".to_string()]);
    let expected = vec![
        Edge { symbol: EPSILON, target: vec!["w".to_string()] },
        Edge { symbol: 'a', target: vec!["z".to_string()] },
    ];
    assert_eq!(n.get_connections(), &expected);
}

#[test]
fn epsilon_is_the_greek_letter() {
    assert_eq!(EPSILON, 'ε');
}
