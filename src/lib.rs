//! Finite automata over characters: a deterministic automaton and a
//! nondeterministic automaton with epsilon moves, with structural validation
//! and acceptance of input strings.

pub mod alphabet;
pub mod automat;
pub mod das;
pub mod enas;
pub mod node;

pub use alphabet::Alphabet;
pub use automat::{Automat, AutomatonError, Fault, ValidationError, ValidationIssue};
pub use das::DAS;
pub use enas::ENAS;
pub use node::{DASNode, ENASNode, Edge, NodeBase, NodeCommon, EPSILON};
