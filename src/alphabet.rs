use vstd::prelude::*;

verus! {

/// The declared input symbols of an automaton.
///
/// Each symbol is held once; the symbols are kept in the order in which they
/// were first added, which is the order in which validation reports them.
pub struct Alphabet {
    symbols: Vec<char>,
}

impl View for Alphabet {
    type V = Seq<char>;

    closed spec fn view(&self) -> Seq<char> {
        self.symbols@
    }
}

impl Alphabet {
    /// No symbol is held twice.
    pub open spec fn wf(&self) -> bool {
        self@.no_duplicates()
    }

    /// An alphabet with no symbols.
    pub fn new() -> (r: Self)
        ensures
            r.wf(),
            r@ == Seq::<char>::empty(),
    {
        Alphabet { symbols: Vec::new() }
    }

    /// Adds `character`; adding a symbol that is already present changes nothing.
    pub fn add(&mut self, character: char)
        requires
            old(self).wf(),
        ensures
            final(self).wf(),
            final(self)@ == (if old(self)@.contains(character) {
                old(self)@
            } else {
                old(self)@.push(character)
            }),
    {
        if !self.contains(&character) {
            self.symbols.push(character);
        }
    }

    /// Whether `character` is a symbol of the alphabet.
    pub fn contains(&self, character: &char) -> (r: bool)
        ensures
            r == self@.contains(*character),
    {
        let mut i: usize = 0;
        while i < self.symbols.len()
            invariant
                i <= self.symbols@.len(),
                forall|k: int| 0 <= k < i ==> self.symbols@[k] != *character,
            decreases self.symbols@.len() - i,
        {
            if self.symbols[i] == *character {
                return true;
            }
            i = i + 1;
        }
        false
    }

    /// The symbols, in the order in which they were first added.
    pub(crate) fn symbols(&self) -> (r: &Vec<char>)
        ensures
            r@ == self@,
    {
        &self.symbols
    }

    /// The number of distinct symbols.
    pub fn len(&self) -> (r: usize)
        requires
            self.wf(),
        ensures
            r == self@.len(),
            r == self@.to_set().len(),
    {
        proof {
            self@.unique_seq_to_set();
        }
        self.symbols.len()
    }
}

} // verus!
