//! Corrections that a user makes to matching decisions, kept as training data.
use vstd::prelude::*;

verus! {

/// The corrections recorded so far: (first function, second function,
/// whether they should match).
pub struct TrainingDataCollector {
    corrections: Vec<(String, String, bool)>,
}

impl TrainingDataCollector {
    pub closed spec fn view(&self) -> Seq<(Seq<char>, Seq<char>, bool)> {
        self.corrections@.map_values(|c: (String, String, bool)| (c.0@, c.1@, c.2))
    }

    pub fn new() -> (r: TrainingDataCollector)
        ensures
            r@.len() == 0,
    {
        let r = TrainingDataCollector { corrections: Vec::new() };
        assert(r@ =~= Seq::<(Seq<char>, Seq<char>, bool)>::empty());
        r
    }

    /// Records that the user said whether `func1` and `func2` should match.
    pub fn record_correction(&mut self, func1: &str, func2: &str, should_match: bool)
        ensures
            final(self)@ == old(self)@.push((func1@, func2@, should_match)),
    {
        self.corrections.push((String::from_str(func1), String::from_str(func2), should_match));
        assert(self@ =~= old(self)@.push((func1@, func2@, should_match)));
    }

    /// The corrections in the order they were recorded.
    pub fn corrections(&self) -> (r: &Vec<(String, String, bool)>)
        ensures
            r@.map_values(|c: (String, String, bool)| (c.0@, c.1@, c.2)) == self@,
    {
        &self.corrections
    }
}

} // verus!
