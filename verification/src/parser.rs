use vstd::prelude::*;
use crate::assembler::spelled;
use crate::geo::geodb::GeoDB;
use crate::NaliText;

verus! {

/// A strategy that turns text into tokens, with locations from a database of
/// type `G`.
pub trait Parser<G: GeoDB> {
    /// The tokens of `input`. Whatever the strategy recognises, the texts of
    /// the tokens, read one after the other, are the input.
    fn parse(&self, input: &str, db: &G) -> (text: NaliText)
        ensures
            spelled(text@) == input@,
    ;

    /// What the strategy is called.
    spec fn label(&self) -> Seq<char>;

    fn name(&self) -> (name: &str)
        ensures
            name@ == self.label(),
    ;
}

} // verus!
