use vstd::prelude::*;
use crate::text::push_decimal;

verus! {

/// A dense index into an automaton's transition vector.
#[derive(Debug, Clone, Copy, PartialEq, Eq, Hash, Structural)]
pub struct State(pub usize);

impl State {
    /// The index in decimal.
    pub fn to_text(&self) -> (r: String)
        ensures
            r@ == crate::text::dec_digits(self.0 as nat),
    {
        let mut out = String::new();
        push_decimal(&mut out, self.0);
        assert(out@ =~= crate::text::dec_digits(self.0 as nat));
        out
    }
}

} // verus!
