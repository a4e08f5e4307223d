use vstd::prelude::*;

verus! {

/// One token transfer instruction: an asset `id`, an `amount` moved, and the
/// index of the transaction `output` receiving it. The three fields are
/// mandatory together; a directive is only ever built from three consecutive
/// decoded integers.
#[derive(Debug, PartialEq, Eq, Structural)]
pub struct Directive {
    pub id: u128,
    pub amount: u128,
    pub output: u128,
}

impl Default for Directive {
    fn default() -> (r: Self)
        ensures
            r.id == 0,
            r.amount == 0,
            r.output == 0,
    {
        Directive { id: 0, amount: 0, output: 0 }
    }
}

} // verus!
