use vstd::prelude::*;

verus! {

/// One of the four directions a move can slide the tiles.
#[derive(Clone, Copy, PartialEq, Eq, Hash, Debug, Structural)]
pub enum Arrow {
    Up,
    Down,
    Left,
    Right,
}

impl Arrow {
    /// All four directions, in the order loss detection tries them.
    pub fn iter() -> (r: [Arrow; 4])
        ensures
            r@ == seq![Arrow::Up, Arrow::Down, Arrow::Left, Arrow::Right],
    {
        let r = [Arrow::Up, Arrow::Down, Arrow::Left, Arrow::Right];
        proof {
            assert(r@ =~= seq![Arrow::Up, Arrow::Down, Arrow::Left, Arrow::Right]);
        }
        r
    }
}

} // verus!
