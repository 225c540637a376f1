//! Filter by move count.

use vstd::prelude::*;

use crate::filter::GameFilter;
use crate::game::RawGame;

verus! {

/// The move count of `game` lies within the optional bounds.
pub open spec fn moves_accepts(min: Option<usize>, max: Option<usize>, game: RawGame) -> bool {
    let count = game.moves@.len();
    &&& (min matches Some(lo) ==> count >= lo)
    &&& (max matches Some(hi) ==> count <= hi)
}

/// Filter games by move count.
pub struct MovesFilter {
    min: Option<usize>,
    max: Option<usize>,
}

impl MovesFilter {
    pub closed spec fn min_moves(&self) -> Option<usize> {
        self.min
    }

    pub closed spec fn max_moves(&self) -> Option<usize> {
        self.max
    }

    pub fn new(min: Option<usize>, max: Option<usize>) -> (res: Self)
        ensures
            res.min_moves() == min,
            res.max_moves() == max,
    {
        MovesFilter { min, max }
    }
}

impl GameFilter for MovesFilter {
    open spec fn accepts(&self, game: RawGame) -> bool {
        moves_accepts(self.min_moves(), self.max_moves(), game)
    }

    fn accept(&self, game: &RawGame) -> (res: bool) {
        let count = game.moves.len();
        if let Some(min) = self.min {
            if count < min {
                return false;
            }
        }
        if let Some(max) = self.max {
            if count > max {
                return false;
            }
        }
        true
    }
}


/// The move-count filter passes a game exactly when it has at least the
/// minimum number of moves (if one is set) and at most the maximum (if one is
/// set); with neither set it passes every game.
pub proof fn law_moves_filter(f: MovesFilter, g: RawGame)
    ensures
        f.accepts(g) <==> ((f.min_moves() is None || g.moves@.len() >= f.min_moves()->0) && (
        f.max_moves() is None || g.moves@.len() <= f.max_moves()->0)),
        f.min_moves() is None && f.max_moves() is None ==> f.accepts(g),
{
}

} // verus!
