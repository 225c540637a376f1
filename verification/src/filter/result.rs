//! Filter by game result.

use vstd::prelude::*;

use crate::filter::GameFilter;
use crate::game::RawGame;
use crate::text::{chars_of, range_eq};

verus! {

pub open spec fn white_wins() -> Seq<char> {
    seq!['1', '-', '0']
}

pub open spec fn black_wins() -> Seq<char> {
    seq!['0', '-', '1']
}

pub open spec fn draw() -> Seq<char> {
    seq!['1', '/', '2', '-', '1', '/', '2']
}

pub enum ResultFilter {
    /// Only games with a decisive result (1-0 or 0-1).
    Decisive,
    /// Only draws (1/2-1/2).
    DrawsOnly,
    /// All results (no filtering).
    All,
}

impl ResultFilter {
    /// `"decisive"`, `"draws"` or `"all"`.
    pub fn from_str(s: &str) -> (res: Option<Self>)
        ensures
            s@ == seq!['d', 'e', 'c', 'i', 's', 'i', 'v', 'e'] <==> res matches Some(
                ResultFilter::Decisive,
            ),
            s@ == seq!['d', 'r', 'a', 'w', 's'] <==> res matches Some(ResultFilter::DrawsOnly),
            s@ == seq!['a', 'l', 'l'] <==> res matches Some(ResultFilter::All),
    {
        let cs = chars_of(s);
        let n = cs.len();
        assert(cs@.subrange(0, n as int) =~= s@);
        let decisive = ['d', 'e', 'c', 'i', 's', 'i', 'v', 'e'];
        let draws = ['d', 'r', 'a', 'w', 's'];
        let all = ['a', 'l', 'l'];
        assert(decisive@ =~= seq!['d', 'e', 'c', 'i', 's', 'i', 'v', 'e']);
        assert(draws@ =~= seq!['d', 'r', 'a', 'w', 's']);
        assert(all@ =~= seq!['a', 'l', 'l']);
        if range_eq(&cs, 0, n, &decisive) {
            Some(ResultFilter::Decisive)
        } else if range_eq(&cs, 0, n, &draws) {
            Some(ResultFilter::DrawsOnly)
        } else if range_eq(&cs, 0, n, &all) {
            Some(ResultFilter::All)
        } else {
            None
        }
    }
}

/// Whether `result` is the string `lit`.
pub fn result_is(result: &Option<String>, lit: &[char]) -> (res: bool)
    ensures
        res == (result matches Some(r) && r@ == lit@),
{
    match result {
        Some(r) => {
            let cs = chars_of(r.as_str());
            assert(cs@.subrange(0, cs@.len() as int) =~= cs@);
            range_eq(&cs, 0, cs.len(), lit)
        },
        None => false,
    }
}

impl GameFilter for ResultFilter {
    open spec fn accepts(&self, game: RawGame) -> bool {
        match self {
            ResultFilter::All => true,
            ResultFilter::Decisive => game.result_view() == Some(white_wins())
                || game.result_view() == Some(black_wins()),
            ResultFilter::DrawsOnly => game.result_view() == Some(draw()),
        }
    }

    fn accept(&self, game: &RawGame) -> (res: bool) {
        let w = ['1', '-', '0'];
        let b = ['0', '-', '1'];
        let d = ['1', '/', '2', '-', '1', '/', '2'];
        assert(w@ =~= white_wins());
        assert(b@ =~= black_wins());
        assert(d@ =~= draw());
        match self {
            ResultFilter::All => true,
            ResultFilter::Decisive => result_is(&game.result, &w) || result_is(&game.result, &b),
            ResultFilter::DrawsOnly => result_is(&game.result, &d),
        }
    }
}


/// What each result filter passes: the draws filter exactly the games whose
/// result is `1/2-1/2`, the decisive filter exactly those whose result is
/// `1-0` or `0-1`, and `all` every game; no game passes both the draws and
/// the decisive filter, and a game without a result passes neither.
pub proof fn law_result_filters(g: RawGame)
    ensures
        ResultFilter::DrawsOnly.accepts(g) <==> g.result_view() == Some(
            seq!['1', '/', '2', '-', '1', '/', '2'],
        ),
        ResultFilter::Decisive.accepts(g) <==> (g.result_view() == Some(seq!['1', '-', '0'])
            || g.result_view() == Some(seq!['0', '-', '1'])),
        ResultFilter::All.accepts(g),
        !(ResultFilter::DrawsOnly.accepts(g) && ResultFilter::Decisive.accepts(g)),
        g.result_view() is None ==> !ResultFilter::DrawsOnly.accepts(g)
            && !ResultFilter::Decisive.accepts(g),
{
    assert(seq!['1', '/', '2', '-', '1', '/', '2'] != seq!['1', '-', '0']) by {
        assert(seq!['1', '/', '2', '-', '1', '/', '2'].len() != seq!['1', '-', '0'].len());
    }
    assert(seq!['1', '/', '2', '-', '1', '/', '2'] != seq!['0', '-', '1']) by {
        assert(seq!['1', '/', '2', '-', '1', '/', '2'].len() != seq!['0', '-', '1'].len());
    }
}

} // verus!
