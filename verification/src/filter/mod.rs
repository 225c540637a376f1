//! Game filters: predicates on a raw game, and a chain that all must pass.

pub mod elo;
pub mod result;
pub mod moves;

use vstd::prelude::*;

use crate::filter::elo::{elo_accepts, elo_range_spec, EloFilter};
use crate::filter::moves::{moves_accepts, MovesFilter};
use crate::filter::result::ResultFilter;
use crate::game::RawGame;

verus! {

/// A predicate that decides whether a game should be included.
pub trait GameFilter {
    /// Whether this filter accepts `game`.
    spec fn accepts(&self, game: RawGame) -> bool;

    fn accept(&self, game: &RawGame) -> (res: bool)
        ensures
            res == self.accepts(*game),
    ;
}

/// What pushing onto a sequence gives, for any item type.
proof fn lemma_push_facts<A>(s: Seq<A>, a: A)
    ensures
        s.push(a).len() == s.len() + 1,
        s.push(a)[s.len() as int] == a,
        forall|i: int| 0 <= i < s.len() ==> #[trigger] s.push(a)[i] == s[i],
{
}

/// The result filter an option names: `decisive`, `draws` or `all`.
pub open spec fn result_choice(s: Seq<char>) -> Option<ResultFilter> {
    if s == seq!['d', 'e', 'c', 'i', 's', 'i', 'v', 'e'] {
        Some(ResultFilter::Decisive)
    } else if s == seq!['d', 'r', 'a', 'w', 's'] {
        Some(ResultFilter::DrawsOnly)
    } else if s == seq!['a', 'l', 'l'] {
        Some(ResultFilter::All)
    } else {
        None
    }
}

/// Whether a game passes the options: its ratings within the ELO range when
/// one is given, at least `min_moves` moves when that is above 0, and the
/// chosen result.
pub open spec fn options_accept(
    elo: Option<(u16, u16)>,
    min_moves: usize,
    result: ResultFilter,
    game: RawGame,
) -> bool {
    &&& (elo matches Some((a, b)) ==> elo_accepts(a, b, game))
    &&& (min_moves > 0 ==> moves_accepts(Some(min_moves), None, game))
    &&& result.accepts(game)
}

/// Why filter options were refused.
#[derive(Debug)]
pub enum FilterOptionError {
    /// The ELO range is not of the form `min:max`.
    InvalidElo,
    /// The result filter is none of `decisive`, `draws`, `all`.
    InvalidResult,
}

/// Chain of filters: all must accept for a game to pass.
pub struct FilterChain {
    filters: Vec<Box<dyn GameFilter>>,
    count: usize,
}

impl FilterChain {
    /// The filters, in the order they were added.
    pub closed spec fn filters(&self) -> Seq<Box<dyn GameFilter>> {
        self.filters@
    }

    /// How many filters the chain holds.
    pub closed spec fn count(&self) -> nat {
        self.count as nat
    }

    pub fn new() -> (res: Self)
        ensures
            res.filters() == Seq::<Box<dyn GameFilter>>::empty(),
            res.count() == 0,
    {
        FilterChain { filters: Vec::new(), count: 0 }
    }

    pub fn add(&mut self, filter: Box<dyn GameFilter>)
        requires
            old(self).count() < usize::MAX,
        ensures
            final(self).filters() == old(self).filters().push(filter),
            final(self).count() == old(self).count() + 1,
    {
        self.filters.push(filter);
        self.count = self.count + 1;
    }

    /// Every filter accepts `game`.
    pub open spec fn accepts_all(&self, game: RawGame) -> bool {
        forall|i: int| 0 <= i < self.filters().len() ==> #[trigger] self.filters()[i].accepts(game)
    }

    /// The chain that tokenize options ask for: an ELO filter when a range
    /// is given, a minimum move count when it is above 0, and a result filter
    /// unless the result option is `all`. The ELO range is checked first.
    pub fn from_options(elo: Option<&str>, min_moves: usize, result: &str) -> (res: Result<
        Self,
        FilterOptionError,
    >)
        ensures
            res matches Err(FilterOptionError::InvalidElo) <==> (elo matches Some(e) && elo_range_spec(
                e@,
            ) is None),
            res matches Err(FilterOptionError::InvalidResult) <==> (!(elo matches Some(e)
                && elo_range_spec(e@) is None) && result_choice(result@) is None),
            res matches Ok(c) ==> c.count() == (if elo is Some { 1int } else { 0int }) + (if min_moves
                > 0 {
                1int
            } else {
                0int
            }) + (if result@ == seq!['a', 'l', 'l'] {
                0int
            } else {
                1int
            }),
            res matches Ok(c) ==> forall|g: RawGame|
                #![trigger c.accepts_all(g)]
                c.accepts_all(g) == options_accept(
                    match elo {
                        Some(e) => elo_range_spec(e@),
                        None => None,
                    },
                    min_moves,
                    result_choice(result@)->0,
                    g,
                ),
    {
        let ef = match elo {
            Some(e) => match EloFilter::from_str(e) {
                Some(f) => Some(f),
                None => return Err(FilterOptionError::InvalidElo),
            },
            None => None,
        };
        let mf = if min_moves > 0 {
            Some(MovesFilter::new(Some(min_moves), None))
        } else {
            None
        };
        let rf = match ResultFilter::from_str(result) {
            Some(ResultFilter::All) => None,
            Some(r) => Some(r),
            None => return Err(FilterOptionError::InvalidResult),
        };
        let ghost (ev, mv, rv) = (ef, mf, rf);
        // One literal per combination: each boxed filter then keeps the
        // contract of the filter it boxes.
        let (filters, count): (Vec<Box<dyn GameFilter>>, usize) = match (ef, mf, rf) {
            (Some(a), Some(b), Some(c)) => (vec![Box::new(a), Box::new(b), Box::new(c)], 3),
            (Some(a), Some(b), None) => (vec![Box::new(a), Box::new(b)], 2),
            (Some(a), None, Some(c)) => (vec![Box::new(a), Box::new(c)], 2),
            (Some(a), None, None) => (vec![Box::new(a)], 1),
            (None, Some(b), Some(c)) => (vec![Box::new(b), Box::new(c)], 2),
            (None, Some(b), None) => (vec![Box::new(b)], 1),
            (None, None, Some(c)) => (vec![Box::new(c)], 1),
            (None, None, None) => (Vec::new(), 0),
        };
        let res = FilterChain { filters, count };
        let ghost elo_range = match elo {
            Some(e) => elo_range_spec(e@),
            None => None,
        };
        let ghost choice = result_choice(result@)->0;
        assert forall|g: RawGame| #![trigger res.accepts_all(g)]
            res.accepts_all(g) == options_accept(elo_range, min_moves, choice, g) by {
            let k0: int = 0;
            let k1: int = if ev is Some { 1 } else { 0 };
            let k2: int = k1 + if mv is Some { 1int } else { 0int };
            if ev is Some {
                assert(res.filters()[k0].accepts(g) == elo_accepts(ev->0.min_elo(), ev->0.max_elo(), g));
            }
            if mv is Some {
                assert(res.filters()[k1].accepts(g) == moves_accepts(Some(min_moves), None, g));
            }
            if rv is Some {
                assert(res.filters()[k2].accepts(g) == choice.accepts(g));
            }
        }
        Ok(res)
    }

    pub fn accept(&self, game: &RawGame) -> (res: bool)
        ensures
            res == self.accepts_all(*game),
    {
        let mut i: usize = 0;
        while i < self.filters.len()
            invariant
                0 <= i <= self.filters@.len(),
                forall|j: int| 0 <= j < i ==> #[trigger] self.filters@[j].accepts(*game),
            decreases self.filters@.len() - i,
        {
            let ok = self.filters[i].accept(game);
            if !ok {
                assert(!self.filters()[i as int].accepts(*game));
                return false;
            }
            i = i + 1;
        }
        true
    }

    /// Adding a filter keeps the earlier ones: once `add` has put a filter at
    /// the end of the chain, a game passes the chain exactly when it passed
    /// the chain before and passes the filter now last.
    pub proof fn law_add_then_accept(
        before: FilterChain,
        after: FilterChain,
        f: Box<dyn GameFilter>,
        g: RawGame,
    )
        requires
            after.filters() == before.filters().push(f),
        ensures
            after.filters().len() == before.filters().len() + 1,
            after.accepts_all(g) == (before.accepts_all(g) && after.filters().last().accepts(g)),
    {
        let a = before.filters();
        let b = after.filters();
        lemma_push_facts(a, f);
        if after.accepts_all(g) {
            assert forall|i: int| 0 <= i < a.len() implies #[trigger] a[i].accepts(g) by {
                assert(b[i] == a[i]);
                assert(b[i].accepts(g));
            }
            assert(b[b.len() - 1].accepts(g));
        }
        if before.accepts_all(g) && b.last().accepts(g) {
            assert forall|i: int| 0 <= i < b.len() implies #[trigger] b[i].accepts(g) by {
                if i < a.len() {
                    assert(b[i] == a[i]);
                    assert(a[i].accepts(g));
                }
            }
        }
    }

    pub fn is_empty(&self) -> (res: bool)
        ensures
            res == (self.count() == 0),
    {
        self.count == 0
    }
}

} // verus!
