//! Filter by rating range.

use vstd::prelude::*;

use crate::filter::GameFilter;
use crate::game::RawGame;
use crate::text::{chars_of, find_char, index_of, parse_u16, parse_u16_spec};

verus! {

pub open spec fn white_elo_key() -> Seq<char> {
    seq!['W', 'h', 'i', 't', 'e', 'E', 'l', 'o']
}

pub open spec fn black_elo_key() -> Seq<char> {
    seq!['B', 'l', 'a', 'c', 'k', 'E', 'l', 'o']
}

/// The tag `key` of `game` read as a `u16`, if it is there and parses.
pub open spec fn tag_u16(game: RawGame, key: Seq<char>) -> Option<u16> {
    if game.tag_map().contains_key(key) {
        parse_u16_spec(game.tag_map()[key])
    } else {
        None
    }
}

/// Both ratings are present, parse, and lie in `[min, max]`.
pub open spec fn elo_accepts(min: u16, max: u16, game: RawGame) -> bool {
    match (tag_u16(game, white_elo_key()), tag_u16(game, black_elo_key())) {
        (Some(w), Some(b)) => min <= w <= max && min <= b <= max,
        _ => false,
    }
}

/// `"min:max"`: exactly one `:` with a `u16` on each side.
pub open spec fn elo_range_spec(s: Seq<char>) -> Option<(u16, u16)> {
    match index_of(s, ':') {
        None => None,
        Some(i) => if index_of(s.skip(i + 1), ':') is Some {
            None
        } else {
            match (parse_u16_spec(s.take(i)), parse_u16_spec(s.skip(i + 1))) {
                (Some(a), Some(b)) => Some((a, b)),
                _ => None,
            }
        },
    }
}

/// Filter games by rating range. Both WhiteElo and BlackElo must be in range.
pub struct EloFilter {
    min: u16,
    max: u16,
}

impl EloFilter {
    pub closed spec fn min_elo(&self) -> u16 {
        self.min
    }

    pub closed spec fn max_elo(&self) -> u16 {
        self.max
    }

    pub fn new(min: u16, max: u16) -> (res: Self)
        ensures
            res.min_elo() == min,
            res.max_elo() == max,
    {
        EloFilter { min, max }
    }

    /// Parses the `"1000:1800"` form.
    pub fn from_str(s: &str) -> (res: Option<Self>)
        ensures
            match elo_range_spec(s@) {
                Some((a, b)) => res matches Some(f) && f.min_elo() == a && f.max_elo() == b,
                None => res is None,
            },
    {
        let cs = chars_of(s);
        let n = cs.len();
        let colon = match find_char(&cs, 0, n, ':') {
            Some(i) => i,
            None => {
                assert(cs@.subrange(0, n as int) =~= s@);
                return None;
            },
        };
        assert(cs@.subrange(0, n as int) =~= s@);
        assert(cs@.subrange(colon + 1, n as int) =~= s@.skip(colon + 1));
        assert(cs@.subrange(0, colon as int) =~= s@.take(colon as int));
        assert(index_of(s@, ':') == Some(colon as int));
        if find_char(&cs, colon + 1, n, ':').is_some() {
            assert(index_of(s@.skip(colon + 1), ':') is Some);
            return None;
        }
        assert(index_of(s@.skip(colon + 1), ':') is None);
        let min = match parse_u16(&cs, 0, colon) {
            Some(v) => v,
            None => return None,
        };
        let max = match parse_u16(&cs, colon + 1, n) {
            Some(v) => v,
            None => return None,
        };
        Some(Self::new(min, max))
    }
}

/// The tag `key` of `game` read as a `u16`.
fn tag_as_u16(game: &RawGame, key: &str, Ghost(k): Ghost<Seq<char>>) -> (res: Option<u16>)
    requires
        key@ == k,
    ensures
        res == tag_u16(*game, k),
{
    match game.tags.get(key) {
        Some(v) => {
            let cs = chars_of(v.as_str());
            assert(cs@.subrange(0, cs@.len() as int) =~= cs@);
            parse_u16(&cs, 0, cs.len())
        },
        None => None,
    }
}

impl GameFilter for EloFilter {
    open spec fn accepts(&self, game: RawGame) -> bool {
        elo_accepts(self.min_elo(), self.max_elo(), game)
    }

    fn accept(&self, game: &RawGame) -> (res: bool) {
        proof {
            reveal_strlit("WhiteElo");
            reveal_strlit("BlackElo");
            assert("WhiteElo"@ =~= white_elo_key());
            assert("BlackElo"@ =~= black_elo_key());
        }
        let white = tag_as_u16(game, "WhiteElo", Ghost(white_elo_key()));
        let black = tag_as_u16(game, "BlackElo", Ghost(black_elo_key()));
        match (white, black) {
            (Some(w), Some(b)) => w >= self.min && w <= self.max && b >= self.min && b <= self.max,
            _ => false,
        }
    }
}


/// The rating filter passes a game exactly when both its `WhiteElo` and its
/// `BlackElo` tags are there, read as numbers, and lie between the filter's
/// bounds, both bounds included; a game missing either rating never passes.
pub proof fn law_elo_filter(f: EloFilter, g: RawGame)
    ensures
        f.accepts(g) <==> (g.tag_map().contains_key("WhiteElo"@) && g.tag_map().contains_key(
            "BlackElo"@,
        ) && parse_u16_spec(g.tag_map()["WhiteElo"@]) is Some && parse_u16_spec(
            g.tag_map()["BlackElo"@],
        ) is Some && f.min_elo() <= parse_u16_spec(g.tag_map()["WhiteElo"@])->0 <= f.max_elo()
            && f.min_elo() <= parse_u16_spec(g.tag_map()["BlackElo"@])->0 <= f.max_elo()),
        f.min_elo() > f.max_elo() ==> !f.accepts(g),
{
    reveal_strlit("WhiteElo");
    reveal_strlit("BlackElo");
    assert("WhiteElo"@ =~= white_elo_key());
    assert("BlackElo"@ =~= black_elo_key());
}

} // verus!
