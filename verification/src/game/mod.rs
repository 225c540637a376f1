//! Game records: the raw form a notation parser yields and the tokenized form
//! the binary writers take.

pub mod special;
pub mod outcome;
pub mod chess;
pub mod ugn;
pub mod board;
pub mod convert;
pub mod round_trip;
pub mod pgn_blocks;

use vstd::prelude::*;
use vstd::hash_map::StringHashMap;

verus! {

/// A raw game as parsed from notation, before tokenization.
pub struct RawGame {
    pub tags: StringHashMap<String>,
    pub moves: Vec<String>,
    pub result: Option<String>,
}

/// The char-sequence view of an optional string.
pub open spec fn opt_view(o: Option<String>) -> Option<Seq<char>> {
    match o {
        Some(s) => Some(s@),
        None => None,
    }
}

/// `g` holds exactly these tags, moves and result.
pub open spec fn game_is(
    g: RawGame,
    tags: Map<Seq<char>, Seq<char>>,
    moves: Seq<Seq<char>>,
    result: Option<Seq<char>>,
) -> bool {
    &&& g.tag_map() == tags
    &&& g.move_seq() == moves
    &&& g.result_view() == result
}

/// The value of tag `key`, if present.
pub open spec fn tag_get(tags: Map<Seq<char>, Seq<char>>, key: Seq<char>) -> Option<Seq<char>> {
    if tags.contains_key(key) {
        Some(tags[key])
    } else {
        None
    }
}

/// A parser for a game notation, fed one line at a time.
pub trait GameParser {
    /// Takes the next line of input; returns the game that this line completes, if any.
    fn push_line(&mut self, line: &str) -> Option<RawGame>;

    /// Signals the end of input; returns the last game, if one is pending.
    fn finish(&mut self) -> Option<RawGame>;
}

/// A tokenizer for a game type.
pub trait GameTokenizer {
    /// The tokens of `game`, or `None` when it cannot be tokenized.
    fn tokenize(&self, game: &RawGame, vocab: &crate::vocab::Vocab) -> Option<TokenizedGame>;
}

impl RawGame {
    /// The tags, each value as its chars.
    pub open spec fn tag_map(&self) -> Map<Seq<char>, Seq<char>> {
        self.tags@.map_values(|v: String| v@)
    }

    /// The moves, each as its chars.
    pub open spec fn move_seq(&self) -> Seq<Seq<char>> {
        self.moves@.map_values(|m: String| m@)
    }

    pub open spec fn result_view(&self) -> Option<Seq<char>> {
        opt_view(self.result)
    }
}

/// A tokenized game ready for binary serialization.
pub struct TokenizedGame {
    pub token_ids: Vec<u16>,
    pub turn_ids: Vec<u8>,
    pub category_ids: Vec<u8>,
    pub outcome: u8,
}

} // verus!
