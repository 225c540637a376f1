//! The tokenize pipeline's decisions for each parsed game: filter, stop at the
//! game limit, tokenize, and count.

use vstd::prelude::*;

use crate::filter::FilterChain;
use crate::game::chess::{tokenize_spec, tokens_view, ChessTokenizer};
use crate::game::{GameTokenizer, RawGame, TokenizedGame};
use crate::vocab::Vocab;

verus! {

/// What became of a parsed game.
pub enum GameStep {
    /// A filter refused it.
    Filtered,
    /// The game limit was reached; the pipeline stops here.
    LimitReached,
    /// It could not be tokenized.
    Failed,
    /// Its tokens, to be written out.
    Tokenized(TokenizedGame),
}

/// The tokens of a step, if it has any.
pub open spec fn step_tokens(s: GameStep) -> Option<(Seq<u16>, Seq<u8>, Seq<u8>, u8)> {
    match s {
        GameStep::Tokenized(t) => tokens_view(Some(t)),
        _ => None,
    }
}

/// Counts of the games seen so far.
pub struct TokenizeTally {
    pub parsed: u64,
    pub filtered: u64,
    pub tokenized: u64,
    pub failed: u64,
    pub stopped: bool,
}

impl TokenizeTally {
    /// Each parsed game was filtered, tokenized, failed, or (the last one,
    /// once stopped) met the game limit.
    pub open spec fn wf(&self) -> bool {
        self.filtered + self.tokenized + self.failed + (if self.stopped { 1int } else { 0int })
            == self.parsed
    }

    pub fn new() -> (res: Self)
        ensures
            res.wf(),
            res.parsed == 0 && res.filtered == 0 && res.tokenized == 0 && res.failed == 0,
            !res.stopped,
    {
        TokenizeTally { parsed: 0, filtered: 0, tokenized: 0, failed: 0, stopped: false }
    }

    /// Handles one parsed game: a game that some filter refuses is counted as
    /// filtered; otherwise, once `max_games` games are tokenized, the pipeline
    /// stops; otherwise the game is tokenized, or counted as failed.
    pub fn process(
        &mut self,
        game: &RawGame,
        filters: &FilterChain,
        vocab: &Vocab,
        max_games: Option<u64>,
    ) -> (res: GameStep)
        requires
            old(self).wf(),
            !old(self).stopped,
            old(self).parsed < u64::MAX,
        ensures
            final(self).wf(),
            final(self).parsed == old(self).parsed + 1,
            !filters.accepts_all(*game) ==> {
                &&& res is Filtered
                &&& final(self).filtered == old(self).filtered + 1
                &&& final(self).tokenized == old(self).tokenized
                &&& final(self).failed == old(self).failed
                &&& !final(self).stopped
            },
            filters.accepts_all(*game) && (max_games matches Some(n) && old(self).tokenized >= n) ==> {
                &&& res is LimitReached
                &&& final(self).filtered == old(self).filtered
                &&& final(self).tokenized == old(self).tokenized
                &&& final(self).failed == old(self).failed
                &&& final(self).stopped
            },
            filters.accepts_all(*game) && !(max_games matches Some(n) && old(self).tokenized >= n)
                ==> {
                &&& step_tokens(res) == tokenize_spec(
                    game.move_seq(),
                    game.result_view(),
                    vocab.actions(),
                )
                &&& res is Tokenized || res is Failed
                &&& final(self).filtered == old(self).filtered
                &&& final(self).tokenized == old(self).tokenized + (if res is Tokenized {
                    1int
                } else {
                    0int
                })
                &&& final(self).failed == old(self).failed + (if res is Failed {
                    1int
                } else {
                    0int
                })
                &&& !final(self).stopped
            },
            max_games matches Some(n) ==> (old(self).tokenized <= n ==> final(self).tokenized <= n),
    {
        self.parsed = self.parsed + 1;
        if !filters.accept(game) {
            self.filtered = self.filtered + 1;
            return GameStep::Filtered;
        }
        if let Some(max) = max_games {
            if self.tokenized >= max {
                self.stopped = true;
                return GameStep::LimitReached;
            }
        }
        match ChessTokenizer.tokenize(game, vocab) {
            Some(t) => {
                self.tokenized = self.tokenized + 1;
                GameStep::Tokenized(t)
            },
            None => {
                self.failed = self.failed + 1;
                GameStep::Failed
            },
        }
    }

    /// Whether a progress line is due: every 100,000 tokenized games.
    pub fn progress_due(&self) -> (res: bool)
        ensures
            res == (self.tokenized % 100_000 == 0),
    {
        self.tokenized % 100_000 == 0
    }
}

} // verus!
