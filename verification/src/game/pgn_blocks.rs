//! The PGN parser over a whole input: for input made of game blocks (tag
//! lines, blank lines, movetext lines, a blank line or the end of input), it
//! hands out one game per block, in order, with the block's tags, moves and
//! result.

use vstd::prelude::*;

use crate::game::chess::{
    parse_tag_spec, pgn_fresh, pgn_next, pgn_yields, result_key, san_moves_spec, PgnState,
};
use crate::game::tag_get;
use crate::game::convert::join_words;
use crate::text::trim;

verus! {

/// The state after the lines, one after another.
pub open spec fn pgn_feed(s: PgnState, lines: Seq<Seq<char>>) -> PgnState
    decreases lines.len(),
{
    if lines.len() == 0 {
        s
    } else {
        pgn_feed(pgn_next(s, lines[0]), lines.drop_first())
    }
}

/// A game as a `RawGame` holds it: its tags, its SAN moves and its result
/// (the `Result` tag).
pub type PgnGame = (Map<Seq<char>, Seq<char>>, Seq<Seq<char>>, Option<Seq<char>>);

/// The game of tags and movetext.
pub open spec fn pgn_game_of(tags: Map<Seq<char>, Seq<char>>, movetext: Seq<char>) -> PgnGame {
    (tags, san_moves_spec(movetext), tag_get(tags, result_key()))
}

/// The game each line that ends one hands out, fed one after another from
/// state `s`.
pub open spec fn pgn_handed(s: PgnState, lines: Seq<Seq<char>>) -> Seq<PgnGame>
    decreases lines.len(),
{
    if lines.len() == 0 {
        Seq::empty()
    } else if pgn_yields(s, lines[0]) {
        seq![pgn_game_of(s.tags, s.movetext)] + pgn_handed(pgn_next(s, lines[0]), lines.drop_first())
    } else {
        pgn_handed(pgn_next(s, lines[0]), lines.drop_first())
    }
}

pub open spec fn is_tag_line(l: Seq<char>) -> bool {
    trim(l).len() > 0 && trim(l)[0] == '['
}

pub open spec fn is_blank_line(l: Seq<char>) -> bool {
    trim(l).len() == 0
}

pub open spec fn is_movetext_line(l: Seq<char>) -> bool {
    trim(l).len() > 0 && trim(l)[0] != '['
}

/// The tags of tag lines, in order, on top of `tags`; a later tag replaces
/// an earlier one with the same key.
pub open spec fn tags_of_lines(ls: Seq<Seq<char>>, tags: Map<Seq<char>, Seq<char>>) -> Map<
    Seq<char>,
    Seq<char>,
>
    decreases ls.len(),
{
    if ls.len() == 0 {
        tags
    } else {
        tags_of_lines(
            ls.drop_first(),
            match parse_tag_spec(trim(ls[0])) {
                Some((k, v)) => tags.insert(k, v),
                None => tags,
            },
        )
    }
}

/// The trimmed lines.
pub open spec fn trimmed(ls: Seq<Seq<char>>) -> Seq<Seq<char>> {
    ls.map_values(|l: Seq<char>| trim(l))
}

/// A PGN game as lines: tag lines, blank lines, movetext lines and a blank
/// line that ends it.
pub struct PgnBlock {
    pub tag_lines: Seq<Seq<char>>,
    pub gap: Seq<Seq<char>>,
    pub move_lines: Seq<Seq<char>>,
    pub end: Seq<char>,
}

impl PgnBlock {
    pub open spec fn wf(self) -> bool {
        &&& self.tag_lines.len() > 0
        &&& forall|i: int| 0 <= i < self.tag_lines.len() ==> is_tag_line(#[trigger] self.tag_lines[i])
        &&& forall|i: int| 0 <= i < self.gap.len() ==> is_blank_line(#[trigger] self.gap[i])
        &&& self.move_lines.len() > 0
        &&& forall|i: int|
            0 <= i < self.move_lines.len() ==> is_movetext_line(#[trigger] self.move_lines[i])
        &&& is_blank_line(self.end)
    }

    pub open spec fn lines(self) -> Seq<Seq<char>> {
        self.tag_lines + self.gap + self.move_lines + seq![self.end]
    }

    /// The block's lines but the one that ends it.
    pub open spec fn body(self) -> Seq<Seq<char>> {
        self.tag_lines + self.gap + self.move_lines
    }

    /// The block's game: its tags, and the moves of its movetext lines,
    /// trimmed and joined by spaces.
    pub open spec fn game(self) -> PgnGame {
        pgn_game_of(tags_of_lines(self.tag_lines, Map::empty()), join_words(trimmed(self.move_lines)))
    }
}

/// The lines of the blocks, one block after another.
pub open spec fn blocks_lines(bs: Seq<PgnBlock>) -> Seq<Seq<char>>
    decreases bs.len(),
{
    if bs.len() == 0 {
        Seq::empty()
    } else {
        bs[0].lines() + blocks_lines(bs.drop_first())
    }
}

pub proof fn lemma_pgn_feed_append(s: PgnState, a: Seq<Seq<char>>, b: Seq<Seq<char>>)
    ensures
        pgn_feed(s, a + b) == pgn_feed(pgn_feed(s, a), b),
        pgn_handed(s, a + b) == pgn_handed(s, a) + pgn_handed(pgn_feed(s, a), b),
    decreases a.len(),
{
    if a.len() == 0 {
        assert(a + b =~= b);
        assert(pgn_handed(s, a) + pgn_handed(s, b) =~= pgn_handed(s, b));
    } else {
        lemma_pgn_feed_append(pgn_next(s, a[0]), a.drop_first(), b);
        assert((a + b).drop_first() =~= a.drop_first() + b);
        assert((a + b)[0] == a[0]);
        assert(pgn_handed(s, a + b) =~= pgn_handed(s, a) + pgn_handed(pgn_feed(s, a), b));
    }
}

proof fn lemma_tag_lines(s: PgnState, ls: Seq<Seq<char>>)
    requires
        s.movetext.len() == 0,
        forall|i: int| 0 <= i < ls.len() ==> is_tag_line(#[trigger] ls[i]),
    ensures
        pgn_feed(s, ls).tags == tags_of_lines(ls, s.tags),
        pgn_feed(s, ls).movetext.len() == 0,
        pgn_feed(s, ls).found_game == (s.found_game || ls.len() > 0),
        pgn_handed(s, ls) == Seq::<PgnGame>::empty(),
    decreases ls.len(),
{
    if ls.len() > 0 {
        let d = ls.drop_first();
        assert(is_tag_line(ls[0]));
        assert forall|i: int| 0 <= i < d.len() implies is_tag_line(#[trigger] d[i]) by {
            assert(d[i] == ls[i + 1]);
        }
        lemma_tag_lines(pgn_next(s, ls[0]), d);
    }
}

proof fn lemma_gap_lines(s: PgnState, ls: Seq<Seq<char>>)
    requires
        s.movetext.len() == 0,
        forall|i: int| 0 <= i < ls.len() ==> is_blank_line(#[trigger] ls[i]),
    ensures
        pgn_feed(s, ls).tags == s.tags,
        pgn_feed(s, ls).movetext.len() == 0,
        pgn_feed(s, ls).found_game == s.found_game,
        pgn_handed(s, ls) == Seq::<PgnGame>::empty(),
    decreases ls.len(),
{
    if ls.len() > 0 {
        let d = ls.drop_first();
        assert(is_blank_line(ls[0]));
        assert forall|i: int| 0 <= i < d.len() implies is_blank_line(#[trigger] d[i]) by {
            assert(d[i] == ls[i + 1]);
        }
        lemma_gap_lines(pgn_next(s, ls[0]), d);
    }
}

proof fn lemma_move_lines(s: PgnState, ls: Seq<Seq<char>>)
    requires
        s.found_game,
        s.movetext.len() == 0,
        ls.len() > 0,
        forall|i: int| 0 <= i < ls.len() ==> is_movetext_line(#[trigger] ls[i]),
    ensures
        pgn_feed(s, ls).tags == s.tags,
        pgn_feed(s, ls).movetext == join_words(trimmed(ls)),
        pgn_feed(s, ls).found_game,
        pgn_handed(s, ls) == Seq::<PgnGame>::empty(),
    decreases ls.len(),
{
    let p = ls.drop_last();
    let l = ls.last();
    assert(is_movetext_line(ls[ls.len() - 1]));
    assert(ls =~= p + seq![l]);
    if ls.len() == 1 {
        let s1 = pgn_next(s, l);
        assert(ls[0] == l);
        assert(ls.drop_first() =~= Seq::<Seq<char>>::empty());
        assert(trimmed(ls) =~= seq![trim(l)]);
        assert(!pgn_yields(s, l));
        assert(pgn_feed(s, ls) == pgn_feed(s1, Seq::<Seq<char>>::empty()));
        assert(pgn_handed(s, ls) == pgn_handed(s1, Seq::<Seq<char>>::empty()));
    } else {
        assert forall|i: int| 0 <= i < p.len() implies is_movetext_line(#[trigger] p[i]) by {
            assert(p[i] == ls[i]);
        }
        lemma_move_lines(s, p);
        let sp = pgn_feed(s, p);
        lemma_pgn_feed_append(s, p, seq![l]);
        let one = seq![l];
        assert(one[0] == l);
        assert(one.drop_first() =~= Seq::<Seq<char>>::empty());
        assert(!pgn_yields(sp, l));
        assert(pgn_feed(pgn_next(sp, l), Seq::<Seq<char>>::empty()) == pgn_next(sp, l));
        assert(pgn_feed(sp, one) == pgn_feed(pgn_next(sp, l), one.drop_first()));
        assert(pgn_feed(sp, one) == pgn_next(sp, l));
        assert(pgn_handed(sp, one) == pgn_handed(pgn_next(sp, l), Seq::<Seq<char>>::empty()));
        assert(join_words(trimmed(p)).len() > 0 || join_words(trimmed(p)).len() == 0);
        lemma_join_nonempty(trimmed(p));
        assert(trimmed(ls).drop_last() =~= trimmed(p));
        assert(trimmed(ls).last() == trim(l));
        assert(pgn_handed(s, ls) =~= pgn_handed(s, p) + pgn_handed(sp, one));
    }
}

proof fn lemma_join_nonempty(ws: Seq<Seq<char>>)
    requires
        ws.len() > 0,
        forall|i: int| 0 <= i < ws.len() ==> (#[trigger] ws[i]).len() > 0,
    ensures
        join_words(ws).len() > 0,
    decreases ws.len(),
{
    assert(ws.last() == ws[ws.len() - 1]);
    if ws.len() > 1 {
        let d = ws.drop_last();
        assert forall|i: int| 0 <= i < d.len() implies (#[trigger] d[i]).len() > 0 by {
            assert(d[i] == ws[i]);
        }
        lemma_join_nonempty(d);
    }
}

proof fn lemma_block_body(b: PgnBlock)
    requires
        b.wf(),
    ensures
        pgn_feed(pgn_fresh(), b.body()).found_game,
        pgn_feed(pgn_fresh(), b.body()).movetext.len() > 0,
        pgn_game_of(pgn_feed(pgn_fresh(), b.body()).tags, pgn_feed(pgn_fresh(), b.body()).movetext)
            == b.game(),
        pgn_handed(pgn_fresh(), b.body()) == Seq::<PgnGame>::empty(),
{
    let s0 = pgn_fresh();
    lemma_tag_lines(s0, b.tag_lines);
    let s1 = pgn_feed(s0, b.tag_lines);
    lemma_gap_lines(s1, b.gap);
    let s2 = pgn_feed(s1, b.gap);
    lemma_move_lines(s2, b.move_lines);
    lemma_pgn_feed_append(s0, b.tag_lines, b.gap);
    lemma_pgn_feed_append(s0, b.tag_lines + b.gap, b.move_lines);
    assert forall|i: int| 0 <= i < trimmed(b.move_lines).len() implies (#[trigger] trimmed(
        b.move_lines,
    )[i]).len() > 0 by {
        assert(is_movetext_line(b.move_lines[i]));
    }
    lemma_join_nonempty(trimmed(b.move_lines));
    assert(pgn_handed(s0, b.body()) =~= Seq::<PgnGame>::empty());
}

proof fn lemma_block(b: PgnBlock)
    requires
        b.wf(),
    ensures
        pgn_feed(pgn_fresh(), b.lines()) == pgn_fresh(),
        pgn_handed(pgn_fresh(), b.lines()) == seq![b.game()],
{
    let s0 = pgn_fresh();
    lemma_block_body(b);
    let s3 = pgn_feed(s0, b.body());
    lemma_pgn_feed_append(s0, b.body(), seq![b.end]);
    assert(b.lines() =~= b.body() + seq![b.end]);
    let e = seq![b.end];
    assert(e[0] == b.end);
    assert(e.drop_first() =~= Seq::<Seq<char>>::empty());
    assert(pgn_yields(s3, b.end));
    assert(pgn_next(s3, b.end) == pgn_fresh());
    assert(pgn_feed(pgn_fresh(), Seq::<Seq<char>>::empty()) == pgn_fresh());
    assert(pgn_feed(s3, e) == pgn_feed(pgn_next(s3, e[0]), e.drop_first()));
    assert(pgn_feed(s3, e) == pgn_fresh());
    assert(pgn_handed(pgn_fresh(), Seq::<Seq<char>>::empty()) =~= Seq::<PgnGame>::empty());
    assert(pgn_handed(s3, e) =~= seq![pgn_game_of(s3.tags, s3.movetext)]);
    assert(pgn_handed(s0, b.lines()) =~= seq![b.game()]);
}

/// One game per block: for input made of well-formed game blocks, a fresh
/// PGN parser hands out one game per block, in order, each with the block's
/// tags, the SAN moves of its movetext lines joined by spaces, and its
/// `Result` tag as result; and it ends fresh.
pub proof fn law_pgn_one_game_per_block(bs: Seq<PgnBlock>)
    requires
        forall|i: int| 0 <= i < bs.len() ==> (#[trigger] bs[i]).wf(),
    ensures
        pgn_handed(pgn_fresh(), blocks_lines(bs)) == bs.map_values(|b: PgnBlock| b.game()),
        pgn_feed(pgn_fresh(), blocks_lines(bs)) == pgn_fresh(),
    decreases bs.len(),
{
    if bs.len() == 0 {
        assert(bs.map_values(|b: PgnBlock| b.game()) =~= Seq::<PgnGame>::empty());
    } else {
        let d = bs.drop_first();
        assert forall|i: int| 0 <= i < d.len() implies (#[trigger] d[i]).wf() by {
            assert(d[i] == bs[i + 1]);
        }
        assert(bs[0].wf());
        lemma_block(bs[0]);
        law_pgn_one_game_per_block(d);
        lemma_pgn_feed_append(pgn_fresh(), bs[0].lines(), blocks_lines(d));
        assert(bs.map_values(|b: PgnBlock| b.game()) =~= seq![bs[0].game()] + d.map_values(
            |b: PgnBlock| b.game(),
        ));
    }
}

/// The same when the input's last game is ended by the end of input rather
/// than a blank line: the parser hands out the games of the blocks before it,
/// in order, and then holds the last game (which `finish` hands out).
pub proof fn law_pgn_last_game_at_end(bs: Seq<PgnBlock>, last: PgnBlock)
    requires
        forall|i: int| 0 <= i < bs.len() ==> (#[trigger] bs[i]).wf(),
        last.wf(),
    ensures
        pgn_handed(pgn_fresh(), blocks_lines(bs) + last.body()) == bs.map_values(
            |b: PgnBlock| b.game(),
        ),
        pgn_feed(pgn_fresh(), blocks_lines(bs) + last.body()).found_game,
        pgn_game_of(
            pgn_feed(pgn_fresh(), blocks_lines(bs) + last.body()).tags,
            pgn_feed(pgn_fresh(), blocks_lines(bs) + last.body()).movetext,
        ) == last.game(),
{
    law_pgn_one_game_per_block(bs);
    lemma_block_body(last);
    lemma_pgn_feed_append(pgn_fresh(), blocks_lines(bs), last.body());
    assert(bs.map_values(|b: PgnBlock| b.game()) + Seq::<PgnGame>::empty() =~= bs.map_values(
        |b: PgnBlock| b.game(),
    ));
}

} // verus!
