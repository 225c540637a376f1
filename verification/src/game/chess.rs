//! Chess: the PGN parser and the chess tokenizer.

use vstd::prelude::*;
use vstd::hash_map::StringHashMap;

use crate::filter::result::{black_wins, draw, result_is, white_wins};
use crate::game::board::{
    category_spec, parse_san, resolve_san, role_to_category, san_move, san_parses, uci_spec,
    uci_string, move_playable, ChessBoard, ChessMove, BISHOP, KING, KNIGHT, PAWN, QUEEN, ROOK,
};
use crate::game::{
    game_is, opt_view, outcome, special, tag_get, GameParser, GameTokenizer, RawGame,
    TokenizedGame,
};
use crate::vocab::Vocab;
use crate::text::{
    chars_of, contains_ellipsis, ends_with_char, find_char, has_ellipsis, index_of, next_word,
    range_eq, skip_char, skip_char_back, split_ws, starts_with_char, string_of, strip_end,
    strip_start, trim, trim_bounds,
};

verus! {

pub open spec fn result_key() -> Seq<char> {
    seq!['R', 'e', 's', 'u', 'l', 't']
}

/// A PGN tag line `[Key "Value"]`: brackets stripped, the key up to the first
/// space, the value after it trimmed and with its quotes stripped.
pub open spec fn parse_tag_spec(line: Seq<char>) -> Option<(Seq<char>, Seq<char>)> {
    let l = strip_end(strip_start(line, '['), ']');
    match index_of(l, ' ') {
        None => None,
        Some(sp) => Some((l.take(sp), strip_end(strip_start(trim(l.skip(sp + 1)), '"'), '"'))),
    }
}

fn tag_in(s: &[char], lo: usize, hi: usize) -> (res: Option<(String, String)>)
    requires
        lo <= hi <= s@.len(),
    ensures
        match parse_tag_spec(s@.subrange(lo as int, hi as int)) {
            None => res is None,
            Some((k, v)) => res matches Some((a, b)) && a@ == k && b@ == v,
        },
{
    let a = skip_char(s, lo, hi, '[');
    let b = skip_char_back(s, a, hi, ']');
    let ghost l = s@.subrange(a as int, b as int);
    assert(strip_end(strip_start(s@.subrange(lo as int, hi as int), '['), ']') == l);
    let sp = match find_char(s, a, b, ' ') {
        Some(i) => i,
        None => return None,
    };
    let key = string_of(s, a, sp);
    assert(l.take(sp - a) =~= s@.subrange(a as int, sp as int));
    assert(l.skip(sp - a + 1) =~= s@.subrange(sp + 1, b as int));
    let (c, d) = trim_bounds(s, sp + 1, b);
    let e = skip_char(s, c, d, '"');
    let f = skip_char_back(s, e, d, '"');
    let val = string_of(s, e, f);
    Some((key, val))
}

/// Parses a PGN tag line `[Key "Value"]` into its key and value.
pub fn parse_tag(line: &str) -> (res: Option<(String, String)>)
    ensures
        match parse_tag_spec(line@) {
            None => res is None,
            Some((k, v)) => res matches Some((a, b)) && a@ == k && b@ == v,
        },
{
    let cs = chars_of(line);
    assert(cs@.subrange(0, cs@.len() as int) =~= line@);
    tag_in(&cs, 0, cs.len())
}

/// A game result token of PGN movetext.
pub open spec fn is_game_result(t: Seq<char>) -> bool {
    ||| t == seq!['1', '-', '0']
    ||| t == seq!['0', '-', '1']
    ||| t == seq!['1', '/', '2', '-', '1', '/', '2']
    ||| t == seq!['*']
}

/// Movetext words that are no move: move numbers, results, NAGs, variation markers.
pub open spec fn is_non_move(t: Seq<char>) -> bool {
    ||| ends_with_char(t, '.')
    ||| has_ellipsis(t)
    ||| is_game_result(t)
    ||| starts_with_char(t, '$')
    ||| t == seq!['(']
    ||| t == seq![')']
}

/// The moves among `words`, given whether a `{` comment is open before them.
/// A word starting with `{` opens a comment; a word ending with `}` closes
/// the comment it is part of (so `{Best}` opens and closes one).
pub open spec fn san_moves_from(words: Seq<Seq<char>>, in_comment: bool) -> Seq<Seq<char>>
    decreases words.len(),
{
    if words.len() == 0 {
        seq![]
    } else {
        let t = words[0];
        let rest = words.drop_first();
        if starts_with_char(t, '{') || in_comment {
            san_moves_from(rest, !ends_with_char(t, '}'))
        } else if is_non_move(t) {
            san_moves_from(rest, false)
        } else {
            seq![t] + san_moves_from(rest, false)
        }
    }
}

/// The SAN moves of PGN movetext.
pub open spec fn san_moves_spec(movetext: Seq<char>) -> Seq<Seq<char>> {
    san_moves_from(split_ws(movetext), false)
}

/// The chars of each string.
pub open spec fn strings_view(v: Seq<String>) -> Seq<Seq<char>> {
    v.map_values(|m: String| m@)
}

fn is_result_word(s: &[char], a: usize, b: usize) -> (res: bool)
    requires
        a <= b <= s@.len(),
    ensures
        res == is_game_result(s@.subrange(a as int, b as int)),
{
    let w = ['1', '-', '0'];
    let l = ['0', '-', '1'];
    let d = ['1', '/', '2', '-', '1', '/', '2'];
    let u = ['*'];
    assert(w@ =~= seq!['1', '-', '0']);
    assert(l@ =~= seq!['0', '-', '1']);
    assert(d@ =~= seq!['1', '/', '2', '-', '1', '/', '2']);
    assert(u@ =~= seq!['*']);
    range_eq(s, a, b, &w) || range_eq(s, a, b, &l) || range_eq(s, a, b, &d) || range_eq(
        s,
        a,
        b,
        &u,
    )
}

fn san_moves_in(s: &[char], lo: usize, hi: usize) -> (res: Vec<String>)
    requires
        lo <= hi <= s@.len(),
    ensures
        strings_view(res@) == san_moves_spec(s@.subrange(lo as int, hi as int)),
{
    let mut moves: Vec<String> = Vec::new();
    let mut in_comment = false;
    let mut pos = lo;
    loop
        invariant
            lo <= pos <= hi <= s@.len(),
            strings_view(moves@) + san_moves_from(
                split_ws(s@.subrange(pos as int, hi as int)),
                in_comment,
            ) == san_moves_spec(s@.subrange(lo as int, hi as int)),
        decreases hi - pos,
    {
        match next_word(s, pos, hi) {
            None => {
                assert(strings_view(moves@) =~= strings_view(moves@) + Seq::<Seq<char>>::empty());
                return moves;
            },
            Some((a, b)) => {
                let ghost t = s@.subrange(a as int, b as int);
                let ghost words = split_ws(s@.subrange(pos as int, hi as int));
                assert(words[0] == t);
                assert(words.drop_first() =~= split_ws(s@.subrange(b as int, hi as int)));
                if s[a] == '{' || in_comment {
                    in_comment = s[b - 1] != '}';
                } else if s[b - 1] == '.' || contains_ellipsis(s, a, b) || is_result_word(s, a, b)
                    || s[a] == '$' || (b - a == 1 && (s[a] == '(' || s[a] == ')')) {
                    proof {
                        if b - a == 1 && (s@[a as int] == '(' || s@[a as int] == ')') {
                            assert(t =~= seq![s@[a as int]]);
                        }
                    }
                } else {
                    proof {
                        if t == seq!['('] || t == seq![')'] {
                            assert(t[0] == s@[a as int]);
                        }
                    }
                    let ghost before = strings_view(moves@);
                    moves.push(string_of(s, a, b));
                    assert(strings_view(moves@) =~= before.push(t));
                    assert(before.push(t) + san_moves_from(words.drop_first(), false) =~= before
                        + (seq![t] + san_moves_from(words.drop_first(), false)));
                }
                pos = b;
            },
        }
    }
}

/// The SAN moves of PGN movetext: move numbers, results, `{...}` comments,
/// NAGs and variation markers are skipped.
pub fn parse_san_moves(movetext: &str) -> (res: Vec<String>)
    ensures
        strings_view(res@) == san_moves_spec(movetext@),
{
    let cs = chars_of(movetext);
    assert(cs@.subrange(0, cs@.len() as int) =~= movetext@);
    san_moves_in(&cs, 0, cs.len())
}

/// The tags as char sequences.
pub open spec fn tags_view(m: Map<Seq<char>, String>) -> Map<Seq<char>, Seq<char>> {
    m.map_values(|v: String| v@)
}

/// What a PGN parser holds between lines: the tags read so far, the
/// movetext, whether the last line was a tag line, and whether a game has
/// begun (a tag line was seen).
#[verifier::ext_equal]
pub struct PgnState {
    pub tags: Map<Seq<char>, Seq<char>>,
    pub movetext: Seq<char>,
    pub in_tags: bool,
    pub found_game: bool,
}

/// The state of a parser that holds no game.
pub open spec fn pgn_fresh() -> PgnState {
    PgnState { tags: Map::empty(), movetext: Seq::empty(), in_tags: false, found_game: false }
}

/// Whether the line ends the game of state `s`: a blank line or a tag line
/// after movetext.
pub open spec fn pgn_yields(s: PgnState, line: Seq<char>) -> bool {
    let t = trim(line);
    s.found_game && s.movetext.len() > 0 && (t.len() == 0 || t[0] == '[')
}

/// The state after one line: a line that ends the game leaves a fresh state
/// (a tag line that does so is dropped); a blank line ends the tag section;
/// a tag line begins a game and adds its tag; any other line, once a game has
/// begun, is movetext, joined to the earlier movetext by a space.
pub open spec fn pgn_next(s: PgnState, line: Seq<char>) -> PgnState {
    let t = trim(line);
    if pgn_yields(s, line) {
        pgn_fresh()
    } else if t.len() == 0 {
        PgnState { in_tags: false, ..s }
    } else if t[0] == '[' {
        PgnState {
            tags: match parse_tag_spec(t) {
                Some((k, v)) => s.tags.insert(k, v),
                None => s.tags,
            },
            movetext: s.movetext,
            in_tags: true,
            found_game: true,
        }
    } else {
        PgnState {
            movetext: if !s.found_game {
                s.movetext
            } else if s.movetext.len() == 0 {
                t
            } else {
                s.movetext + seq![' '] + t
            },
            ..s
        }
    }
}

/// The game of state `s`: its tags, the SAN moves of its movetext, and its
/// `Result` tag.
pub open spec fn pgn_state_game(s: PgnState, g: RawGame) -> bool {
    game_is(g, s.tags, san_moves_spec(s.movetext), tag_get(s.tags, result_key()))
}

/// PGN parser: fed line by line, it yields one `RawGame` per game.
///
/// Tag lines start with `[`; other non-blank lines after a tag are movetext.
/// A blank line after movetext, or a tag line after movetext, ends the game
/// (that tag line is then dropped); the end of input ends the last game.
pub struct PgnParser {
    tags: StringHashMap<String>,
    movetext: Vec<char>,
    in_tags: bool,
    found_game: bool,
}

impl PgnParser {
    pub closed spec fn tags(&self) -> Map<Seq<char>, Seq<char>> {
        tags_view(self.tags@)
    }

    pub closed spec fn movetext(&self) -> Seq<char> {
        self.movetext@
    }

    pub closed spec fn in_tags(&self) -> bool {
        self.in_tags
    }

    pub closed spec fn found_game(&self) -> bool {
        self.found_game
    }

    pub open spec fn state(&self) -> PgnState {
        PgnState {
            tags: self.tags(),
            movetext: self.movetext(),
            in_tags: self.in_tags(),
            found_game: self.found_game(),
        }
    }

    /// No game is in progress.
    pub open spec fn is_fresh(&self) -> bool {
        &&& self.tags() == Map::<Seq<char>, Seq<char>>::empty()
        &&& self.movetext() == Seq::<char>::empty()
        &&& !self.in_tags()
        &&& !self.found_game()
    }

    /// The game that the state `p` holds.
    pub open spec fn pending_game(p: PgnParser, g: RawGame) -> bool {
        pgn_state_game(p.state(), g)
    }

    pub fn new() -> (res: Self)
        ensures
            res.is_fresh(),
    {
        let res = PgnParser {
            tags: StringHashMap::new(),
            movetext: Vec::new(),
            in_tags: false,
            found_game: false,
        };
        assert(res.tags() =~= Map::<Seq<char>, Seq<char>>::empty());
        res
    }

    /// Hands out the pending game and starts afresh.
    fn take_game(&mut self) -> (res: RawGame)
        ensures
            Self::pending_game(*old(self), res),
            final(self).is_fresh(),
    {
        proof {
            reveal_strlit("Result");
            assert("Result"@ =~= result_key());
        }
        let mut tags = StringHashMap::new();
        std::mem::swap(&mut tags, &mut self.tags);
        let result = match tags.get("Result") {
            Some(v) => Some(v.clone()),
            None => None,
        };
        let moves = san_moves_in(&self.movetext, 0, self.movetext.len());
        assert(self.movetext@.subrange(0, self.movetext@.len() as int) =~= self.movetext@);
        self.movetext = Vec::new();
        self.in_tags = false;
        self.found_game = false;
        assert(self.tags() =~= Map::<Seq<char>, Seq<char>>::empty());
        RawGame { tags, moves, result }
    }
}

impl GameParser for PgnParser {
    fn push_line(&mut self, line: &str) -> (res: Option<RawGame>)
        ensures
            final(self).state() == pgn_next(old(self).state(), line@),
            res is Some <==> pgn_yields(old(self).state(), line@),
            res matches Some(g) ==> Self::pending_game(*old(self), g),
    {
        let cs = chars_of(line);
        let (a, b) = trim_bounds(&cs, 0, cs.len());
        assert(cs@.subrange(0, cs@.len() as int) =~= line@);
        let ghost t = cs@.subrange(a as int, b as int);
        assert(t == trim(line@));
        if a == b {
            if self.found_game && self.movetext.len() > 0 {
                return Some(self.take_game());
            }
            self.in_tags = false;
            return None;
        }
        if cs[a] == '[' {
            if self.found_game && self.movetext.len() > 0 {
                return Some(self.take_game());
            }
            self.in_tags = true;
            self.found_game = true;
            match tag_in(&cs, a, b) {
                Some((k, v)) => {
                    let ghost before = self.tags@;
                    self.tags.insert(k, v);
                    assert(tags_view(self.tags@) =~= tags_view(before).insert(k@, v@));
                },
                None => {},
            }
            return None;
        }
        assert(t[0] != '[');
        if self.found_game {
            let ghost old_text = self.movetext@;
            if self.movetext.len() > 0 {
                self.movetext.push(' ');
            }
            let ghost before = self.movetext@;
            let mut add: Vec<char> = Vec::new();
            let mut i = a;
            while i < b
                invariant
                    a <= i <= b <= cs@.len(),
                    add@ == cs@.subrange(a as int, i as int),
                decreases b - i,
            {
                add.push(cs[i]);
                assert(add@ =~= cs@.subrange(a as int, i + 1));
                i = i + 1;
            }
            self.movetext.append(&mut add);
            assert(self.movetext@ =~= if old_text.len() == 0 {
                t
            } else {
                old_text + seq![' '] + t
            });
        }
        None
    }

    fn finish(&mut self) -> (res: Option<RawGame>)
        ensures
            old(self).found_game() ==> (res matches Some(g) && Self::pending_game(*old(self), g)),
            !old(self).found_game() ==> res is None,
            old(self).found_game() ==> final(self).is_fresh(),
            !old(self).found_game() ==> *final(self) == *old(self),
    {
        if self.found_game {
            Some(self.take_game())
        } else {
            None
        }
    }
}


/// The moves that the SANs play one after the other from the position
/// reached by `history`; `None` when one does not parse, denotes no single
/// legal move, or cannot be played.
pub open spec fn replay(history: Seq<ChessMove>, sans: Seq<Seq<char>>) -> Option<Seq<ChessMove>>
    decreases sans.len(),
{
    if sans.len() == 0 {
        Some(seq![])
    } else if !san_parses(sans[0]) {
        None
    } else {
        match san_move(history, sans[0]) {
            None => None,
            Some(m) => if !move_playable(history, m) {
                None
            } else {
                match replay(history.push(m), sans.drop_first()) {
                    Some(rest) => Some(seq![m] + rest),
                    None => None,
                }
            },
        }
    }
}

/// The outcome token and code of a result: `1-0` a win, `0-1` a loss,
/// `1/2-1/2` a draw; anything else has no token and the unknown code.
pub open spec fn result_outcome(result: Option<Seq<char>>) -> (Seq<u16>, u8) {
    if result == Some(white_wins()) {
        (seq![special::WIN], outcome::WIN)
    } else if result == Some(black_wins()) {
        (seq![special::LOSS], outcome::LOSS)
    } else if result == Some(draw()) {
        (seq![special::DRAW], outcome::DRAW)
    } else {
        (seq![], outcome::UNKNOWN)
    }
}

/// The tokens of a game whose moves are `ms`: `BOS`, one token per move (its
/// UCI text looked up in `actions`), the outcome token if the result has
/// one, and `EOS`; with the side to move (0 white, 1 black) and the moved
/// piece's category for each move token, and 0 for the others.
/// `None` when some move's UCI text is not in `actions`.
pub open spec fn tokens_spec(
    ms: Seq<ChessMove>,
    result: Option<Seq<char>>,
    actions: Map<Seq<char>, u16>,
) -> Option<(Seq<u16>, Seq<u8>, Seq<u8>, u8)> {
    if forall|i: int| 0 <= i < ms.len() ==> #[trigger] actions.contains_key(uci_spec(ms[i])) {
        let ids = Seq::new(ms.len(), |i: int| actions[uci_spec(ms[i])]);
        let turns = Seq::new(ms.len(), |i: int| (i % 2) as u8);
        let cats = Seq::new(ms.len(), |i: int| category_spec(ms[i].spec_role()));
        let (tail, out) = result_outcome(result);
        let pad = Seq::new(tail.len(), |i: int| 0u8);
        Some(
            (
                seq![special::BOS] + ids + tail + seq![special::EOS],
                seq![0u8] + turns + pad + seq![0u8],
                seq![0u8] + cats + pad + seq![0u8],
                out,
            ),
        )
    } else {
        None
    }
}

/// What tokenizing a game with these SAN moves and result gives: nothing
/// for fewer than 4 moves or moves that do not replay, else the tokens of the
/// moves played.
pub open spec fn tokenize_spec(
    sans: Seq<Seq<char>>,
    result: Option<Seq<char>>,
    actions: Map<Seq<char>, u16>,
) -> Option<(Seq<u16>, Seq<u8>, Seq<u8>, u8)> {
    if sans.len() < 4 {
        None
    } else {
        match replay(Seq::empty(), sans) {
            None => None,
            Some(ms) => tokens_spec(ms, result, actions),
        }
    }
}

/// The view of a tokenized game.
pub open spec fn tokens_view(g: Option<TokenizedGame>) -> Option<(Seq<u16>, Seq<u8>, Seq<u8>, u8)> {
    match g {
        Some(t) => Some((t.token_ids@, t.turn_ids@, t.category_ids@, t.outcome)),
        None => None,
    }
}

/// Appends the outcome token and returns the outcome code.
fn push_outcome(
    result: &Option<String>,
    token_ids: &mut Vec<u16>,
    turn_ids: &mut Vec<u8>,
    category_ids: &mut Vec<u8>,
) -> (out: u8)
    ensures
        ({
            let (tail, o) = result_outcome(opt_view(*result));
            let pad = Seq::new(tail.len(), |i: int| 0u8);
            &&& out == o
            &&& final(token_ids)@ == old(token_ids)@ + tail
            &&& final(turn_ids)@ == old(turn_ids)@ + pad
            &&& final(category_ids)@ == old(category_ids)@ + pad
        }),
{
    let w = ['1', '-', '0'];
    let l = ['0', '-', '1'];
    let d = ['1', '/', '2', '-', '1', '/', '2'];
    assert(w@ =~= white_wins());
    assert(l@ =~= black_wins());
    assert(d@ =~= draw());
    let (tok, out) = if result_is(result, &w) {
        (Some(special::WIN), outcome::WIN)
    } else if result_is(result, &l) {
        (Some(special::LOSS), outcome::LOSS)
    } else if result_is(result, &d) {
        (Some(special::DRAW), outcome::DRAW)
    } else {
        (None, outcome::UNKNOWN)
    };
    if let Some(t) = tok {
        token_ids.push(t);
        turn_ids.push(0);
        category_ids.push(0);
    }
    assert(turn_ids@ =~= old(turn_ids)@ + Seq::new(result_outcome(opt_view(*result)).0.len(), |i: int| 0u8));
    assert(category_ids@ =~= old(category_ids)@ + Seq::new(result_outcome(opt_view(*result)).0.len(), |i: int| 0u8));
    assert(token_ids@ =~= old(token_ids)@ + result_outcome(opt_view(*result)).0);
    out
}

/// The tokens of a game whose moves (in order, from the start) are `moves`.
pub fn tokens_from_moves(moves: &Vec<ChessMove>, result: &Option<String>, vocab: &Vocab) -> (res:
    Option<TokenizedGame>)
    requires
        forall|i: int| 0 <= i < moves@.len() ==> #[trigger] moves@[i].well_formed(),
    ensures
        tokens_view(res) == tokens_spec(moves@, opt_view(*result), vocab.actions()),
{
    let ghost ms = moves@;
    let ghost a = vocab.actions();
    let mut token_ids: Vec<u16> = Vec::new();
    let mut turn_ids: Vec<u8> = Vec::new();
    let mut category_ids: Vec<u8> = Vec::new();
    token_ids.push(special::BOS);
    turn_ids.push(0);
    category_ids.push(0);
    let mut i: usize = 0;
    while i < moves.len()
        invariant
            0 <= i <= ms.len(),
            ms == moves@,
            a == vocab.actions(),
            forall|k: int| 0 <= k < ms.len() ==> #[trigger] ms[k].well_formed(),
            forall|k: int| 0 <= k < i ==> #[trigger] a.contains_key(uci_spec(ms[k])),
            token_ids@ == seq![special::BOS] + Seq::new(i as nat, |k: int| a[uci_spec(ms[k])]),
            turn_ids@ == seq![0u8] + Seq::new(i as nat, |k: int| (k % 2) as u8),
            category_ids@ == seq![0u8] + Seq::new(i as nat, |k: int| category_spec(ms[k].spec_role())),
        decreases ms.len() - i,
    {
        let m = &moves[i];
        let uci = uci_string(m);
        let id = match vocab.get(uci.as_str()) {
            Some(id) => id,
            None => {
                assert(!a.contains_key(uci_spec(ms[i as int])));
                return None;
            },
        };
        let category = role_to_category(m.role());
        let turn: u8 = if i % 2 == 0 { 0 } else { 1 };
        token_ids.push(id);
        turn_ids.push(turn);
        category_ids.push(category);
        assert(token_ids@ =~= seq![special::BOS] + Seq::new((i + 1) as nat, |k: int| a[uci_spec(ms[k])]));
        assert(turn_ids@ =~= seq![0u8] + Seq::new((i + 1) as nat, |k: int| (k % 2) as u8));
        assert(category_ids@ =~= seq![0u8] + Seq::new((i + 1) as nat, |k: int| category_spec(ms[k].spec_role())));
        i = i + 1;
    }
    let out = push_outcome(result, &mut token_ids, &mut turn_ids, &mut category_ids);
    token_ids.push(special::EOS);
    turn_ids.push(0);
    category_ids.push(0);
    let g = TokenizedGame { token_ids, turn_ids, category_ids, outcome: out };
    assert(tokens_view(Some(g)) =~~= tokens_spec(ms, opt_view(*result), a));
    Some(g)
}


/// `p` followed by the moves of `r`, if any.
pub open spec fn prefixed(p: Seq<ChessMove>, r: Option<Seq<ChessMove>>) -> Option<Seq<ChessMove>> {
    match r {
        Some(x) => Some(p + x),
        None => None,
    }
}

/// Chess tokenizer: replays the SAN moves with `shakmaty` and maps each move,
/// by its UCI text, to a token ID.
pub struct ChessTokenizer;

impl GameTokenizer for ChessTokenizer {
    fn tokenize(&self, game: &RawGame, vocab: &Vocab) -> (res: Option<TokenizedGame>)
        ensures
            tokens_view(res) == tokenize_spec(game.move_seq(), game.result_view(), vocab.actions()),
            res matches Some(t) ==> forall|k: int|
                0 <= k < t.category_ids@.len() ==> #[trigger] t.category_ids@[k] <= 5,
    {
        let sans = &game.moves;
        if sans.len() < 4 {
            return None;
        }
        let ghost ss = game.move_seq();
        let ghost a = vocab.actions();
        let mut board = ChessBoard::new();
        let mut token_ids: Vec<u16> = Vec::new();
        let mut turn_ids: Vec<u8> = Vec::new();
        let mut category_ids: Vec<u8> = Vec::new();
        token_ids.push(special::BOS);
        turn_ids.push(0);
        category_ids.push(0);
        assert(ss.skip(0) =~= ss);
        assert(Seq::<ChessMove>::empty() + Seq::<ChessMove>::empty() =~= Seq::<ChessMove>::empty());
        proof {
            match replay(Seq::empty(), ss) {
                Some(r) => {
                    assert(Seq::<ChessMove>::empty() + r =~= r);
                },
                None => {},
            }
        }
        let mut i: usize = 0;
        while i < sans.len()
            invariant
                0 <= i <= sans@.len(),
                sans@.len() >= 4,
                ss == game.move_seq(),
                sans == &game.moves,
                a == vocab.actions(),
                board@.len() == i,
                replay(Seq::empty(), ss) == prefixed(board@, replay(board@, ss.skip(i as int))),
                forall|k: int| 0 <= k < i ==> #[trigger] board@[k].well_formed(),
                forall|k: int| 0 <= k < i ==> #[trigger] a.contains_key(uci_spec(board@[k])),
                token_ids@ == seq![special::BOS] + Seq::new(i as nat, |k: int| a[uci_spec(board@[k])]),
                turn_ids@ == seq![0u8] + Seq::new(i as nat, |k: int| (k % 2) as u8),
                category_ids@ == seq![0u8] + Seq::new(i as nat, |k: int| category_spec(board@[k].spec_role())),
            decreases sans@.len() - i,
        {
            let ghost h = board@;
            let ghost rest = ss.skip(i as int);
            assert(rest[0] == ss[i as int]);
            assert(ss[i as int] == sans@[i as int]@);
            assert(rest.drop_first() =~= ss.skip(i + 1));
            let san = match parse_san(sans[i].as_str()) {
                Some(t) => t,
                None => return None,
            };
            let m = match resolve_san(&board, &san) {
                Some(m) => m,
                None => return None,
            };
            let uci = uci_string(m.info());
            let id = match vocab.get(uci.as_str()) {
                Some(id) => id,
                None => {
                    proof {
                        match replay(h.push(m@), rest.drop_first()) {
                            Some(r) => {
                                if move_playable(h, m@) {
                                    let ms = h + (seq![m@] + r);
                                    assert(ms[i as int] == m@);
                                    assert(!a.contains_key(uci_spec(ms[i as int])));
                                }
                            },
                            None => {},
                        }
                    }
                    return None;
                },
            };
            let category = role_to_category(m.info().role());
            let turn: u8 = if board.white_to_move() { 0 } else { 1 };
            if !board.play(&m) {
                return None;
            }
            token_ids.push(id);
            turn_ids.push(turn);
            category_ids.push(category);
            proof {
                assert(board@[i as int] == m@);
                assert forall|k: int| 0 <= k < i implies #[trigger] board@[k] == h[k] by {}
                assert(token_ids@ =~= seq![special::BOS] + Seq::new((i + 1) as nat, |k: int| a[uci_spec(board@[k])]));
                assert(turn_ids@ =~= seq![0u8] + Seq::new((i + 1) as nat, |k: int| (k % 2) as u8));
                assert(category_ids@ =~= seq![0u8] + Seq::new((i + 1) as nat, |k: int| category_spec(board@[k].spec_role())));
                match replay(board@, ss.skip(i + 1)) {
                    Some(r) => {
                        assert(h + (seq![m@] + r) =~= board@ + r);
                    },
                    None => {},
                }
            }
            i = i + 1;
        }
        assert(ss.skip(i as int) =~= Seq::<Seq<char>>::empty());
        assert(board@ + Seq::<ChessMove>::empty() =~= board@);
        let out = push_outcome(&game.result, &mut token_ids, &mut turn_ids, &mut category_ids);
        token_ids.push(special::EOS);
        turn_ids.push(0);
        category_ids.push(0);
        let g = TokenizedGame { token_ids, turn_ids, category_ids, outcome: out };
        assert(tokens_view(Some(g)) =~~= tokens_spec(board@, game.result_view(), a));
        assert forall|k: int| 0 <= k < g.category_ids@.len() implies #[trigger] g.category_ids@[k]
            <= 5 by {
            if 1 <= k <= board@.len() {
                assert(g.category_ids@[k] == category_spec(board@[k - 1].spec_role()));
                assert(board@[k - 1].well_formed());
            }
        }
        Some(g)
    }
}


/// A tokenized game's three sequences have one entry per token: `BOS`, one
/// per move, the outcome token when the result is a known one, and `EOS`.
/// Turns alternate white, black from the first move; the outcome code is
/// unknown exactly when there is no outcome token.
pub proof fn law_tokens_shape(
    ms: Seq<ChessMove>,
    result: Option<Seq<char>>,
    actions: Map<Seq<char>, u16>,
)
    requires
        tokens_spec(ms, result, actions) is Some,
    ensures
        ({
            let (t, tu, c, o) = tokens_spec(ms, result, actions).unwrap();
            &&& t.len() == tu.len()
            &&& t.len() == c.len()
            &&& t.len() == ms.len() + 2 + if o == outcome::UNKNOWN {
                0int
            } else {
                1int
            }
            &&& t[0] == special::BOS
            &&& t.last() == special::EOS
            &&& forall|k: int| 1 <= k <= ms.len() ==> #[trigger] tu[k] == ((k - 1) % 2) as u8
            &&& forall|k: int| 1 <= k <= ms.len() ==> #[trigger] t[k] == actions[uci_spec(ms[k - 1])]
        }),
{
    let (t, tu, c, o) = tokens_spec(ms, result, actions).unwrap();
    let (tail, out) = result_outcome(result);
    assert(o == out);
    assert(tail.len() == 0 <==> o == outcome::UNKNOWN);
    assert forall|k: int| 1 <= k <= ms.len() implies #[trigger] tu[k] == ((k - 1) % 2) as u8 by {
        assert(tu[k] == Seq::new(ms.len(), |i: int| (i % 2) as u8)[k - 1]);
    }
    assert forall|k: int| 1 <= k <= ms.len() implies #[trigger] t[k] == actions[uci_spec(ms[k - 1])] by {
        assert(t[k] == Seq::new(ms.len(), |i: int| actions[uci_spec(ms[i])])[k - 1]);
    }
}


/// The category of each move token is fixed by the moved piece: pawn 0,
/// knight 1, bishop 2, rook 3, queen 4, king 5 (one less than the role's
/// number); en passant counts as a pawn move and castling as a king move.
pub proof fn law_token_categories(
    ms: Seq<ChessMove>,
    result: Option<Seq<char>>,
    actions: Map<Seq<char>, u16>,
)
    requires
        tokens_spec(ms, result, actions) is Some,
        forall|i: int| 0 <= i < ms.len() ==> #[trigger] ms[i].well_formed(),
    ensures
        ({
            let c = tokens_spec(ms, result, actions).unwrap().2;
            &&& c[0] == 0
            &&& c.last() == 0
            &&& forall|k: int| 1 <= k <= ms.len() ==> #[trigger] c[k] as int == ms[k - 1].spec_role() - 1
            &&& forall|k: int| 1 <= k <= ms.len() && ms[k - 1].spec_role() == PAWN ==> #[trigger] c[k] == 0
            &&& forall|k: int| 1 <= k <= ms.len() && ms[k - 1].spec_role() == KNIGHT ==> #[trigger] c[k] == 1
            &&& forall|k: int| 1 <= k <= ms.len() && ms[k - 1].spec_role() == BISHOP ==> #[trigger] c[k] == 2
            &&& forall|k: int| 1 <= k <= ms.len() && ms[k - 1].spec_role() == ROOK ==> #[trigger] c[k] == 3
            &&& forall|k: int| 1 <= k <= ms.len() && ms[k - 1].spec_role() == QUEEN ==> #[trigger] c[k] == 4
            &&& forall|k: int| 1 <= k <= ms.len() && ms[k - 1].spec_role() == KING ==> #[trigger] c[k] == 5
            &&& forall|k: int| 1 <= k <= ms.len() && ms[k - 1] is EnPassant ==> #[trigger] c[k] == 0
            &&& forall|k: int| 1 <= k <= ms.len() && ms[k - 1] is Castle ==> #[trigger] c[k] == 5
        }),
{
    let (t, tu, c, o) = tokens_spec(ms, result, actions).unwrap();
    assert forall|k: int| 1 <= k <= ms.len() implies #[trigger] c[k] as int == ms[k - 1].spec_role() - 1 by {
        assert(c[k] == Seq::new(ms.len(), |i: int| category_spec(ms[i].spec_role()))[k - 1]);
        assert(ms[k - 1].well_formed());
        assert(crate::game::board::is_role(ms[k - 1].spec_role()));
    }
}


/// The outcome of a tokenized game: `1-0` gives the win token 3 before `EOS`
/// and outcome code 0, `0-1` the loss token 5 and code 2, `1/2-1/2` the draw
/// token 4 and code 1; any other result (or none) no outcome token and code
/// 255. The sequence starts with `BOS` (1) and ends with `EOS` (2).
pub proof fn law_token_outcome(
    ms: Seq<ChessMove>,
    result: Option<Seq<char>>,
    actions: Map<Seq<char>, u16>,
)
    requires
        tokens_spec(ms, result, actions) is Some,
    ensures
        ({
            let (t, tu, c, o) = tokens_spec(ms, result, actions).unwrap();
            &&& t[0] == 1
            &&& t.last() == 2
            &&& result == Some(seq!['1', '-', '0']) ==> o == 0 && t.len() == ms.len() + 3 && t[ms.len() as int + 1] == 3
            &&& result == Some(seq!['0', '-', '1']) ==> o == 2 && t.len() == ms.len() + 3 && t[ms.len() as int + 1] == 5
            &&& result == Some(seq!['1', '/', '2', '-', '1', '/', '2']) ==> o == 1 && t.len() == ms.len()
                + 3 && t[ms.len() as int + 1] == 4
            &&& !(result == Some(seq!['1', '-', '0']) || result == Some(seq!['0', '-', '1']) || result
                == Some(seq!['1', '/', '2', '-', '1', '/', '2'])) ==> o == 255 && t.len() == ms.len() + 2
            &&& forall|k: int| ms.len() + 1 <= k < c.len() ==> #[trigger] c[k] == 0 && tu[k] == 0
        }),
{
    let (t, tu, c, o) = tokens_spec(ms, result, actions).unwrap();
    let (tail, out) = result_outcome(result);
    let ids = Seq::new(ms.len(), |i: int| actions[uci_spec(ms[i])]);
    assert(t == seq![special::BOS] + ids + tail + seq![special::EOS]);
    if tail.len() == 1 {
        assert(t[ms.len() as int + 1] == tail[0]);
    }
    assert forall|k: int| ms.len() + 1 <= k < c.len() implies #[trigger] c[k] == 0 && tu[k] == 0 by {
        if k < c.len() - 1 {
            assert(c[k] == Seq::new(tail.len(), |i: int| 0u8)[k - ms.len() - 1]);
            assert(tu[k] == Seq::new(tail.len(), |i: int| 0u8)[k - ms.len() - 1]);
        }
    }
}

} // verus!
