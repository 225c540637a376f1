//! PGN games to UGN text.

use vstd::prelude::*;

use crate::game::board::{
    parse_san, resolve_san, standard_uci, standard_uci_spec, ChessBoard, ChessMove,
};
use crate::game::chess::{prefixed, replay, strings_view};
use crate::game::round_trip::{
    concat_lines, converted_values_plain, law_ugn_round_trip, read_back_result, uci_texts, ugn_lines,
    ugn_quiet,
};
use crate::game::ugn::{type_key, ugn_feed, ugn_fresh, ugn_state_moves, ugn_state_result};
use crate::game::{opt_view, tag_get, RawGame};
use crate::text::{chars_of, push_char, range_eq};

verus! {

/// The lowercase form of a string (`str::to_lowercase`).
pub uninterp spec fn lowercase(s: Seq<char>) -> Seq<char>;

/// `str::to_lowercase`.
#[verifier::external_body]
fn to_lowercase(s: &str) -> (res: String)
    ensures
        res@ == lowercase(s@),
{
    s.to_lowercase()
}

/// Appends the chars of `t` to `s`.
pub fn append_str(s: &mut String, t: &str)
    ensures
        final(s)@ == old(s)@ + t@,
{
    let cs = chars_of(t);
    let ghost start = s@;
    let mut i: usize = 0;
    while i < cs.len()
        invariant
            0 <= i <= cs@.len(),
            cs@ == t@,
            s@ == start + cs@.take(i as int),
        decreases cs@.len() - i,
    {
        push_char(s, cs[i]);
        assert(s@ =~= start + cs@.take(i + 1));
        i = i + 1;
    }
    assert(cs@.take(i as int) =~= cs@);
}

/// The UGN result token of a PGN result.
pub open spec fn ugn_result_token(result: Option<Seq<char>>) -> Seq<char> {
    if result == Some(seq!['1', '-', '0']) {
        seq!['1', '-', '0']
    } else if result == Some(seq!['0', '-', '1']) {
        seq!['0', '-', '1']
    } else if result == Some(seq!['1', '/', '2', '-', '1', '/', '2']) {
        seq!['1', '/', '2']
    } else {
        seq!['*']
    }
}

/// The words joined by single spaces.
pub open spec fn join_words(ws: Seq<Seq<char>>) -> Seq<char>
    decreases ws.len(),
{
    if ws.len() == 0 {
        seq![]
    } else if ws.len() == 1 {
        ws[0]
    } else {
        join_words(ws.drop_last()) + seq![' '] + ws.last()
    }
}

/// Move lines of ten moves each; the last one ends with the result token.
pub open spec fn move_lines(ms: Seq<Seq<char>>, rt: Seq<char>) -> Seq<char>
    decreases ms.len(),
{
    if ms.len() <= 10 {
        seq![' ', ' ', ':', ' '] + join_words(ms) + seq![' '] + rt + seq!['\n']
    } else {
        seq![' ', ' ', ':', ' '] + join_words(ms.take(10)) + seq!['\n'] + move_lines(
            ms.skip(10),
            rt,
        )
    }
}

/// `pre`, the value of tag `key`, `post`; or nothing when the tag is absent.
pub open spec fn tag_line(
    tags: Map<Seq<char>, Seq<char>>,
    key: Seq<char>,
    pre: Seq<char>,
    post: Seq<char>,
) -> Seq<char> {
    if tags.contains_key(key) {
        pre + tags[key] + post
    } else {
        seq![]
    }
}

/// A player line: `  @white "<name>"`, then ` @elo <rating>` unless the
/// rating is absent or `?`.
pub open spec fn player_line(
    tags: Map<Seq<char>, Seq<char>>,
    name_key: Seq<char>,
    elo_key: Seq<char>,
    pre: Seq<char>,
) -> Seq<char> {
    if tags.contains_key(name_key) {
        pre + tags[name_key] + "\""@ + (if tags.contains_key(elo_key) && tags[elo_key] != "?"@ {
            " @elo "@ + tags[elo_key]
        } else {
            seq![]
        }) + "\n"@
    } else {
        seq![]
    }
}

/// `s` with each `.` replaced by `-`.
pub open spec fn dots_to_dashes(s: Seq<char>) -> Seq<char> {
    s.map_values(|c: char| if c == '.' { '-' } else { c })
}

/// The date line: the PGN date with `-` for `.`.
pub open spec fn date_line(tags: Map<Seq<char>, Seq<char>>) -> Seq<char> {
    if tags.contains_key("Date"@) {
        "  @date "@ + dots_to_dashes(tags["Date"@]) + "\n"@
    } else {
        seq![]
    }
}

/// The time control line, unless the time control is `-` or `?`.
pub open spec fn time_line(tags: Map<Seq<char>, Seq<char>>) -> Seq<char> {
    if tags.contains_key("TimeControl"@) && tags["TimeControl"@] != "-"@ && tags["TimeControl"@]
        != "?"@ {
        "  @time "@ + tags["TimeControl"@] + "\n"@
    } else {
        seq![]
    }
}

/// The ECO line, unless the code is `?`.
pub open spec fn eco_line(tags: Map<Seq<char>, Seq<char>>) -> Seq<char> {
    if tags.contains_key("ECO"@) && tags["ECO"@] != "?"@ {
        "  @eco "@ + tags["ECO"@] + "\n"@
    } else {
        seq![]
    }
}

/// The termination line, in lowercase.
pub open spec fn termination_line(tags: Map<Seq<char>, Seq<char>>) -> Seq<char> {
    if tags.contains_key("Termination"@) {
        "  @termination "@ + lowercase(tags["Termination"@]) + "\n"@
    } else {
        seq![]
    }
}

/// The tag lines that a game's PGN tags map to.
pub open spec fn ugn_tag_lines(tags: Map<Seq<char>, Seq<char>>) -> Seq<char> {
    tag_line(tags, "Event"@, "  @event \""@, "\"\n"@) + date_line(tags) + player_line(
        tags,
        "White"@,
        "WhiteElo"@,
        "  @white \""@,
    ) + player_line(tags, "Black"@, "BlackElo"@, "  @black \""@) + time_line(tags) + eco_line(
        tags,
    ) + tag_line(tags, "Opening"@, "  @opening \""@, "\"\n"@) + termination_line(tags)
}

/// The UGN block of a game with these tags, UCI moves and result.
pub open spec fn ugn_text(
    tags: Map<Seq<char>, Seq<char>>,
    ucis: Seq<Seq<char>>,
    result: Option<Seq<char>>,
) -> Seq<char> {
    let rt = ugn_result_token(result);
    "@game chess\n"@ + ugn_tag_lines(tags) + "  @result "@ + rt + "\n"@ + move_lines(ucis, rt)
        + "\n"@
}

/// The UGN block of a PGN game: `None` when its moves do not replay or are
/// fewer than 4.
pub open spec fn game_to_ugn_spec(game: RawGame) -> Option<Seq<char>> {
    match replay(Seq::empty(), game.move_seq()) {
        None => None,
        Some(ms) => if ms.len() < 4 {
            None
        } else {
            Some(ugn_text(game.tag_map(), ms.map_values(|m: ChessMove| standard_uci_spec(m)), game.result_view()))
        },
    }
}


/// The value of tag `key`.
fn tag_value<'a>(game: &'a RawGame, key: &str) -> (res: Option<&'a String>)
    ensures
        match res {
            Some(v) => game.tag_map().contains_key(key@) && v@ == game.tag_map()[key@],
            None => !game.tag_map().contains_key(key@),
        },
{
    game.tags.get(key)
}

/// Whether `v` is the string `lit`.
fn is_str(v: &String, lit: &[char]) -> (res: bool)
    ensures
        res == (v@ == lit@),
{
    let cs = chars_of(v.as_str());
    assert(cs@.subrange(0, cs@.len() as int) =~= cs@);
    range_eq(&cs, 0, cs.len(), lit)
}

fn push_tag_line(out: &mut String, game: &RawGame, key: &str, pre: &str, post: &str)
    ensures
        final(out)@ == old(out)@ + tag_line(game.tag_map(), key@, pre@, post@),
{
    match tag_value(game, key) {
        Some(v) => {
            append_str(out, pre);
            append_str(out, v.as_str());
            append_str(out, post);
            assert(out@ =~= old(out)@ + tag_line(game.tag_map(), key@, pre@, post@));
        },
        None => {
            assert(out@ =~= old(out)@ + tag_line(game.tag_map(), key@, pre@, post@));
        },
    }
}

fn push_player_line(out: &mut String, game: &RawGame, name_key: &str, elo_key: &str, pre: &str)
    ensures
        final(out)@ == old(out)@ + player_line(game.tag_map(), name_key@, elo_key@, pre@),
{
    proof {
        reveal_strlit("?");
    }
    let q = ['?'];
    assert(q@ =~= "?"@);
    match tag_value(game, name_key) {
        Some(name) => {
            append_str(out, pre);
            append_str(out, name.as_str());
            append_str(out, "\"");
            let ghost mid = out@;
            match tag_value(game, elo_key) {
                Some(elo) => {
                    if !is_str(elo, &q) {
                        append_str(out, " @elo ");
                        append_str(out, elo.as_str());
                    }
                },
                None => {},
            }
            append_str(out, "\n");
            assert(out@ =~= old(out)@ + player_line(game.tag_map(), name_key@, elo_key@, pre@));
        },
        None => {
            assert(out@ =~= old(out)@ + player_line(game.tag_map(), name_key@, elo_key@, pre@));
        },
    }
}

/// Appends the words `ws[lo..hi]` joined by single spaces.
fn push_joined(out: &mut String, ws: &Vec<String>, lo: usize, hi: usize)
    requires
        lo < hi <= ws@.len(),
    ensures
        final(out)@ == old(out)@ + join_words(strings_view(ws@).subrange(lo as int, hi as int)),
{
    let ghost v = strings_view(ws@);
    proof {
        reveal_strlit(" ");
        assert(" "@ =~= seq![' ']);
    }
    append_str(out, ws[lo].as_str());
    assert(v.subrange(lo as int, lo + 1) =~= seq![v[lo as int]]);
    let mut k = lo + 1;
    while k < hi
        invariant
            lo < k <= hi <= ws@.len(),
            v == strings_view(ws@),
            " "@ == seq![' '],
            out@ == old(out)@ + join_words(v.subrange(lo as int, k as int)),
        decreases hi - k,
    {
        append_str(out, " ");
        append_str(out, ws[k].as_str());
        assert(v.subrange(lo as int, k + 1).drop_last() =~= v.subrange(lo as int, k as int));
        assert(v.subrange(lo as int, k + 1).last() == ws@[k as int]@);
        assert(out@ =~= old(out)@ + join_words(v.subrange(lo as int, k + 1)));
        k = k + 1;
    }
}

/// Appends the move lines of `ucis`, ten moves each, the last ending with `rt`.
fn push_move_lines(out: &mut String, ucis: &Vec<String>, rt: &str)
    requires
        ucis@.len() >= 1,
    ensures
        final(out)@ == old(out)@ + move_lines(strings_view(ucis@), rt@),
{
    let ghost v = strings_view(ucis@);
    let n = ucis.len();
    let mut pos: usize = 0;
    assert(v.skip(0) =~= v);
    while pos < n
        invariant
            pos <= n == ucis@.len(),
            v == strings_view(ucis@),
            pos < n ==> old(out)@ + move_lines(v, rt@) == out@ + move_lines(v.skip(pos as int), rt@),
            pos == n ==> out@ == old(out)@ + move_lines(v, rt@),
        decreases n - pos,
    {
        let ghost before = out@;
        let ghost rest = v.skip(pos as int);
        let end = if n - pos <= 10 { n } else { pos + 10 };
        append_str(out, "  : ");
        push_joined(out, ucis, pos, end);
        proof {
            reveal_strlit("  : ");
            reveal_strlit(" ");
            reveal_strlit("\n");
        }
        if end == n {
            append_str(out, " ");
            append_str(out, rt);
            append_str(out, "\n");
            assert(v.subrange(pos as int, end as int) =~= rest);
            assert(out@ =~= before + move_lines(rest, rt@));
        } else {
            append_str(out, "\n");
            assert(v.subrange(pos as int, end as int) =~= rest.take(10));
            assert(rest.skip(10) =~= v.skip(end as int));
            assert(out@ + move_lines(v.skip(end as int), rt@) =~= before + move_lines(rest, rt@));
        }
        pos = end;
    }
}

fn push_date_line(out: &mut String, game: &RawGame)
    ensures
        final(out)@ == old(out)@ + date_line(game.tag_map()),
{
    match tag_value(game, "Date") {
        Some(date) => {
            append_str(out, "  @date ");
            let cs = chars_of(date.as_str());
            let ghost start = out@;
            let mut k: usize = 0;
            while k < cs.len()
                invariant
                    0 <= k <= cs@.len(),
                    out@ == start + dots_to_dashes(cs@.take(k as int)),
                decreases cs@.len() - k,
            {
                let c = if cs[k] == '.' { '-' } else { cs[k] };
                push_char(out, c);
                assert(dots_to_dashes(cs@.take(k + 1)) =~= dots_to_dashes(cs@.take(k as int)).push(c));
                k = k + 1;
            }
            assert(cs@.take(k as int) =~= cs@);
            append_str(out, "\n");
            assert(out@ =~= old(out)@ + date_line(game.tag_map()));
        },
        None => {
            assert(out@ =~= old(out)@ + date_line(game.tag_map()));
        },
    }
}

fn push_time_line(out: &mut String, game: &RawGame)
    ensures
        final(out)@ == old(out)@ + time_line(game.tag_map()),
{
    let dash = ['-'];
    let q = ['?'];
    proof {
        reveal_strlit("-");
        reveal_strlit("?");
    }
    assert(dash@ =~= "-"@);
    assert(q@ =~= "?"@);
    match tag_value(game, "TimeControl") {
        Some(tc) => {
            if !is_str(tc, &dash) && !is_str(tc, &q) {
                append_str(out, "  @time ");
                append_str(out, tc.as_str());
                append_str(out, "\n");
            }
        },
        None => {},
    }
    assert(out@ =~= old(out)@ + time_line(game.tag_map()));
}

fn push_eco_line(out: &mut String, game: &RawGame)
    ensures
        final(out)@ == old(out)@ + eco_line(game.tag_map()),
{
    let q = ['?'];
    proof {
        reveal_strlit("?");
    }
    assert(q@ =~= "?"@);
    match tag_value(game, "ECO") {
        Some(eco) => {
            if !is_str(eco, &q) {
                append_str(out, "  @eco ");
                append_str(out, eco.as_str());
                append_str(out, "\n");
            }
        },
        None => {},
    }
    assert(out@ =~= old(out)@ + eco_line(game.tag_map()));
}

fn push_termination_line(out: &mut String, game: &RawGame)
    ensures
        final(out)@ == old(out)@ + termination_line(game.tag_map()),
{
    match tag_value(game, "Termination") {
        Some(term) => {
            append_str(out, "  @termination ");
            let low = to_lowercase(term.as_str());
            append_str(out, low.as_str());
            append_str(out, "\n");
        },
        None => {},
    }
    assert(out@ =~= old(out)@ + termination_line(game.tag_map()));
}

fn push_tag_lines(out: &mut String, game: &RawGame)
    ensures
        final(out)@ == old(out)@ + ugn_tag_lines(game.tag_map()),
{
    push_tag_line(out, game, "Event", "  @event \"", "\"\n");
    push_date_line(out, game);
    push_player_line(out, game, "White", "WhiteElo", "  @white \"");
    push_player_line(out, game, "Black", "BlackElo", "  @black \"");
    push_time_line(out, game);
    push_eco_line(out, game);
    push_tag_line(out, game, "Opening", "  @opening \"", "\"\n");
    push_termination_line(out, game);
    assert(out@ =~= old(out)@ + ugn_tag_lines(game.tag_map()));
}

/// The UCI texts of the moves that the game's SAN moves play, if they replay.
fn replay_ucis(game: &RawGame) -> (res: Option<Vec<String>>)
    ensures
        match replay(Seq::empty(), game.move_seq()) {
            None => res is None,
            Some(ms) => res matches Some(u) && strings_view(u@) == ms.map_values(
                |m: ChessMove| standard_uci_spec(m),
            ) && forall|k: int| 0 <= k < ms.len() ==> #[trigger] ms[k].well_formed(),
        },
{
    let sans = &game.moves;
    let ghost ss = game.move_seq();
    let mut board = ChessBoard::new();
    let mut ucis: Vec<String> = Vec::new();
    assert(ss.skip(0) =~= ss);
    proof {
        match replay(Seq::empty(), ss) {
            Some(r) => {
                assert(Seq::<ChessMove>::empty() + r =~= r);
            },
            None => {},
        }
    }
    let mut i: usize = 0;
    while i < sans.len()
        invariant
            0 <= i <= sans@.len(),
            ss == game.move_seq(),
            sans == &game.moves,
            board@.len() == i,
            replay(Seq::empty(), ss) == prefixed(board@, replay(board@, ss.skip(i as int))),
            strings_view(ucis@) == board@.map_values(|m: ChessMove| standard_uci_spec(m)),
            forall|k: int| 0 <= k < i ==> #[trigger] board@[k].well_formed(),
        decreases sans@.len() - i,
    {
        let ghost h = board@;
        let ghost rest = ss.skip(i as int);
        assert(rest[0] == ss[i as int]);
        assert(ss[i as int] == sans@[i as int]@);
        assert(rest.drop_first() =~= ss.skip(i + 1));
        let san = match parse_san(sans[i].as_str()) {
            Some(t) => t,
            None => return None,
        };
        let m = match resolve_san(&board, &san) {
            Some(m) => m,
            None => return None,
        };
        let uci = standard_uci(&m);
        if !board.play(&m) {
            return None;
        }
        let ghost old_ucis = ucis@;
        ucis.push(uci);
        proof {
            assert(board@ == h.push(m@));
            assert forall|k: int| 0 <= k < i + 1 implies #[trigger] board@[k].well_formed() by {
                if k < i {
                    assert(board@[k] == h[k]);
                }
            }
            assert(strings_view(ucis@) =~= strings_view(old_ucis).push(standard_uci_spec(m@)));
            assert(board@.map_values(|m: ChessMove| standard_uci_spec(m)) =~= h.map_values(
                |m: ChessMove| standard_uci_spec(m),
            ).push(standard_uci_spec(m@)));
            assert(strings_view(ucis@) =~= board@.map_values(|m: ChessMove| standard_uci_spec(m)));
            match replay(board@, ss.skip(i + 1)) {
                Some(r) => {
                    assert(h + (seq![m@] + r) =~= board@ + r);
                },
                None => {},
            }
        }
        i = i + 1;
    }
    assert(ss.skip(i as int) =~= Seq::<Seq<char>>::empty());
    assert(board@ + Seq::<ChessMove>::empty() =~= board@);
    Some(ucis)
}

/// The UGN block of a PGN game: `@game chess`, the tags it maps (event,
/// date with `-` for `.`, players with ratings, time control, ECO code,
/// opening, termination in lowercase, result), then the moves in UCI, ten per
/// line, the last line ending with the result token, and a blank line.
/// `None` when the moves do not replay or are fewer than 4. The text's lines,
/// fed to a fresh UGN parser, hand out no game and leave it holding one with
/// the UCI moves and the result read back (`1-0`, `0-1`, `1/2-1/2`; `*` for
/// any other), of type `chess` unless a value written holds `@_`, which
/// reads as a tag of its own.
pub fn game_to_ugn(game: &RawGame) -> (res: Option<String>)
    ensures
        opt_view(res) == game_to_ugn_spec(*game),
        res is Some ==> (replay(Seq::empty(), game.move_seq()) matches Some(ms) && forall|k: int|
            0 <= k < ms.len() ==> #[trigger] ms[k].well_formed()),
        res matches Some(text) ==> ({
            let ms = replay(Seq::empty(), game.move_seq())->0;
            let lines = ugn_lines(game.tag_map(), uci_texts(ms), game.result_view());
            &&& concat_lines(lines) == text@
            &&& ugn_quiet(ugn_fresh(), lines)
            &&& ugn_feed(ugn_fresh(), lines).found_game
            &&& ugn_state_moves(ugn_feed(ugn_fresh(), lines)) == uci_texts(ms)
            &&& ugn_state_result(ugn_feed(ugn_fresh(), lines)) == read_back_result(
                game.result_view(),
            )
            &&& converted_values_plain(game.tag_map()) ==> tag_get(
                ugn_feed(ugn_fresh(), lines).tags,
                type_key(),
            ) == Some(seq!['c', 'h', 'e', 's', 's'])
        }),
{
    let ucis = match replay_ucis(game) {
        Some(u) => u,
        None => return None,
    };
    let ghost us = strings_view(ucis@);
    if ucis.len() < 4 {
        return None;
    }
    let w = ['1', '-', '0'];
    let l = ['0', '-', '1'];
    let d = ['1', '/', '2', '-', '1', '/', '2'];
    assert(w@ =~= seq!['1', '-', '0']);
    assert(l@ =~= seq!['0', '-', '1']);
    assert(d@ =~= seq!['1', '/', '2', '-', '1', '/', '2']);
    let rt: &str = if crate::filter::result::result_is(&game.result, &w) {
        "1-0"
    } else if crate::filter::result::result_is(&game.result, &l) {
        "0-1"
    } else if crate::filter::result::result_is(&game.result, &d) {
        "1/2"
    } else {
        "*"
    };
    proof {
        reveal_strlit("1-0");
        reveal_strlit("0-1");
        reveal_strlit("1/2");
        reveal_strlit("*");
        assert(rt@ =~= ugn_result_token(game.result_view()));
    }
    let mut out = String::new();
    append_str(&mut out, "@game chess\n");
    push_tag_lines(&mut out, game);
    append_str(&mut out, "  @result ");
    append_str(&mut out, rt);
    append_str(&mut out, "\n");
    push_move_lines(&mut out, &ucis, rt);
    append_str(&mut out, "\n");
    assert(out@ =~= ugn_text(game.tag_map(), us, game.result_view()));
    proof {
        let ms = replay(Seq::empty(), game.move_seq())->0;
        assert(uci_texts(ms) =~= us);
        law_ugn_round_trip(game.tag_map(), ms, game.result_view());
    }
    Some(out)
}

} // verus!
