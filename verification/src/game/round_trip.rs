//! Laws of the UGN parser: the UGN lines of a converted game, fed to it, give
//! back the game's UCI moves and result; it hands out one game per block; and
//! inline tags only add or change tags named right after an `@`.

use vstd::prelude::*;

use crate::game::tag_get;
use crate::game::board::{role_char, square_name_spec, standard_uci_spec, ChessMove};
use crate::game::convert::{
    date_line, dots_to_dashes, eco_line, join_words, lowercase, move_lines, player_line, tag_line,
    termination_line, time_line, ugn_result_token, ugn_tag_lines, ugn_text,
};
use crate::game::ugn::{
    append_move_line, is_alpha, is_annotation, is_result_token_spec, move_len, starts_with_game,
    inline_tags_from, inline_tags_spec, is_block_result_token, is_compact, is_go_draw, normalize_result, strip_annotations_spec,
    true_value, strip_end_alpha, ugn_feed, ugn_fresh,
    ugn_moves_from, ugn_next, ugn_result_from, ugn_state_moves, ugn_state_result, ugn_yields,
    type_key, UgnState,
};
use crate::text::{
    index_of, is_ws, lemma_index_of, lemma_trim_end_prefix, lemma_trim_start_suffix, lemma_word_len,
    split_ws, trim, trim_end, trim_start, word_len,
};

verus! {

/// A non-empty run of non-whitespace chars.
pub open spec fn is_word(w: Seq<char>) -> bool {
    w.len() > 0 && forall|i: int| 0 <= i < w.len() ==> !is_ws(#[trigger] w[i])
}

proof fn lemma_word_len_of(w: Seq<char>, rest: Seq<char>)
    requires
        forall|i: int| 0 <= i < w.len() ==> !is_ws(#[trigger] w[i]),
        rest.len() == 0 || is_ws(rest[0]),
    ensures
        word_len(w + rest) == w.len(),
    decreases w.len(),
{
    if w.len() == 0 {
        assert(w + rest =~= rest);
    } else {
        let d = w.drop_first();
        assert forall|i: int| 0 <= i < d.len() implies !is_ws(#[trigger] d[i]) by {
            assert(d[i] == w[i + 1]);
        }
        lemma_word_len_of(d, rest);
        assert((w + rest).drop_first() =~= d + rest);
        assert((w + rest)[0] == w[0]);
    }
}

proof fn lemma_split_single(w: Seq<char>)
    requires
        is_word(w),
    ensures
        split_ws(w) == seq![w],
{
    assert(trim_start(w) == w);
    lemma_word_len_of(w, Seq::empty());
    assert(w + Seq::<char>::empty() =~= w);
    assert(w.take(w.len() as int) =~= w);
    assert(w.skip(w.len() as int) =~= Seq::<char>::empty());
    assert(trim_start(Seq::<char>::empty()).len() == 0);
    assert(split_ws(Seq::<char>::empty()) == Seq::<Seq<char>>::empty());
    assert(word_len(w) == w.len());
    assert(split_ws(w) =~= seq![w.take(word_len(w) as int)] + split_ws(w.skip(word_len(w) as int)));
    assert(seq![w] + Seq::<Seq<char>>::empty() =~= seq![w]);
}

proof fn lemma_split_cons(w: Seq<char>, rest: Seq<char>)
    requires
        is_word(w),
    ensures
        split_ws(w + seq![' '] + rest) == seq![w] + split_ws(rest),
{
    let s = w + seq![' '] + rest;
    assert(s[0] == w[0]);
    assert(trim_start(s) == s);
    assert(is_ws(' '));
    lemma_word_len_of(w, seq![' '] + rest);
    assert(s =~= w + (seq![' '] + rest));
    assert(s.take(w.len() as int) =~= w);
    let tail = seq![' '] + rest;
    assert(s.skip(w.len() as int) =~= tail);
    assert(tail.drop_first() =~= rest);
    assert(trim_start(tail) == trim_start(rest));
    assert(split_ws(tail) == split_ws(rest));
}

proof fn lemma_join_cons(ws: Seq<Seq<char>>)
    requires
        ws.len() >= 2,
    ensures
        join_words(ws) == ws[0] + seq![' '] + join_words(ws.drop_first()),
    decreases ws.len(),
{
    let d = ws.drop_first();
    if ws.len() == 2 {
        assert(ws.drop_last() =~= seq![ws[0]]);
        assert(d =~= seq![ws[1]]);
        assert(join_words(ws.drop_last()) == ws[0]);
        assert(join_words(d) == ws[1]);
        assert(ws.last() == ws[1]);
    } else {
        lemma_join_cons(ws.drop_last());
        assert(ws.drop_last().drop_first() =~= d.drop_last());
        assert(d.last() == ws.last());
        assert(join_words(ws) =~= ws[0] + seq![' '] + join_words(d));
    }
}

/// Joining two runs of words is joining each and putting a space between.
pub proof fn lemma_join_append(a: Seq<Seq<char>>, b: Seq<Seq<char>>)
    requires
        a.len() > 0,
        b.len() > 0,
    ensures
        join_words(a + b) == join_words(a) + seq![' '] + join_words(b),
    decreases b.len(),
{
    if b.len() == 1 {
        assert((a + b).drop_last() =~= a);
        assert((a + b).last() == b[0]);
    } else {
        lemma_join_append(a, b.drop_last());
        assert((a + b).drop_last() =~= a + b.drop_last());
        assert((a + b).last() == b.last());
        assert(join_words(a + b) =~= join_words(a) + seq![' '] + join_words(b));
    }
}

/// Splitting words joined by spaces gives the words back.
pub proof fn lemma_split_join(ws: Seq<Seq<char>>)
    requires
        forall|i: int| 0 <= i < ws.len() ==> is_word(#[trigger] ws[i]),
    ensures
        split_ws(join_words(ws)) == ws,
    decreases ws.len(),
{
    if ws.len() == 0 {
        assert(trim_start(Seq::<char>::empty()).len() == 0);
    } else if ws.len() == 1 {
        assert(is_word(ws[0]));
        lemma_split_single(ws[0]);
        assert(ws =~= seq![ws[0]]);
    } else {
        let d = ws.drop_first();
        assert forall|i: int| 0 <= i < d.len() implies is_word(#[trigger] d[i]) by {
            assert(d[i] == ws[i + 1]);
        }
        lemma_join_cons(ws);
        assert(is_word(ws[0]));
        lemma_split_cons(ws[0], join_words(d));
        lemma_split_join(d);
        assert(ws =~= seq![ws[0]] + d);
    }
}

/// A move word: non-empty, without whitespace or annotation marks, and not a
/// result token of any block.
pub open spec fn is_plain_move(u: Seq<char>) -> bool {
    &&& is_word(u)
    &&& forall|i: int| 0 <= i < u.len() ==> !is_annotation(#[trigger] u[i])
    &&& !is_result_token_spec(u)
    &&& !is_go_draw(u)
}

proof fn lemma_move_len_full(u: Seq<char>)
    requires
        forall|i: int| 0 <= i < u.len() ==> !is_annotation(#[trigger] u[i]),
    ensures
        move_len(u) == u.len(),
    decreases u.len(),
{
    if u.len() > 0 {
        let d = u.drop_first();
        assert forall|i: int| 0 <= i < d.len() implies !is_annotation(#[trigger] d[i]) by {
            assert(d[i] == u[i + 1]);
        }
        lemma_move_len_full(d);
    }
}

/// Plain moves followed by a result token read back as those moves, and the
/// result as that token.
pub proof fn lemma_moves_then_result(
    ucis: Seq<Seq<char>>,
    rt: Seq<char>,
    r: Option<Seq<char>>,
    go: bool,
)
    requires
        forall|i: int| 0 <= i < ucis.len() ==> is_plain_move(#[trigger] ucis[i]),
        is_result_token_spec(rt),
    ensures
        ugn_moves_from(ucis.push(rt), go) == ucis,
        ugn_result_from(ucis.push(rt), r, go) == Some(rt),
    decreases ucis.len(),
{
    let words = ucis.push(rt);
    if ucis.len() == 0 {
        assert(words.drop_first() =~= Seq::<Seq<char>>::empty());
        assert(words[0] == rt);
        assert(ugn_moves_from(words.drop_first(), go) == Seq::<Seq<char>>::empty());
        assert(ugn_moves_from(words, go) == ugn_moves_from(words.drop_first(), go));
        assert(ugn_result_from(words.drop_first(), Some(rt), go) == Some(rt));
        assert(ugn_result_from(words, r, go) == ugn_result_from(words.drop_first(), Some(rt), go));
        assert(ucis =~= Seq::<Seq<char>>::empty());
    } else {
        let d = ucis.drop_first();
        assert forall|i: int| 0 <= i < d.len() implies is_plain_move(#[trigger] d[i]) by {
            assert(d[i] == ucis[i + 1]);
        }
        lemma_moves_then_result(d, rt, r, go);
        assert(words.drop_first() =~= d.push(rt));
        assert(words[0] == ucis[0]);
        assert(is_plain_move(ucis[0]));
        lemma_move_len_full(ucis[0]);
        assert(strip_annotations_spec(ucis[0]) =~= ucis[0]);
        assert(!is_block_result_token(words[0], go));
        assert(ugn_moves_from(words, go) == seq![ucis[0]] + ugn_moves_from(d.push(rt), go));
        assert(ugn_result_from(words, r, go) == ugn_result_from(d.push(rt), r, go));
        assert(ucis =~= seq![ucis[0]] + d);
    }
}

proof fn lemma_square_chars(i: u32)
    requires
        i < 64,
    ensures
        square_name_spec(i).len() == 2,
        97 <= square_name_spec(i)[0] as u32 <= 104,
        49 <= square_name_spec(i)[1] as u32 <= 56,
{
    assert(i % 8 < 8);
    assert(i / 8 < 8);
}

/// Every UCI move text is a plain move word.
pub proof fn lemma_uci_plain(m: ChessMove)
    requires
        m.well_formed(),
    ensures
        is_plain_move(standard_uci_spec(m)),
{
    let u = standard_uci_spec(m);
    match m {
        ChessMove::Normal { from, to, promotion, .. } => {
            lemma_square_chars(from as u32);
            lemma_square_chars(to as u32);
            let base = square_name_spec(from as u32) + square_name_spec(to as u32);
            assert(strip_end_alpha(base) == base);
            match promotion {
                Some(r) => {
                    assert(u == base.push(role_char(r)));
                    assert(is_alpha(role_char(r)));
                    assert(u.drop_last() =~= base);
                },
                None => {
                    assert(u =~= base);
                },
            }
            assert(strip_end_alpha(u).len() == 4);
        },
        ChessMove::EnPassant { from, to } => {
            lemma_square_chars(from as u32);
            lemma_square_chars(to as u32);
            assert(strip_end_alpha(u) == u);
        },
        ChessMove::Castle { king, rook } => {
            lemma_square_chars(king as u32);
            let t: u32 = if king < rook {
                ((king / 8) * 8 + 6) as u32
            } else {
                ((king / 8) * 8 + 2) as u32
            };
            assert(t < 64);
            lemma_square_chars(t);
            assert(u == square_name_spec(king as u32) + square_name_spec(t));
            assert(strip_end_alpha(u) == u);
        },
        ChessMove::Put { role, to } => {
            lemma_square_chars(to as u32);
            assert(strip_end_alpha(u) == u);
        },
    }
    assert(u.len() >= 4);
}

/// Whether no line hands out a game, fed one after another from state `s`.
pub open spec fn ugn_quiet(s: UgnState, lines: Seq<Seq<char>>) -> bool
    decreases lines.len(),
{
    lines.len() == 0 || (!ugn_yields(s, lines[0]) && ugn_quiet(
        ugn_next(s, lines[0]),
        lines.drop_first(),
    ))
}

/// The lines, one after another.
pub open spec fn concat_lines(ls: Seq<Seq<char>>) -> Seq<char>
    decreases ls.len(),
{
    if ls.len() == 0 {
        Seq::empty()
    } else {
        ls[0] + concat_lines(ls.drop_first())
    }
}

pub proof fn lemma_feed_append(s: UgnState, a: Seq<Seq<char>>, b: Seq<Seq<char>>)
    ensures
        ugn_feed(s, a + b) == ugn_feed(ugn_feed(s, a), b),
        ugn_quiet(s, a + b) == (ugn_quiet(s, a) && ugn_quiet(ugn_feed(s, a), b)),
        concat_lines(a + b) == concat_lines(a) + concat_lines(b),
    decreases a.len(),
{
    if a.len() == 0 {
        assert(a + b =~= b);
        assert(concat_lines(a) + concat_lines(b) =~= concat_lines(b));
    } else {
        lemma_feed_append(ugn_next(s, a[0]), a.drop_first(), b);
        assert((a + b).drop_first() =~= a.drop_first() + b);
        assert((a + b)[0] == a[0]);
        assert(concat_lines(a + b) =~= concat_lines(a) + concat_lines(b));
    }
}

proof fn lemma_trim_end_keeps(s: Seq<char>, j: int)
    requires
        0 <= j < s.len(),
        !is_ws(s[j]),
    ensures
        j < trim_end(s).len(),
        trim_end(s)[j] == s[j],
    decreases s.len(),
{
    lemma_trim_end_prefix(s);
    if is_ws(s.last()) {
        lemma_trim_end_keeps(s.drop_last(), j);
    }
}

proof fn lemma_trim_plain(s: Seq<char>)
    requires
        s.len() > 0,
        !is_ws(s[0]),
        !is_ws(s.last()),
    ensures
        trim(s) == s,
{
    assert(trim_start(s) == s);
    assert(trim_end(s) == s);
}

/// A tag line as the converter writes it: two spaces, `@`, then a tag name
/// that does not start with `g`.
pub open spec fn tag_piece_ok(p: Seq<char>) -> bool {
    p.len() == 0 || (p.len() >= 4 && p[0] == ' ' && p[1] == ' ' && p[2] == '@' && !is_ws(p[3])
        && p[3] != 'g')
}

/// A piece of text as lines: none when it is empty, else itself.
pub open spec fn piece_lines(p: Seq<char>) -> Seq<Seq<char>> {
    if p.len() == 0 {
        Seq::empty()
    } else {
        seq![p]
    }
}

/// The tags after a tag line the converter writes (none when it is empty).
pub open spec fn piece_effect(p: Seq<char>, tags: Map<Seq<char>, Seq<char>>) -> Map<
    Seq<char>,
    Seq<char>,
> {
    if p.len() == 0 {
        tags
    } else {
        inline_tags_spec(trim(p), tags)
    }
}

/// The tags after the tag lines, one after another.
pub open spec fn pieces_effect(ps: Seq<Seq<char>>, tags: Map<Seq<char>, Seq<char>>) -> Map<
    Seq<char>,
    Seq<char>,
>
    decreases ps.len(),
{
    if ps.len() == 0 {
        tags
    } else {
        pieces_effect(ps.drop_first(), piece_effect(ps[0], tags))
    }
}

proof fn lemma_tag_piece(s: UgnState, p: Seq<char>)
    requires
        s.found_game,
        tag_piece_ok(p),
    ensures
        ugn_feed(s, piece_lines(p)).tags == piece_effect(p, s.tags),
        ugn_feed(s, piece_lines(p)).moves_text == s.moves_text,
        ugn_feed(s, piece_lines(p)).found_game,
        ugn_quiet(s, piece_lines(p)),
        concat_lines(piece_lines(p)) == p,
        no_type_tag(p) ==> tag_get(ugn_feed(s, piece_lines(p)).tags, type_key()) == tag_get(
            s.tags,
            type_key(),
        ),
{
    if p.len() > 0 {
        let ls = piece_lines(p);
        assert(ls.drop_first() =~= Seq::<Seq<char>>::empty());
        assert(ls[0] == p);
        assert(concat_lines(Seq::<Seq<char>>::empty()) == Seq::<char>::empty());
        assert(concat_lines(ls) =~= p);
        assert(is_ws(' '));
        assert(p.drop_first().drop_first() =~= p.skip(2));
        assert(trim_start(p.drop_first()) == trim_start(p.skip(2)));
        assert(trim_start(p) == p.skip(2));
        lemma_trim_end_keeps(p.skip(2), 1);
        lemma_trim_end_prefix(p.skip(2));
        let t = trim(p);
        assert(t[0] == '@');
        assert(t[1] == p[3]);
        assert(!starts_with_game(t));
        assert(!ugn_yields(s, p));
        assert(ugn_feed(s, ls) == ugn_feed(ugn_next(s, p), Seq::<Seq<char>>::empty()));
        assert(ugn_quiet(ugn_next(s, p), Seq::<Seq<char>>::empty()));
        assert(!is_compact(t));
        assert(ugn_next(s, p).tags == inline_tags_spec(t, s.tags));
        assert(ugn_feed(s, ls) == ugn_next(s, p));
        if no_type_tag(p) {
            assert(t == p.skip(2).take(t.len() as int));
            assert(t =~= p.subrange(2, 2 + t.len() as int));
            lemma_no_type_tag_sub(p, 2, 2 + t.len() as int);
            lemma_no_type_tag_word(t);
            law_inline_tags_only_after_at(t, s.tags);
        }
    }
}

/// The move lines the converter writes, ten moves to a line, the result
/// token at the end of the last.
pub open spec fn move_line_list(ms: Seq<Seq<char>>, rt: Seq<char>) -> Seq<Seq<char>>
    decreases ms.len(),
{
    if ms.len() <= 10 {
        seq![seq![' ', ' ', ':', ' '] + join_words(ms) + seq![' '] + rt + seq!['\n']]
    } else {
        seq![seq![' ', ' ', ':', ' '] + join_words(ms.take(10)) + seq!['\n']] + move_line_list(
            ms.skip(10),
            rt,
        )
    }
}

proof fn lemma_join_ends(ws: Seq<Seq<char>>)
    requires
        ws.len() > 0,
        forall|i: int| 0 <= i < ws.len() ==> is_word(#[trigger] ws[i]),
    ensures
        join_words(ws).len() > 0,
        !is_ws(join_words(ws)[0]),
        !is_ws(join_words(ws).last()),
    decreases ws.len(),
{
    assert(is_word(ws[0]));
    assert(is_word(ws.last()));
    assert(ws.last()[ws.last().len() - 1] == ws.last().last());
    if ws.len() > 1 {
        let d = ws.drop_last();
        assert forall|i: int| 0 <= i < d.len() implies is_word(#[trigger] d[i]) by {
            assert(d[i] == ws[i]);
        }
        lemma_join_ends(d);
    } else {
        assert(ws[0][0] == ws[0][0]);
    }
}

/// The text of a move line `  : x` as the parser reads it.
proof fn lemma_move_line(s: UgnState, x: Seq<char>)
    requires
        s.found_game,
        x.len() > 0,
        !is_ws(x[0]),
        !is_ws(x.last()),
    ensures
        ({
            let l = seq![' ', ' ', ':', ' '] + x + seq!['\n'];
            &&& !ugn_yields(s, l)
            &&& ugn_next(s, l).found_game
            &&& ugn_next(s, l).tags == s.tags
            &&& ugn_next(s, l).moves_text == append_move_line(s.moves_text, seq![':', ' '] + x)
            &&& trim(seq![':', ' '] + x).drop_first() == seq![' '] + x
            &&& trim(seq![' '] + x) == x
        }),
{
    let l = seq![' ', ' ', ':', ' '] + x + seq!['\n'];
    let c = seq![':', ' '] + x;
    assert(is_ws(' '));
    assert(is_ws('\n'));
    assert(l.drop_first().drop_first() =~= c + seq!['\n']);
    assert(!is_ws(':'));
    assert(trim_start(c + seq!['\n']) == c + seq!['\n']);
    assert(trim_start(l.drop_first()) == trim_start(c + seq!['\n']));
    assert(trim_start(l) == c + seq!['\n']);
    assert((c + seq!['\n']).drop_last() =~= c);
    assert(c.last() == x.last());
    assert(trim_end(c + seq!['\n']) == trim_end(c));
    lemma_trim_plain(c);
    assert(trim_end(c) == c);
    assert(trim(l) == c);
    assert(!starts_with_game(c));
    let sx = seq![' '] + x;
    assert(c.drop_first() =~= sx);
    assert(sx.drop_first() =~= x);
    assert(trim_start(sx) == trim_start(x));
    lemma_trim_plain(x);
    assert(trim_start(x) == x);
    assert(trim_end(x) == x);
    assert(trim(sx) == x);
}

/// Fed the move lines of `ms` and `rt` in an open block, a parser appends the
/// words of `ms` and `rt` to its move text and hands out no game.
proof fn lemma_feed_moves(s: UgnState, ms: Seq<Seq<char>>, rt: Seq<char>)
    requires
        s.found_game,
        ms.len() > 0,
        forall|i: int| 0 <= i < ms.len() ==> is_word(#[trigger] ms[i]),
        is_word(rt),
    ensures
        ugn_feed(s, move_line_list(ms, rt)).found_game,
        ugn_feed(s, move_line_list(ms, rt)).tags == s.tags,
        ugn_feed(s, move_line_list(ms, rt)).moves_text == (if s.moves_text.len() == 0 {
            join_words(ms.push(rt))
        } else {
            s.moves_text + seq![' '] + join_words(ms.push(rt))
        }),
        ugn_quiet(s, move_line_list(ms, rt)),
        concat_lines(move_line_list(ms, rt)) == move_lines(ms, rt),
    decreases ms.len(),
{
    let ls = move_line_list(ms, rt);
    lemma_join_append(ms, seq![rt]);
    assert(join_words(seq![rt]) == rt);
    assert(ms + seq![rt] =~= ms.push(rt));
    assert(rt[rt.len() - 1] == rt.last());
    if ms.len() <= 10 {
        let x = join_words(ms) + seq![' '] + rt;
        lemma_join_ends(ms);
        assert(x[0] == join_words(ms)[0]);
        assert(x.last() == rt.last());
        lemma_move_line(s, x);
        let l = seq![' ', ' ', ':', ' '] + x + seq!['\n'];
        assert(ls[0] =~= l);
        assert(ls.drop_first() =~= Seq::<Seq<char>>::empty());
        assert(ugn_quiet(ugn_next(s, l), Seq::<Seq<char>>::empty()));
        assert(ugn_feed(s, ls) == ugn_feed(ugn_next(s, l), Seq::<Seq<char>>::empty()));
        assert(ugn_feed(s, ls) == ugn_next(s, l));
        assert(x =~= join_words(ms.push(rt)));
        assert(concat_lines(Seq::<Seq<char>>::empty()) == Seq::<char>::empty());
        assert(concat_lines(ls) =~= move_lines(ms, rt));
    } else {
        let a = ms.take(10);
        let b = ms.skip(10);
        assert forall|i: int| 0 <= i < a.len() implies is_word(#[trigger] a[i]) by {
            assert(a[i] == ms[i]);
        }
        assert forall|i: int| 0 <= i < b.len() implies is_word(#[trigger] b[i]) by {
            assert(b[i] == ms[i + 10]);
        }
        let x = join_words(a);
        lemma_join_ends(a);
        lemma_move_line(s, x);
        let l = seq![' ', ' ', ':', ' '] + x + seq!['\n'];
        let s1 = ugn_next(s, l);
        assert(ls[0] =~= l);
        assert(ls.drop_first() =~= move_line_list(b, rt));
        lemma_feed_moves(s1, b, rt);
        assert(ugn_feed(s, ls) == ugn_feed(s1, move_line_list(b, rt)));
        assert(ugn_quiet(s, ls) == ugn_quiet(s1, move_line_list(b, rt)));
        assert(s1.moves_text == (if s.moves_text.len() == 0 { x } else { s.moves_text + seq![' '] + x }));
        lemma_join_append(a, b.push(rt));
        assert(a + b.push(rt) =~= ms.push(rt));
        let j = join_words(b.push(rt));
        assert(s1.moves_text + seq![' '] + j =~= (if s.moves_text.len() == 0 {
            join_words(ms.push(rt))
        } else {
            s.moves_text + seq![' '] + join_words(ms.push(rt))
        }));
        assert(concat_lines(ls) =~= move_lines(ms, rt));
    }
}

/// The pieces of text as lines, empty pieces left out.
pub open spec fn pieces_lines(ps: Seq<Seq<char>>) -> Seq<Seq<char>>
    decreases ps.len(),
{
    if ps.len() == 0 {
        Seq::empty()
    } else {
        piece_lines(ps[0]) + pieces_lines(ps.drop_first())
    }
}

proof fn lemma_tag_pieces(s: UgnState, ps: Seq<Seq<char>>)
    requires
        s.found_game,
        forall|i: int| 0 <= i < ps.len() ==> tag_piece_ok(#[trigger] ps[i]),
    ensures
        ugn_feed(s, pieces_lines(ps)).moves_text == s.moves_text,
        ugn_feed(s, pieces_lines(ps)).found_game,
        ugn_quiet(s, pieces_lines(ps)),
        concat_lines(pieces_lines(ps)) == concat_lines(ps),
        ugn_feed(s, pieces_lines(ps)).tags == pieces_effect(ps, s.tags),
        (forall|i: int| 0 <= i < ps.len() ==> no_type_tag(#[trigger] ps[i])) ==> tag_get(
            ugn_feed(s, pieces_lines(ps)).tags,
            type_key(),
        ) == tag_get(s.tags, type_key()),
    decreases ps.len(),
{
    if ps.len() > 0 {
        let d = ps.drop_first();
        assert(tag_piece_ok(ps[0]));
        lemma_tag_piece(s, ps[0]);
        let s1 = ugn_feed(s, piece_lines(ps[0]));
        assert forall|i: int| 0 <= i < d.len() implies tag_piece_ok(#[trigger] d[i]) by {
            assert(d[i] == ps[i + 1]);
        }
        lemma_tag_pieces(s1, d);
        lemma_feed_append(s, piece_lines(ps[0]), pieces_lines(d));
        if forall|i: int| 0 <= i < ps.len() ==> no_type_tag(#[trigger] ps[i]) {
            assert(no_type_tag(ps[0]));
            assert forall|i: int| 0 <= i < d.len() implies no_type_tag(#[trigger] d[i]) by {
                assert(d[i] == ps[i + 1]);
            }
        }
    }
}

/// The tag lines the converter writes for these tags and result token, the
/// `@result` line last.
pub open spec fn ugn_tag_pieces(tags: Map<Seq<char>, Seq<char>>, rt: Seq<char>) -> Seq<Seq<char>> {
    seq![
        tag_line(tags, "Event"@, "  @event \""@, "\"\n"@),
        date_line(tags),
        player_line(tags, "White"@, "WhiteElo"@, "  @white \""@),
        player_line(tags, "Black"@, "BlackElo"@, "  @black \""@),
        time_line(tags),
        eco_line(tags),
        tag_line(tags, "Opening"@, "  @opening \""@, "\"\n"@),
        termination_line(tags),
        "  @result "@ + rt + "\n"@,
    ]
}

/// The lines of the UGN block that the converter writes: the `@game` line,
/// the tag lines, the move lines, and a blank line.
pub open spec fn ugn_lines(
    tags: Map<Seq<char>, Seq<char>>,
    ucis: Seq<Seq<char>>,
    result: Option<Seq<char>>,
) -> Seq<Seq<char>> {
    let rt = ugn_result_token(result);
    seq!["@game chess\n"@] + pieces_lines(ugn_tag_pieces(tags, rt)) + move_line_list(ucis, rt)
        + seq!["\n"@]
}

proof fn lemma_tag_pieces_ok(tags: Map<Seq<char>, Seq<char>>, rt: Seq<char>)
    ensures
        forall|i: int|
            0 <= i < ugn_tag_pieces(tags, rt).len() ==> tag_piece_ok(
                #[trigger] ugn_tag_pieces(tags, rt)[i],
            ),
{
    let ps = ugn_tag_pieces(tags, rt);
    assert(tag_piece_ok(ps[0])) by { reveal_strlit("  @event \""); }
    assert(tag_piece_ok(ps[1])) by { reveal_strlit("  @date "); }
    assert(tag_piece_ok(ps[2])) by { reveal_strlit("  @white \""); }
    assert(tag_piece_ok(ps[3])) by { reveal_strlit("  @black \""); }
    assert(tag_piece_ok(ps[4])) by { reveal_strlit("  @time "); }
    assert(tag_piece_ok(ps[5])) by { reveal_strlit("  @eco "); }
    assert(tag_piece_ok(ps[6])) by { reveal_strlit("  @opening \""); }
    assert(tag_piece_ok(ps[7])) by { reveal_strlit("  @termination "); }
    assert(tag_piece_ok(ps[8])) by { reveal_strlit("  @result "); }
    assert forall|i: int| 0 <= i < ps.len() implies tag_piece_ok(#[trigger] ps[i]) by {
        if i == 0 {
        } else if i == 1 {
        } else if i == 2 {
        } else if i == 3 {
        } else if i == 4 {
        } else if i == 5 {
        } else if i == 6 {
        } else if i == 7 {
        } else {
        }
    }
}

proof fn lemma_concat_nine(
    p0: Seq<char>,
    p1: Seq<char>,
    p2: Seq<char>,
    p3: Seq<char>,
    p4: Seq<char>,
    p5: Seq<char>,
    p6: Seq<char>,
    p7: Seq<char>,
    p8: Seq<char>,
)
    ensures
        concat_lines(seq![p0, p1, p2, p3, p4, p5, p6, p7, p8]) == p0 + p1 + p2 + p3 + p4 + p5
            + p6 + p7 + p8,
{
    let ps = seq![p0, p1, p2, p3, p4, p5, p6, p7, p8];
    let e = Seq::<Seq<char>>::empty();
    let d1 = ps.drop_first();
    let d2 = d1.drop_first();
    let d3 = d2.drop_first();
    let d4 = d3.drop_first();
    let d5 = d4.drop_first();
    let d6 = d5.drop_first();
    let d7 = d6.drop_first();
    let d8 = d7.drop_first();
    assert(d8.drop_first() =~= e);
    assert(concat_lines(e) == Seq::<char>::empty());
    assert(concat_lines(d8) =~= p8);
    assert(concat_lines(d7) == p7 + concat_lines(d8));
    assert(concat_lines(d6) == p6 + concat_lines(d7));
    assert(concat_lines(d5) == p5 + concat_lines(d6));
    assert(concat_lines(d4) == p4 + concat_lines(d5));
    assert(concat_lines(d3) == p3 + concat_lines(d4));
    assert(concat_lines(d2) == p2 + concat_lines(d3));
    assert(concat_lines(d1) == p1 + concat_lines(d2));
    assert(concat_lines(ps) == p0 + concat_lines(d1));
    assert(concat_lines(ps) =~= p0 + p1 + p2 + p3 + p4 + p5 + p6 + p7 + p8);
}

proof fn lemma_tag_pieces_concat(tags: Map<Seq<char>, Seq<char>>, rt: Seq<char>)
    ensures
        concat_lines(ugn_tag_pieces(tags, rt)) == ugn_tag_lines(tags) + "  @result "@ + rt
            + "\n"@,
{
    let ps = ugn_tag_pieces(tags, rt);
    lemma_concat_nine(ps[0], ps[1], ps[2], ps[3], ps[4], ps[5], ps[6], ps[7], ps[8]);
    assert(ps =~= seq![ps[0], ps[1], ps[2], ps[3], ps[4], ps[5], ps[6], ps[7], ps[8]]);
    assert(concat_lines(ps) =~= ugn_tag_lines(tags) + "  @result "@ + rt + "\n"@);
}

/// The result a UGN parser reads back from a converted game: `1-0`, `0-1`
/// and `1/2-1/2` as they were, anything else as `*`.
pub open spec fn read_back_result(result: Option<Seq<char>>) -> Option<Seq<char>> {
    if result == Some(seq!['1', '-', '0']) || result == Some(seq!['0', '-', '1']) || result
        == Some(seq!['1', '/', '2', '-', '1', '/', '2']) {
        result
    } else {
        Some(seq!['*'])
    }
}

/// The UCI texts of moves.
pub open spec fn uci_texts(ms: Seq<ChessMove>) -> Seq<Seq<char>> {
    ms.map_values(|m: ChessMove| standard_uci_spec(m))
}

#[verifier::rlimit(50)]
proof fn lemma_converted_block(
    s0: UgnState,
    tags: Map<Seq<char>, Seq<char>>,
    ms: Seq<ChessMove>,
    result: Option<Seq<char>>,
)
    requires
        s0.found_game || s0.moves_text.len() == 0,
        ms.len() > 0,
        forall|i: int| 0 <= i < ms.len() ==> (#[trigger] ms[i]).well_formed(),
    ensures
        concat_lines(ugn_lines(tags, uci_texts(ms), result)) == ugn_text(
            tags,
            uci_texts(ms),
            result,
        ),
        ugn_lines(tags, uci_texts(ms), result).len() > 0,
        ugn_yields(s0, ugn_lines(tags, uci_texts(ms), result)[0]) == s0.found_game,
        ugn_quiet(
            ugn_next(s0, ugn_lines(tags, uci_texts(ms), result)[0]),
            ugn_lines(tags, uci_texts(ms), result).drop_first(),
        ),
        ugn_feed(s0, ugn_lines(tags, uci_texts(ms), result)).found_game,
        ugn_state_moves(ugn_feed(s0, ugn_lines(tags, uci_texts(ms), result))) == uci_texts(ms),
        ugn_state_result(ugn_feed(s0, ugn_lines(tags, uci_texts(ms), result)))
            == read_back_result(result),
        converted_values_plain(tags) ==> tag_get(
            ugn_feed(s0, ugn_lines(tags, uci_texts(ms), result)).tags,
            type_key(),
        ) == Some(seq!['c', 'h', 'e', 's', 's']),
        ugn_feed(s0, ugn_lines(tags, uci_texts(ms), result)).tags == pieces_effect(
            ugn_tag_pieces(tags, ugn_result_token(result)),
            (if s0.found_game {
                Map::<Seq<char>, Seq<char>>::empty()
            } else {
                s0.tags
            }).insert(type_key(), seq!['c', 'h', 'e', 's', 's']),
        ),
{
    let ucis = uci_texts(ms);
    let rt = ugn_result_token(result);
    assert forall|i: int| 0 <= i < ucis.len() implies is_plain_move(#[trigger] ucis[i]) by {
        lemma_uci_plain(ms[i]);
    }
    assert forall|i: int| 0 <= i < ucis.len() implies is_word(#[trigger] ucis[i]) by {
        assert(is_plain_move(ucis[i]));
    }
    // The result token.
    assert(strip_end_alpha(rt) == rt);
    assert(is_result_token_spec(rt));
    assert(is_word(rt));
    assert(normalize_result(rt) == read_back_result(result)->0);
    // The `@game` line opens the block.
    reveal_strlit("@game chess\n");
    reveal_strlit("\n");
    let g = "@game chess\n"@;
    assert(is_ws('\n'));
    assert(g.drop_last() =~= seq!['@', 'g', 'a', 'm', 'e', ' ', 'c', 'h', 'e', 's', 's']);
    assert(g.len() == 12 && g.last() == '\n');
    assert(!is_ws('s') && !is_ws('@'));
    assert(trim_end(g.drop_last()) == g.drop_last());
    assert(trim_end(g) == g.drop_last());
    assert(trim_start(g.drop_last()) == g.drop_last());
    assert(trim(g) == g.drop_last());
    assert(g.drop_last().take(5) =~= seq!['@', 'g', 'a', 'm', 'e']);
    assert(starts_with_game(trim(g)));
    let s1 = ugn_next(s0, g);
    assert(ugn_yields(s0, g) == s0.found_game);
    // It names the game type.
    let gt = g.drop_last();
    let chess = seq!['c', 'h', 'e', 's', 's'];
    assert(gt.skip(5) =~= seq![' '] + chess);
    assert(!starts_with_game(gt.skip(5)));
    assert(crate::game::ugn::strip_game_prefix(gt) == seq![' '] + chess) by {
        reveal_with_fuel(crate::game::ugn::strip_game_prefix, 2);
        assert(starts_with_game(gt));
        assert(crate::game::ugn::strip_game_prefix(gt.skip(5)) == gt.skip(5));
    }
    assert((seq![' '] + chess).drop_first() =~= chess);
    assert(trim_start(chess) == chess);
    assert(trim_start(seq![' '] + chess) == chess);
    assert(trim_end(chess) == chess);
    assert(trim(seq![' '] + chess) == chess);
    assert(crate::game::ugn::type_len(chess) == 5) by {
        reveal_with_fuel(crate::game::ugn::type_len, 6);
        assert(chess.drop_first() =~= seq!['h', 'e', 's', 's']);
        assert(chess.drop_first().drop_first() =~= seq!['e', 's', 's']);
        assert(chess.drop_first().drop_first().drop_first() =~= seq!['s', 's']);
        assert(chess.drop_first().drop_first().drop_first().drop_first() =~= seq!['s']);
        assert(chess.drop_first().drop_first().drop_first().drop_first().drop_first() =~= Seq::<char>::empty());
    }
    assert(chess.take(5) =~= chess);
    assert(chess.skip(5) =~= Seq::<char>::empty());
    assert(trim_start(Seq::<char>::empty()) == Seq::<char>::empty());
    assert(trim_end(Seq::<char>::empty()) == Seq::<char>::empty());
    assert(tag_get(s1.tags, type_key()) == Some(chess));
    assert(s1.tags == (if s0.found_game {
        Map::<Seq<char>, Seq<char>>::empty()
    } else {
        s0.tags
    }).insert(type_key(), chess));
    assert(s1.found_game && s1.moves_text.len() == 0);
    let gl = seq![g];
    assert(gl.drop_first() =~= Seq::<Seq<char>>::empty());
    assert(gl[0] == g);
    assert(ugn_feed(s1, Seq::<Seq<char>>::empty()) == s1);
    assert(ugn_feed(s0, gl) == s1);
    assert(concat_lines(gl) == gl[0] + concat_lines(gl.drop_first()));
    assert(concat_lines(Seq::<Seq<char>>::empty()) == Seq::<char>::empty());
    assert(concat_lines(gl) =~= g);
    // The tag lines leave the move text alone.
    let ps = ugn_tag_pieces(tags, rt);
    lemma_tag_pieces_ok(tags, rt);
    lemma_tag_pieces_concat(tags, rt);
    lemma_tag_pieces(s1, ps);
    let tl = pieces_lines(ps);
    let s2 = ugn_feed(s1, tl);
    // The move lines.
    lemma_feed_moves(s2, ucis, rt);
    let ml = move_line_list(ucis, rt);
    let s3 = ugn_feed(s2, ml);
    assert(s3.moves_text == join_words(ucis.push(rt)));
    // The closing blank line changes nothing.
    let bl = seq!["\n"@];
    assert("\n"@ =~= seq!['\n']);
    assert("\n"@.drop_last() =~= Seq::<char>::empty());
    assert(trim_end(Seq::<char>::empty()) == Seq::<char>::empty());
    assert(trim_end("\n"@) == Seq::<char>::empty());
    assert("\n"@.drop_first() =~= Seq::<char>::empty());
    assert("\n"@[0] == '\n');
    assert(trim_start(Seq::<char>::empty()) == Seq::<char>::empty());
    assert(trim_start("\n"@) == trim_start("\n"@.drop_first()));
    assert(trim_start("\n"@) == Seq::<char>::empty());
    assert(trim("\n"@).len() == 0);
    assert(bl.drop_first() =~= Seq::<Seq<char>>::empty());
    assert(bl[0] == "\n"@);
    assert(ugn_next(s3, "\n"@) == s3);
    assert(ugn_feed(s3, Seq::<Seq<char>>::empty()) == s3);
    assert(ugn_feed(s3, bl) == s3);
    assert(ugn_quiet(ugn_next(s3, "\n"@), Seq::<Seq<char>>::empty()));
    assert(ugn_quiet(s3, bl));
    assert(concat_lines(bl) == bl[0] + concat_lines(bl.drop_first()));
    assert(concat_lines(bl) =~= "\n"@);
    // Putting the parts together.
    lemma_feed_append(s0, gl, tl);
    lemma_feed_append(s0, gl + tl, ml);
    lemma_feed_append(s0, gl + tl + ml, bl);
    let lines = ugn_lines(tags, ucis, result);
    assert(lines == gl + tl + ml + bl);
    assert(ugn_feed(s0, lines) == s3);
    assert(lines[0] == g);
    assert(lines.drop_first() =~= tl + ml + bl);
    lemma_feed_append(s1, tl, ml);
    lemma_feed_append(s1, tl + ml, bl);
    assert(concat_lines(lines) =~= ugn_text(tags, ucis, result));
    // What the block reads as.
    assert forall|i: int| 0 <= i < ucis.push(rt).len() implies is_word(#[trigger] ucis.push(rt)[i]) by {
        if i < ucis.len() {
            assert(ucis.push(rt)[i] == ucis[i]);
        }
    }
    lemma_split_join(ucis.push(rt));
    lemma_moves_then_result(
        ucis,
        rt,
        crate::game::tag_get(s3.tags, crate::game::ugn::ugn_result_key()),
        crate::game::ugn::is_go_block(s3.tags),
    );
    if converted_values_plain(tags) {
        lemma_tag_pieces_no_type_tag(tags, result);
        assert(tag_get(s2.tags, type_key()) == tag_get(s1.tags, type_key()));
    }
}

/// Reading back a converted game: the lines of the UGN block that the
/// converter writes for a game with these tags, moves and result make up its
/// text; fed one by one to a fresh UGN parser, none of them hands out a game,
/// and the block the parser then holds has the game's UCI moves and its result
/// (`1-0`, `0-1`, `1/2-1/2`; `*` for any other); its game type is `chess`
/// when no value written holds an `@` directly followed by `_`.
pub proof fn law_ugn_round_trip(
    tags: Map<Seq<char>, Seq<char>>,
    ms: Seq<ChessMove>,
    result: Option<Seq<char>>,
)
    requires
        ms.len() > 0,
        forall|i: int| 0 <= i < ms.len() ==> (#[trigger] ms[i]).well_formed(),
    ensures
        concat_lines(ugn_lines(tags, uci_texts(ms), result)) == ugn_text(
            tags,
            uci_texts(ms),
            result,
        ),
        ugn_quiet(ugn_fresh(), ugn_lines(tags, uci_texts(ms), result)),
        ugn_feed(ugn_fresh(), ugn_lines(tags, uci_texts(ms), result)).found_game,
        ugn_state_moves(ugn_feed(ugn_fresh(), ugn_lines(tags, uci_texts(ms), result)))
            == uci_texts(ms),
        ugn_state_result(ugn_feed(ugn_fresh(), ugn_lines(tags, uci_texts(ms), result)))
            == read_back_result(result),
        converted_values_plain(tags) ==> tag_get(
            ugn_feed(ugn_fresh(), ugn_lines(tags, uci_texts(ms), result)).tags,
            type_key(),
        ) == Some(seq!['c', 'h', 'e', 's', 's']),
{
    lemma_converted_block(ugn_fresh(), tags, ms, result);
}

/// No newline in `s`.
pub open spec fn no_newline(s: Seq<char>) -> bool {
    forall|i: int| 0 <= i < s.len() ==> #[trigger] s[i] != '\n'
}

/// A line as `read_line` hands it out: a newline at its end and nowhere else.
pub open spec fn is_text_line(l: Seq<char>) -> bool {
    l.len() > 0 && l.last() == '\n' && no_newline(l.drop_last())
}

/// No tag value that the converter writes holds a newline.
pub open spec fn tags_single_line(tags: Map<Seq<char>, Seq<char>>) -> bool {
    &&& forall|k: Seq<char>| #[trigger] tags.contains_key(k) ==> no_newline(tags[k])
    &&& tags.contains_key("Termination"@) ==> no_newline(lowercase(tags["Termination"@]))
}

proof fn lemma_join_no_newline(ws: Seq<Seq<char>>)
    requires
        forall|i: int| 0 <= i < ws.len() ==> is_word(#[trigger] ws[i]),
    ensures
        no_newline(join_words(ws)),
    decreases ws.len(),
{
    assert(is_ws('\n'));
    if ws.len() > 0 {
        assert(is_word(ws.last()));
        assert(no_newline(ws.last()));
    }
    if ws.len() > 1 {
        let d = ws.drop_last();
        assert forall|i: int| 0 <= i < d.len() implies is_word(#[trigger] d[i]) by {
            assert(d[i] == ws[i]);
        }
        lemma_join_no_newline(d);
    }
}

proof fn lemma_move_lines_single(ms: Seq<Seq<char>>, rt: Seq<char>)
    requires
        forall|i: int| 0 <= i < ms.len() ==> is_word(#[trigger] ms[i]),
        is_word(rt),
    ensures
        forall|i: int| 0 <= i < move_line_list(ms, rt).len() ==> is_text_line(
            #[trigger] move_line_list(ms, rt)[i],
        ),
    decreases ms.len(),
{
    assert(is_ws('\n'));
    assert(no_newline(rt));
    let ls = move_line_list(ms, rt);
    if ms.len() <= 10 {
        lemma_join_no_newline(ms);
        let l = seq![' ', ' ', ':', ' '] + join_words(ms) + seq![' '] + rt + seq!['\n'];
        assert(l.drop_last() =~= seq![' ', ' ', ':', ' '] + join_words(ms) + seq![' '] + rt);
        assert(is_text_line(l));
        assert(ls[0] == l);
    } else {
        let a = ms.take(10);
        let b = ms.skip(10);
        assert forall|i: int| 0 <= i < a.len() implies is_word(#[trigger] a[i]) by {
            assert(a[i] == ms[i]);
        }
        assert forall|i: int| 0 <= i < b.len() implies is_word(#[trigger] b[i]) by {
            assert(b[i] == ms[i + 10]);
        }
        lemma_join_no_newline(a);
        lemma_move_lines_single(b, rt);
        let l = seq![' ', ' ', ':', ' '] + join_words(a) + seq!['\n'];
        assert(l.drop_last() =~= seq![' ', ' ', ':', ' '] + join_words(a));
        assert(is_text_line(l));
        assert forall|i: int| 0 <= i < ls.len() implies is_text_line(#[trigger] ls[i]) by {
            if i == 0 {
                assert(ls[0] == l);
            } else {
                assert(ls[i] == move_line_list(b, rt)[i - 1]);
            }
        }
    }
}

/// `pre`, a value and `post` form one text line.
proof fn lemma_piece_line(pre: Seq<char>, v: Seq<char>, post: Seq<char>)
    requires
        no_newline(pre),
        no_newline(v),
        post.len() > 0,
        post.last() == '\n',
        no_newline(post.drop_last()),
    ensures
        is_text_line(pre + v + post),
{
    let l = pre + v + post;
    assert(l.drop_last() =~= pre + v + post.drop_last());
    assert(l.last() == post.last());
}

proof fn lemma_tag_pieces_single(tags: Map<Seq<char>, Seq<char>>, rt: Seq<char>)
    requires
        tags_single_line(tags),
        no_newline(rt),
    ensures
        forall|i: int|
            0 <= i < ugn_tag_pieces(tags, rt).len() && ugn_tag_pieces(tags, rt)[i].len() > 0
                ==> is_text_line(#[trigger] ugn_tag_pieces(tags, rt)[i]),
{
    let ps = ugn_tag_pieces(tags, rt);
    let nl = "\n"@;
    let qnl = "\"\n"@;
    let q = "\""@;
    assert(nl.len() == 1 && nl.last() == '\n' && no_newline(nl.drop_last())) by {
        reveal_strlit("\n");
    }
    assert(qnl.len() == 2 && qnl.last() == '\n' && no_newline(qnl.drop_last())) by {
        reveal_strlit("\"\n");
    }
    assert(no_newline(q)) by {
        reveal_strlit("\"");
    }
    assert(ps[0].len() > 0 ==> is_text_line(ps[0])) by {
        reveal_strlit("  @event \"");
        if ps[0].len() > 0 {
            lemma_piece_line("  @event \""@, tags["Event"@], qnl);
        }
    }
    assert(ps[1].len() > 0 ==> is_text_line(ps[1])) by {
        reveal_strlit("  @date ");
        if ps[1].len() > 0 {
            let d = dots_to_dashes(tags["Date"@]);
            assert(no_newline(tags["Date"@]));
            assert(no_newline(d));
            lemma_piece_line("  @date "@, d, nl);
        }
    }
    assert forall|j: int| 2 <= j < 4 && ps[j].len() > 0 implies is_text_line(#[trigger] ps[j]) by {
        reveal_strlit("  @white \"");
        reveal_strlit("  @black \"");
        reveal_strlit(" @elo ");
        reveal_strlit("?");
        let (name_key, elo_key, pre) = if j == 2 {
            ("White"@, "WhiteElo"@, "  @white \""@)
        } else {
            ("Black"@, "BlackElo"@, "  @black \""@)
        };
        assert(ps[j] == player_line(tags, name_key, elo_key, pre));
        let elo = if tags.contains_key(elo_key) && tags[elo_key] != "?"@ {
            " @elo "@ + tags[elo_key]
        } else {
            Seq::<char>::empty()
        };
        assert(no_newline(elo));
        assert(no_newline(tags[name_key] + q + elo));
        lemma_piece_line(pre, tags[name_key] + q + elo, nl);
        assert(ps[j] =~= pre + (tags[name_key] + q + elo) + nl);
    }
    assert(ps[4].len() > 0 ==> is_text_line(ps[4])) by {
        reveal_strlit("  @time ");
        if ps[4].len() > 0 {
            lemma_piece_line("  @time "@, tags["TimeControl"@], nl);
        }
    }
    assert(ps[5].len() > 0 ==> is_text_line(ps[5])) by {
        reveal_strlit("  @eco ");
        if ps[5].len() > 0 {
            lemma_piece_line("  @eco "@, tags["ECO"@], nl);
        }
    }
    assert(ps[6].len() > 0 ==> is_text_line(ps[6])) by {
        reveal_strlit("  @opening \"");
        if ps[6].len() > 0 {
            lemma_piece_line("  @opening \""@, tags["Opening"@], qnl);
        }
    }
    assert(ps[7].len() > 0 ==> is_text_line(ps[7])) by {
        reveal_strlit("  @termination ");
        if ps[7].len() > 0 {
            lemma_piece_line("  @termination "@, lowercase(tags["Termination"@]), nl);
        }
    }
    assert(is_text_line(ps[8])) by {
        reveal_strlit("  @result ");
        lemma_piece_line("  @result "@, rt, nl);
    }
    assert forall|i: int| 0 <= i < ps.len() && ps[i].len() > 0 implies is_text_line(#[trigger] ps[i]) by {
        if i == 0 {
        } else if i == 1 {
        } else if i == 2 || i == 3 {
        } else if i == 4 {
        } else if i == 5 {
        } else if i == 6 {
        } else if i == 7 {
        } else {
        }
    }
}

/// Every one of the lines is a text line.
pub open spec fn all_text_lines(ls: Seq<Seq<char>>) -> bool {
    forall|i: int| 0 <= i < ls.len() ==> is_text_line(#[trigger] ls[i])
}

proof fn lemma_all_text_lines_append(a: Seq<Seq<char>>, b: Seq<Seq<char>>)
    requires
        all_text_lines(a),
        all_text_lines(b),
    ensures
        all_text_lines(a + b),
{
    assert forall|i: int| 0 <= i < (a + b).len() implies is_text_line(#[trigger] (a + b)[i]) by {
        if i < a.len() {
            assert((a + b)[i] == a[i]);
        } else {
            assert((a + b)[i] == b[i - a.len()]);
        }
    }
}

proof fn lemma_pieces_lines_single(ps: Seq<Seq<char>>)
    requires
        forall|i: int| 0 <= i < ps.len() && ps[i].len() > 0 ==> is_text_line(#[trigger] ps[i]),
    ensures
        all_text_lines(pieces_lines(ps)),
    decreases ps.len(),
{
    if ps.len() > 0 {
        let d = ps.drop_first();
        assert forall|i: int| 0 <= i < d.len() && d[i].len() > 0 implies is_text_line(#[trigger] d[i]) by {
            assert(d[i] == ps[i + 1]);
        }
        lemma_pieces_lines_single(d);
        if ps[0].len() > 0 {
            assert(is_text_line(ps[0]));
            assert(all_text_lines(piece_lines(ps[0])));
        } else {
            assert(piece_lines(ps[0]) =~= Seq::<Seq<char>>::empty());
        }
        lemma_all_text_lines_append(piece_lines(ps[0]), pieces_lines(d));
    }
}

/// The lines of a converted game's UGN block are its text's lines as a
/// line reader hands them out (each ends with its only newline), unless a
/// tag value holds a newline.
pub proof fn law_ugn_lines_are_text_lines(
    tags: Map<Seq<char>, Seq<char>>,
    ms: Seq<ChessMove>,
    result: Option<Seq<char>>,
)
    requires
        ms.len() > 0,
        forall|i: int| 0 <= i < ms.len() ==> (#[trigger] ms[i]).well_formed(),
        tags_single_line(tags),
    ensures
        all_text_lines(ugn_lines(tags, uci_texts(ms), result)),
{
    let ucis = uci_texts(ms);
    let rt = ugn_result_token(result);
    assert forall|i: int| 0 <= i < ucis.len() implies is_word(#[trigger] ucis[i]) by {
        lemma_uci_plain(ms[i]);
    }
    assert(is_word(rt));
    assert(is_ws('\n'));
    assert(no_newline(rt));
    lemma_tag_pieces_single(tags, rt);
    lemma_pieces_lines_single(ugn_tag_pieces(tags, rt));
    lemma_move_lines_single(ucis, rt);
    let g = "@game chess\n"@;
    assert(is_text_line(g)) by {
        reveal_strlit("@game chess\n");
        assert(g.drop_last() =~= seq!['@', 'g', 'a', 'm', 'e', ' ', 'c', 'h', 'e', 's', 's']);
    }
    assert(is_text_line("\n"@)) by {
        reveal_strlit("\n");
        assert("\n"@.drop_last() =~= Seq::<char>::empty());
    }
    let gl = seq![g];
    let bl = seq!["\n"@];
    assert(all_text_lines(gl));
    assert(all_text_lines(bl));
    let tl = pieces_lines(ugn_tag_pieces(tags, rt));
    let ml = move_line_list(ucis, rt);
    lemma_all_text_lines_append(gl, tl);
    lemma_all_text_lines_append(gl + tl, ml);
    lemma_all_text_lines_append(gl + tl + ml, bl);
}

/// Whether a line opens a block: a `@game` line or a compact line.
pub open spec fn ugn_opens(line: Seq<char>) -> bool {
    let t = trim(line);
    t.len() > 0 && t[0] != '#' && (starts_with_game(t) || is_compact(t))
}

/// How many of the lines open a block.
pub open spec fn ugn_block_count(lines: Seq<Seq<char>>) -> nat
    decreases lines.len(),
{
    if lines.len() == 0 {
        0
    } else {
        (if ugn_opens(lines[0]) { 1nat } else { 0nat }) + ugn_block_count(lines.drop_first())
    }
}

/// How many games the lines hand out, fed one after another from state `s`.
pub open spec fn ugn_yield_count(s: UgnState, lines: Seq<Seq<char>>) -> nat
    decreases lines.len(),
{
    if lines.len() == 0 {
        0
    } else {
        (if ugn_yields(s, lines[0]) { 1nat } else { 0nat }) + ugn_yield_count(
            ugn_next(s, lines[0]),
            lines.drop_first(),
        )
    }
}

/// One game per block: fed to a fresh UGN parser, the lines hand out one game
/// for each line that opens a block but the last, and the last block is
/// still held (for `finish` to hand out) exactly when some line opened one.
pub proof fn law_ugn_one_game_per_block(lines: Seq<Seq<char>>)
    ensures
        ugn_yield_count(ugn_fresh(), lines) + (if ugn_feed(ugn_fresh(), lines).found_game {
            1int
        } else {
            0int
        }) == ugn_block_count(lines),
        ugn_feed(ugn_fresh(), lines).found_game <==> ugn_block_count(lines) > 0,
{
    lemma_yield_count(ugn_fresh(), lines);
}

proof fn lemma_yield_count(s: UgnState, lines: Seq<Seq<char>>)
    ensures
        ugn_yield_count(s, lines) + (if ugn_feed(s, lines).found_game { 1int } else { 0int }) == (
        if s.found_game {
            1int
        } else {
            0int
        }) + ugn_block_count(lines),
        ugn_feed(s, lines).found_game <==> (s.found_game || ugn_block_count(lines) > 0),
    decreases lines.len(),
{
    if lines.len() > 0 {
        lemma_yield_count(ugn_next(s, lines[0]), lines.drop_first());
    }
}

/// `k` is the word right after some `@` of `s`.
pub open spec fn word_after_at(s: Seq<char>, k: Seq<char>) -> bool {
    exists|i: int|
        0 <= i < s.len() && s[i] == '@' && #[trigger] s.skip(i + 1).take(
            word_len(s.skip(i + 1)) as int,
        ) == k
}

proof fn lemma_word_after_at_suffix(s: Seq<char>, j: int, k: Seq<char>)
    requires
        0 <= j <= s.len(),
        word_after_at(s.skip(j), k),
    ensures
        word_after_at(s, k),
{
    let t = s.skip(j);
    let i = choose|i: int|
        0 <= i < t.len() && t[i] == '@' && #[trigger] t.skip(i + 1).take(
            word_len(t.skip(i + 1)) as int,
        ) == k;
    assert(t.skip(i + 1) =~= s.skip(i + j + 1));
    assert(s[i + j] == '@');
    assert(s.skip(i + j + 1).take(word_len(s.skip(i + j + 1)) as int) == k);
}

proof fn lemma_word_len_prefix(y: Seq<char>, m: int)
    requires
        0 <= m <= y.len(),
        forall|j: int| m <= j < y.len() ==> is_ws(#[trigger] y[j]),
    ensures
        word_len(y.take(m)) == word_len(y),
    decreases m,
{
    if m == 0 {
        assert(y.take(0).len() == 0);
        if y.len() > 0 {
            assert(is_ws(y[0]));
        }
    } else if !is_ws(y[0]) {
        let d = y.drop_first();
        assert forall|j: int| m - 1 <= j < d.len() implies is_ws(#[trigger] d[j]) by {
            assert(d[j] == y[j + 1]);
        }
        lemma_word_len_prefix(d, m - 1);
        assert(y.take(m).drop_first() =~= d.take(m - 1));
        assert(y.take(m)[0] == y[0]);
    } else {
        assert(y.take(m)[0] == y[0]);
    }
}

proof fn lemma_word_after_at_prefix(x: Seq<char>, m: int, k: Seq<char>)
    requires
        0 <= m <= x.len(),
        forall|j: int| m <= j < x.len() ==> is_ws(#[trigger] x[j]),
        word_after_at(x.take(m), k),
    ensures
        word_after_at(x, k),
{
    let p = x.take(m);
    let i = choose|i: int|
        0 <= i < p.len() && p[i] == '@' && #[trigger] p.skip(i + 1).take(
            word_len(p.skip(i + 1)) as int,
        ) == k;
    let y = x.skip(i + 1);
    assert(p.skip(i + 1) =~= y.take(m - i - 1));
    assert forall|j: int| m - i - 1 <= j < y.len() implies is_ws(#[trigger] y[j]) by {
        assert(y[j] == x[j + i + 1]);
    }
    lemma_word_len_prefix(y, m - i - 1);
    lemma_word_len(y);
    lemma_word_len(y.take(m - i - 1));
    assert(y.take(m - i - 1).take(word_len(y) as int) =~= y.take(word_len(y) as int));
    assert(x[i] == '@');
}

proof fn lemma_trim_end_rest(s: Seq<char>)
    ensures
        forall|j: int| trim_end(s).len() <= j < s.len() ==> is_ws(#[trigger] s[j]),
    decreases s.len(),
{
    lemma_trim_end_prefix(s);
    if s.len() > 0 && is_ws(s.last()) {
        lemma_trim_end_rest(s.drop_last());
        assert forall|j: int| trim_end(s).len() <= j < s.len() implies is_ws(#[trigger] s[j]) by {
            if j < s.len() - 1 {
                assert(s[j] == s.drop_last()[j]);
            }
        }
    }
}

proof fn lemma_inline_tags_changes(rest: Seq<char>, tags: Map<Seq<char>, Seq<char>>)
    ensures
        forall|k: Seq<char>|
            tags.contains_key(k) ==> #[trigger] inline_tags_from(rest, tags).contains_key(k),
        forall|k: Seq<char>|
            #[trigger] inline_tags_from(rest, tags).contains_key(k) && !(tags.contains_key(k)
                && tags[k] == inline_tags_from(rest, tags)[k]) ==> word_after_at(rest, k),
    decreases rest.len(),
{
    lemma_index_of(rest, '@');
    match index_of(rest, '@') {
        None => {},
        Some(at) => {
            let r1 = rest.skip(at + 1);
            let name = r1.take(word_len(r1) as int);
            assert(word_after_at(rest, name)) by {
                assert(rest.skip(at + 1).take(word_len(rest.skip(at + 1)) as int) == name);
            }
            lemma_word_len(r1);
            let w = word_len(r1) as int;
            lemma_trim_start_suffix(r1.skip(w));
            let r2 = trim_start(r1.skip(w));
            let j2 = at + 1 + w + (r1.skip(w).len() - r2.len());
            assert(r2 =~= rest.skip(j2));
            if r2.len() == 0 || r2[0] == '@' {
                let t1 = tags.insert(name, true_value());
                lemma_inline_tags_changes(r2, t1);
                assert(inline_tags_from(rest, tags) == inline_tags_from(r2, t1));
                assert forall|k: Seq<char>| #[trigger] inline_tags_from(rest, tags).contains_key(k)
                    && !(tags.contains_key(k) && tags[k] == inline_tags_from(rest, tags)[k])
                    implies word_after_at(rest, k) by {
                    if k != name {
                        lemma_word_after_at_suffix(rest, j2, k);
                    }
                }
            } else if r2[0] == '"' {
                let after = r2.drop_first();
                lemma_index_of(after, '"');
                match index_of(after, '"') {
                    Some(close) => {
                        lemma_trim_start_suffix(after.skip(close + 1));
                        let r3 = trim_start(after.skip(close + 1));
                        let j3 = j2 + 1 + close + 1 + (after.skip(close + 1).len() - r3.len());
                        assert(r3 =~= rest.skip(j3));
                        let t1 = tags.insert(name, after.take(close));
                        lemma_inline_tags_changes(r3, t1);
                        assert(inline_tags_from(rest, tags) == inline_tags_from(r3, t1));
                        assert forall|k: Seq<char>| #[trigger] inline_tags_from(rest, tags).contains_key(k)
                            && !(tags.contains_key(k) && tags[k] == inline_tags_from(rest, tags)[k])
                            implies word_after_at(rest, k) by {
                            if k != name {
                                lemma_word_after_at_suffix(rest, j3, k);
                            }
                        }
                    },
                    None => {
                        assert(inline_tags_from(rest, tags) == tags.insert(name, after));
                    },
                }
            } else {
                lemma_index_of(r2, '@');
                let ve = crate::game::ugn::bare_value_end(r2);
                let value = trim(r2.take(ve));
                let t1 = tags.insert(name, if value.len() > 0 { value } else { true_value() });
                assert(r2.skip(ve) =~= rest.skip(j2 + ve));
                lemma_inline_tags_changes(r2.skip(ve), t1);
                assert(inline_tags_from(rest, tags) == inline_tags_from(r2.skip(ve), t1));
                assert forall|k: Seq<char>| #[trigger] inline_tags_from(rest, tags).contains_key(k)
                    && !(tags.contains_key(k) && tags[k] == inline_tags_from(rest, tags)[k])
                    implies word_after_at(rest, k) by {
                    if k != name {
                        lemma_word_after_at_suffix(rest, j2 + ve, k);
                    }
                }
            }
        },
    }
}

/// Reading inline tags keeps every tag already there, and adds or changes
/// only tags whose name is the word right after an `@` of the text; a text
/// without `@` changes nothing.
pub proof fn law_inline_tags_only_after_at(s: Seq<char>, tags: Map<Seq<char>, Seq<char>>)
    ensures
        forall|k: Seq<char>|
            tags.contains_key(k) ==> #[trigger] inline_tags_spec(s, tags).contains_key(k),
        forall|k: Seq<char>|
            #[trigger] inline_tags_spec(s, tags).contains_key(k) && !(tags.contains_key(k)
                && tags[k] == inline_tags_spec(s, tags)[k]) ==> word_after_at(s, k),
        (forall|i: int| 0 <= i < s.len() ==> s[i] != '@') ==> inline_tags_spec(s, tags) == tags,
{
    let ts = trim_start(s);
    let t = trim(s);
    lemma_inline_tags_changes(t, tags);
    lemma_trim_start_suffix(s);
    lemma_trim_end_prefix(ts);
    lemma_trim_end_rest(ts);
    let j = s.len() - ts.len();
    assert forall|k: Seq<char>| #[trigger] inline_tags_spec(s, tags).contains_key(k) && !(
    tags.contains_key(k) && tags[k] == inline_tags_spec(s, tags)[k]) implies word_after_at(s, k) by {
        assert(word_after_at(t, k));
        assert(t == ts.take(t.len() as int));
        lemma_word_after_at_prefix(ts, t.len() as int, k);
        lemma_word_after_at_suffix(s, j, k);
    }
    if forall|i: int| 0 <= i < s.len() ==> s[i] != '@' {
        lemma_index_of(t, '@');
        if index_of(t, '@') is Some {
            let i = index_of(t, '@')->0;
            assert(t[i] == ts[i]);
            assert(ts[i] == s[i + j]);
        }
    }
}

/// No `@` in `s` is directly followed by `_`, so no tag read from `s` can be
/// named `_type`.
pub open spec fn no_type_tag(s: Seq<char>) -> bool {
    forall|i: int| 0 <= i && i + 1 < s.len() && #[trigger] s[i] == '@' ==> s[i + 1] != '_'
}

proof fn lemma_no_type_tag_sub(s: Seq<char>, a: int, b: int)
    requires
        no_type_tag(s),
        0 <= a <= b <= s.len(),
    ensures
        no_type_tag(s.subrange(a, b)),
{
    let t = s.subrange(a, b);
    assert forall|i: int| 0 <= i && i + 1 < t.len() && #[trigger] t[i] == '@' implies t[i + 1] != '_' by {
        assert(t[i] == s[a + i]);
        assert(t[i + 1] == s[a + i + 1]);
    }
}

proof fn lemma_no_type_tag_concat(a: Seq<char>, b: Seq<char>)
    requires
        no_type_tag(a),
        no_type_tag(b),
        a.len() == 0 || b.len() == 0 || a.last() != '@' || b[0] != '_',
    ensures
        no_type_tag(a + b),
{
    let c = a + b;
    assert forall|i: int| 0 <= i && i + 1 < c.len() && #[trigger] c[i] == '@' implies c[i + 1] != '_' by {
        if i + 1 < a.len() {
            assert(c[i] == a[i] && c[i + 1] == a[i + 1]);
        } else if i + 1 == a.len() {
            assert(c[i] == a.last() && c[i + 1] == b[0]);
        } else {
            assert(c[i] == b[i - a.len()] && c[i + 1] == b[i + 1 - a.len()]);
        }
    }
}

/// A text without `@` directly followed by `_` names no `_type` tag after an `@`.
proof fn lemma_no_type_tag_word(s: Seq<char>)
    requires
        no_type_tag(s),
    ensures
        !word_after_at(s, type_key()),
{
    if word_after_at(s, type_key()) {
        let i = choose|i: int|
            0 <= i < s.len() && s[i] == '@' && #[trigger] s.skip(i + 1).take(
                word_len(s.skip(i + 1)) as int,
            ) == type_key();
        let y = s.skip(i + 1);
        lemma_word_len(y);
        assert(y.take(word_len(y) as int).len() == 5);
        assert(y.take(word_len(y) as int)[0] == '_');
        assert(y[0] == '_');
        assert(s[i + 1] == y[0]);
    }
}

/// `pre`, a value and `post` put together, none with an `@` directly
/// followed by `_`, and no `@` at a seam.
proof fn lemma_piece_no_type_tag(pre: Seq<char>, v: Seq<char>, post: Seq<char>)
    requires
        no_type_tag(pre),
        pre.len() > 0,
        pre.last() != '@',
        no_type_tag(v),
        no_type_tag(post),
        post.len() > 0,
        post[0] != '_',
    ensures
        no_type_tag(pre + v + post),
{
    lemma_no_type_tag_concat(pre, v);
    if v.len() > 0 {
        assert((pre + v).last() == v.last());
    } else {
        assert(pre + v =~= pre);
    }
    lemma_no_type_tag_concat(pre + v, post);
}

/// The PGN tags whose values the converter writes unchanged.
pub open spec fn converted_key(k: Seq<char>) -> bool {
    ||| k == "Event"@
    ||| k == "Date"@
    ||| k == "White"@
    ||| k == "WhiteElo"@
    ||| k == "Black"@
    ||| k == "BlackElo"@
    ||| k == "TimeControl"@
    ||| k == "ECO"@
    ||| k == "Opening"@
}

/// No value that the converter writes, the termination in lowercase among
/// them, holds an `@` directly followed by `_`.
pub open spec fn converted_values_plain(tags: Map<Seq<char>, Seq<char>>) -> bool {
    &&& forall|k: Seq<char>| converted_key(k) && #[trigger] tags.contains_key(k) ==> no_type_tag(tags[k])
    &&& tags.contains_key("Termination"@) ==> no_type_tag(lowercase(tags["Termination"@]))
}

proof fn lemma_dashes_no_type_tag(d: Seq<char>)
    requires
        no_type_tag(d),
    ensures
        no_type_tag(dots_to_dashes(d)),
{
    let e = dots_to_dashes(d);
    assert forall|i: int| 0 <= i && i + 1 < e.len() && #[trigger] e[i] == '@' implies e[i + 1] != '_' by {
        assert(d[i] == '@');
    }
}

/// The tag lines that the converter writes hold no `@` directly followed by
/// `_` when the values it writes hold none.
proof fn lemma_tag_pieces_no_type_tag(tags: Map<Seq<char>, Seq<char>>, result: Option<Seq<char>>)
    requires
        converted_values_plain(tags),
    ensures
        forall|i: int|
            0 <= i < ugn_tag_pieces(tags, ugn_result_token(result)).len() ==> no_type_tag(
                #[trigger] ugn_tag_pieces(tags, ugn_result_token(result))[i],
            ),
{
    let rt = ugn_result_token(result);
    let ps = ugn_tag_pieces(tags, rt);
    assert(no_type_tag(Seq::<char>::empty()));
    reveal_strlit("\n");
    reveal_strlit("\"\n");
    reveal_strlit("\"");
    let nl = "\n"@;
    let qnl = "\"\n"@;
    let q = "\""@;
    assert(nl =~= seq!['\n']);
    assert(qnl =~= seq!['"', '\n']);
    assert(q =~= seq!['"']);
    assert(no_type_tag(nl) && no_type_tag(qnl) && no_type_tag(q));
    assert(no_type_tag(ps[0])) by {
        reveal_strlit("  @event \"");
        let pre = "  @event \""@;
        assert(pre =~= seq![' ', ' ', '@', 'e', 'v', 'e', 'n', 't', ' ', '"']);
        if tags.contains_key("Event"@) {
            lemma_piece_no_type_tag(pre, tags["Event"@], qnl);
        }
    }
    assert(no_type_tag(ps[1])) by {
        reveal_strlit("  @date ");
        let pre = "  @date "@;
        assert(pre =~= seq![' ', ' ', '@', 'd', 'a', 't', 'e', ' ']);
        if tags.contains_key("Date"@) {
            lemma_dashes_no_type_tag(tags["Date"@]);
            lemma_piece_no_type_tag(pre, dots_to_dashes(tags["Date"@]), nl);
        }
    }
    assert forall|j: int| 2 <= j < 4 implies no_type_tag(#[trigger] ps[j]) by {
        reveal_strlit("  @white \"");
        reveal_strlit("  @black \"");
        reveal_strlit(" @elo ");
        reveal_strlit("?");
        let (name_key, elo_key, pre) = if j == 2 {
            ("White"@, "WhiteElo"@, "  @white \""@)
        } else {
            ("Black"@, "BlackElo"@, "  @black \""@)
        };
        assert("  @white \""@ =~= seq![' ', ' ', '@', 'w', 'h', 'i', 't', 'e', ' ', '"']);
        assert("  @black \""@ =~= seq![' ', ' ', '@', 'b', 'l', 'a', 'c', 'k', ' ', '"']);
        assert(no_type_tag(pre) && pre.len() > 0 && pre.last() != '@');
        assert(ps[j] == player_line(tags, name_key, elo_key, pre));
        if tags.contains_key(name_key) {
            let at_elo = " @elo "@;
            assert(at_elo =~= seq![' ', '@', 'e', 'l', 'o', ' ']);
            let elo = if tags.contains_key(elo_key) && tags[elo_key] != "?"@ {
                at_elo + tags[elo_key]
            } else {
                Seq::<char>::empty()
            };
            if tags.contains_key(elo_key) && tags[elo_key] != "?"@ {
                lemma_no_type_tag_concat(at_elo, tags[elo_key]);
            }
            assert(no_type_tag(elo));
            lemma_no_type_tag_concat(q, elo);
            let post = q + elo + nl;
            lemma_no_type_tag_concat(q + elo, nl);
            if elo.len() > 0 {
                assert((q + elo).last() == elo.last());
            }
            assert(post[0] == '"');
            lemma_piece_no_type_tag(pre, tags[name_key], post);
            assert(ps[j] =~= pre + tags[name_key] + post);
        }
    }
    assert(no_type_tag(ps[4])) by {
        reveal_strlit("  @time ");
        let pre = "  @time "@;
        assert(pre =~= seq![' ', ' ', '@', 't', 'i', 'm', 'e', ' ']);
        if ps[4].len() > 0 {
            lemma_piece_no_type_tag(pre, tags["TimeControl"@], nl);
        }
    }
    assert(no_type_tag(ps[5])) by {
        reveal_strlit("  @eco ");
        let pre = "  @eco "@;
        assert(pre =~= seq![' ', ' ', '@', 'e', 'c', 'o', ' ']);
        if ps[5].len() > 0 {
            lemma_piece_no_type_tag(pre, tags["ECO"@], nl);
        }
    }
    assert(no_type_tag(ps[6])) by {
        reveal_strlit("  @opening \"");
        let pre = "  @opening \""@;
        assert(pre =~= seq![' ', ' ', '@', 'o', 'p', 'e', 'n', 'i', 'n', 'g', ' ', '"']);
        if tags.contains_key("Opening"@) {
            lemma_piece_no_type_tag(pre, tags["Opening"@], qnl);
        }
    }
    assert(no_type_tag(ps[7])) by {
        reveal_strlit("  @termination ");
        let pre = "  @termination "@;
        assert(pre =~= seq![' ', ' ', '@', 't', 'e', 'r', 'm', 'i', 'n', 'a', 't', 'i', 'o', 'n', ' ']);
        if tags.contains_key("Termination"@) {
            lemma_piece_no_type_tag(pre, lowercase(tags["Termination"@]), nl);
        }
    }
    assert(no_type_tag(ps[8])) by {
        reveal_strlit("  @result ");
        let pre = "  @result "@;
        assert(pre =~= seq![' ', ' ', '@', 'r', 'e', 's', 'u', 'l', 't', ' ']);
        assert(no_type_tag(rt));
        lemma_piece_no_type_tag(pre, rt, nl);
    }
    assert forall|i: int| 0 <= i < ps.len() implies no_type_tag(#[trigger] ps[i]) by {
        if i == 0 {
        } else if i == 1 {
        } else if i == 2 || i == 3 {
        } else if i == 4 {
        } else if i == 5 {
        } else if i == 6 {
        } else if i == 7 {
        } else {
        }
    }
}

/// A tag name as the converter writes it: a non-empty run of chars that are
/// not whitespace.
pub open spec fn is_tag_name(n: Seq<char>) -> bool {
    n.len() > 0 && forall|i: int| 0 <= i < n.len() ==> !is_ws(#[trigger] n[i])
}

/// A value that reads back as written between quotes: no `"` and no `@`.
pub open spec fn quoted_plain(v: Seq<char>) -> bool {
    forall|i: int| 0 <= i < v.len() ==> #[trigger] v[i] != '"' && v[i] != '@'
}

/// A value that reads back as written without quotes: a quoted-plain value,
/// not empty, neither starting nor ending with whitespace.
pub open spec fn bare_plain(v: Seq<char>) -> bool {
    quoted_plain(v) && v.len() > 0 && !is_ws(v[0]) && !is_ws(v.last())
}

proof fn lemma_word_len_concat(a: Seq<char>, b: Seq<char>)
    requires
        forall|i: int| 0 <= i < a.len() ==> !is_ws(#[trigger] a[i]),
        b.len() > 0,
        is_ws(b[0]),
    ensures
        word_len(a + b) == a.len(),
    decreases a.len(),
{
    if a.len() == 0 {
        assert((a + b)[0] == b[0]);
    } else {
        let d = a.drop_first();
        assert forall|i: int| 0 <= i < d.len() implies !is_ws(#[trigger] d[i]) by {
            assert(d[i] == a[i + 1]);
        }
        lemma_word_len_concat(d, b);
        assert((a + b).drop_first() =~= d + b);
        assert((a + b)[0] == a[0]);
    }
}

proof fn lemma_index_of_at(a: Seq<char>, b: Seq<char>, c: char)
    requires
        forall|i: int| 0 <= i < a.len() ==> #[trigger] a[i] != c,
        b.len() > 0,
        b[0] == c,
    ensures
        index_of(a + b, c) == Some(a.len() as int),
{
    lemma_index_of(a + b, c);
    assert((a + b)[a.len() as int] == c);
    match index_of(a + b, c) {
        Some(i) => {
            if i < a.len() {
                assert((a + b)[i] == a[i]);
            }
        },
        None => {},
    }
}

proof fn lemma_index_of_none(a: Seq<char>, c: char)
    requires
        forall|i: int| 0 <= i < a.len() ==> #[trigger] a[i] != c,
    ensures
        index_of(a, c) is None,
{
    lemma_index_of(a, c);
}

/// Reading `@name "v"` and then `rest`: the tag `name` gets `v`, and the
/// reading goes on with `rest` from its first non-blank char.
proof fn lemma_inline_quoted(
    name: Seq<char>,
    v: Seq<char>,
    rest: Seq<char>,
    tags: Map<Seq<char>, Seq<char>>,
)
    requires
        is_tag_name(name),
        quoted_plain(v),
    ensures
        inline_tags_from(seq!['@'] + name + seq![' ', '"'] + v + seq!['"'] + rest, tags)
            == inline_tags_from(trim_start(rest), tags.insert(name, v)),
{
    let t = seq!['@'] + name + seq![' ', '"'] + v + seq!['"'] + rest;
    assert(t[0] == '@');
    assert(index_of(t, '@') == Some(0int));
    let r1 = t.skip(1);
    let tail = seq![' ', '"'] + v + seq!['"'] + rest;
    assert(r1 =~= name + tail);
    assert(is_ws(' '));
    lemma_word_len_concat(name, tail);
    assert(r1.take(word_len(r1) as int) =~= name);
    assert(r1.skip(word_len(r1) as int) =~= tail);
    let q = seq!['"'] + v + seq!['"'] + rest;
    assert(tail.drop_first() =~= q);
    assert(!is_ws('"'));
    assert(trim_start(q) == q);
    assert(trim_start(tail) == q);
    let after = q.drop_first();
    let qr = seq!['"'] + rest;
    assert(after =~= v + qr);
    assert forall|i: int| 0 <= i < v.len() implies #[trigger] v[i] != '"' by {}
    lemma_index_of_at(v, qr, '"');
    assert(after.take(v.len() as int) =~= v);
    assert(after.skip(v.len() as int + 1) =~= rest);
}

/// Reading `@name v` for a bare-plain `v`: the tag `name` gets `v`.
proof fn lemma_inline_bare(name: Seq<char>, v: Seq<char>, tags: Map<Seq<char>, Seq<char>>)
    requires
        is_tag_name(name),
        bare_plain(v),
    ensures
        inline_tags_from(seq!['@'] + name + seq![' '] + v, tags) == tags.insert(name, v),
{
    let t = seq!['@'] + name + seq![' '] + v;
    assert(t[0] == '@');
    assert(index_of(t, '@') == Some(0int));
    let r1 = t.skip(1);
    let tail = seq![' '] + v;
    assert(r1 =~= name + tail);
    assert(is_ws(' '));
    lemma_word_len_concat(name, tail);
    assert(r1.take(word_len(r1) as int) =~= name);
    assert(r1.skip(word_len(r1) as int) =~= tail);
    assert(tail.drop_first() =~= v);
    assert(trim_start(v) == v);
    assert(trim_start(tail) == v);
    assert(v[0] != '@' && v[0] != '"');
    assert forall|i: int| 0 <= i < v.len() implies #[trigger] v[i] != '@' by {}
    lemma_index_of_none(v, '@');
    assert(crate::game::ugn::bare_value_end(v) == v.len());
    assert(v.take(v.len() as int) =~= v);
    lemma_trim_plain(v);
    assert(v.skip(v.len() as int) =~= Seq::<char>::empty());
    lemma_index_of_none(Seq::<char>::empty(), '@');
    assert(inline_tags_from(Seq::<char>::empty(), tags.insert(name, v)) == tags.insert(name, v));
    assert(trim(v.take(v.len() as int)) == v);
    assert(inline_tags_from(t, tags) == inline_tags_from(v.skip(v.len() as int), tags.insert(name, v)));
}

/// The tags after a tag line `  x` + newline, for `x` starting with `@`
/// and not ending in whitespace: `x` read as inline tags.
proof fn lemma_line_effect(x: Seq<char>, tags: Map<Seq<char>, Seq<char>>)
    requires
        x.len() > 0,
        x[0] == '@',
        !is_ws(x.last()),
    ensures
        piece_effect(seq![' ', ' '] + x + seq!['\n'], tags) == inline_tags_from(x, tags),
{
    let p = seq![' ', ' '] + x + seq!['\n'];
    assert(is_ws(' ') && is_ws('\n') && !is_ws('@'));
    assert(p.drop_first().drop_first() =~= x + seq!['\n']);
    assert(trim_start(x + seq!['\n']) == x + seq!['\n']);
    assert(trim_start(p.drop_first()) == trim_start(x + seq!['\n']));
    assert(trim_start(p) == x + seq!['\n']);
    assert((x + seq!['\n']).drop_last() =~= x);
    assert(trim_end(x + seq!['\n']) == trim_end(x));
    lemma_trim_plain(x);
    assert(trim(p) == x);
    assert(trim(x) == x);
}

proof fn lemma_empty_inline(tags: Map<Seq<char>, Seq<char>>)
    ensures
        inline_tags_from(Seq::<char>::empty(), tags) == tags,
        trim_start(Seq::<char>::empty()) == Seq::<char>::empty(),
{
    lemma_index_of_none(Seq::<char>::empty(), '@');
}

/// A quoted tag line `  @name "v"` reads as the tag `name` with value `v`.
proof fn lemma_quoted_piece(name: Seq<char>, v: Seq<char>, tags: Map<Seq<char>, Seq<char>>)
    requires
        is_tag_name(name),
        quoted_plain(v),
    ensures
        piece_effect(seq![' ', ' ', '@'] + name + seq![' ', '"'] + v + seq!['"', '\n'], tags)
            == tags.insert(name, v),
{
    let x = seq!['@'] + name + seq![' ', '"'] + v + seq!['"'] + Seq::<char>::empty();
    assert(seq![' ', ' ', '@'] + name + seq![' ', '"'] + v + seq!['"', '\n'] =~= seq![' ', ' ']
        + x + seq!['\n']);
    assert(!is_ws('"'));
    lemma_line_effect(x, tags);
    lemma_inline_quoted(name, v, Seq::<char>::empty(), tags);
    lemma_empty_inline(tags.insert(name, v));
}

/// A bare tag line `  @name v` reads as the tag `name` with value `v`.
proof fn lemma_bare_piece(name: Seq<char>, v: Seq<char>, tags: Map<Seq<char>, Seq<char>>)
    requires
        is_tag_name(name),
        bare_plain(v),
    ensures
        piece_effect(seq![' ', ' ', '@'] + name + seq![' '] + v + seq!['\n'], tags) == tags.insert(
            name,
            v,
        ),
{
    let x = seq!['@'] + name + seq![' '] + v;
    assert(seq![' ', ' ', '@'] + name + seq![' '] + v + seq!['\n'] =~= seq![' ', ' '] + x + seq![
        '\n',
    ]);
    assert(x.last() == v.last());
    lemma_line_effect(x, tags);
    lemma_inline_bare(name, v, tags);
}

/// A player line `  @name "v" @elo w` reads as the tags `name` with value
/// `v` and `elo` with value `w`.
proof fn lemma_player_elo_piece(
    name: Seq<char>,
    v: Seq<char>,
    w: Seq<char>,
    tags: Map<Seq<char>, Seq<char>>,
)
    requires
        is_tag_name(name),
        quoted_plain(v),
        bare_plain(w),
    ensures
        piece_effect(
            seq![' ', ' ', '@'] + name + seq![' ', '"'] + v + seq!['"'] + seq![' ', '@', 'e', 'l', 'o', ' ']
                + w + seq!['\n'],
            tags,
        ) == tags.insert(name, v).insert(seq!['e', 'l', 'o'], w),
{
    let rest = seq![' ', '@', 'e', 'l', 'o', ' '] + w;
    let x = seq!['@'] + name + seq![' ', '"'] + v + seq!['"'] + rest;
    assert(seq![' ', ' ', '@'] + name + seq![' ', '"'] + v + seq!['"'] + seq![' ', '@', 'e', 'l', 'o', ' ']
        + w + seq!['\n'] =~= seq![' ', ' '] + x + seq!['\n']);
    assert(x.last() == w.last());
    lemma_line_effect(x, tags);
    lemma_inline_quoted(name, v, rest, tags);
    assert(is_ws(' ') && !is_ws('@'));
    assert(rest.drop_first() =~= seq!['@'] + seq!['e', 'l', 'o'] + seq![' '] + w);
    assert(trim_start(rest.drop_first()) == rest.drop_first());
    assert(trim_start(rest) == seq!['@'] + seq!['e', 'l', 'o'] + seq![' '] + w);
    assert(is_tag_name(seq!['e', 'l', 'o']));
    lemma_inline_bare(seq!['e', 'l', 'o'], w, tags.insert(name, v));
}

proof fn lemma_effect_step(ps: Seq<Seq<char>>, k: int, tags: Map<Seq<char>, Seq<char>>)
    requires
        0 <= k < ps.len(),
    ensures
        pieces_effect(ps.skip(k), tags) == pieces_effect(ps.skip(k + 1), piece_effect(ps[k], tags)),
{
    assert(ps.skip(k).drop_first() =~= ps.skip(k + 1));
    assert(ps.skip(k)[0] == ps[k]);
}

/// The PGN tag values that the converter writes read back as written: the
/// quoted ones (event, players, opening) hold no `"` or `@`; the bare ones
/// (date, ratings, time control, ECO code, termination in lowercase) hold
/// neither either, are not empty, and neither start nor end with whitespace.
pub open spec fn converted_tags_plain(tags: Map<Seq<char>, Seq<char>>) -> bool {
    &&& (tags.contains_key("Event"@) ==> quoted_plain(tags["Event"@]))
    &&& (tags.contains_key("Date"@) ==> bare_plain(tags["Date"@]))
    &&& (tags.contains_key("White"@) ==> quoted_plain(tags["White"@]))
    &&& (tags.contains_key("Black"@) ==> quoted_plain(tags["Black"@]))
    &&& (tags.contains_key("WhiteElo"@) ==> bare_plain(tags["WhiteElo"@]))
    &&& (tags.contains_key("BlackElo"@) ==> bare_plain(tags["BlackElo"@]))
    &&& (tags.contains_key("TimeControl"@) ==> bare_plain(tags["TimeControl"@]))
    &&& (tags.contains_key("ECO"@) ==> bare_plain(tags["ECO"@]))
    &&& (tags.contains_key("Opening"@) ==> quoted_plain(tags["Opening"@]))
    &&& (tags.contains_key("Termination"@) ==> bare_plain(lowercase(tags["Termination"@])))
}

proof fn lemma_dashes_bare(d: Seq<char>)
    requires
        bare_plain(d),
    ensures
        bare_plain(dots_to_dashes(d)),
{
    let e = dots_to_dashes(d);
    assert(!is_ws('-'));
    assert forall|i: int| 0 <= i < e.len() implies #[trigger] e[i] != '"' && e[i] != '@' by {
        assert(d[i] != '"' && d[i] != '@');
    }
    assert(e[0] == (if d[0] == '.' { '-' } else { d[0] }));
    assert(e.last() == e[e.len() - 1]);
    assert(d.last() == d[d.len() - 1]);
}

/// The effect of a player line: the name under `name`, then the rating
/// under `elo` unless it is absent or `?`.
proof fn lemma_player_piece(
    tags: Map<Seq<char>, Seq<char>>,
    name_key: Seq<char>,
    elo_key: Seq<char>,
    pre: Seq<char>,
    name: Seq<char>,
    m: Map<Seq<char>, Seq<char>>,
)
    requires
        pre == seq![' ', ' ', '@'] + name + seq![' ', '"'],
        is_tag_name(name),
        tags.contains_key(name_key) ==> quoted_plain(tags[name_key]),
        tags.contains_key(elo_key) ==> bare_plain(tags[elo_key]),
    ensures
        piece_effect(player_line(tags, name_key, elo_key, pre), m) == (if tags.contains_key(name_key) {
            if tags.contains_key(elo_key) && tags[elo_key] != "?"@ {
                m.insert(name, tags[name_key]).insert(seq!['e', 'l', 'o'], tags[elo_key])
            } else {
                m.insert(name, tags[name_key])
            }
        } else {
            m
        }),
{
    reveal_strlit("\"");
    reveal_strlit("\n");
    reveal_strlit(" @elo ");
    assert("\""@ =~= seq!['"']);
    assert("\n"@ =~= seq!['\n']);
    assert(" @elo "@ =~= seq![' ', '@', 'e', 'l', 'o', ' ']);
    if tags.contains_key(name_key) {
        let v = tags[name_key];
        if tags.contains_key(elo_key) && tags[elo_key] != "?"@ {
            let w = tags[elo_key];
            assert(player_line(tags, name_key, elo_key, pre) =~= seq![' ', ' ', '@'] + name + seq![
                ' ',
                '"',
            ] + v + seq!['"'] + seq![' ', '@', 'e', 'l', 'o', ' '] + w + seq!['\n']);
            lemma_player_elo_piece(name, v, w, m);
        } else {
            assert(player_line(tags, name_key, elo_key, pre) =~= seq![' ', ' ', '@'] + name + seq![
                ' ',
                '"',
            ] + v + seq!['"', '\n']);
            lemma_quoted_piece(name, v, m);
        }
    }
}

spec fn opt_insert(
    m: Map<Seq<char>, Seq<char>>,
    c: bool,
    k: Seq<char>,
    v: Seq<char>,
) -> Map<Seq<char>, Seq<char>> {
    if c {
        m.insert(k, v)
    } else {
        m
    }
}

spec fn elo_written(tags: Map<Seq<char>, Seq<char>>, name_key: Seq<char>, elo_key: Seq<char>) -> bool {
    tags.contains_key(name_key) && tags.contains_key(elo_key) && tags[elo_key] != "?"@
}

spec fn time_written(tags: Map<Seq<char>, Seq<char>>) -> bool {
    tags.contains_key("TimeControl"@) && tags["TimeControl"@] != "-"@ && tags["TimeControl"@] != "?"@
}

spec fn eco_written(tags: Map<Seq<char>, Seq<char>>) -> bool {
    tags.contains_key("ECO"@) && tags["ECO"@] != "?"@
}

/// The tags after the converter's tag lines, on top of `m`.
spec fn tags_after_pieces(
    tags: Map<Seq<char>, Seq<char>>,
    rt: Seq<char>,
    m: Map<Seq<char>, Seq<char>>,
) -> Map<Seq<char>, Seq<char>> {
    let m1 = opt_insert(m, tags.contains_key("Event"@), seq!['e', 'v', 'e', 'n', 't'], tags["Event"@]);
    let m2 = opt_insert(m1, tags.contains_key("Date"@), seq!['d', 'a', 't', 'e'], dots_to_dashes(tags["Date"@]));
    let m3a = opt_insert(m2, tags.contains_key("White"@), seq!['w', 'h', 'i', 't', 'e'], tags["White"@]);
    let m3 = opt_insert(m3a, elo_written(tags, "White"@, "WhiteElo"@), seq!['e', 'l', 'o'], tags["WhiteElo"@]);
    let m4a = opt_insert(m3, tags.contains_key("Black"@), seq!['b', 'l', 'a', 'c', 'k'], tags["Black"@]);
    let m4 = opt_insert(m4a, elo_written(tags, "Black"@, "BlackElo"@), seq!['e', 'l', 'o'], tags["BlackElo"@]);
    let m5 = opt_insert(m4, time_written(tags), seq!['t', 'i', 'm', 'e'], tags["TimeControl"@]);
    let m6 = opt_insert(m5, eco_written(tags), seq!['e', 'c', 'o'], tags["ECO"@]);
    let m7 = opt_insert(m6, tags.contains_key("Opening"@), seq!['o', 'p', 'e', 'n', 'i', 'n', 'g'], tags["Opening"@]);
    let m8 = opt_insert(
        m7,
        tags.contains_key("Termination"@),
        seq!['t', 'e', 'r', 'm', 'i', 'n', 'a', 't', 'i', 'o', 'n'],
        lowercase(tags["Termination"@]),
    );
    m8.insert(seq!['r', 'e', 's', 'u', 'l', 't'], rt)
}

proof fn lemma_names()
    ensures
        is_tag_name(seq!['e', 'v', 'e', 'n', 't']),
        is_tag_name(seq!['d', 'a', 't', 'e']),
        is_tag_name(seq!['w', 'h', 'i', 't', 'e']),
        is_tag_name(seq!['b', 'l', 'a', 'c', 'k']),
        is_tag_name(seq!['t', 'i', 'm', 'e']),
        is_tag_name(seq!['e', 'c', 'o']),
        is_tag_name(seq!['o', 'p', 'e', 'n', 'i', 'n', 'g']),
        is_tag_name(seq!['t', 'e', 'r', 'm', 'i', 'n', 'a', 't', 'i', 'o', 'n']),
        is_tag_name(seq!['r', 'e', 's', 'u', 'l', 't']),
{
    assert(!is_ws('e') && !is_ws('v') && !is_ws('n') && !is_ws('t') && !is_ws('d') && !is_ws('a'));
    assert(!is_ws('w') && !is_ws('h') && !is_ws('i') && !is_ws('b') && !is_ws('l') && !is_ws('c'));
    assert(!is_ws('k') && !is_ws('m') && !is_ws('o') && !is_ws('p') && !is_ws('g') && !is_ws('r'));
    assert(!is_ws('s') && !is_ws('u'));
}

proof fn lemma_piece_event(tags: Map<Seq<char>, Seq<char>>, rt: Seq<char>, m: Map<Seq<char>, Seq<char>>)
    requires
        converted_tags_plain(tags),
    ensures
        piece_effect(ugn_tag_pieces(tags, rt)[0], m) == opt_insert(
            m,
            tags.contains_key("Event"@),
            seq!['e', 'v', 'e', 'n', 't'],
            tags["Event"@],
        ),
{
    lemma_names();
    let k = seq!['e', 'v', 'e', 'n', 't'];
    reveal_strlit("  @event \"");
    reveal_strlit("\"\n");
    assert("  @event \""@ =~= seq![' ', ' ', '@'] + k + seq![' ', '"']);
    assert("\"\n"@ =~= seq!['"', '\n']);
    if tags.contains_key("Event"@) {
        assert(ugn_tag_pieces(tags, rt)[0] =~= seq![' ', ' ', '@'] + k + seq![' ', '"'] + tags["Event"@]
            + seq!['"', '\n']);
        lemma_quoted_piece(k, tags["Event"@], m);
    }
}

proof fn lemma_piece_date(tags: Map<Seq<char>, Seq<char>>, rt: Seq<char>, m: Map<Seq<char>, Seq<char>>)
    requires
        converted_tags_plain(tags),
    ensures
        piece_effect(ugn_tag_pieces(tags, rt)[1], m) == opt_insert(
            m,
            tags.contains_key("Date"@),
            seq!['d', 'a', 't', 'e'],
            dots_to_dashes(tags["Date"@]),
        ),
{
    lemma_names();
    let k = seq!['d', 'a', 't', 'e'];
    reveal_strlit("  @date ");
    reveal_strlit("\n");
    assert("  @date "@ =~= seq![' ', ' ', '@'] + k + seq![' ']);
    assert("\n"@ =~= seq!['\n']);
    if tags.contains_key("Date"@) {
        let d = dots_to_dashes(tags["Date"@]);
        assert(ugn_tag_pieces(tags, rt)[1] =~= seq![' ', ' ', '@'] + k + seq![' '] + d + seq!['\n']);
        lemma_dashes_bare(tags["Date"@]);
        lemma_bare_piece(k, d, m);
    }
}

proof fn lemma_piece_players(tags: Map<Seq<char>, Seq<char>>, rt: Seq<char>, m: Map<Seq<char>, Seq<char>>)
    requires
        converted_tags_plain(tags),
    ensures
        piece_effect(ugn_tag_pieces(tags, rt)[2], m) == opt_insert(
            opt_insert(m, tags.contains_key("White"@), seq!['w', 'h', 'i', 't', 'e'], tags["White"@]),
            elo_written(tags, "White"@, "WhiteElo"@),
            seq!['e', 'l', 'o'],
            tags["WhiteElo"@],
        ),
        piece_effect(ugn_tag_pieces(tags, rt)[3], m) == opt_insert(
            opt_insert(m, tags.contains_key("Black"@), seq!['b', 'l', 'a', 'c', 'k'], tags["Black"@]),
            elo_written(tags, "Black"@, "BlackElo"@),
            seq!['e', 'l', 'o'],
            tags["BlackElo"@],
        ),
{
    lemma_names();
    reveal_strlit("  @white \"");
    reveal_strlit("  @black \"");
    assert("  @white \""@ =~= seq![' ', ' ', '@'] + seq!['w', 'h', 'i', 't', 'e'] + seq![' ', '"']);
    assert("  @black \""@ =~= seq![' ', ' ', '@'] + seq!['b', 'l', 'a', 'c', 'k'] + seq![' ', '"']);
    lemma_player_piece(tags, "White"@, "WhiteElo"@, "  @white \""@, seq!['w', 'h', 'i', 't', 'e'], m);
    lemma_player_piece(tags, "Black"@, "BlackElo"@, "  @black \""@, seq!['b', 'l', 'a', 'c', 'k'], m);
}

proof fn lemma_piece_time_eco(tags: Map<Seq<char>, Seq<char>>, rt: Seq<char>, m: Map<Seq<char>, Seq<char>>)
    requires
        converted_tags_plain(tags),
    ensures
        piece_effect(ugn_tag_pieces(tags, rt)[4], m) == opt_insert(
            m,
            time_written(tags),
            seq!['t', 'i', 'm', 'e'],
            tags["TimeControl"@],
        ),
        piece_effect(ugn_tag_pieces(tags, rt)[5], m) == opt_insert(
            m,
            eco_written(tags),
            seq!['e', 'c', 'o'],
            tags["ECO"@],
        ),
{
    lemma_names();
    reveal_strlit("  @time ");
    reveal_strlit("  @eco ");
    reveal_strlit("\n");
    let kt = seq!['t', 'i', 'm', 'e'];
    let ke = seq!['e', 'c', 'o'];
    assert("  @time "@ =~= seq![' ', ' ', '@'] + kt + seq![' ']);
    assert("  @eco "@ =~= seq![' ', ' ', '@'] + ke + seq![' ']);
    assert("\n"@ =~= seq!['\n']);
    if time_written(tags) {
        assert(ugn_tag_pieces(tags, rt)[4] =~= seq![' ', ' ', '@'] + kt + seq![' '] + tags["TimeControl"@]
            + seq!['\n']);
        lemma_bare_piece(kt, tags["TimeControl"@], m);
    }
    if eco_written(tags) {
        assert(ugn_tag_pieces(tags, rt)[5] =~= seq![' ', ' ', '@'] + ke + seq![' '] + tags["ECO"@]
            + seq!['\n']);
        lemma_bare_piece(ke, tags["ECO"@], m);
    }
}

proof fn lemma_piece_opening(tags: Map<Seq<char>, Seq<char>>, rt: Seq<char>, m: Map<Seq<char>, Seq<char>>)
    requires
        converted_tags_plain(tags),
    ensures
        piece_effect(ugn_tag_pieces(tags, rt)[6], m) == opt_insert(
            m,
            tags.contains_key("Opening"@),
            seq!['o', 'p', 'e', 'n', 'i', 'n', 'g'],
            tags["Opening"@],
        ),
{
    lemma_names();
    let k = seq!['o', 'p', 'e', 'n', 'i', 'n', 'g'];
    reveal_strlit("  @opening \"");
    reveal_strlit("\"\n");
    assert("  @opening \""@ =~= seq![' ', ' ', '@'] + k + seq![' ', '"']);
    assert("\"\n"@ =~= seq!['"', '\n']);
    if tags.contains_key("Opening"@) {
        assert(ugn_tag_pieces(tags, rt)[6] =~= seq![' ', ' ', '@'] + k + seq![' ', '"'] + tags["Opening"@]
            + seq!['"', '\n']);
        lemma_quoted_piece(k, tags["Opening"@], m);
    }
}

proof fn lemma_piece_end(tags: Map<Seq<char>, Seq<char>>, rt: Seq<char>, m: Map<Seq<char>, Seq<char>>)
    requires
        converted_tags_plain(tags),
        bare_plain(rt),
    ensures
        piece_effect(ugn_tag_pieces(tags, rt)[7], m) == opt_insert(
            m,
            tags.contains_key("Termination"@),
            seq!['t', 'e', 'r', 'm', 'i', 'n', 'a', 't', 'i', 'o', 'n'],
            lowercase(tags["Termination"@]),
        ),
        piece_effect(ugn_tag_pieces(tags, rt)[8], m) == m.insert(seq!['r', 'e', 's', 'u', 'l', 't'], rt),
{
    lemma_names();
    let kt = seq!['t', 'e', 'r', 'm', 'i', 'n', 'a', 't', 'i', 'o', 'n'];
    let kr = seq!['r', 'e', 's', 'u', 'l', 't'];
    reveal_strlit("  @termination ");
    reveal_strlit("  @result ");
    reveal_strlit("\n");
    assert("  @termination "@ =~= seq![' ', ' ', '@'] + kt + seq![' ']);
    assert("  @result "@ =~= seq![' ', ' ', '@'] + kr + seq![' ']);
    assert("\n"@ =~= seq!['\n']);
    if tags.contains_key("Termination"@) {
        let v = lowercase(tags["Termination"@]);
        assert(ugn_tag_pieces(tags, rt)[7] =~= seq![' ', ' ', '@'] + kt + seq![' '] + v + seq!['\n']);
        lemma_bare_piece(kt, v, m);
    }
    assert(ugn_tag_pieces(tags, rt)[8] =~= seq![' ', ' ', '@'] + kr + seq![' '] + rt + seq!['\n']);
    lemma_bare_piece(kr, rt, m);
}

proof fn lemma_pieces_read(tags: Map<Seq<char>, Seq<char>>, rt: Seq<char>, m0: Map<Seq<char>, Seq<char>>)
    requires
        converted_tags_plain(tags),
        bare_plain(rt),
    ensures
        pieces_effect(ugn_tag_pieces(tags, rt), m0) == tags_after_pieces(tags, rt, m0),
{
    let ps = ugn_tag_pieces(tags, rt);
    let m1 = piece_effect(ps[0], m0);
    let m2 = piece_effect(ps[1], m1);
    let m3 = piece_effect(ps[2], m2);
    let m4 = piece_effect(ps[3], m3);
    let m5 = piece_effect(ps[4], m4);
    let m6 = piece_effect(ps[5], m5);
    let m7 = piece_effect(ps[6], m6);
    let m8 = piece_effect(ps[7], m7);
    let m9 = piece_effect(ps[8], m8);
    lemma_piece_event(tags, rt, m0);
    lemma_piece_date(tags, rt, m1);
    lemma_piece_players(tags, rt, m2);
    lemma_piece_players(tags, rt, m3);
    lemma_piece_time_eco(tags, rt, m4);
    lemma_piece_time_eco(tags, rt, m5);
    lemma_piece_opening(tags, rt, m6);
    lemma_piece_end(tags, rt, m7);
    lemma_piece_end(tags, rt, m8);
    lemma_effect_step(ps, 0, m0);
    lemma_effect_step(ps, 1, m1);
    lemma_effect_step(ps, 2, m2);
    lemma_effect_step(ps, 3, m3);
    lemma_effect_step(ps, 4, m4);
    lemma_effect_step(ps, 5, m5);
    lemma_effect_step(ps, 6, m6);
    lemma_effect_step(ps, 7, m7);
    lemma_effect_step(ps, 8, m8);
    assert(ps.skip(0) =~= ps);
    assert(ps.skip(9) =~= Seq::<Seq<char>>::empty());
}

proof fn lemma_read_back_keys(
    tags: Map<Seq<char>, Seq<char>>,
    rt: Seq<char>,
    m0: Map<Seq<char>, Seq<char>>,
    result: Option<Seq<char>>,
)
    requires
        m0 == Map::<Seq<char>, Seq<char>>::empty().insert(type_key(), seq!['c', 'h', 'e', 's', 's']),
        rt == ugn_result_token(result),
    ensures
        ({
            let t = tags_after_pieces(tags, rt, m0);
            &&& tag_get(t, "_type"@) == Some("chess"@)
            &&& tag_get(t, "event"@) == (if tags.contains_key("Event"@) {
                Some(tags["Event"@])
            } else {
                None
            })
            &&& tag_get(t, "date"@) == (if tags.contains_key("Date"@) {
                Some(tags["Date"@].map_values(|c: char| if c == '.' { '-' } else { c }))
            } else {
                None
            })
            &&& tag_get(t, "white"@) == (if tags.contains_key("White"@) {
                Some(tags["White"@])
            } else {
                None
            })
            &&& tag_get(t, "black"@) == (if tags.contains_key("Black"@) {
                Some(tags["Black"@])
            } else {
                None
            })
            &&& tag_get(t, "elo"@) == (if tags.contains_key("Black"@) && tags.contains_key(
                "BlackElo"@,
            ) && tags["BlackElo"@] != "?"@ {
                Some(tags["BlackElo"@])
            } else if tags.contains_key("White"@) && tags.contains_key("WhiteElo"@)
                && tags["WhiteElo"@] != "?"@ {
                Some(tags["WhiteElo"@])
            } else {
                None
            })
            &&& tag_get(t, "time"@) == (if tags.contains_key("TimeControl"@) && tags["TimeControl"@]
                != "-"@ && tags["TimeControl"@] != "?"@ {
                Some(tags["TimeControl"@])
            } else {
                None
            })
            &&& tag_get(t, "eco"@) == (if tags.contains_key("ECO"@) && tags["ECO"@] != "?"@ {
                Some(tags["ECO"@])
            } else {
                None
            })
            &&& tag_get(t, "opening"@) == (if tags.contains_key("Opening"@) {
                Some(tags["Opening"@])
            } else {
                None
            })
            &&& tag_get(t, "termination"@) == (if tags.contains_key("Termination"@) {
                Some(lowercase(tags["Termination"@]))
            } else {
                None
            })
            &&& tag_get(t, "result"@) == Some(
                if result == Some("1-0"@) {
                    "1-0"@
                } else if result == Some("0-1"@) {
                    "0-1"@
                } else if result == Some("1/2-1/2"@) {
                    "1/2"@
                } else {
                    "*"@
                },
            )
        }),
{
    let k_ev = seq!['e', 'v', 'e', 'n', 't'];
    let k_da = seq!['d', 'a', 't', 'e'];
    let k_wh = seq!['w', 'h', 'i', 't', 'e'];
    let k_bl = seq!['b', 'l', 'a', 'c', 'k'];
    let k_el = seq!['e', 'l', 'o'];
    let k_ti = seq!['t', 'i', 'm', 'e'];
    let k_ec = seq!['e', 'c', 'o'];
    let k_op = seq!['o', 'p', 'e', 'n', 'i', 'n', 'g'];
    let k_te = seq!['t', 'e', 'r', 'm', 'i', 'n', 'a', 't', 'i', 'o', 'n'];
    let k_re = seq!['r', 'e', 's', 'u', 'l', 't'];
    reveal_strlit("_type");
    reveal_strlit("chess");
    reveal_strlit("event");
    reveal_strlit("date");
    reveal_strlit("white");
    reveal_strlit("black");
    reveal_strlit("elo");
    reveal_strlit("time");
    reveal_strlit("eco");
    reveal_strlit("opening");
    reveal_strlit("termination");
    reveal_strlit("result");
    reveal_strlit("1-0");
    reveal_strlit("0-1");
    reveal_strlit("1/2-1/2");
    reveal_strlit("1/2");
    reveal_strlit("*");
    assert("_type"@ =~= type_key());
    assert("chess"@ =~= seq!['c', 'h', 'e', 's', 's']);
    assert("event"@ =~= k_ev);
    assert("date"@ =~= k_da);
    assert("white"@ =~= k_wh);
    assert("black"@ =~= k_bl);
    assert("elo"@ =~= k_el);
    assert("time"@ =~= k_ti);
    assert("eco"@ =~= k_ec);
    assert("opening"@ =~= k_op);
    assert("termination"@ =~= k_te);
    assert("result"@ =~= k_re);
    assert("1-0"@ =~= seq!['1', '-', '0']);
    assert("0-1"@ =~= seq!['0', '-', '1']);
    assert("1/2-1/2"@ =~= seq!['1', '/', '2', '-', '1', '/', '2']);
    assert("1/2"@ =~= seq!['1', '/', '2']);
    assert("*"@ =~= seq!['*']);
    assert(type_key()[0] == '_' && k_ev[0] == 'e' && k_wh[0] == 'w' && k_bl[0] == 'b');
    assert(k_da[0] == 'd' && k_ti[0] == 't');
    assert(k_el[1] == 'l' && k_ec[1] == 'c');
    assert(k_re[0] == 'r' && k_op[0] == 'o' && k_te[0] == 't');
    assert(dots_to_dashes(tags["Date"@]) == tags["Date"@].map_values(
        |c: char| if c == '.' { '-' } else { c },
    ));
}

/// Tags read back: fed the lines of a converted game, a fresh UGN parser
/// holds, besides the game type `chess`, each PGN tag that the converter
/// writes under its UGN name with its value (`Event` as `event`, `Date` as
/// `date` with `-` for `.`, `White` and `Black` as `white` and `black`, the
/// time control as `time` unless it is `-` or `?`, `ECO` as `eco` unless it
/// is `?`, `Opening` as `opening`, `Termination` in lowercase as
/// `termination`), no such tag when the PGN tag is absent, the last rating
/// written as `elo`, and the result token as `result` (`1-0`, `0-1`, `1/2`
/// for a draw, `*` for any other); when the values read back as written.
pub proof fn law_ugn_tags_read_back(
    tags: Map<Seq<char>, Seq<char>>,
    ms: Seq<ChessMove>,
    result: Option<Seq<char>>,
)
    requires
        ms.len() > 0,
        forall|i: int| 0 <= i < ms.len() ==> (#[trigger] ms[i]).well_formed(),
        converted_tags_plain(tags),
    ensures
        ({
            let t = ugn_feed(ugn_fresh(), ugn_lines(tags, uci_texts(ms), result)).tags;
            &&& tag_get(t, "_type"@) == Some("chess"@)
            &&& tag_get(t, "event"@) == (if tags.contains_key("Event"@) {
                Some(tags["Event"@])
            } else {
                None
            })
            &&& tag_get(t, "date"@) == (if tags.contains_key("Date"@) {
                Some(tags["Date"@].map_values(|c: char| if c == '.' { '-' } else { c }))
            } else {
                None
            })
            &&& tag_get(t, "white"@) == (if tags.contains_key("White"@) {
                Some(tags["White"@])
            } else {
                None
            })
            &&& tag_get(t, "black"@) == (if tags.contains_key("Black"@) {
                Some(tags["Black"@])
            } else {
                None
            })
            &&& tag_get(t, "elo"@) == (if tags.contains_key("Black"@) && tags.contains_key(
                "BlackElo"@,
            ) && tags["BlackElo"@] != "?"@ {
                Some(tags["BlackElo"@])
            } else if tags.contains_key("White"@) && tags.contains_key("WhiteElo"@)
                && tags["WhiteElo"@] != "?"@ {
                Some(tags["WhiteElo"@])
            } else {
                None
            })
            &&& tag_get(t, "time"@) == (if tags.contains_key("TimeControl"@) && tags["TimeControl"@]
                != "-"@ && tags["TimeControl"@] != "?"@ {
                Some(tags["TimeControl"@])
            } else {
                None
            })
            &&& tag_get(t, "eco"@) == (if tags.contains_key("ECO"@) && tags["ECO"@] != "?"@ {
                Some(tags["ECO"@])
            } else {
                None
            })
            &&& tag_get(t, "opening"@) == (if tags.contains_key("Opening"@) {
                Some(tags["Opening"@])
            } else {
                None
            })
            &&& tag_get(t, "termination"@) == (if tags.contains_key("Termination"@) {
                Some(lowercase(tags["Termination"@]))
            } else {
                None
            })
            &&& tag_get(t, "result"@) == Some(
                if result == Some("1-0"@) {
                    "1-0"@
                } else if result == Some("0-1"@) {
                    "0-1"@
                } else if result == Some("1/2-1/2"@) {
                    "1/2"@
                } else {
                    "*"@
                },
            )
        }),
{
    lemma_converted_block(ugn_fresh(), tags, ms, result);
    let rt = ugn_result_token(result);
    let chess = seq!['c', 'h', 'e', 's', 's'];
    let m0 = Map::<Seq<char>, Seq<char>>::empty().insert(type_key(), chess);
    assert(!is_ws('1') && !is_ws('0') && !is_ws('2') && !is_ws('*'));
    assert(bare_plain(rt));
    lemma_pieces_read(tags, rt, m0);
    lemma_read_back_keys(tags, rt, m0, result);
}

/// The moves and result of each game the lines hand out, fed one after
/// another from state `s`.
pub open spec fn ugn_handed(s: UgnState, lines: Seq<Seq<char>>) -> Seq<
    (Seq<Seq<char>>, Option<Seq<char>>),
>
    decreases lines.len(),
{
    if lines.len() == 0 {
        Seq::empty()
    } else if ugn_yields(s, lines[0]) {
        seq![(ugn_state_moves(s), ugn_state_result(s))] + ugn_handed(
            ugn_next(s, lines[0]),
            lines.drop_first(),
        )
    } else {
        ugn_handed(ugn_next(s, lines[0]), lines.drop_first())
    }
}

/// The game that state `s` still holds, if a block is open.
pub open spec fn ugn_pending(s: UgnState) -> Seq<(Seq<Seq<char>>, Option<Seq<char>>)> {
    if s.found_game {
        seq![(ugn_state_moves(s), ugn_state_result(s))]
    } else {
        Seq::empty()
    }
}

/// A game as the converter takes it: tags, the moves replayed, the result.
pub struct ConvertedGame {
    pub tags: Map<Seq<char>, Seq<char>>,
    pub moves: Seq<ChessMove>,
    pub result: Option<Seq<char>>,
}

impl ConvertedGame {
    pub open spec fn wf(self) -> bool {
        self.moves.len() > 0 && forall|i: int|
            0 <= i < self.moves.len() ==> (#[trigger] self.moves[i]).well_formed()
    }

    /// The UGN lines the converter writes for the game.
    pub open spec fn lines(self) -> Seq<Seq<char>> {
        ugn_lines(self.tags, uci_texts(self.moves), self.result)
    }

    /// What a UGN parser reads back: the UCI moves and the result.
    pub open spec fn read_back(self) -> (Seq<Seq<char>>, Option<Seq<char>>) {
        (uci_texts(self.moves), read_back_result(self.result))
    }
}

/// The converter's output for the games, one after another.
pub open spec fn converted_lines(gs: Seq<ConvertedGame>) -> Seq<Seq<char>>
    decreases gs.len(),
{
    if gs.len() == 0 {
        Seq::empty()
    } else {
        gs[0].lines() + converted_lines(gs.drop_first())
    }
}

proof fn lemma_quiet_handed(s: UgnState, ls: Seq<Seq<char>>)
    requires
        ugn_quiet(s, ls),
    ensures
        ugn_handed(s, ls) == Seq::<(Seq<Seq<char>>, Option<Seq<char>>)>::empty(),
    decreases ls.len(),
{
    if ls.len() > 0 {
        lemma_quiet_handed(ugn_next(s, ls[0]), ls.drop_first());
    }
}

proof fn lemma_handed_append(s: UgnState, a: Seq<Seq<char>>, b: Seq<Seq<char>>)
    ensures
        ugn_handed(s, a + b) == ugn_handed(s, a) + ugn_handed(ugn_feed(s, a), b),
    decreases a.len(),
{
    if a.len() == 0 {
        assert(a + b =~= b);
        assert(ugn_handed(s, a) + ugn_handed(s, b) =~= ugn_handed(s, b));
    } else {
        lemma_handed_append(ugn_next(s, a[0]), a.drop_first(), b);
        assert((a + b).drop_first() =~= a.drop_first() + b);
        assert((a + b)[0] == a[0]);
        lemma_feed_append(ugn_next(s, a[0]), a.drop_first(), b);
        assert(ugn_handed(s, a + b) =~= ugn_handed(s, a) + ugn_handed(ugn_feed(s, a), b));
    }
}

proof fn lemma_converted_games_from(s: UgnState, gs: Seq<ConvertedGame>)
    requires
        s.found_game || s.moves_text.len() == 0,
        forall|i: int| 0 <= i < gs.len() ==> (#[trigger] gs[i]).wf(),
    ensures
        ugn_handed(s, converted_lines(gs)) + ugn_pending(ugn_feed(s, converted_lines(gs)))
            == ugn_pending(s) + gs.map_values(|g: ConvertedGame| g.read_back()),
    decreases gs.len(),
{
    if gs.len() == 0 {
        assert(ugn_handed(s, Seq::<Seq<char>>::empty()) =~= Seq::<
            (Seq<Seq<char>>, Option<Seq<char>>),
        >::empty());
        assert(gs.map_values(|g: ConvertedGame| g.read_back()) =~= Seq::<
            (Seq<Seq<char>>, Option<Seq<char>>),
        >::empty());
        assert(ugn_handed(s, converted_lines(gs)) + ugn_pending(s) =~= ugn_pending(s)
            + gs.map_values(|g: ConvertedGame| g.read_back()));
    } else {
        let g = gs[0];
        let d = gs.drop_first();
        assert(g.wf());
        assert forall|i: int| 0 <= i < d.len() implies (#[trigger] d[i]).wf() by {
            assert(d[i] == gs[i + 1]);
        }
        let bl = g.lines();
        lemma_converted_block(s, g.tags, g.moves, g.result);
        let s3 = ugn_feed(s, bl);
        lemma_converted_games_from(s3, d);
        lemma_feed_append(s, bl, converted_lines(d));
        lemma_handed_append(s, bl, converted_lines(d));
        lemma_quiet_handed(ugn_next(s, bl[0]), bl.drop_first());
        assert(ugn_handed(s, bl) =~= ugn_pending(s));
        assert(ugn_pending(s3) =~= seq![g.read_back()]);
        assert(gs.map_values(|g: ConvertedGame| g.read_back()) =~= seq![g.read_back()]
            + d.map_values(|g: ConvertedGame| g.read_back()));
        assert(ugn_handed(s, converted_lines(gs)) + ugn_pending(ugn_feed(s, converted_lines(gs)))
            =~= ugn_pending(s) + gs.map_values(|g: ConvertedGame| g.read_back()));
    }
}

/// Reading back the converter's output for several games: fed to a fresh UGN
/// parser, the lines hand out every game but the last, in order, and the
/// parser then holds the last (for `finish` to hand out); each with its UCI
/// moves and its result (`1-0`, `0-1`, `1/2-1/2`; `*` for any other). So the
/// parser reads back exactly as many games as were converted.
pub proof fn law_ugn_converted_games(gs: Seq<ConvertedGame>)
    requires
        forall|i: int| 0 <= i < gs.len() ==> (#[trigger] gs[i]).wf(),
    ensures
        ugn_handed(ugn_fresh(), converted_lines(gs)) + ugn_pending(
            ugn_feed(ugn_fresh(), converted_lines(gs)),
        ) == gs.map_values(|g: ConvertedGame| g.read_back()),
{
    lemma_converted_games_from(ugn_fresh(), gs);
    assert(ugn_pending(ugn_fresh()) + gs.map_values(|g: ConvertedGame| g.read_back())
        =~= gs.map_values(|g: ConvertedGame| g.read_back()));
}

proof fn lemma_reachable(s: UgnState, ls: Seq<Seq<char>>)
    requires
        s.found_game || s == ugn_fresh(),
    ensures
        ugn_feed(s, ls).found_game || ugn_feed(s, ls) == ugn_fresh(),
    decreases ls.len(),
{
    if ls.len() > 0 {
        let n = ugn_next(s, ls[0]);
        assert(n.found_game || n =~= ugn_fresh());
        lemma_reachable(n, ls.drop_first());
    }
}

/// Each block is read from its own lines: whatever lines come before a line
/// that opens a block, the parser hands out the game they leave open (if
/// any) at that line, and from there on reads exactly as a fresh parser given
/// the input from that line on.
pub proof fn law_ugn_block_from_own_lines(
    pre: Seq<Seq<char>>,
    l: Seq<char>,
    rest: Seq<Seq<char>>,
)
    requires
        ugn_opens(l),
    ensures
        ugn_feed(ugn_fresh(), pre + seq![l] + rest) == ugn_feed(ugn_fresh(), seq![l] + rest),
        ugn_handed(ugn_fresh(), pre + seq![l] + rest) == ugn_handed(ugn_fresh(), pre) + ugn_pending(
            ugn_feed(ugn_fresh(), pre),
        ) + ugn_handed(ugn_fresh(), seq![l] + rest),
{
    let f = ugn_fresh();
    let s = ugn_feed(f, pre);
    lemma_reachable(f, pre);
    let tail = seq![l] + rest;
    assert(pre + seq![l] + rest =~= pre + tail);
    lemma_feed_append(f, pre, tail);
    lemma_handed_append(f, pre, tail);
    assert(tail[0] == l);
    assert(tail.drop_first() =~= rest);
    assert(ugn_next(s, l) == ugn_next(f, l));
    assert(!ugn_yields(f, l));
    assert(ugn_yields(s, l) == s.found_game);
    assert(ugn_handed(s, tail) =~= ugn_pending(s) + ugn_handed(f, tail));
}

} // verus!
