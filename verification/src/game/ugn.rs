//! UGN, the universal game notation: `@game` blocks of `@tag value` lines and
//! `:` move lines.

use vstd::prelude::*;
use vstd::hash_map::StringHashMap;

use crate::game::chess::{strings_view, tags_view};
use crate::game::{game_is, tag_get, GameParser, RawGame};
use crate::text::{
    chars_of, find_char, index_of, lemma_index_of, is_whitespace, is_ws, lemma_trim_start_suffix, lemma_word_len,
    next_word, range_eq, skip_ws, split_ws, string_of, trim, trim_bounds, trim_start, word_end,
    word_len,
};

verus! {

/// An ASCII letter.
pub open spec fn is_alpha(c: char) -> bool {
    let u = c as u32;
    (65 <= u && u <= 90) || (97 <= u && u <= 122)
}

/// `s` without its trailing ASCII letters.
pub open spec fn strip_end_alpha(s: Seq<char>) -> Seq<char>
    decreases s.len(),
{
    if s.len() > 0 && is_alpha(s.last()) {
        strip_end_alpha(s.drop_last())
    } else {
        s
    }
}

pub open spec fn is_result_base(b: Seq<char>) -> bool {
    ||| b == seq!['1', '-', '0']
    ||| b == seq!['0', '-', '1']
    ||| b == seq!['1', '/', '2']
    ||| b == seq!['1', '/', '2', '-', '1', '/', '2']
    ||| b == seq!['*']
}

/// A Go win: `B+` or `W+`, then the score (`B+2.5`, `W+R`).
pub open spec fn is_go_win(t: Seq<char>) -> bool {
    t.len() >= 2 && (t[0] == 'B' || t[0] == 'W') && t[1] == '+'
}

/// A result token of any game: a chess result (`1-0`, `0-1`, `1/2`,
/// `1/2-1/2`, `*`), possibly with a letter suffix (`1-0R`, `0-1T`), or a Go
/// win (`B+<score>`, `W+<score>`).
pub open spec fn is_result_token_spec(t: Seq<char>) -> bool {
    is_result_base(strip_end_alpha(t)) || is_go_win(t)
}

/// The Go draw `0`, possibly with a letter suffix.
pub open spec fn is_go_draw(t: Seq<char>) -> bool {
    strip_end_alpha(t) == seq!['0']
}

/// A result token of a block: any game's result token, and in a Go block
/// also the draw `0` (in other games `0` is a move, as tic-tac-toe's cell 0).
pub open spec fn is_block_result_token(t: Seq<char>, go: bool) -> bool {
    is_result_token_spec(t) || (go && is_go_draw(t))
}

fn is_alpha_char(c: char) -> (res: bool)
    ensures
        res == is_alpha(c),
{
    let u = c as u32;
    (65 <= u && u <= 90) || (97 <= u && u <= 122)
}

fn alpha_back(s: &[char], lo: usize, hi: usize) -> (j: usize)
    requires
        lo <= hi <= s@.len(),
    ensures
        lo <= j <= hi,
        strip_end_alpha(s@.subrange(lo as int, hi as int)) == s@.subrange(lo as int, j as int),
{
    let mut j = hi;
    while j > lo && is_alpha_char(s[j - 1])
        invariant
            lo <= j <= hi <= s@.len(),
            strip_end_alpha(s@.subrange(lo as int, hi as int)) == strip_end_alpha(
                s@.subrange(lo as int, j as int),
            ),
        decreases j - lo,
    {
        assert(s@.subrange(lo as int, j as int).drop_last() =~= s@.subrange(lo as int, j - 1));
        j = j - 1;
    }
    j
}

fn result_base_in(s: &[char], lo: usize, hi: usize) -> (res: bool)
    requires
        lo <= hi <= s@.len(),
    ensures
        res == is_result_base(s@.subrange(lo as int, hi as int)),
{
    let w = ['1', '-', '0'];
    let l = ['0', '-', '1'];
    let h = ['1', '/', '2'];
    let d = ['1', '/', '2', '-', '1', '/', '2'];
    let u = ['*'];
    assert(w@ =~= seq!['1', '-', '0']);
    assert(l@ =~= seq!['0', '-', '1']);
    assert(h@ =~= seq!['1', '/', '2']);
    assert(d@ =~= seq!['1', '/', '2', '-', '1', '/', '2']);
    assert(u@ =~= seq!['*']);
    range_eq(s, lo, hi, &w) || range_eq(s, lo, hi, &l) || range_eq(s, lo, hi, &h) || range_eq(
        s,
        lo,
        hi,
        &d,
    ) || range_eq(s, lo, hi, &u)
}

fn result_token_in(s: &[char], lo: usize, hi: usize) -> (res: bool)
    requires
        lo <= hi <= s@.len(),
    ensures
        res == is_result_token_spec(s@.subrange(lo as int, hi as int)),
{
    let go_win = hi - lo >= 2 && (s[lo] == 'B' || s[lo] == 'W') && s[lo + 1] == '+';
    let j = alpha_back(s, lo, hi);
    result_base_in(s, lo, j) || go_win
}

/// Whether `s` is a result token of any game: a chess result (`1-0`, `0-1`,
/// `1/2`, `1/2-1/2`, `*`), possibly followed by letters (`1-0R`, `0-1T`), or
/// a Go win (`B+<score>`, `W+<score>`).
pub fn is_result_token(s: &str) -> (res: bool)
    ensures
        res == is_result_token_spec(s@),
{
    let cs = chars_of(s);
    assert(cs@.subrange(0, cs@.len() as int) =~= s@);
    result_token_in(&cs, 0, cs.len())
}

fn block_result_token_in(s: &[char], lo: usize, hi: usize, go: bool) -> (res: bool)
    requires
        lo <= hi <= s@.len(),
    ensures
        res == is_block_result_token(s@.subrange(lo as int, hi as int), go),
{
    if result_token_in(s, lo, hi) {
        return true;
    }
    let j = alpha_back(s, lo, hi);
    let z = ['0'];
    assert(z@ =~= seq!['0']);
    go && range_eq(s, lo, j, &z)
}

pub open spec fn is_annotation(c: char) -> bool {
    c == '!' || c == '?' || c == '{'
}

/// Length of the pure move at the start of a move token.
pub open spec fn move_len(t: Seq<char>) -> nat
    decreases t.len(),
{
    if t.len() == 0 || is_annotation(t[0]) {
        0
    } else {
        1 + move_len(t.drop_first())
    }
}

/// The pure move of a token: everything before the first `!`, `?` or `{`.
pub open spec fn strip_annotations_spec(t: Seq<char>) -> Seq<char> {
    t.take(move_len(t) as int)
}

pub proof fn lemma_move_len(t: Seq<char>)
    ensures
        move_len(t) <= t.len(),
    decreases t.len(),
{
    if t.len() > 0 && !is_annotation(t[0]) {
        lemma_move_len(t.drop_first());
    }
}

fn annotation_start(s: &[char], lo: usize, hi: usize) -> (j: usize)
    requires
        lo <= hi <= s@.len(),
    ensures
        lo <= j <= hi,
        j == lo + move_len(s@.subrange(lo as int, hi as int)),
{
    let mut j = lo;
    while j < hi && !(s[j] == '!' || s[j] == '?' || s[j] == '{')
        invariant
            lo <= j <= hi <= s@.len(),
            move_len(s@.subrange(lo as int, hi as int)) == (j - lo) + move_len(
                s@.subrange(j as int, hi as int),
            ),
        decreases hi - j,
    {
        assert(s@.subrange(j as int, hi as int).drop_first() =~= s@.subrange(j + 1, hi as int));
        j = j + 1;
    }
    j
}

/// The pure move of a token: everything before the first `!`, `?` or `{`.
pub fn strip_annotations(token: &str) -> (res: String)
    ensures
        res@ == strip_annotations_spec(token@),
{
    let cs = chars_of(token);
    assert(cs@.subrange(0, cs@.len() as int) =~= token@);
    let j = annotation_start(&cs, 0, cs.len());
    assert(token@.take(j as int) =~= cs@.subrange(0, j as int));
    string_of(&cs, 0, j)
}

pub open spec fn true_value() -> Seq<char> {
    seq!['t', 'r', 'u', 'e']
}

/// The end of a bare value: the next `@`, or the end.
pub open spec fn bare_value_end(r: Seq<char>) -> int {
    match index_of(r, '@') {
        Some(i) => i,
        None => r.len() as int,
    }
}

/// Inline tags read from `rest` (already trimmed at its start), on top of `tags`.
///
/// Each `@name` is followed by nothing or another tag (a boolean tag, value
/// `true`), a quoted value (up to the closing quote, or the rest of the text
/// if there is none), or a bare value up to the next `@`, trimmed.
pub open spec fn inline_tags_from(rest: Seq<char>, tags: Map<Seq<char>, Seq<char>>) -> Map<
    Seq<char>,
    Seq<char>,
>
    decreases rest.len(),
{
    match index_of(rest, '@') {
        None => tags,
        Some(at) => {
            proof {
                crate::text::lemma_index_of(rest, '@');
            }
            let r1 = rest.skip(at + 1);
            let name = r1.take(word_len(r1) as int);
            proof {
                lemma_word_len(r1);
                lemma_trim_start_suffix(r1.skip(word_len(r1) as int));
            }
            let r2 = trim_start(r1.skip(word_len(r1) as int));
            if r2.len() == 0 || r2[0] == '@' {
                inline_tags_from(r2, tags.insert(name, true_value()))
            } else if r2[0] == '"' {
                let after = r2.drop_first();
                match index_of(after, '"') {
                    Some(close) => {
                        proof {
                            crate::text::lemma_index_of(after, '"');
                            lemma_trim_start_suffix(after.skip(close + 1));
                        }
                        inline_tags_from(
                            trim_start(after.skip(close + 1)),
                            tags.insert(name, after.take(close)),
                        )
                    },
                    None => tags.insert(name, after),
                }
            } else {
                proof {
                    crate::text::lemma_index_of(r2, '@');
                }
                let ve = bare_value_end(r2);
                let value = trim(r2.take(ve));
                inline_tags_from(
                    r2.skip(ve),
                    tags.insert(
                        name,
                        if value.len() > 0 {
                            value
                        } else {
                            true_value()
                        },
                    ),
                )
            }
        },
    }
}

/// Inline tags such as `@white "Magnus Carlsen" @elo 2850`, read into `tags`.
pub open spec fn inline_tags_spec(s: Seq<char>, tags: Map<Seq<char>, Seq<char>>) -> Map<
    Seq<char>,
    Seq<char>,
> {
    inline_tags_from(trim(s), tags)
}

/// A string with the chars `true`.
fn true_string() -> (res: String)
    ensures
        res@ == true_value(),
{
    proof {
        reveal_strlit("true");
    }
    let s = "true".to_owned();
    assert(s@ =~= true_value());
    s
}

fn insert_tag(tags: &mut StringHashMap<String>, k: String, v: String)
    ensures
        tags_view(final(tags)@) == tags_view(old(tags)@).insert(k@, v@),
{
    tags.insert(k, v);
    assert(tags_view(tags@) =~= tags_view(old(tags)@).insert(k@, v@));
}

fn inline_tags_in(s: &[char], lo: usize, hi: usize, tags: &mut StringHashMap<String>)
    requires
        lo <= hi <= s@.len(),
    ensures
        tags_view(final(tags)@) == inline_tags_spec(
            s@.subrange(lo as int, hi as int),
            tags_view(old(tags)@),
        ),
{
    let (a, b) = trim_bounds(s, lo, hi);
    let mut pos = a;
    loop
        invariant
            a <= pos <= b <= s@.len(),
            lo <= hi <= s@.len(),
            trim(s@.subrange(lo as int, hi as int)) == s@.subrange(a as int, b as int),
            inline_tags_from(s@.subrange(a as int, b as int), tags_view(old(tags)@))
                == inline_tags_from(s@.subrange(pos as int, b as int), tags_view(tags@)),
        decreases b - pos,
    {
        let ghost rest = s@.subrange(pos as int, b as int);
        let ghost cur = tags_view(tags@);
        let at = match find_char(s, pos, b, '@') {
            Some(i) => i,
            None => return ,
        };
        let name_start = at + 1;
        let name_end = word_end(s, name_start, b);
        let ghost r1 = rest.skip(at - pos + 1);
        assert(r1 =~= s@.subrange(name_start as int, b as int));
        let name = string_of(s, name_start, name_end);
        assert(r1.take(word_len(r1) as int) =~= s@.subrange(name_start as int, name_end as int));
        assert(r1.skip(word_len(r1) as int) =~= s@.subrange(name_end as int, b as int));
        let r2_start = skip_ws(s, name_end, b);
        let ghost r2 = s@.subrange(r2_start as int, b as int);
        if r2_start == b || s[r2_start] == '@' {
            let t = true_string();
            insert_tag(tags, name, t);
            pos = r2_start;
        } else if s[r2_start] == '"' {
            let after_start = r2_start + 1;
            assert(r2.drop_first() =~= s@.subrange(after_start as int, b as int));
            match find_char(s, after_start, b, '"') {
                Some(close) => {
                    let ghost after = r2.drop_first();
                    assert(after.take(close - after_start) =~= s@.subrange(
                        after_start as int,
                        close as int,
                    ));
                    assert(after.skip(close - after_start + 1) =~= s@.subrange(
                        close + 1,
                        b as int,
                    ));
                    let v = string_of(s, after_start, close);
                    insert_tag(tags, name, v);
                    pos = skip_ws(s, close + 1, b);
                },
                None => {
                    let v = string_of(s, after_start, b);
                    insert_tag(tags, name, v);
                    assert(inline_tags_from(s@.subrange(b as int, b as int), tags_view(tags@))
                        == tags_view(tags@)) by {
                        assert(index_of(s@.subrange(b as int, b as int), '@') is None);
                    }
                    pos = b;
                    return ;
                },
            }
        } else {
            let ve = match find_char(s, r2_start, b, '@') {
                Some(i) => i,
                None => b,
            };
            assert(ve - r2_start == crate::game::ugn::bare_value_end(r2));
            assert(r2.take(ve - r2_start) =~= s@.subrange(r2_start as int, ve as int));
            assert(r2.skip(ve - r2_start) =~= s@.subrange(ve as int, b as int));
            let (va, vb) = trim_bounds(s, r2_start, ve);
            let v = if va < vb {
                string_of(s, va, vb)
            } else {
                true_string()
            };
            insert_tag(tags, name, v);
            pos = ve;
        }
    }
}

/// Reads inline tags such as `@white "Magnus Carlsen" @elo 2850` into `tags`.
pub fn parse_inline_tags(s: &str, tags: &mut StringHashMap<String>)
    ensures
        tags_view(final(tags)@) == inline_tags_spec(s@, tags_view(old(tags)@)),
{
    let cs = chars_of(s);
    assert(cs@.subrange(0, cs@.len() as int) =~= s@);
    inline_tags_in(&cs, 0, cs.len(), tags);
}


pub open spec fn game_word() -> Seq<char> {
    seq!['@', 'g', 'a', 'm', 'e']
}

pub open spec fn type_key() -> Seq<char> {
    seq!['_', 't', 'y', 'p', 'e']
}

pub open spec fn ugn_result_key() -> Seq<char> {
    seq!['r', 'e', 's', 'u', 'l', 't']
}

pub open spec fn starts_with_game(t: Seq<char>) -> bool {
    t.len() >= 5 && t.take(5) == game_word()
}

/// `s` without its leading repetitions of `@game`.
pub open spec fn strip_game_prefix(s: Seq<char>) -> Seq<char>
    decreases s.len(),
{
    if starts_with_game(s) {
        strip_game_prefix(s.skip(5))
    } else {
        s
    }
}

/// Length of the game type at the start of `s`: up to whitespace or `@`.
pub open spec fn type_len(s: Seq<char>) -> nat
    decreases s.len(),
{
    if s.len() == 0 || is_ws(s[0]) || s[0] == '@' {
        0
    } else {
        1 + type_len(s.drop_first())
    }
}

/// The tags of a `@game <type> [inline-tags]` line, on top of `tags`.
pub open spec fn game_line_tags(t: Seq<char>, tags: Map<Seq<char>, Seq<char>>) -> Map<
    Seq<char>,
    Seq<char>,
> {
    let after = trim(strip_game_prefix(t));
    let ty = after.take(type_len(after) as int);
    let tags1 = if ty.len() > 0 {
        tags.insert(type_key(), ty)
    } else {
        tags
    };
    let rem = after.skip(type_len(after) as int);
    if trim(rem).len() > 0 {
        inline_tags_spec(rem, tags1)
    } else {
        tags1
    }
}

/// The moves among the words of a UGN move text: result tokens (with `go`,
/// those of a Go block) are skipped, annotations stripped, and empty moves
/// dropped.
pub open spec fn ugn_moves_from(words: Seq<Seq<char>>, go: bool) -> Seq<Seq<char>>
    decreases words.len(),
{
    if words.len() == 0 {
        seq![]
    } else {
        let t = words[0];
        if is_block_result_token(t, go) || strip_annotations_spec(t).len() == 0 {
            ugn_moves_from(words.drop_first(), go)
        } else {
            seq![strip_annotations_spec(t)] + ugn_moves_from(words.drop_first(), go)
        }
    }
}

/// The last result token among `words` (with `go`, of a Go block), or `r`
/// if there is none.
pub open spec fn ugn_result_from(words: Seq<Seq<char>>, r: Option<Seq<char>>, go: bool) -> Option<
    Seq<char>,
>
    decreases words.len(),
{
    if words.len() == 0 {
        r
    } else if is_block_result_token(words[0], go) {
        ugn_result_from(words.drop_first(), Some(words[0]), go)
    } else {
        ugn_result_from(words.drop_first(), r, go)
    }
}

/// A UGN result in the form the tokenizer reads: `1-0`, `0-1` or
/// `1/2-1/2` whatever letter suffix it had; any other result unchanged.
pub open spec fn normalize_result(r: Seq<char>) -> Seq<char> {
    let base = strip_end_alpha(r);
    if base == seq!['1', '-', '0'] {
        seq!['1', '-', '0']
    } else if base == seq!['0', '-', '1'] {
        seq!['0', '-', '1']
    } else if base == seq!['1', '/', '2'] || base == seq!['1', '/', '2', '-', '1', '/', '2'] {
        seq!['1', '/', '2', '-', '1', '/', '2']
    } else {
        r
    }
}

pub open spec fn normalized(r: Option<Seq<char>>) -> Option<Seq<char>> {
    match r {
        Some(x) => Some(normalize_result(x)),
        None => None,
    }
}

fn starts_with_game_in(s: &[char], lo: usize, hi: usize) -> (res: bool)
    requires
        lo <= hi <= s@.len(),
    ensures
        res == starts_with_game(s@.subrange(lo as int, hi as int)),
{
    if hi - lo < 5 {
        return false;
    }
    let g = ['@', 'g', 'a', 'm', 'e'];
    assert(g@ =~= game_word());
    assert(s@.subrange(lo as int, hi as int).take(5) =~= s@.subrange(lo as int, lo + 5));
    range_eq(s, lo, lo + 5, &g)
}

fn skip_game_prefix(s: &[char], lo: usize, hi: usize) -> (i: usize)
    requires
        lo <= hi <= s@.len(),
    ensures
        lo <= i <= hi,
        strip_game_prefix(s@.subrange(lo as int, hi as int)) == s@.subrange(i as int, hi as int),
{
    let mut i = lo;
    while starts_with_game_in(s, i, hi)
        invariant
            lo <= i <= hi <= s@.len(),
            strip_game_prefix(s@.subrange(lo as int, hi as int)) == strip_game_prefix(
                s@.subrange(i as int, hi as int),
            ),
        decreases hi - i,
    {
        assert(s@.subrange(i as int, hi as int).skip(5) =~= s@.subrange(i + 5, hi as int));
        i = i + 5;
    }
    i
}

fn type_end(s: &[char], lo: usize, hi: usize) -> (j: usize)
    requires
        lo <= hi <= s@.len(),
    ensures
        lo <= j <= hi,
        j == lo + type_len(s@.subrange(lo as int, hi as int)),
{
    let mut j = lo;
    while j < hi && !(is_whitespace(s[j]) || s[j] == '@')
        invariant
            lo <= j <= hi <= s@.len(),
            type_len(s@.subrange(lo as int, hi as int)) == (j - lo) + type_len(
                s@.subrange(j as int, hi as int),
            ),
        decreases hi - j,
    {
        assert(s@.subrange(j as int, hi as int).drop_first() =~= s@.subrange(j + 1, hi as int));
        j = j + 1;
    }
    j
}

fn read_game_line(s: &[char], lo: usize, hi: usize, tags: &mut StringHashMap<String>)
    requires
        lo <= hi <= s@.len(),
    ensures
        tags_view(final(tags)@) == game_line_tags(
            s@.subrange(lo as int, hi as int),
            tags_view(old(tags)@),
        ),
{
    proof {
        reveal_strlit("_type");
    }
    let p = skip_game_prefix(s, lo, hi);
    let (a, b) = trim_bounds(s, p, hi);
    let te = type_end(s, a, b);
    let ghost after = s@.subrange(a as int, b as int);
    assert(after.take(type_len(after) as int) =~= s@.subrange(a as int, te as int));
    assert(after.skip(type_len(after) as int) =~= s@.subrange(te as int, b as int));
    if te > a {
        let k = "_type".to_owned();
        assert(k@ =~= type_key());
        let v = string_of(s, a, te);
        insert_tag(tags, k, v);
    }
    let (ra, rb) = trim_bounds(s, te, b);
    if ra < rb {
        inline_tags_in(s, te, b, tags);
    }
}

/// The fields of `s` between `|` separators.
pub open spec fn split_bars(s: Seq<char>) -> Seq<Seq<char>>
    decreases s.len(),
{
    match index_of(s, '|') {
        None => seq![s],
        Some(i) => {
            proof {
                lemma_index_of(s, '|');
            }
            seq![s.take(i)] + split_bars(s.skip(i + 1))
        },
    }
}

/// A line in the compact one-line form `<type>|<tags>|<moves>|<result>`:
/// at least three `|`-separated fields, and not a tag or move line.
pub open spec fn is_compact(t: Seq<char>) -> bool {
    t.len() > 0 && t[0] != '@' && t[0] != ':' && split_bars(t).len() >= 3
}

/// The tag of a compact-form tag field `key:value`, on top of `tags`: the
/// value trimmed, or `true` when there is none; empty fields hold no tag.
pub open spec fn compact_field_tag(f: Seq<char>, tags: Map<Seq<char>, Seq<char>>) -> Map<
    Seq<char>,
    Seq<char>,
> {
    let g = trim(f);
    if g.len() == 0 {
        tags
    } else {
        match index_of(g, ':') {
            None => tags.insert(g, true_value()),
            Some(i) => {
                let v = trim(g.skip(i + 1));
                tags.insert(g.take(i), if v.len() == 0 { true_value() } else { v })
            },
        }
    }
}

/// The tags of compact-form tag fields, in order, on top of `tags`.
pub open spec fn compact_tags_from(fs: Seq<Seq<char>>, tags: Map<Seq<char>, Seq<char>>) -> Map<
    Seq<char>,
    Seq<char>,
> decreases fs.len(),
{
    if fs.len() == 0 {
        tags
    } else {
        compact_tags_from(fs.drop_first(), compact_field_tag(fs[0], tags))
    }
}

/// The block that a compact line holds: the first field is the game type,
/// the last the result, the one before it the moves, and the fields between
/// are tags.
pub open spec fn compact_state(t: Seq<char>) -> UgnState {
    let fs = split_bars(t);
    let n = fs.len();
    let ty = trim(fs[0]);
    let t0 = if ty.len() > 0 {
        Map::<Seq<char>, Seq<char>>::empty().insert(type_key(), ty)
    } else {
        Map::<Seq<char>, Seq<char>>::empty()
    };
    let t1 = compact_tags_from(fs.subrange(1, n - 2), t0);
    let r = trim(fs[n - 1]);
    UgnState {
        tags: if r.len() > 0 { t1.insert(ugn_result_key(), r) } else { t1 },
        moves_text: trim(fs[n - 2]),
        found_game: true,
    }
}

/// The fields of `s[lo..hi]` between `|` separators, as bounds in `s`.
fn bar_fields(s: &[char], lo: usize, hi: usize) -> (res: Vec<(usize, usize)>)
    requires
        lo <= hi <= s@.len(),
    ensures
        res@.len() == split_bars(s@.subrange(lo as int, hi as int)).len(),
        forall|i: int|
            0 <= i < res@.len() ==> #[trigger] res@[i].0 <= res@[i].1 <= hi && lo <= res@[i].0
                && s@.subrange(res@[i].0 as int, res@[i].1 as int) == split_bars(
                s@.subrange(lo as int, hi as int),
            )[i],
{
    let ghost whole = split_bars(s@.subrange(lo as int, hi as int));
    let mut res: Vec<(usize, usize)> = Vec::new();
    let mut pos = lo;
    loop
        invariant_except_break
            res@.len() + split_bars(s@.subrange(pos as int, hi as int)).len() == whole.len(),
            forall|i: int|
                0 <= i < res@.len() ==> #[trigger] res@[i].0 <= res@[i].1 <= hi && lo <= res@[i].0
                    && s@.subrange(res@[i].0 as int, res@[i].1 as int) == whole[i],
            forall|j: int|
                0 <= j < split_bars(s@.subrange(pos as int, hi as int)).len() ==> #[trigger] split_bars(
                    s@.subrange(pos as int, hi as int),
                )[j] == whole[res@.len() + j],
        invariant
            lo <= pos <= hi <= s@.len(),
            whole == split_bars(s@.subrange(lo as int, hi as int)),
        ensures
            res@.len() == whole.len(),
            forall|i: int|
                0 <= i < res@.len() ==> #[trigger] res@[i].0 <= res@[i].1 <= hi && lo <= res@[i].0
                    && s@.subrange(res@[i].0 as int, res@[i].1 as int) == whole[i],
        decreases hi - pos,
    {
        let ghost rest = s@.subrange(pos as int, hi as int);
        let ghost sr = split_bars(rest);
        match find_char(s, pos, hi, '|') {
            None => {
                assert(sr == seq![rest]);
                assert(sr[0] == rest);
                assert(whole[res@.len() + 0int] == rest);
                res.push((pos, hi));
                break;
            },
            Some(k) => {
                proof {
                    lemma_index_of(rest, '|');
                }
                assert(rest.take(k - pos) =~= s@.subrange(pos as int, k as int));
                assert(rest.skip(k - pos + 1) =~= s@.subrange(k + 1, hi as int));
                assert(sr == seq![s@.subrange(pos as int, k as int)] + split_bars(
                    s@.subrange(k + 1, hi as int),
                ));
                assert(sr[0] == s@.subrange(pos as int, k as int));
                assert(whole[res@.len() + 0int] == s@.subrange(pos as int, k as int));
                let ghost nxt = split_bars(s@.subrange(k + 1, hi as int));
                assert forall|j: int| 0 <= j < nxt.len() implies #[trigger] nxt[j] == whole[res@.len()
                    + 1 + j] by {
                    assert(nxt[j] == sr[j + 1]);
                }
                let ghost prev = res@;
                res.push((pos, k));
                assert forall|i: int| 0 <= i < res@.len() implies #[trigger] res@[i].0 <= res@[i].1
                    <= hi && lo <= res@[i].0 && s@.subrange(res@[i].0 as int, res@[i].1 as int)
                    == whole[i] by {
                    if i < prev.len() {
                        assert(res@[i] == prev[i]);
                    } else {
                        assert(res@[i] == (pos, k));
                        assert(i == prev.len());
                    }
                }
                pos = k + 1;
            },
        }
    }
    res
}

/// Adds the tag of the compact-form field `s[lo..hi]` to `tags`.
fn compact_field_in(s: &[char], lo: usize, hi: usize, tags: &mut StringHashMap<String>)
    requires
        lo <= hi <= s@.len(),
    ensures
        tags_view(final(tags)@) == compact_field_tag(
            s@.subrange(lo as int, hi as int),
            tags_view(old(tags)@),
        ),
{
    let (a, b) = trim_bounds(s, lo, hi);
    let ghost g = s@.subrange(a as int, b as int);
    if a == b {
        return ;
    }
    match find_char(s, a, b, ':') {
        None => {
            let k = string_of(s, a, b);
            let v = true_string();
            insert_tag(tags, k, v);
        },
        Some(c) => {
            assert(g.take(c - a) =~= s@.subrange(a as int, c as int));
            assert(g.skip(c - a + 1) =~= s@.subrange(c + 1, b as int));
            let k = string_of(s, a, c);
            let (va, vb) = trim_bounds(s, c + 1, b);
            let v = if va < vb {
                string_of(s, va, vb)
            } else {
                true_string()
            };
            insert_tag(tags, k, v);
        },
    }
}

/// Reads the compact line `s[lo..hi]`, split at `fields`, into `tags` and
/// `moves` (both empty before).
fn read_compact(
    s: &[char],
    lo: usize,
    hi: usize,
    fields: &Vec<(usize, usize)>,
    tags: &mut StringHashMap<String>,
    moves: &mut Vec<char>,
)
    requires
        lo <= hi <= s@.len(),
        is_compact(s@.subrange(lo as int, hi as int)),
        fields@.len() == split_bars(s@.subrange(lo as int, hi as int)).len(),
        forall|i: int|
            0 <= i < fields@.len() ==> #[trigger] fields@[i].0 <= fields@[i].1 <= hi && lo
                <= fields@[i].0 && s@.subrange(fields@[i].0 as int, fields@[i].1 as int)
                == split_bars(s@.subrange(lo as int, hi as int))[i],
        tags_view(old(tags)@) == Map::<Seq<char>, Seq<char>>::empty(),
        old(moves)@ == Seq::<char>::empty(),
    ensures
        tags_view(final(tags)@) == compact_state(s@.subrange(lo as int, hi as int)).tags,
        final(moves)@ == compact_state(s@.subrange(lo as int, hi as int)).moves_text,
{
    proof {
        reveal_strlit("_type");
        reveal_strlit("result");
    }
    let ghost t = s@.subrange(lo as int, hi as int);
    let ghost fs = split_bars(t);
    let n = fields.len();
    let (ta, tb) = trim_bounds(s, fields[0].0, fields[0].1);
    if ta < tb {
        let k = "_type".to_owned();
        assert(k@ =~= type_key());
        let v = string_of(s, ta, tb);
        insert_tag(tags, k, v);
    }
    let ghost t0 = tags_view(tags@);
    assert(fs.subrange(1, n - 2) =~= fs.subrange(1, n - 2).subrange(0, n - 3));
    let mut i: usize = 1;
    while i < n - 2
        invariant
            1 <= i <= n - 2,
            n == fields@.len() == fs.len(),
            n >= 3,
            fs == split_bars(s@.subrange(lo as int, hi as int)),
            forall|j: int|
                0 <= j < fields@.len() ==> #[trigger] fields@[j].0 <= fields@[j].1 <= hi && lo
                    <= fields@[j].0 && s@.subrange(fields@[j].0 as int, fields@[j].1 as int)
                    == fs[j],
            hi <= s@.len(),
            compact_tags_from(fs.subrange(1, n - 2), t0) == compact_tags_from(
                fs.subrange(i as int, n - 2),
                tags_view(tags@),
            ),
        decreases n - 2 - i,
    {
        let ghost rest = fs.subrange(i as int, n - 2);
        assert(rest[0] == fs[i as int]);
        assert(rest.drop_first() =~= fs.subrange(i + 1, n - 2));
        assert(fields@[i as int].0 <= fields@[i as int].1 <= hi);
        compact_field_in(s, fields[i].0, fields[i].1, tags);
        i = i + 1;
    }
    assert(fs.subrange(i as int, n - 2) =~= Seq::<Seq<char>>::empty());
    assert(fields@[n - 2].0 <= fields@[n - 2].1 <= hi);
    let (ma, mb) = trim_bounds(s, fields[n - 2].0, fields[n - 2].1);
    let mut j = ma;
    while j < mb
        invariant
            ma <= j <= mb <= s@.len(),
            moves@ == s@.subrange(ma as int, j as int),
        decreases mb - j,
    {
        moves.push(s[j]);
        assert(moves@ =~= s@.subrange(ma as int, j + 1));
        j = j + 1;
    }
    assert(fields@[n - 1].0 <= fields@[n - 1].1 <= hi);
    let (ra, rb) = trim_bounds(s, fields[n - 1].0, fields[n - 1].1);
    if ra < rb {
        let k = "result".to_owned();
        assert(k@ =~= ugn_result_key());
        let v = string_of(s, ra, rb);
        insert_tag(tags, k, v);
    }
}

/// What a UGN parser holds between lines: the tags read so far, the text of
/// its move lines, and whether a `@game` block is open.
#[verifier::ext_equal]
pub struct UgnState {
    pub tags: Map<Seq<char>, Seq<char>>,
    pub moves_text: Seq<char>,
    pub found_game: bool,
}

/// The state of a parser that holds no game.
pub open spec fn ugn_fresh() -> UgnState {
    UgnState { tags: Map::empty(), moves_text: Seq::empty(), found_game: false }
}

/// The move text after a move line whose trimmed text is `t` (`:` first):
/// the part after the colon, trimmed, joined to the earlier text by a space.
pub open spec fn append_move_line(text: Seq<char>, t: Seq<char>) -> Seq<char> {
    let part = trim(t.drop_first());
    if text.len() == 0 {
        part
    } else {
        text + seq![' '] + part
    }
}

/// The state after one line: blank and `#` lines change nothing; a `@game`
/// line opens a block (dropping the previous one); a compact line is a block
/// of its own (dropping the previous one); within a block, `@` lines add tags
/// and `:` lines add moves; anything else is ignored.
pub open spec fn ugn_next(s: UgnState, line: Seq<char>) -> UgnState {
    let t = trim(line);
    if t.len() == 0 || t[0] == '#' {
        s
    } else if starts_with_game(t) {
        UgnState {
            tags: game_line_tags(t, if s.found_game { Map::empty() } else { s.tags }),
            moves_text: if s.found_game { Seq::empty() } else { s.moves_text },
            found_game: true,
        }
    } else if is_compact(t) {
        compact_state(t)
    } else {
        UgnState {
            tags: if t[0] == '@' && s.found_game { inline_tags_spec(t, s.tags) } else { s.tags },
            moves_text: if t[0] == ':' && s.found_game {
                append_move_line(s.moves_text, t)
            } else {
                s.moves_text
            },
            found_game: s.found_game,
        }
    }
}

/// Whether the line hands out the game of state `s`: a `@game` line or a
/// compact line while a block is open.
pub open spec fn ugn_yields(s: UgnState, line: Seq<char>) -> bool {
    let t = trim(line);
    t.len() > 0 && t[0] != '#' && (starts_with_game(t) || is_compact(t)) && s.found_game
}

/// The state after the lines, one after another.
pub open spec fn ugn_feed(s: UgnState, lines: Seq<Seq<char>>) -> UgnState
    decreases lines.len(),
{
    if lines.len() == 0 {
        s
    } else {
        ugn_feed(ugn_next(s, lines[0]), lines.drop_first())
    }
}

/// The moves of the block that state `s` holds.
pub open spec fn ugn_state_moves(s: UgnState) -> Seq<Seq<char>> {
    ugn_moves_from(split_ws(s.moves_text), is_go_block(s.tags))
}

/// The block's game type is Go.
pub open spec fn is_go_block(tags: Map<Seq<char>, Seq<char>>) -> bool {
    tag_get(tags, type_key()) == Some(seq!['g', 'o'])
}

/// The result of the block that state `s` holds: the last result token of its
/// moves, else its `@result` tag, normalized.
pub open spec fn ugn_state_result(s: UgnState) -> Option<Seq<char>> {
    normalized(
        ugn_result_from(
            split_ws(s.moves_text),
            tag_get(s.tags, ugn_result_key()),
            is_go_block(s.tags),
        ),
    )
}

/// UGN parser: fed line by line, it yields one `RawGame` per `@game` block.
pub struct UgnParser {
    tags: StringHashMap<String>,
    moves_text: Vec<char>,
    found_game: bool,
}

impl UgnParser {
    pub closed spec fn state(&self) -> UgnState {
        UgnState { tags: tags_view(self.tags@), moves_text: self.moves_text@, found_game: self.found_game }
    }

    /// No game is in progress.
    pub open spec fn is_fresh(&self) -> bool {
        self.state() == ugn_fresh()
    }

    /// The game that the state `p` holds.
    pub open spec fn pending_game(p: UgnParser, g: RawGame) -> bool {
        game_is(g, p.state().tags, ugn_state_moves(p.state()), ugn_state_result(p.state()))
    }

    pub fn new() -> (res: Self)
        ensures
            res.is_fresh(),
    {
        let res = UgnParser { tags: StringHashMap::new(), moves_text: Vec::new(), found_game: false };
        assert(res.state() =~= ugn_fresh());
        res
    }

    /// Hands out the pending game and starts afresh.
    fn take_game(&mut self) -> (res: RawGame)
        ensures
            Self::pending_game(*old(self), res),
            final(self).is_fresh(),
    {
        proof {
            reveal_strlit("result");
            assert("result"@ =~= ugn_result_key());
            reveal_strlit("_type");
            assert("_type"@ =~= type_key());
        }
        let mut tags = StringHashMap::new();
        std::mem::swap(&mut tags, &mut self.tags);
        let mut result = match tags.get("result") {
            Some(v) => Some(v.clone()),
            None => None,
        };
        let go = match tags.get("_type") {
            Some(v) => {
                let cs = chars_of(v.as_str());
                let g = ['g', 'o'];
                assert(g@ =~= seq!['g', 'o']);
                assert(cs@.subrange(0, cs@.len() as int) =~= cs@);
                range_eq(&cs, 0, cs.len(), &g)
            },
            None => false,
        };
        assert(go == is_go_block(tags_view(tags@)));
        let ghost words = split_ws(self.moves_text@);
        let ghost r0 = tag_get(tags_view(tags@), ugn_result_key());
        let hi = self.moves_text.len();
        assert(self.moves_text@.subrange(0, hi as int) =~= self.moves_text@);
        let mut moves: Vec<String> = Vec::new();
        let mut pos: usize = 0;
        loop
            invariant
                pos <= hi == self.moves_text@.len(),
                words == split_ws(self.moves_text@),
                strings_view(moves@) + ugn_moves_from(
                    split_ws(self.moves_text@.subrange(pos as int, hi as int)),
                    go,
                ) == ugn_moves_from(words, go),
                ugn_result_from(
                    split_ws(self.moves_text@.subrange(pos as int, hi as int)),
                    crate::game::opt_view(result),
                    go,
                ) == ugn_result_from(words, r0, go),
            ensures
                strings_view(moves@) == ugn_moves_from(words, go),
                crate::game::opt_view(result) == ugn_result_from(words, r0, go),
            decreases hi - pos,
        {
            match next_word(&self.moves_text, pos, hi) {
                None => {
                    assert(strings_view(moves@) =~= strings_view(moves@) + Seq::<
                        Seq<char>,
                    >::empty());
                    break ;
                },
                Some((a, b)) => {
                    let ghost t = self.moves_text@.subrange(a as int, b as int);
                    let ghost ws = split_ws(self.moves_text@.subrange(pos as int, hi as int));
                    assert(ws[0] == t);
                    assert(ws.drop_first() =~= split_ws(self.moves_text@.subrange(b as int, hi as int)));
                    if block_result_token_in(&self.moves_text, a, b, go) {
                        result = Some(string_of(&self.moves_text, a, b));
                    } else {
                        let e = annotation_start(&self.moves_text, a, b);
                        assert(t.take(move_len(t) as int) =~= self.moves_text@.subrange(a as int, e as int));
                        if e > a {
                            let ghost before = strings_view(moves@);
                            let m = string_of(&self.moves_text, a, e);
                            moves.push(m);
                            assert(strings_view(moves@) =~= before.push(strip_annotations_spec(t)));
                            assert(before.push(strip_annotations_spec(t)) + ugn_moves_from(ws.drop_first(), go)
                                =~= before + (seq![strip_annotations_spec(t)] + ugn_moves_from(ws.drop_first(), go)));
                        }
                    }
                    pos = b;
                },
            }
        }
        let normalized_result = match result {
            Some(r) => Some(normalize_owned(r)),
            None => None,
        };
        assert(strings_view(moves@) == ugn_moves_from(words, go));
        assert(crate::game::opt_view(result) == ugn_result_from(words, r0, go));
        assert(crate::game::opt_view(normalized_result) == normalized(ugn_result_from(words, r0, go)));
        assert(r0 == tag_get(old(self).state().tags, ugn_result_key()));
        self.moves_text = Vec::new();
        self.found_game = false;
        assert(self.state().tags =~= Map::<Seq<char>, Seq<char>>::empty());
        assert(self.state() =~= ugn_fresh());
        RawGame { tags, moves, result: normalized_result }
    }
}

fn normalize_owned(r: String) -> (res: String)
    ensures
        res@ == normalize_result(r@),
{
    let cs = chars_of(r.as_str());
    let n = cs.len();
    assert(cs@.subrange(0, n as int) =~= r@);
    let j = alpha_back(&cs, 0, n);
    let w = ['1', '-', '0'];
    let l = ['0', '-', '1'];
    let h = ['1', '/', '2'];
    let d = ['1', '/', '2', '-', '1', '/', '2'];
    assert(w@ =~= seq!['1', '-', '0']);
    assert(l@ =~= seq!['0', '-', '1']);
    assert(h@ =~= seq!['1', '/', '2']);
    assert(d@ =~= seq!['1', '/', '2', '-', '1', '/', '2']);
    if range_eq(&cs, 0, j, &w) {
        string_of(&w, 0, 3)
    } else if range_eq(&cs, 0, j, &l) {
        string_of(&l, 0, 3)
    } else if range_eq(&cs, 0, j, &h) || range_eq(&cs, 0, j, &d) {
        string_of(&d, 0, 7)
    } else {
        r
    }
}

impl GameParser for UgnParser {
    fn push_line(&mut self, line: &str) -> (res: Option<RawGame>)
        ensures
            final(self).state() == ugn_next(old(self).state(), line@),
            res is Some <==> ugn_yields(old(self).state(), line@),
            res matches Some(g) ==> Self::pending_game(*old(self), g),
    {
        let cs = chars_of(line);
        let (a, b) = trim_bounds(&cs, 0, cs.len());
        assert(cs@.subrange(0, cs@.len() as int) =~= line@);
        let ghost t = cs@.subrange(a as int, b as int);
        assert(t == trim(line@));
        if a == b || cs[a] == '#' {
            return None;
        }
        if starts_with_game_in(&cs, a, b) {
            let res = if self.found_game {
                Some(self.take_game())
            } else {
                None
            };
            self.found_game = true;
            read_game_line(&cs, a, b, &mut self.tags);
            return res;
        }
        if cs[a] != '@' && cs[a] != ':' {
            let fields = bar_fields(&cs, a, b);
            if fields.len() >= 3 {
                let res = if self.found_game {
                    Some(self.take_game())
                } else {
                    None
                };
                let mut tags = StringHashMap::new();
                let mut moves: Vec<char> = Vec::new();
                assert(tags_view(tags@) =~= Map::<Seq<char>, Seq<char>>::empty());
                read_compact(&cs, a, b, &fields, &mut tags, &mut moves);
                self.tags = tags;
                self.moves_text = moves;
                self.found_game = true;
                assert(self.state() =~= compact_state(t));
                return res;
            }
        }
        if cs[a] == '@' && self.found_game {
            inline_tags_in(&cs, a, b, &mut self.tags);
        } else if cs[a] == ':' && self.found_game {
            let (pa, pb) = trim_bounds(&cs, a + 1, b);
            assert(t.drop_first() =~= cs@.subrange(a + 1, b as int));
            let ghost old_text = self.moves_text@;
            if self.moves_text.len() > 0 {
                self.moves_text.push(' ');
            }
            let ghost before = self.moves_text@;
            let mut add: Vec<char> = Vec::new();
            let mut i = pa;
            while i < pb
                invariant
                    pa <= i <= pb <= cs@.len(),
                    add@ == cs@.subrange(pa as int, i as int),
                decreases pb - i,
            {
                add.push(cs[i]);
                assert(add@ =~= cs@.subrange(pa as int, i + 1));
                i = i + 1;
            }
            self.moves_text.append(&mut add);
            assert(self.moves_text@ =~= if old_text.len() == 0 {
                cs@.subrange(pa as int, pb as int)
            } else {
                old_text + seq![' '] + cs@.subrange(pa as int, pb as int)
            });
        }
        None
    }

    fn finish(&mut self) -> (res: Option<RawGame>)
        ensures
            old(self).state().found_game ==> (res matches Some(g) && Self::pending_game(*old(self), g)),
            !old(self).state().found_game ==> res is None,
            old(self).state().found_game ==> final(self).is_fresh(),
            !old(self).state().found_game ==> *final(self) == *old(self),
    {
        if self.found_game {
            Some(self.take_game())
        } else {
            None
        }
    }
}


proof fn lemma_strip_letters_suffix(b: Seq<char>, x: Seq<char>)
    requires
        b.len() > 0,
        !is_alpha(b.last()),
        forall|i: int| 0 <= i < x.len() ==> is_alpha(#[trigger] x[i]),
    ensures
        strip_end_alpha(b + x) == b,
    decreases x.len(),
{
    if x.len() == 0 {
        assert(b + x =~= b);
    } else {
        let y = x.drop_last();
        assert forall|i: int| 0 <= i < y.len() implies is_alpha(#[trigger] y[i]) by {
            assert(y[i] == x[i]);
        }
        lemma_strip_letters_suffix(b, y);
        assert((b + x).drop_last() =~= b + y);
        assert((b + x).last() == x[x.len() - 1]);
    }
}

/// A chess result token followed by ASCII letters (`1-0R`, `0-1T`,
/// `1/2-1/2D`) reads as the token without them: `1-0` and `0-1` as they are,
/// `1/2` and `1/2-1/2` as the draw `1/2-1/2`; each such token is a result
/// token, not a move.
pub proof fn law_result_suffix(x: Seq<char>)
    requires
        forall|i: int| 0 <= i < x.len() ==> is_alpha(#[trigger] x[i]),
    ensures
        is_result_token_spec(seq!['1', '-', '0'] + x),
        is_result_token_spec(seq!['0', '-', '1'] + x),
        is_result_token_spec(seq!['1', '/', '2'] + x),
        is_result_token_spec(seq!['1', '/', '2', '-', '1', '/', '2'] + x),
        normalize_result(seq!['1', '-', '0'] + x) == seq!['1', '-', '0'],
        normalize_result(seq!['0', '-', '1'] + x) == seq!['0', '-', '1'],
        normalize_result(seq!['1', '/', '2'] + x) == seq!['1', '/', '2', '-', '1', '/', '2'],
        normalize_result(seq!['1', '/', '2', '-', '1', '/', '2'] + x) == seq![
            '1',
            '/',
            '2',
            '-',
            '1',
            '/',
            '2',
        ],
{
    assert(!is_alpha('0') && !is_alpha('1') && !is_alpha('2'));
    lemma_strip_letters_suffix(seq!['1', '-', '0'], x);
    lemma_strip_letters_suffix(seq!['0', '-', '1'], x);
    lemma_strip_letters_suffix(seq!['1', '/', '2'], x);
    lemma_strip_letters_suffix(seq!['1', '/', '2', '-', '1', '/', '2'], x);
    assert(seq!['1', '/', '2'] != seq!['1', '-', '0']) by {
        assert(seq!['1', '/', '2'][1] != seq!['1', '-', '0'][1]);
    }
    assert(seq!['1', '/', '2'] != seq!['0', '-', '1']) by {
        assert(seq!['1', '/', '2'][0] != seq!['0', '-', '1'][0]);
    }
    assert(seq!['1', '/', '2', '-', '1', '/', '2'] != seq!['1', '-', '0']) by {
        assert(seq!['1', '/', '2', '-', '1', '/', '2'].len() != seq!['1', '-', '0'].len());
    }
    assert(seq!['1', '/', '2', '-', '1', '/', '2'] != seq!['0', '-', '1']) by {
        assert(seq!['1', '/', '2', '-', '1', '/', '2'].len() != seq!['0', '-', '1'].len());
    }
    assert(seq!['0', '-', '1'] != seq!['1', '-', '0']) by {
        assert(seq!['0', '-', '1'][0] != seq!['1', '-', '0'][0]);
    }
}

} // verus!
