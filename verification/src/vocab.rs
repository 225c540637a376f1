//! Vocabulary: action string to token ID, and back.

use vstd::prelude::*;
use vstd::hash_map::{HashMapWithView, StringHashMap};
use std::collections::BTreeMap;

use crate::game::board::square_name;
use crate::game::special;

verus! {

broadcast use vstd::std_specs::hash::group_hash_axioms;

#[verifier::external_type_specification]
#[verifier::external_body]
pub struct ExJsonError(serde_json::Error);

/// The entries of a list of pairs, each key as its chars.
pub open spec fn entries_view(v: Seq<(String, u16)>) -> Seq<(Seq<char>, u16)> {
    v.map_values(|e: (String, u16)| (e.0@, e.1))
}

/// No key occurs twice.
pub open spec fn keys_distinct(e: Seq<(Seq<char>, u16)>) -> bool {
    forall|i: int, j: int| 0 <= i < j < e.len() ==> e[i].0 != e[j].0
}

/// The map that the entries make.
pub open spec fn entries_map(e: Seq<(Seq<char>, u16)>) -> Map<Seq<char>, u16>
    decreases e.len(),
{
    if e.len() == 0 {
        Map::empty()
    } else {
        entries_map(e.drop_last()).insert(e.last().0, e.last().1)
    }
}

/// The largest id among the entries, or 0.
pub open spec fn max_id(e: Seq<(Seq<char>, u16)>) -> u16
    decreases e.len(),
{
    if e.len() == 0 {
        0
    } else if e.last().1 > max_id(e.drop_last()) {
        e.last().1
    } else {
        max_id(e.drop_last())
    }
}

/// The entries of a vocabulary JSON object (`{ "e2e4": 6, ... }`) in key
/// order, or `None` when the text is not such an object (`serde_json::from_str`
/// into a `BTreeMap<String, u16>`).
pub uninterp spec fn json_vocab_entries(text: Seq<char>) -> Option<Seq<(Seq<char>, u16)>>;

/// `serde_json::from_str::<BTreeMap<String, u16>>`, its entries listed in key
/// order. The keys of a `BTreeMap` are distinct.
#[verifier::external_body]
fn parse_vocab_json(contents: &str) -> (res: Result<Vec<(String, u16)>, serde_json::Error>)
    ensures
        match res {
            Ok(v) => json_vocab_entries(contents@) == Some(entries_view(v@)) && keys_distinct(
                entries_view(v@),
            ),
            Err(_) => json_vocab_entries(contents@) is None,
        },
{
    let map: BTreeMap<String, u16> = serde_json::from_str(contents)?;
    Ok(map.into_iter().collect())
}

/// The pretty-printed JSON object of the entries (`serde_json::to_string_pretty`
/// of the `BTreeMap` they make).
pub uninterp spec fn json_pretty_object(entries: Seq<(Seq<char>, u16)>) -> Seq<char>;

/// `serde_json::to_string_pretty` of the map of the entries. It succeeds: its
/// documented failures are a `Serialize` impl that fails and a map with
/// non-string keys, and string keys with `u16` values have neither. Read back
/// with `serde_json::from_str`, the text gives the same map, as serialization
/// and deserialization of a string-to-integer map undo each other.
#[verifier::external_body]
fn vocab_json_text(entries: &Vec<(String, u16)>) -> (res: Result<String, serde_json::Error>)
    ensures
        res is Ok,
        res matches Ok(s) ==> s@ == json_pretty_object(entries_view(entries@)),
        res matches Ok(s) ==> keys_distinct(entries_view(entries@)) ==> (json_vocab_entries(s@) matches Some(e) && keys_distinct(e)
            && entries_map(e) == entries_map(entries_view(entries@))),
{
    let map: BTreeMap<&str, u16> = entries.iter().map(|(k, v)| (k.as_str(), *v)).collect();
    serde_json::to_string_pretty(&map)
}

/// Why a vocabulary could not be made.
#[derive(Debug)]
pub enum VocabError {
    /// The text is not a JSON object of action strings to `u16` IDs.
    Json(serde_json::Error),
}

/// The maps of a vocabulary, kept consistent with the entries they were made
/// from: the actions are the entries' (no action twice), each action's ID
/// leads back to an action with that ID, and every ID known is an action's.
struct VocabMaps {
    action_to_id: StringHashMap<u16>,
    id_to_action: HashMapWithView<u16, String>,
    entries: Vec<(String, u16)>,
}

impl VocabMaps {
    #[verifier::type_invariant]
    spec fn consistent(self) -> bool {
        &&& self.action_to_id@ == entries_map(entries_view(self.entries@))
        &&& keys_distinct(entries_view(self.entries@))
        &&& forall|a: Seq<char>| #[trigger]
            self.action_to_id@.contains_key(a) ==> self.id_to_action@.contains_key(
                self.action_to_id@[a],
            )
        &&& forall|id: u16| #[trigger]
            self.id_to_action@.contains_key(id) ==> self.action_to_id@.contains_key(
                self.id_to_action@[id]@,
            ) && self.action_to_id@[self.id_to_action@[id]@] == id
    }
}

/// Vocabulary mapping: action string to token ID.
pub struct Vocab {
    maps: VocabMaps,
    pub vocab_size: u32,
    pub special_offset: u16,
}

impl Vocab {
    /// Action to ID.
    pub closed spec fn actions(&self) -> Map<Seq<char>, u16> {
        self.maps.action_to_id@
    }

    /// ID to action.
    pub closed spec fn ids(&self) -> Map<u16, Seq<char>> {
        self.maps.id_to_action@.map_values(|v: String| v@)
    }

    /// `vocab_size`.
    pub closed spec fn size(&self) -> u32 {
        self.vocab_size
    }

    /// `special_offset`.
    pub closed spec fn offset(&self) -> u16 {
        self.special_offset
    }

    /// The entries the vocabulary was made from, in order.
    pub closed spec fn entries(&self) -> Seq<(Seq<char>, u16)> {
        entries_view(self.maps.entries@)
    }

    /// The maps agree with the entries: the actions are the entries' (no
    /// action twice), each action's ID leads back to an action with that ID,
    /// and every ID known is the ID of an action. Every vocabulary has this:
    /// its maps cannot be changed from outside.
    pub open spec fn maps_wf(&self) -> bool {
        &&& self.actions() == entries_map(self.entries())
        &&& keys_distinct(self.entries())
        &&& forall|a: Seq<char>| #[trigger]
            self.actions().contains_key(a) ==> self.ids().contains_key(self.actions()[a])
        &&& forall|id: u16| #[trigger]
            self.ids().contains_key(id) ==> self.actions().contains_key(self.ids()[id])
                && self.actions()[self.ids()[id]] == id
    }

    /// The maps agree with the entries, and `vocab_size` is the largest ID
    /// plus one.
    pub open spec fn wf(&self) -> bool {
        &&& self.maps_wf()
        &&& self.size() == max_id(self.entries()) + 1
    }

    /// A vocabulary of the given entries; `vocab_size` is the largest ID
    /// plus one, and the special tokens take the first 6 IDs.
    pub fn from_entries(entries: Vec<(String, u16)>) -> (res: Self)
        requires
            keys_distinct(entries_view(entries@)),
        ensures
            res.wf(),
            res.entries() == entries_view(entries@),
            res.size() == max_id(entries_view(entries@)) + 1,
            res.offset() == special::OFFSET,
    {
        let mut action_to_id: StringHashMap<u16> = StringHashMap::new();
        let mut id_to_action: HashMapWithView<u16, String> = HashMapWithView::new();
        let mut max: u16 = 0;
        let ghost e = entries_view(entries@);
        let mut i: usize = 0;
        while i < entries.len()
            invariant
                0 <= i <= entries@.len(),
                e == entries_view(entries@),
                keys_distinct(e),
                action_to_id@ == entries_map(e.take(i as int)),
                max == max_id(e.take(i as int)),
                forall|a: Seq<char>| #[trigger]
                    action_to_id@.contains_key(a) ==> id_to_action@.contains_key(action_to_id@[a]),
                forall|id: u16| #[trigger]
                    id_to_action@.contains_key(id) ==> action_to_id@.contains_key(
                        id_to_action@[id]@,
                    ) && action_to_id@[id_to_action@[id]@] == id,
            decreases entries@.len() - i,
        {
            let k = entries[i].0.clone();
            let v = entries[i].1;
            let ghost before = action_to_id@;
            proof {
                assert(e.take(i + 1).drop_last() =~= e.take(i as int));
                assert(e[i as int] == (k@, v));
                if before.contains_key(k@) {
                    lemma_entries_map_keys(e.take(i as int), k@);
                    let j = choose|j: int| 0 <= j < i && e.take(i as int)[j].0 == k@;
                    assert(e[j].0 == e[i as int].0);
                }
            }
            action_to_id.insert(k, v);
            id_to_action.insert(v, entries[i].0.clone());
            if v > max {
                max = v;
            }
            i = i + 1;
        }
        assert(e.take(i as int) =~= e);
        let maps = VocabMaps { action_to_id, id_to_action, entries };
        let res = Vocab { maps, vocab_size: max as u32 + 1, special_offset: special::OFFSET };
        assert forall|id: u16| #[trigger] res.ids().contains_key(id) implies res.actions().contains_key(
            res.ids()[id],
        ) && res.actions()[res.ids()[id]] == id by {
            assert(res.ids()[id] == res.maps.id_to_action@[id]@);
        }
        res
    }

    /// A vocabulary from a JSON object such as `{ "e2e4": 6, "d2d4": 7 }`;
    /// IDs already include the special token offset.
    pub fn from_json(contents: &str) -> (res: Result<Self, VocabError>)
        ensures
            json_vocab_entries(contents@) is None ==> res matches Err(VocabError::Json(_)),
            json_vocab_entries(contents@) matches Some(e) ==> {
                &&& res is Ok
                &&& res.unwrap().wf()
                &&& res.unwrap().entries() == e
                &&& res.unwrap().size() == max_id(e) + 1
                &&& res.unwrap().offset() == special::OFFSET
            },
    {
        let entries = match parse_vocab_json(contents) {
            Ok(v) => v,
            Err(err) => return Err(VocabError::Json(err)),
        };
        Ok(Self::from_entries(entries))
    }

    /// The token ID of an action.
    pub fn get(&self, action: &str) -> (res: Option<u16>)
        ensures
            res == (if self.actions().contains_key(action@) {
                Some(self.actions()[action@])
            } else {
                None
            }),
    {
        match self.maps.action_to_id.get(action) {
            Some(id) => Some(*id),
            None => None,
        }
    }

    /// The action of a token ID.
    pub fn get_action(&self, id: u16) -> (res: Option<&str>)
        ensures
            match res {
                Some(s) => self.ids().contains_key(id) && s@ == self.ids()[id],
                None => !self.ids().contains_key(id),
            },
    {
        match self.maps.id_to_action.get(&id) {
            Some(s) => Some(s.as_str()),
            None => None,
        }
    }

    /// The vocabulary as a pretty-printed JSON object.
    pub fn to_json(&self) -> (res: Result<String, VocabError>)
        ensures
            self.maps_wf(),
            res is Ok,
            res matches Ok(s) ==> s@ == json_pretty_object(self.entries()),
            res matches Ok(s) ==> (json_vocab_entries(s@) matches Some(e) && keys_distinct(e)
                && entries_map(e) == self.actions()),
    {
        proof {
            use_type_invariant(&self.maps);
        }
        match vocab_json_text(&self.maps.entries) {
            Ok(s) => Ok(s),
            Err(e) => Err(VocabError::Json(e)),
        }
    }
}

pub proof fn lemma_entries_map_keys(e: Seq<(Seq<char>, u16)>, k: Seq<char>)
    ensures
        entries_map(e).contains_key(k) <==> exists|j: int| 0 <= j < e.len() && e[j].0 == k,
    decreases e.len(),
{
    if e.len() > 0 {
        lemma_entries_map_keys(e.drop_last(), k);
        if exists|j: int| 0 <= j < e.drop_last().len() && e.drop_last()[j].0 == k {
            let j = choose|j: int| 0 <= j < e.drop_last().len() && e.drop_last()[j].0 == k;
            assert(e[j].0 == k);
        }
        if exists|j: int| 0 <= j < e.len() && e[j].0 == k {
            let j = choose|j: int| 0 <= j < e.len() && e[j].0 == k;
            if j < e.len() - 1 {
                assert(e.drop_last()[j].0 == k);
            }
        }
    }
}

/// For a well-formed vocabulary, the action that an action's ID leads back
/// to has that same ID; when no two actions share an ID, it is the action itself.
pub proof fn law_get_action_inverts_get(v: Vocab, a: Seq<char>)
    requires
        v.wf(),
        v.actions().contains_key(a),
    ensures
        v.ids().contains_key(v.actions()[a]),
        v.actions()[v.ids()[v.actions()[a]]] == v.actions()[a],
        (forall|b: Seq<char>, c: Seq<char>|
            v.actions().contains_key(b) && v.actions().contains_key(c) && b != c ==> v.actions()[b]
                != v.actions()[c]) ==> v.ids()[v.actions()[a]] == a,
{
}


pub open spec fn file_index(c: char) -> int {
    (c as u32) as int - 97
}

pub open spec fn rank_index(c: char) -> int {
    (c as u32) as int - 49
}

pub open spec fn on_board(c_file: char, c_rank: char) -> bool {
    0 <= file_index(c_file) < 8 && 0 <= rank_index(c_rank) < 8
}

/// Order of the promotion letters `b`, `n`, `q`, `r` (1 to 4), or 0.
pub open spec fn promotion_index(c: char) -> int {
    if c == 'b' {
        1
    } else if c == 'n' {
        2
    } else if c == 'q' {
        3
    } else if c == 'r' {
        4
    } else {
        0
    }
}

/// A pawn move from the seventh to the eighth rank, or from the second to
/// the first, to the same or a neighbouring file.
pub open spec fn is_promotion_path(s: Seq<char>) -> bool {
    &&& (rank_index(s[1]) == 6 && rank_index(s[3]) == 7) || (rank_index(s[1]) == 1 && rank_index(
        s[3],
    ) == 0)
    &&& -1 <= file_index(s[0]) - file_index(s[2]) <= 1
}

/// A UCI string of the chess vocabulary: two distinct squares, optionally
/// followed by a promotion letter on a promotion path.
pub open spec fn is_vocab_move(s: Seq<char>) -> bool {
    &&& s.len() == 4 || s.len() == 5
    &&& on_board(s[0], s[1])
    &&& on_board(s[2], s[3])
    &&& (s[0] != s[2] || s[1] != s[3])
    &&& s.len() == 5 ==> is_promotion_path(s) && promotion_index(s[4]) > 0
}

/// The position of a vocabulary move in the order of its characters:
/// origin file, origin rank, target file, target rank, then no promotion
/// before `b`, `n`, `q`, `r`.
pub open spec fn move_code(s: Seq<char>) -> int {
    (((file_index(s[0]) * 8 + rank_index(s[1])) * 8 + file_index(s[2])) * 8 + rank_index(s[3])) * 5
        + if s.len() == 5 {
        promotion_index(s[4])
    } else {
        0
    }
}

/// The chess vocabulary's entries: exactly the vocabulary moves, in order,
/// numbered from the first ID after the special tokens.
pub open spec fn is_chess_vocabulary(e: Seq<(Seq<char>, u16)>) -> bool {
    &&& forall|i: int| 0 <= i < e.len() ==> is_vocab_move(#[trigger] e[i].0)
    &&& forall|i: int| 0 <= i < e.len() ==> #[trigger] e[i].1 == special::OFFSET + i
    &&& forall|i: int, j: int| 0 <= i < j < e.len() ==> move_code(#[trigger] e[i].0) < move_code(#[trigger] e[j].0)
    &&& forall|s: Seq<char>| is_vocab_move(s) ==> exists|i: int| 0 <= i < e.len() && #[trigger] e[i].0 == s
}

proof fn lemma_code_prefix(s: Seq<char>, idx: int)
    requires
        is_vocab_move(s),
        0 <= idx < 4096,
        idx * 5 <= move_code(s) < idx * 5 + 5,
    ensures
        file_index(s[0]) == idx / 512,
        rank_index(s[1]) == (idx / 64) % 8,
        file_index(s[2]) == (idx / 8) % 8,
        rank_index(s[3]) == idx % 8,
        move_code(s) - idx * 5 == if s.len() == 5 { promotion_index(s[4]) } else { 0 },
{
    let p = (((file_index(s[0]) * 8 + rank_index(s[1])) * 8 + file_index(s[2])) * 8 + rank_index(s[3]));
    let q = if s.len() == 5 { promotion_index(s[4]) } else { 0 };
    assert(0 <= q < 5);
    assert(p == idx);
}

/// Appends the chars of `t` to `s`.
fn push_name(s: &mut Vec<char>, t: &String)
    ensures
        final(s)@ == old(s)@ + t@,
{
    let cs = crate::text::chars_of(t.as_str());
    let ghost start = s@;
    let mut i: usize = 0;
    while i < cs.len()
        invariant
            0 <= i <= cs@.len(),
            cs@ == t@,
            s@ == start + cs@.take(i as int),
        decreases cs@.len() - i,
    {
        s.push(cs[i]);
        assert(s@ =~= start + cs@.take(i + 1));
        i = i + 1;
    }
    assert(cs@.take(i as int) =~= cs@);
}

/// Appends the entry `(chars, 6 + position)`.
fn push_entry(entries: &mut Vec<(String, u16)>, chars: &Vec<char>)
    requires
        old(entries)@.len() < 0xfff0,
    ensures
        entries_view(final(entries)@) == entries_view(old(entries)@).push(
            (chars@, (special::OFFSET + old(entries)@.len()) as u16),
        ),
        final(entries)@.len() == old(entries)@.len() + 1,
{
    let s = crate::text::string_of(chars, 0, chars.len());
    assert(chars@.subrange(0, chars@.len() as int) =~= chars@);
    let id = (special::OFFSET as usize + entries.len()) as u16;
    entries.push((s, id));
    assert(entries_view(entries@) =~= entries_view(old(entries)@).push((chars@, id)));
}

/// Appends the entry `base` followed by the promotion letter `c`.
fn push_promotion(entries: &mut Vec<(String, u16)>, base: &Vec<char>, c: char)
    requires
        old(entries)@.len() < 0xfff0,
    ensures
        entries_view(final(entries)@) == entries_view(old(entries)@).push(
            (base@.push(c), (special::OFFSET + old(entries)@.len()) as u16),
        ),
        final(entries)@.len() == old(entries)@.len() + 1,
{
    let mut v = base.clone();
    v.push(c);
    assert(v@ =~= base@.push(c));
    push_entry(entries, &v);
}

/// One step of the chess vocabulary's construction keeps its invariant.
proof fn lemma_vocab_step(
    ov: Seq<(Seq<char>, u16)>,
    nv: Seq<(Seq<char>, u16)>,
    b: Seq<char>,
    added: Seq<Seq<char>>,
    idx: int,
    promo: bool,
)
    requires
        0 <= idx < 4096,
        forall|i: int| 0 <= i < ov.len() ==> is_vocab_move(#[trigger] ov[i].0),
        forall|i: int| 0 <= i < ov.len() ==> move_code(#[trigger] ov[i].0) < idx * 5,
        forall|i: int, j: int| 0 <= i < j < ov.len() ==> move_code(#[trigger] ov[i].0) < move_code(#[trigger] ov[j].0),
        forall|s: Seq<char>| is_vocab_move(s) && move_code(s) < idx * 5 ==> exists|i: int| 0 <= i < ov.len() && #[trigger] ov[i].0 == s,
        b.len() == 4,
        file_index(b[0]) == idx / 512,
        rank_index(b[1]) == (idx / 64) % 8,
        file_index(b[2]) == (idx / 8) % 8,
        rank_index(b[3]) == idx % 8,
        is_vocab_move(b),
        promo == is_promotion_path(b),
        added == if promo {
            seq![b, b.push('b'), b.push('n'), b.push('q'), b.push('r')]
        } else {
            seq![b]
        },
        nv.len() == ov.len() + added.len(),
        forall|i: int| 0 <= i < ov.len() ==> #[trigger] nv[i] == ov[i],
        forall|k: int| 0 <= k < added.len() ==> #[trigger] nv[ov.len() + k].0 == added[k],
    ensures
        forall|i: int| 0 <= i < nv.len() ==> is_vocab_move(#[trigger] nv[i].0),
        forall|i: int| 0 <= i < nv.len() ==> move_code(#[trigger] nv[i].0) < (idx + 1) * 5,
        forall|i: int, j: int| 0 <= i < j < nv.len() ==> move_code(#[trigger] nv[i].0) < move_code(#[trigger] nv[j].0),
        forall|s: Seq<char>| is_vocab_move(s) && move_code(s) < (idx + 1) * 5 ==> exists|i: int| 0 <= i < nv.len() && #[trigger] nv[i].0 == s,
{
    let n0 = ov.len() as int;
    assert(move_code(b) == idx * 5);
    assert forall|k: int| 0 <= k < added.len() implies is_vocab_move(#[trigger] added[k]) && move_code(added[k]) == idx * 5 + k by {
        if k > 0 {
            assert(added[k] == b.push(added[k][4]));
            assert(promotion_index(added[k][4]) == k);
        }
    }
    assert forall|i: int| 0 <= i < nv.len() implies is_vocab_move(#[trigger] nv[i].0) && move_code(nv[i].0) < (idx + 1) * 5 by {
        if i >= n0 {
            assert(nv[n0 + (i - n0)].0 == added[i - n0]);
        }
    }
    assert forall|i: int, j: int| 0 <= i < j < nv.len() implies move_code(#[trigger] nv[i].0) < move_code(#[trigger] nv[j].0) by {
        if j >= n0 {
            assert(nv[n0 + (j - n0)].0 == added[j - n0]);
            if i >= n0 {
                assert(nv[n0 + (i - n0)].0 == added[i - n0]);
            }
        }
    }
    assert forall|t: Seq<char>| is_vocab_move(t) && move_code(t) < (idx + 1) * 5 implies exists|i: int| 0 <= i < nv.len() && #[trigger] nv[i].0 == t by {
        if move_code(t) < idx * 5 {
            let i = choose|i: int| 0 <= i < ov.len() && #[trigger] ov[i].0 == t;
            assert(nv[i].0 == t);
        } else {
            lemma_code_prefix(t, idx);
            lemma_char_eq(t[0], b[0]);
            lemma_char_eq(t[1], b[1]);
            lemma_char_eq(t[2], b[2]);
            lemma_char_eq(t[3], b[3]);
            if t.len() == 4 {
                assert(t =~= b);
                assert(nv[n0 + 0].0 == added[0]);
            } else {
                let k = promotion_index(t[4]);
                assert(is_promotion_path(t));
                assert(promo);
                assert(t =~= added[k]);
                assert(nv[n0 + k].0 == added[k]);
            }
        }
    }
}

proof fn lemma_char_eq(a: char, b: char)
    requires
        (a as u32) == (b as u32),
    ensures
        a == b,
{
}

/// Entries `e` hold exactly the vocabulary moves of code below `bound * 5`,
/// in increasing code order, numbered from 6.
pub open spec fn vocab_upto(e: Seq<(Seq<char>, u16)>, bound: int) -> bool {
    &&& e.len() <= 5 * bound
    &&& forall|i: int| 0 <= i < e.len() ==> is_vocab_move(#[trigger] e[i].0)
    &&& forall|i: int| 0 <= i < e.len() ==> move_code(#[trigger] e[i].0) < bound * 5
    &&& forall|i: int| 0 <= i < e.len() ==> #[trigger] e[i].1 == special::OFFSET + i
    &&& forall|i: int, j: int| 0 <= i < j < e.len() ==> move_code(#[trigger] e[i].0) < move_code(#[trigger] e[j].0)
    &&& forall|s: Seq<char>| is_vocab_move(s) && move_code(s) < bound * 5 ==> exists|i: int| 0 <= i < e.len() && #[trigger] e[i].0 == s
}

/// How many vocabulary moves the squares that `idx` numbers give: none for
/// one square, five (the move and its four promotions) on a promotion path,
/// else one.
pub open spec fn pair_count(idx: int) -> int {
    let ff = idx / 512;
    let fr = (idx / 64) % 8;
    let tf = (idx / 8) % 8;
    let tr = idx % 8;
    if fr == tr && ff == tf {
        0
    } else if ((fr == 6 && tr == 7) || (fr == 1 && tr == 0)) && -1 <= ff - tf <= 1 {
        5
    } else {
        1
    }
}

/// How many vocabulary moves the square pairs numbered below `n` give.
pub open spec fn count_upto(n: nat) -> int
    decreases n,
{
    if n == 0 {
        0
    } else {
        count_upto((n - 1) as nat) + pair_count(n - 1)
    }
}

spec fn near(ff: int, tf: int) -> bool {
    -1 <= ff - tf <= 1
}

/// How many files lie next to or on file `ff`.
spec fn near_files(ff: int) -> int {
    if ff == 0 || ff == 7 {
        2
    } else {
        3
    }
}

spec fn count_tr(ff: int, fr: int, tf: int) -> int {
    8 - (if ff == tf { 1int } else { 0int }) + (if (fr == 6 || fr == 1) && near(ff, tf) {
        4int
    } else {
        0int
    })
}

spec fn count_tf(ff: int, fr: int) -> int {
    63 + (if fr == 6 || fr == 1 { 4 * near_files(ff) } else { 0 })
}

spec fn count_fr(ff: int) -> int {
    504 + 8 * near_files(ff)
}

proof fn lemma_digits8(q: int, k: int)
    requires
        0 <= q < 512,
        0 <= k < 8,
    ensures
        (8 * q + k) / 512 == q / 64,
        ((8 * q + k) / 64) % 8 == (q / 8) % 8,
        ((8 * q + k) / 8) % 8 == q % 8,
        (8 * q + k) % 8 == k,
{
    assert((8 * q + k) / 8 == q) by (nonlinear_arith)
        requires
            0 <= k < 8,
    ;
    assert((8 * q + k) % 8 == k) by (nonlinear_arith)
        requires
            0 <= k < 8,
    ;
    assert((8 * q + k) / 64 == q / 8) by (nonlinear_arith)
        requires
            0 <= k < 8,
            0 <= q,
    ;
    assert((8 * q + k) / 512 == q / 64) by (nonlinear_arith)
        requires
            0 <= k < 8,
            0 <= q,
    ;
}

proof fn lemma_digits_small(p: int, t: int)
    requires
        0 <= p,
        0 <= t < 8,
    ensures
        (8 * p + t) / 8 == p,
        (8 * p + t) % 8 == t,
        (8 * p + t) / 64 == p / 8,
{
    assert((8 * p + t) / 8 == p) by (nonlinear_arith)
        requires
            0 <= t < 8,
    ;
    assert((8 * p + t) % 8 == t) by (nonlinear_arith)
        requires
            0 <= t < 8,
    ;
    assert((8 * p + t) / 64 == p / 8) by (nonlinear_arith)
        requires
            0 <= t < 8,
            0 <= p,
    ;
}

proof fn lemma_count_block8(q: int)
    requires
        0 <= q < 512,
    ensures
        count_upto((8 * q + 8) as nat) == count_upto((8 * q) as nat) + count_tr(
            q / 64,
            (q / 8) % 8,
            q % 8,
        ),
{
    let b = 8 * q;
    lemma_digits8(q, 0);
    lemma_digits8(q, 1);
    lemma_digits8(q, 2);
    lemma_digits8(q, 3);
    lemma_digits8(q, 4);
    lemma_digits8(q, 5);
    lemma_digits8(q, 6);
    lemma_digits8(q, 7);
    assert(count_upto((b + 1) as nat) == count_upto(b as nat) + pair_count(b));
    assert(count_upto((b + 2) as nat) == count_upto((b + 1) as nat) + pair_count(b + 1));
    assert(count_upto((b + 3) as nat) == count_upto((b + 2) as nat) + pair_count(b + 2));
    assert(count_upto((b + 4) as nat) == count_upto((b + 3) as nat) + pair_count(b + 3));
    assert(count_upto((b + 5) as nat) == count_upto((b + 4) as nat) + pair_count(b + 4));
    assert(count_upto((b + 6) as nat) == count_upto((b + 5) as nat) + pair_count(b + 5));
    assert(count_upto((b + 7) as nat) == count_upto((b + 6) as nat) + pair_count(b + 6));
    assert(count_upto((b + 8) as nat) == count_upto((b + 7) as nat) + pair_count(b + 7));
}

proof fn lemma_count_block64(p: int)
    requires
        0 <= p < 64,
    ensures
        count_upto((64 * p + 64) as nat) == count_upto((64 * p) as nat) + count_tf(p / 8, p % 8),
{
    lemma_digits_small(p, 0);
    lemma_digits_small(p, 1);
    lemma_digits_small(p, 2);
    lemma_digits_small(p, 3);
    lemma_digits_small(p, 4);
    lemma_digits_small(p, 5);
    lemma_digits_small(p, 6);
    lemma_digits_small(p, 7);
    lemma_count_block8(8 * p);
    lemma_count_block8(8 * p + 1);
    lemma_count_block8(8 * p + 2);
    lemma_count_block8(8 * p + 3);
    lemma_count_block8(8 * p + 4);
    lemma_count_block8(8 * p + 5);
    lemma_count_block8(8 * p + 6);
    lemma_count_block8(8 * p + 7);
    assert(8 * (8 * p + 1) == 64 * p + 8);
    assert(8 * (8 * p + 7) + 8 == 64 * p + 64);
}

proof fn lemma_count_block512(a: int)
    requires
        0 <= a < 8,
    ensures
        count_upto((512 * a + 512) as nat) == count_upto((512 * a) as nat) + count_fr(a),
{
    lemma_digits_small(a, 0);
    lemma_digits_small(a, 1);
    lemma_digits_small(a, 2);
    lemma_digits_small(a, 3);
    lemma_digits_small(a, 4);
    lemma_digits_small(a, 5);
    lemma_digits_small(a, 6);
    lemma_digits_small(a, 7);
    lemma_count_block64(8 * a);
    lemma_count_block64(8 * a + 1);
    lemma_count_block64(8 * a + 2);
    lemma_count_block64(8 * a + 3);
    lemma_count_block64(8 * a + 4);
    lemma_count_block64(8 * a + 5);
    lemma_count_block64(8 * a + 6);
    lemma_count_block64(8 * a + 7);
}

/// The chess vocabulary has 4208 moves.
proof fn lemma_count_all()
    ensures
        count_upto(4096) == 4208,
{
    assert(count_upto(0) == 0);
    lemma_count_block512(0);
    lemma_count_block512(1);
    lemma_count_block512(2);
    lemma_count_block512(3);
    lemma_count_block512(4);
    lemma_count_block512(5);
    lemma_count_block512(6);
    lemma_count_block512(7);
}

/// Adds the moves between the squares that `idx` numbers: origin file
/// `idx / 512`, origin rank `idx / 64 % 8`, target file `idx / 8 % 8`,
/// target rank `idx % 8`.
#[verifier::rlimit(40)]
fn add_square_pair(entries: &mut Vec<(String, u16)>, idx: u32)
    requires
        idx < 4096,
        vocab_upto(entries_view(old(entries)@), idx as int),
    ensures
        vocab_upto(entries_view(final(entries)@), idx + 1),
        final(entries)@.len() == old(entries)@.len() + pair_count(idx as int),
{
    let ff = idx / 512;
    let fr = (idx / 64) % 8;
    let tf = (idx / 8) % 8;
    let tr = idx % 8;
    let from = fr * 8 + ff;
    let to = tr * 8 + tf;
    let ghost old_entries = entries@;
    if from != to {
        let mut base: Vec<char> = Vec::new();
        push_name(&mut base, &square_name(from));
        push_name(&mut base, &square_name(to));
        let ghost b = seq![(97 + ff) as char, (49 + fr) as char, (97 + tf) as char, (49 + tr) as char];
        assert(base@ =~= b);
        assert(file_index(b[0]) == ff && rank_index(b[1]) == fr && file_index(b[2]) == tf && rank_index(b[3]) == tr);
        assert(is_vocab_move(b));
        assert(move_code(b) == idx * 5);
        push_entry(entries, &base);
        let promo = ((fr == 6 && tr == 7) || (fr == 1 && tr == 0)) && ff <= tf + 1 && tf <= ff + 1;
        assert(promo == is_promotion_path(b));
        if promo {
            push_promotion(entries, &base, 'b');
            push_promotion(entries, &base, 'n');
            push_promotion(entries, &base, 'q');
            push_promotion(entries, &base, 'r');
        }
        proof {
            let ov = entries_view(old_entries);
            let nv = entries_view(entries@);
            let added: Seq<Seq<char>> = if promo {
                seq![b, b.push('b'), b.push('n'), b.push('q'), b.push('r')]
            } else {
                seq![b]
            };
            assert(nv.len() == ov.len() + added.len());
            assert forall|i: int| 0 <= i < ov.len() implies #[trigger] nv[i] == ov[i] by {}
            assert forall|k: int| 0 <= k < added.len() implies #[trigger] nv[ov.len() + k].0 == added[k] by {}
            lemma_vocab_step(ov, nv, b, added, idx as int, promo);
            assert(from != to ==> !(fr == tr && ff == tf));
        }
    } else {
        proof {
            assert forall|t: Seq<char>| is_vocab_move(t) && move_code(t) < (idx + 1) * 5 implies exists|i: int| 0 <= i < entries@.len() && #[trigger] entries_view(entries@)[i].0 == t by {
                if move_code(t) >= idx * 5 {
                    lemma_code_prefix(t, idx as int);
                    lemma_char_eq(t[0], t[2]);
                    lemma_char_eq(t[1], t[3]);
                }
            }
        }
    }
}

impl Vocab {
    /// The chess vocabulary: every UCI move between two distinct squares,
    /// and the promotion variants (`q`, `r`, `b`, `n`) of the moves from the
    /// seventh rank to the eighth or from the second to the first, to the
    /// same or a neighbouring file; in the order of their characters, with
    /// IDs from 6 on.
    pub fn generate_from_pgn() -> (res: Result<Self, VocabError>)
        ensures
            res is Ok,
            res matches Ok(v) && v.entries().len() == 4208 && v.size() == 4214,
            res matches Ok(v) && v.wf() && is_chess_vocabulary(v.entries()) && v.size() == max_id(
                v.entries(),
            ) + 1 && v.offset() == special::OFFSET,
    {
        let mut entries: Vec<(String, u16)> = Vec::new();
        let mut idx: u32 = 0;
        while idx < 4096
            invariant
                0 <= idx <= 4096,
                vocab_upto(entries_view(entries@), idx as int),
                entries@.len() == count_upto(idx as nat),
            decreases 4096 - idx,
        {
            add_square_pair(&mut entries, idx);
            assert(count_upto((idx + 1) as nat) == count_upto(idx as nat) + pair_count(idx as int));
            idx = idx + 1;
        }
        proof {
            lemma_count_all();
            let e = entries_view(entries@);
            assert forall|t: Seq<char>| is_vocab_move(t) implies exists|i: int| 0 <= i < e.len() && #[trigger] e[i].0 == t by {
                assert(move_code(t) < 4096 * 5);
            }
            assert forall|i: int, j: int| 0 <= i < j < e.len() implies e[i].0 != e[j].0 by {
                assert(move_code(e[i].0) < move_code(e[j].0));
            }
        }
        let v = Self::from_entries(entries);
        proof {
            law_chess_vocabulary_ids(v);
        }
        Ok(v)
    }
}


proof fn lemma_max_of_numbered(e: Seq<(Seq<char>, u16)>)
    requires
        forall|i: int| 0 <= i < e.len() ==> #[trigger] e[i].1 == special::OFFSET + i,
    ensures
        e.len() > 0 ==> max_id(e) == special::OFFSET + e.len() - 1,
    decreases e.len(),
{
    if e.len() > 1 {
        let p = e.drop_last();
        assert forall|i: int| 0 <= i < p.len() implies #[trigger] p[i].1 == special::OFFSET + i by {
            assert(p[i] == e[i]);
        }
        lemma_max_of_numbered(p);
        assert(e.last() == e[e.len() - 1]);
        assert(p[p.len() - 1] == e[e.len() - 2]);
    } else if e.len() == 1 {
        assert(max_id(e.drop_last()) == 0);
        assert(e.last() == e[0]);
    }
}

/// In the chess vocabulary no action shares its ID with a special token,
/// no two actions share an ID, and the vocabulary size is the number of
/// actions plus the special tokens.
pub proof fn law_chess_vocabulary_ids(v: Vocab)
    requires
        v.wf(),
        is_chess_vocabulary(v.entries()),
        v.entries().len() > 0,
        v.size() == max_id(v.entries()) + 1,
    ensures
        v.size() == special::OFFSET + v.entries().len(),
        forall|a: Seq<char>| #[trigger] v.actions().contains_key(a) ==> v.actions()[a] >= special::OFFSET,
        forall|a: Seq<char>, b: Seq<char>|
            v.actions().contains_key(a) && v.actions().contains_key(b) && a != b ==> #[trigger] v.actions()[a]
                != #[trigger] v.actions()[b],
{
    let e = v.entries();
    lemma_max_of_numbered(e);
    assert forall|a: Seq<char>| #[trigger] v.actions().contains_key(a) implies (exists|j: int|
        0 <= j < e.len() && e[j].0 == a && v.actions()[a] == e[j].1) by {
        lemma_entries_map_value(e, a);
    }
}

proof fn lemma_entries_map_value(e: Seq<(Seq<char>, u16)>, k: Seq<char>)
    requires
        keys_distinct(e),
        entries_map(e).contains_key(k),
    ensures
        exists|j: int| 0 <= j < e.len() && e[j].0 == k && entries_map(e)[k] == e[j].1,
    decreases e.len(),
{
    if e.last().0 == k {
        assert(e[e.len() - 1].0 == k);
    } else {
        let p = e.drop_last();
        assert(keys_distinct(p)) by {
            assert forall|i: int, j: int| 0 <= i < j < p.len() implies p[i].0 != p[j].0 by {
                assert(p[i] == e[i] && p[j] == e[j]);
            }
        }
        lemma_entries_map_value(p, k);
        let j = choose|j: int| 0 <= j < p.len() && p[j].0 == k && entries_map(p)[k] == p[j].1;
        assert(e[j] == p[j]);
    }
}

/// Every ID of the entries is at most `max_id`, which is 0 or one of them.
proof fn lemma_max_id_is_max(e: Seq<(Seq<char>, u16)>)
    ensures
        forall|i: int| 0 <= i < e.len() ==> #[trigger] e[i].1 <= max_id(e),
        max_id(e) == 0 || exists|i: int| 0 <= i < e.len() && #[trigger] e[i].1 == max_id(e),
    decreases e.len(),
{
    if e.len() > 0 {
        let p = e.drop_last();
        lemma_max_id_is_max(p);
        assert forall|i: int| 0 <= i < e.len() implies #[trigger] e[i].1 <= max_id(e) by {
            if i < p.len() {
                assert(e[i] == p[i]);
            }
        }
        if max_id(e) != 0 && max_id(e) != e.last().1 {
            let j = choose|j: int| 0 <= j < p.len() && #[trigger] p[j].1 == max_id(p);
            assert(e[j] == p[j]);
        }
    }
}

/// Two entry lists without repeated keys that make the same map have the
/// same largest ID.
proof fn lemma_max_id_of_map(a: Seq<(Seq<char>, u16)>, b: Seq<(Seq<char>, u16)>)
    requires
        keys_distinct(a),
        keys_distinct(b),
        entries_map(a) == entries_map(b),
    ensures
        max_id(a) == max_id(b),
{
    lemma_max_id_is_max(a);
    lemma_max_id_is_max(b);
    assert forall|i: int| 0 <= i < a.len() implies #[trigger] a[i].1 <= max_id(b) by {
        lemma_entries_map_keys(a, a[i].0);
        lemma_entries_map_value(a, a[i].0);
        let j = choose|j: int| 0 <= j < a.len() && a[j].0 == a[i].0 && entries_map(a)[a[i].0] == a[j].1;
        assert(j == i);
        lemma_entries_map_value(b, a[i].0);
        let k = choose|k: int| 0 <= k < b.len() && b[k].0 == a[i].0 && entries_map(b)[a[i].0] == b[k].1;
        assert(b[k].1 <= max_id(b));
    }
    assert forall|i: int| 0 <= i < b.len() implies #[trigger] b[i].1 <= max_id(a) by {
        lemma_entries_map_keys(b, b[i].0);
        lemma_entries_map_value(b, b[i].0);
        let j = choose|j: int| 0 <= j < b.len() && b[j].0 == b[i].0 && entries_map(b)[b[i].0] == b[j].1;
        assert(j == i);
        lemma_entries_map_value(a, b[i].0);
        let k = choose|k: int| 0 <= k < a.len() && a[k].0 == b[i].0 && entries_map(a)[b[i].0] == a[k].1;
        assert(a[k].1 <= max_id(a));
    }
}

/// Saving a vocabulary and loading it back: whatever entries the saved text
/// reads as (listing the vocabulary's actions with their IDs, as `to_json`
/// promises for every vocabulary), `from_json` makes of them a vocabulary with
/// the same actions and IDs, and the largest ID is the same, so `vocab_size`
/// is too unless the caller changed it.
pub proof fn law_vocab_json_round_trip(v: Vocab, e: Seq<(Seq<char>, u16)>)
    requires
        v.maps_wf(),
        keys_distinct(e),
        entries_map(e) == v.actions(),
    ensures
        entries_map(e) == v.actions(),
        max_id(e) == max_id(v.entries()),
        v.wf() ==> max_id(e) + 1 == v.size(),
{
    lemma_max_id_of_map(e, v.entries());
}

} // verus!
