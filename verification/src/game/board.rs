//! The chess rules, from `shakmaty`: parsing SAN, resolving it to a legal move
//! and playing it. Moves are held as plain values (`ChessMove`); a position
//! is known by the moves that led to it from the standard start.

use vstd::prelude::*;

use shakmaty::Position;
use shakmaty::Move;
use shakmaty::uci::UciMove;

use crate::text::push_char;

verus! {

#[verifier::external_type_specification]
#[verifier::external_body]
pub struct ExChess(shakmaty::Chess);

#[verifier::external_type_specification]
#[verifier::external_body]
pub struct ExMove(shakmaty::Move);

#[verifier::external_type_specification]
#[verifier::external_body]
pub struct ExSan(shakmaty::san::San);

/// Piece roles as `shakmaty` numbers them.
pub const PAWN: u8 = 1;

pub const KNIGHT: u8 = 2;

pub const BISHOP: u8 = 3;

pub const ROOK: u8 = 4;

pub const QUEEN: u8 = 5;

pub const KING: u8 = 6;

/// A chess move as plain values: squares are indices `rank * 8 + file`
/// (0 = a1, 63 = h8), roles are numbered as the constants above.
#[derive(Clone, Copy, Debug, PartialEq, Eq, Structural)]
pub enum ChessMove {
    Normal { role: u8, from: u8, capture: Option<u8>, to: u8, promotion: Option<u8> },
    EnPassant { from: u8, to: u8 },
    Castle { king: u8, rook: u8 },
    Put { role: u8, to: u8 },
}

pub open spec fn is_role(r: u8) -> bool {
    1 <= r <= 6
}

pub open spec fn opt_role_ok(r: Option<u8>) -> bool {
    match r {
        Some(x) => is_role(x),
        None => true,
    }
}

impl ChessMove {
    /// Squares lie on the board and roles are roles.
    pub open spec fn well_formed(&self) -> bool {
        match *self {
            ChessMove::Normal { role, from, capture, to, promotion } => is_role(role) && from
                < 64 && to < 64 && opt_role_ok(capture) && opt_role_ok(promotion),
            ChessMove::EnPassant { from, to } => from < 64 && to < 64,
            ChessMove::Castle { king, rook } => king < 64 && rook < 64,
            ChessMove::Put { role, to } => is_role(role) && to < 64,
        }
    }

    /// The role of the moved piece (`Move::role`).
    pub open spec fn spec_role(&self) -> u8 {
        match *self {
            ChessMove::Normal { role, .. } => role,
            ChessMove::Put { role, .. } => role,
            ChessMove::EnPassant { .. } => PAWN,
            ChessMove::Castle { .. } => KING,
        }
    }

    /// The role of the moved piece.
    pub fn role(&self) -> (res: u8)
        ensures
            res == self.spec_role(),
            self.well_formed() ==> is_role(res),
    {
        match *self {
            ChessMove::Normal { role, .. } => role,
            ChessMove::Put { role, .. } => role,
            ChessMove::EnPassant { .. } => PAWN,
            ChessMove::Castle { .. } => KING,
        }
    }
}

/// The name of square `i`: file letter, then rank digit (`a1` .. `h8`).
pub open spec fn square_name_spec(i: u32) -> Seq<char> {
    seq![(97 + i % 8) as char, (49 + i / 8) as char]
}

/// `shakmaty::Square::new(index)` displayed: its file letter `a`..`h`
/// (index mod 8) and rank digit `1`..`8` (index div 8).
#[verifier::external_body]
pub(crate) fn square_name(index: u32) -> (res: String)
    requires
        index < 64,
    ensures
        res@ == square_name_spec(index),
{
    shakmaty::Square::new(index).to_string()
}

/// Whether `text` parses as SAN (`shakmaty::san::San::from_str`).
pub uninterp spec fn san_parses(text: Seq<char>) -> bool;

/// The legal move that SAN `text` denotes in the position reached from the
/// start by `history` (`San::to_move`), if there is exactly one.
pub uninterp spec fn san_move(history: Seq<ChessMove>, text: Seq<char>) -> Option<ChessMove>;

/// Whether `m` is legal in the position reached by `history` (`Position::play`
/// succeeds).
pub uninterp spec fn move_playable(history: Seq<ChessMove>, m: ChessMove) -> bool;

/// A parsed SAN move, with the text it was parsed from.
pub struct SanToken {
    san: shakmaty::san::San,
    text: String,
}

impl View for SanToken {
    type V = Seq<char>;

    closed spec fn view(&self) -> Seq<char> {
        self.text@
    }
}

/// `str::parse::<shakmaty::san::San>`: `Some` exactly when the text parses;
/// the token remembers the text.
#[verifier::external_body]
pub(crate) fn parse_san(text: &str) -> (res: Option<SanToken>)
    ensures
        res is Some <==> san_parses(text@),
        res matches Some(t) ==> t@ == text@,
{
    match text.parse::<shakmaty::san::San>() {
        Ok(san) => Some(SanToken { san, text: text.to_string() }),
        Err(_) => None,
    }
}

/// A legal move in some position, as `shakmaty` holds it and as plain values.
pub struct LegalMove {
    mv: shakmaty::Move,
    info: ChessMove,
}

impl View for LegalMove {
    type V = ChessMove;

    closed spec fn view(&self) -> ChessMove {
        self.info
    }
}

impl LegalMove {
    pub fn info(&self) -> (res: &ChessMove)
        ensures
            *res == self@,
    {
        &self.info
    }
}

/// A position, reached from the standard start by the moves `history`.
pub struct ChessBoard {
    pos: shakmaty::Chess,
    history: Vec<ChessMove>,
}

impl View for ChessBoard {
    type V = Seq<ChessMove>;

    closed spec fn view(&self) -> Seq<ChessMove> {
        self.history@
    }
}

/// `shakmaty::Chess::default()`, the standard starting position.
#[verifier::external_body]
fn start_position() -> shakmaty::Chess {
    shakmaty::Chess::default()
}

pub open spec fn opt_move(m: Option<LegalMove>) -> Option<ChessMove> {
    match m {
        Some(x) => Some(x@),
        None => None,
    }
}

/// `San::to_move` in the board's position: the legal move the SAN denotes,
/// converted field by field to plain values. Its squares lie on the board and
/// its roles are roles, as `shakmaty`'s `Square` and `Role` types hold; being
/// legal, it can be played (`Position::play` accepts every legal move).
#[verifier::external_body]
pub(crate) fn resolve_san(board: &ChessBoard, san: &SanToken) -> (res: Option<LegalMove>)
    ensures
        opt_move(res) == san_move(board@, san@),
        res matches Some(m) ==> m@.well_formed(),
        res matches Some(m) ==> move_playable(board@, m@),
{
    san.san.to_move(&board.pos).ok().map(legal_move)
}

/// Holds `mv` with its fields converted, one for one, to plain values:
/// squares and roles as their `u8` numbers.
#[verifier::external_body]
fn legal_move(mv: Move) -> LegalMove {
    let info = match mv {
        Move::Normal { role, from, capture, to, promotion } => ChessMove::Normal {
            role: u8::from(role), from: u8::from(from), capture: capture.map(u8::from),
            to: u8::from(to), promotion: promotion.map(u8::from) },
        Move::EnPassant { from, to } => ChessMove::EnPassant { from: u8::from(from), to: u8::from(to) },
        Move::Castle { king, rook } => ChessMove::Castle { king: u8::from(king), rook: u8::from(rook) },
        Move::Put { role, to } => ChessMove::Put { role: u8::from(role), to: u8::from(to) },
    };
    LegalMove { mv, info }
}

/// `Position::play` on a copy of the board's position: the position after
/// `m`, or `None` when `m` is not legal there.
#[verifier::external_body]
fn play_position(board: &ChessBoard, m: &LegalMove) -> (res: Option<shakmaty::Chess>)
    ensures
        res is Some <==> move_playable(board@, m@),
{
    board.pos.clone().play(&m.mv).ok()
}

/// `Position::turn` is white: white moves first from the standard start,
/// and every move played passes the turn (`shakmaty`'s `do_move`).
#[verifier::external_body]
fn white_to_move(board: &ChessBoard) -> (res: bool)
    ensures
        res == (board@.len() % 2 == 0),
{
    board.pos.turn().is_white()
}

impl ChessBoard {
    /// The standard starting position.
    pub fn new() -> (res: Self)
        ensures
            res@ == Seq::<ChessMove>::empty(),
    {
        ChessBoard { pos: start_position(), history: Vec::new() }
    }

    /// Whether white is to move.
    pub fn white_to_move(&self) -> (res: bool)
        ensures
            res == (self@.len() % 2 == 0),
    {
        white_to_move(self)
    }

    /// Plays `m`; false (and the board unchanged) when it is not legal.
    pub fn play(&mut self, m: &LegalMove) -> (res: bool)
        ensures
            res == move_playable(old(self)@, m@),
            res ==> final(self)@ == old(self)@.push(m@),
            !res ==> final(self)@ == old(self)@,
    {
        match play_position(self, m) {
            Some(p) => {
                self.pos = p;
                self.history.push(m.info);
                true
            },
            None => false,
        }
    }
}

/// The letter of a promotion role in UCI.
pub open spec fn promotion_char(r: u8) -> char {
    if r == QUEEN {
        'q'
    } else if r == ROOK {
        'r'
    } else if r == BISHOP {
        'b'
    } else if r == KNIGHT {
        'n'
    } else {
        'q'
    }
}

/// Where the king lands when castling with the rook on `rook`: the g-file
/// when the rook stands on a later file, else the c-file; the king's rank.
pub open spec fn castle_target(king: u8, rook: u8) -> u32 {
    if rook % 8 > king % 8 {
        ((king / 8) * 8 + 6) as u32
    } else {
        ((king / 8) * 8 + 2) as u32
    }
}

/// The UCI text of a move: origin and destination squares, then a promotion
/// letter; castling as the king's move; a drop as nothing.
pub open spec fn uci_spec(m: ChessMove) -> Seq<char> {
    match m {
        ChessMove::Normal { from, to, promotion, .. } => square_name_spec(from as u32)
            + square_name_spec(to as u32) + match promotion {
            Some(r) => seq![promotion_char(r)],
            None => seq![],
        },
        ChessMove::EnPassant { from, to } => square_name_spec(from as u32) + square_name_spec(
            to as u32,
        ),
        ChessMove::Castle { king, rook } => square_name_spec(king as u32) + square_name_spec(
            castle_target(king, rook),
        ),
        ChessMove::Put { .. } => seq![],
    }
}

/// Appends `t` to `s`.
pub fn append_string(s: &mut String, t: &String)
    ensures
        final(s)@ == old(s)@ + t@,
{
    let cs = crate::text::chars_of(t.as_str());
    let ghost start = s@;
    let mut i: usize = 0;
    while i < cs.len()
        invariant
            0 <= i <= cs@.len(),
            cs@ == t@,
            s@ == start + cs@.take(i as int),
        decreases cs@.len() - i,
    {
        push_char(s, cs[i]);
        assert(s@ =~= start + cs@.take(i + 1));
        i = i + 1;
    }
    assert(cs@.take(i as int) =~= cs@);
}

/// The UCI text of a move.
pub fn uci_string(m: &ChessMove) -> (res: String)
    requires
        m.well_formed(),
    ensures
        res@ == uci_spec(*m),
{
    match *m {
        ChessMove::Normal { from, to, promotion, .. } => {
            let mut s = square_name(from as u32);
            append_string(&mut s, &square_name(to as u32));
            if let Some(r) = promotion {
                let c = if r == QUEEN {
                    'q'
                } else if r == ROOK {
                    'r'
                } else if r == BISHOP {
                    'b'
                } else if r == KNIGHT {
                    'n'
                } else {
                    'q'
                };
                push_char(&mut s, c);
            }
            assert(s@ =~= uci_spec(*m));
            s
        },
        ChessMove::EnPassant { from, to } => {
            let mut s = square_name(from as u32);
            append_string(&mut s, &square_name(to as u32));
            s
        },
        ChessMove::Castle { king, rook } => {
            let target: u32 = if rook % 8 > king % 8 {
                ((king / 8) * 8 + 6) as u32
            } else {
                ((king / 8) * 8 + 2) as u32
            };
            let mut s = square_name(king as u32);
            append_string(&mut s, &square_name(target));
            s
        },
        ChessMove::Put { .. } => {
            let s = String::new();
            assert(s@ =~= uci_spec(*m));
            s
        },
    }
}

/// A role's lowercase letter (`Role::char`).
pub open spec fn role_char(r: u8) -> char {
    if r == PAWN {
        'p'
    } else if r == KNIGHT {
        'n'
    } else if r == BISHOP {
        'b'
    } else if r == ROOK {
        'r'
    } else if r == QUEEN {
        'q'
    } else {
        'k'
    }
}

/// A role's uppercase letter (`Role::upper_char`).
pub open spec fn role_upper_char(r: u8) -> char {
    if r == PAWN {
        'P'
    } else if r == KNIGHT {
        'N'
    } else if r == BISHOP {
        'B'
    } else if r == ROOK {
        'R'
    } else if r == QUEEN {
        'Q'
    } else {
        'K'
    }
}

/// The UCI text of a move in standard castling mode (`UciMove::from_move`
/// with `CastlingMode::Standard`, displayed): origin, destination, promotion
/// letter; castling as the king's move to the g-file (rook on a later square)
/// or the c-file; a drop as the role's capital, `@` and the square.
pub open spec fn standard_uci_spec(m: ChessMove) -> Seq<char> {
    match m {
        ChessMove::Normal { from, to, promotion, .. } => square_name_spec(from as u32)
            + square_name_spec(to as u32) + match promotion {
            Some(r) => seq![role_char(r)],
            None => seq![],
        },
        ChessMove::EnPassant { from, to } => square_name_spec(from as u32) + square_name_spec(
            to as u32,
        ),
        ChessMove::Castle { king, rook } => square_name_spec(king as u32) + square_name_spec(
            if king < rook {
                ((king / 8) * 8 + 6) as u32
            } else {
                ((king / 8) * 8 + 2) as u32
            },
        ),
        ChessMove::Put { role, to } => seq![role_upper_char(role), '@'] + square_name_spec(
            to as u32,
        ),
    }
}

/// `UciMove::from_move(m, CastlingMode::Standard).to_string()`.
#[verifier::external_body]
pub(crate) fn standard_uci(m: &LegalMove) -> (res: String)
    ensures
        res@ == standard_uci_spec(m@),
{
    UciMove::from_move(&m.mv, shakmaty::CastlingMode::Standard).to_string()
}

/// The category of a piece role: pawn 0, knight 1, bishop 2, rook 3,
/// queen 4, king 5.
pub open spec fn category_spec(role: u8) -> u8 {
    (role - 1) as u8
}

pub fn role_to_category(role: u8) -> (res: u8)
    requires
        is_role(role),
    ensures
        res == category_spec(role),
{
    match role {
        PAWN => 0,
        KNIGHT => 1,
        BISHOP => 2,
        ROOK => 3,
        QUEEN => 4,
        _ => 5,
    }
}

} // verus!
