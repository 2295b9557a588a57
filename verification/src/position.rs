use vstd::prelude::*;

use crate::bitboard::{
    lemma_algebra, lemma_empty, lemma_ext, lemma_from_set, lemma_single, lemma_without, Bitboard,
};
use crate::board::{
    attackers, blockers_of, checkers_of, color_bb, has_king, kind_bb, king_sq, lemma_board_bb,
    lemma_lift, lemma_place, occupied, own_bb, pinners_against, pins, screen, sliders_to_spec,
    snipers,
};
use crate::color::Color;
use crate::piece::{Piece, PieceType};
use crate::precompute::Tables;
use crate::square::{lemma_square_index, Square};

pub mod checks;
pub mod fen;
pub mod legal;
pub mod play;
pub mod safety;
pub mod uci;

verus! {

/// What a move cannot bring back by itself, and what is derived from the board, kept
/// for each move played.
#[derive(Debug, Clone, Copy)]
pub struct State {
    /// The pieces that give check to the side to move.
    pub checkers: Bitboard,
    /// For each side, its pieces that pin a piece to the other side's king.
    pub pinners: [Bitboard; 2],
    /// For each side, the pieces that alone shield its king from a slider.
    pub blockers: [Bitboard; 2],
    /// The piece that the move leading here captured.
    pub captured: Option<Piece>,
    /// The square that a pawn may capture on en passant.
    pub en_passant: Option<Square>,
    /// The castling rights that are left, one bit for each.
    pub castle_rights: u8,
    /// The number of moves since the last capture or pawn move.
    pub halfmoves: i32,
}

/// A right to castle, or a set of such rights.
#[derive(Debug, Clone, Copy, PartialEq, Eq, Structural)]
pub enum CastleFlag {
    WhiteShort,
    WhiteLong,
    WhiteAll,
    BlackShort,
    BlackLong,
    BlackAll,
    All,
}

impl CastleFlag {
    /// Whether the flag stands for one right of one side.
    pub open spec fn is_single(self) -> bool {
        self == CastleFlag::WhiteShort || self == CastleFlag::WhiteLong || self
            == CastleFlag::BlackShort || self == CastleFlag::BlackLong
    }

    /// The bits of the rights that the flag stands for.
    pub open spec fn mask(self) -> u8 {
        match self {
            CastleFlag::All => 0xF,
            CastleFlag::WhiteShort => 0x1,
            CastleFlag::WhiteLong => 0x2,
            CastleFlag::WhiteAll => 0x3,
            CastleFlag::BlackShort => 0x4,
            CastleFlag::BlackLong => 0x8,
            CastleFlag::BlackAll => 0xC,
        }
    }

    /// The side that the flag belongs to.
    pub open spec fn color_spec(self) -> Color {
        match self {
            CastleFlag::WhiteAll | CastleFlag::WhiteShort | CastleFlag::WhiteLong => Color::White,
            _ => Color::Black,
        }
    }

    /// The square that the king leaves.
    pub open spec fn king_from(self) -> Square {
        match self.color_spec() {
            Color::White => Square::E1,
            Color::Black => Square::E8,
        }
    }

    /// The square that the king reaches.
    pub open spec fn king_to(self) -> Square {
        match self {
            CastleFlag::WhiteShort => Square::G1,
            CastleFlag::WhiteLong => Square::C1,
            CastleFlag::BlackShort => Square::G8,
            _ => Square::C8,
        }
    }

    /// The square that the rook leaves.
    pub open spec fn rook_from(self) -> Square {
        match self {
            CastleFlag::WhiteShort => Square::H1,
            CastleFlag::WhiteLong => Square::A1,
            CastleFlag::BlackShort => Square::H8,
            _ => Square::A8,
        }
    }

    /// The square that the rook reaches.
    pub open spec fn rook_to(self) -> Square {
        match self {
            CastleFlag::WhiteShort => Square::F1,
            CastleFlag::WhiteLong => Square::D1,
            CastleFlag::BlackShort => Square::F8,
            _ => Square::D8,
        }
    }

    /// The right of side `color` to castle on the king's side.
    pub open spec fn short_of(color: Color) -> CastleFlag {
        match color {
            Color::White => CastleFlag::WhiteShort,
            Color::Black => CastleFlag::BlackShort,
        }
    }

    /// The right of side `color` to castle on the queen's side.
    pub open spec fn long_of(color: Color) -> CastleFlag {
        match color {
            Color::White => CastleFlag::WhiteLong,
            Color::Black => CastleFlag::BlackLong,
        }
    }

    /// The bits of the rights that the flag stands for.
    pub fn bits(self) -> (r: u8)
        ensures
            r == self.mask(),
    {
        match self {
            CastleFlag::All => 0xF,
            CastleFlag::WhiteShort => 0x1,
            CastleFlag::WhiteLong => 0x2,
            CastleFlag::WhiteAll => 0x3,
            CastleFlag::BlackShort => 0x4,
            CastleFlag::BlackLong => 0x8,
            CastleFlag::BlackAll => 0xC,
        }
    }

    /// The side that the right belongs to.
    pub fn color(self) -> (r: Color)
        requires
            self != CastleFlag::All,
        ensures
            r == self.color_spec(),
    {
        match self {
            CastleFlag::WhiteAll | CastleFlag::WhiteShort | CastleFlag::WhiteLong => Color::White,
            _ => Color::Black,
        }
    }

    /// The square that the king leaves.
    pub fn from_square(self) -> (r: Square)
        requires
            self != CastleFlag::All,
        ensures
            r == self.king_from(),
    {
        match self.color() {
            Color::White => Square::E1,
            Color::Black => Square::E8,
        }
    }

    /// The square that the king reaches.
    pub fn to_square(self) -> (r: Square)
        requires
            self.is_single(),
        ensures
            r == self.king_to(),
    {
        match self {
            CastleFlag::WhiteShort => Square::G1,
            CastleFlag::WhiteLong => Square::C1,
            CastleFlag::BlackShort => Square::G8,
            _ => Square::C8,
        }
    }

    /// The square that the rook leaves.
    pub fn rook_from_square(self) -> (r: Square)
        requires
            self.is_single(),
        ensures
            r == self.rook_from(),
    {
        match self {
            CastleFlag::WhiteShort => Square::H1,
            CastleFlag::WhiteLong => Square::A1,
            CastleFlag::BlackShort => Square::H8,
            _ => Square::A8,
        }
    }

    /// The square that the rook reaches.
    pub fn rook_to_square(self) -> (r: Square)
        requires
            self.is_single(),
        ensures
            r == self.rook_to(),
    {
        match self {
            CastleFlag::WhiteShort => Square::F1,
            CastleFlag::WhiteLong => Square::D1,
            CastleFlag::BlackShort => Square::F8,
            _ => Square::D8,
        }
    }

    /// The two rights of side `color`, the short one first.
    pub fn variants_for(color: Color) -> (r: [Self; 2])
        ensures
            r@[0] == CastleFlag::short_of(color),
            r@[1] == CastleFlag::long_of(color),
    {
        match color {
            Color::White => [CastleFlag::WhiteShort, CastleFlag::WhiteLong],
            Color::Black => [CastleFlag::BlackShort, CastleFlag::BlackLong],
        }
    }

    /// The right of side `color` to castle on the king's side.
    pub fn short_for(color: Color) -> (r: Self)
        ensures
            r == CastleFlag::short_of(color),
            r.is_single(),
            r.color_spec() == color,
    {
        match color {
            Color::White => CastleFlag::WhiteShort,
            Color::Black => CastleFlag::BlackShort,
        }
    }

    /// The right of side `color` to castle on the queen's side.
    pub fn long_for(color: Color) -> (r: Self)
        ensures
            r == CastleFlag::long_of(color),
            r.is_single(),
            r.color_spec() == color,
    {
        match color {
            Color::White => CastleFlag::WhiteLong,
            Color::Black => CastleFlag::BlackLong,
        }
    }
}

impl From<CastleFlag> for u8 {
    fn from(value: CastleFlag) -> (r: Self) {
        value.bits()
    }
}

impl vstd::std_specs::convert::FromSpecImpl<CastleFlag> for u8 {
    open spec fn obeys_from_spec() -> bool {
        true
    }

    open spec fn from_spec(value: CastleFlag) -> Self {
        value.mask()
    }
}

impl State {
    /// The state of a game in which nothing has happened, as a value.
    pub open spec fn blank() -> State {
        State {
            checkers: Bitboard(0),
            pinners: [Bitboard(0), Bitboard(0)],
            blockers: [Bitboard(0), Bitboard(0)],
            captured: None,
            en_passant: None,
            castle_rights: 0,
            halfmoves: 0,
        }
    }

    /// The state of a game in which nothing has happened: no check, no pin, no rights.
    pub fn new() -> (r: Self)
        ensures
            r == State::blank(),
            r.checkers == Bitboard::empty(),
            r.pinners@ == seq![Bitboard::empty(), Bitboard::empty()],
            r.blockers@ == seq![Bitboard::empty(), Bitboard::empty()],
            r.captured is None,
            r.en_passant is None,
            r.castle_rights == 0,
            r.halfmoves == 0,
    {
        let r = Self {
            blockers: [Bitboard::new(0), Bitboard::new(0)],
            pinners: [Bitboard::new(0), Bitboard::new(0)],
            checkers: Bitboard::new(0),
            captured: None,
            castle_rights: 0,
            en_passant: None,
            halfmoves: 0,
        };
        proof {
            assert(r.pinners@ =~= seq![Bitboard::empty(), Bitboard::empty()]);
            assert(r.blockers@ =~= seq![Bitboard::empty(), Bitboard::empty()]);
            assert(r.pinners =~= State::blank().pinners);
            assert(r.blockers =~= State::blank().blockers);
        }
        r
    }

    /// The state that the next move starts from: the castling rights and the move
    /// clock are carried over, everything else is cleared.
    pub fn carry(&self) -> (r: Self)
        ensures
            r == (State {
                castle_rights: self.castle_rights,
                halfmoves: self.halfmoves,
                ..State::blank()
            }),
            r.checkers == Bitboard::empty(),
            r.captured is None,
            r.en_passant is None,
            r.castle_rights == self.castle_rights,
            r.halfmoves == self.halfmoves,
    {
        let r = Self {
            blockers: [Bitboard::new(0), Bitboard::new(0)],
            pinners: [Bitboard::new(0), Bitboard::new(0)],
            checkers: Bitboard::new(0),
            captured: None,
            castle_rights: self.castle_rights,
            en_passant: None,
            halfmoves: self.halfmoves,
        };
        proof {
            assert(r.pinners =~= State::blank().pinners);
            assert(r.blockers =~= State::blank().blockers);
        }
        r
    }

    /// Whether the castling rights hold all the rights of `cf`.
    pub open spec fn has_right(self, cf: CastleFlag) -> bool {
        self.castle_rights & cf.mask() == cf.mask()
    }
}

/// Whether a state's record of checks and pins is what the board shows.
pub open spec fn attack_info_ok(board: Seq<Option<Piece>>, to_move: Color, st: State) -> bool {
    &&& st.checkers == checkers_of(board, to_move)
    &&& st.blockers@[0] == blockers_of(board, Color::White)
    &&& st.blockers@[1] == blockers_of(board, Color::Black)
    &&& st.pinners@[0] == pinners_against(board, Color::Black)
    &&& st.pinners@[1] == pinners_against(board, Color::White)
}

/// A position as a value: what stands on each square, whose move it is, how many moves
/// were played, and the states of all the moves played, the latest last.
pub struct PositionView {
    pub board: Seq<Option<Piece>>,
    pub to_move: Color,
    pub ply: int,
    pub states: Seq<State>,
}

impl PositionView {
    /// The piece on square `s`.
    pub open spec fn at(self, s: Square) -> Option<Piece> {
        self.board[s.index()]
    }

    /// The state of the latest move.
    pub open spec fn top(self) -> State {
        self.states.last()
    }

    /// The square that a pawn may capture on en passant.
    pub open spec fn ep(self) -> Option<Square> {
        self.top().en_passant
    }

    /// Whether the position has 64 squares and a state.
    pub open spec fn shaped(self) -> bool {
        self.board.len() == 64 && self.states.len() > 0
    }

    /// Whether both sides have a king.
    pub open spec fn has_kings(self) -> bool {
        has_king(self.board, Color::White) && has_king(self.board, Color::Black)
    }
}

/// A chess position: the board, the side to move, and the states of the moves that led
/// to it, which let each move be taken back.
#[derive(Debug)]
pub struct Position {
    to_move: Color,
    moves: i32,
    colors: [Bitboard; 2],
    pieces: [Bitboard; 6],
    board: [Option<Piece>; 64],
    states: Vec<State>,
}

impl View for Position {
    type V = PositionView;

    closed spec fn view(&self) -> PositionView {
        PositionView {
            board: self.board@,
            to_move: self.to_move,
            ply: self.moves as int,
            states: self.states@,
        }
    }
}

impl Position {
    /// Whether the bitboards hold what the board holds, and there is a state.
    pub closed spec fn wf(&self) -> bool {
        &&& self.states@.len() > 0
        &&& self.colors@[0] == color_bb(self.board@, Color::White)
        &&& self.colors@[1] == color_bb(self.board@, Color::Black)
        &&& self.pieces@[0] == kind_bb(self.board@, PieceType::Pawn)
        &&& self.pieces@[1] == kind_bb(self.board@, PieceType::Knight)
        &&& self.pieces@[2] == kind_bb(self.board@, PieceType::Bishop)
        &&& self.pieces@[3] == kind_bb(self.board@, PieceType::Rook)
        &&& self.pieces@[4] == kind_bb(self.board@, PieceType::Queen)
        &&& self.pieces@[5] == kind_bb(self.board@, PieceType::King)
    }

    /// A well-formed position has 64 squares and a state.
    pub proof fn lemma_wf_shaped(&self)
        requires
            self.wf(),
        ensures
            self@.shaped(),
    {
    }

    /// The empty board before any move, as a value.
    pub open spec fn fresh() -> PositionView {
        PositionView {
            board: Seq::new(64, |i: int| None::<Piece>),
            to_move: Color::White,
            ply: 0,
            states: seq![State::blank()],
        }
    }

    /// The empty board with White to move, no move played and no castling rights.
    pub fn new() -> (r: Self)
        ensures
            r.wf(),
            r@ == Position::fresh(),
            r@.board == Seq::new(64, |i: int| None::<Piece>),
            r@.to_move == Color::White,
            r@.ply == 0,
            r@.states.len() == 1,
            r@.top().castle_rights == 0,
            r@.top().en_passant is None,
            r@.top().captured is None,
            r@.top().halfmoves == 0,
    {
        let mut states: Vec<State> = Vec::new();
        states.push(State::new());
        let r = Self {
            board: [None;64],
            colors: [Bitboard::new(0);2],
            moves: 0,
            pieces: [Bitboard::new(0);6],
            to_move: Color::White,
            states,
        };
        proof {
            assert(r.board@ =~= Seq::new(64, |i: int| None::<Piece>));
            assert(r.states@ =~= seq![State::blank()]);
            assert forall|c: Color| color_bb(r.board@, c) == Bitboard(0) by {
                assert forall|s: Square|
                    color_bb(r.board@, c).contains(s) == Bitboard(0).contains(s) by {
                    lemma_board_bb(r.board@, s);
                    lemma_square_index(s);
                    lemma_algebra(Bitboard(0), Bitboard(0), s);
                }
                lemma_ext(color_bb(r.board@, c), Bitboard(0));
            }
            assert forall|k: PieceType| kind_bb(r.board@, k) == Bitboard(0) by {
                assert forall|s: Square|
                    kind_bb(r.board@, k).contains(s) == Bitboard(0).contains(s) by {
                    lemma_board_bb(r.board@, s);
                    lemma_square_index(s);
                    lemma_algebra(Bitboard(0), Bitboard(0), s);
                }
                lemma_ext(kind_bb(r.board@, k), Bitboard(0));
            }
        }
        r
    }

    /// The side to move.
    pub fn to_move(&self) -> (r: Color)
        ensures
            r == self@.to_move,
    {
        self.to_move
    }

    /// The number of moves played.
    pub fn ply(&self) -> (r: i32)
        ensures
            r == self@.ply,
    {
        self.moves
    }

    /// The squares that hold a piece.
    pub fn all(&self) -> (r: Bitboard)
        requires
            self.wf(),
        ensures
            r == occupied(self@.board),
    {
        self.colors[0].bitor(self.colors[1])
    }

    /// The squares that hold a piece of side `c`.
    pub fn color(&self, c: Color) -> (r: Bitboard)
        requires
            self.wf(),
        ensures
            r == color_bb(self@.board, c),
    {
        self.colors[c as usize]
    }

    /// The squares that hold a piece of kind `t`.
    pub fn pieces(&self, t: PieceType) -> (r: Bitboard)
        requires
            self.wf(),
        ensures
            r == kind_bb(self@.board, t),
    {
        self.pieces[t as usize]
    }

    /// The squares that hold a piece of one of the kinds `ts`.
    pub fn pieces_list(&self, ts: &[PieceType]) -> (r: Bitboard)
        requires
            self.wf(),
        ensures
            forall|s: Square| #[trigger]
                r.contains(s) == (exists|i: int|
                    0 <= i < ts@.len() && kind_bb(self@.board, #[trigger] ts@[i]).contains(s)),
    {
        let mut res = Bitboard::new(0);
        let mut i: usize = 0;
        proof {
            lemma_empty(res);
        }
        while i < ts.len()
            invariant
                self.wf(),
                i <= ts@.len(),
                forall|s: Square| #[trigger]
                    res.contains(s) == (exists|j: int|
                        0 <= j < i && kind_bb(self@.board, #[trigger] ts@[j]).contains(s)),
            decreases ts@.len() - i,
        {
            let m = self.pieces(ts[i]);
            let ghost before = res;
            res.bitor_assign(m);
            proof {
                assert forall|s: Square| #[trigger]
                    res.contains(s) == (exists|j: int|
                        0 <= j < i + 1 && kind_bb(self@.board, #[trigger] ts@[j]).contains(s)) by {
                    lemma_algebra(before, m, s);
                    if m.contains(s) {
                        assert(kind_bb(self@.board, ts@[i as int]).contains(s));
                    }
                }
            }
            i += 1;
        }
        res
    }

    /// The squares that hold a piece of kind `t` and side `c`.
    pub fn spec(&self, t: PieceType, c: Color) -> (r: Bitboard)
        requires
            self.wf(),
        ensures
            r == own_bb(self@.board, t, c),
    {
        self.pieces(t).bitand(self.color(c))
    }

    /// The squares that hold a piece of side `c` and of one of the kinds `ts`.
    pub fn spec_list(&self, ts: &[PieceType], c: Color) -> (r: Bitboard)
        requires
            self.wf(),
        ensures
            forall|s: Square| #[trigger]
                r.contains(s) == (exists|i: int|
                    0 <= i < ts@.len() && own_bb(self@.board, #[trigger] ts@[i], c).contains(s)),
    {
        let list = self.pieces_list(ts);
        let r = list.bitand(self.color(c));
        proof {
            assert forall|s: Square| #[trigger]
                r.contains(s) == (exists|i: int|
                    0 <= i < ts@.len() && own_bb(self@.board, #[trigger] ts@[i], c).contains(s)) by {
                lemma_algebra(list, color_bb(self@.board, c), s);
                if r.contains(s) {
                    let i = choose|i: int|
                        0 <= i < ts@.len() && kind_bb(self@.board, #[trigger] ts@[i]).contains(s);
                    lemma_algebra(kind_bb(self@.board, ts@[i]), color_bb(self@.board, c), s);
                }
                if exists|i: int|
                    0 <= i < ts@.len() && own_bb(self@.board, #[trigger] ts@[i], c).contains(s) {
                    let i = choose|i: int|
                        0 <= i < ts@.len() && own_bb(self@.board, #[trigger] ts@[i], c).contains(
                            s,
                        );
                    lemma_algebra(kind_bb(self@.board, ts@[i]), color_bb(self@.board, c), s);
                }
            }
        }
        r
    }

    /// The piece on square `s`.
    pub fn piece_on(&self, s: Square) -> (r: Option<Piece>)
        ensures
            r == self@.at(s),
    {
        proof {
            lemma_square_index(s);
        }
        self.board[s.idx() as usize]
    }

    /// Whether square `s` is empty.
    pub fn empty(&self, s: Square) -> (r: bool)
        ensures
            r == self@.at(s) is None,
    {
        self.piece_on(s).is_none()
    }

    /// The square of the king of side `color`.
    pub fn king(&self, color: Color) -> (r: Square)
        requires
            self.wf(),
            has_king(self@.board, color),
        ensures
            r == king_sq(self@.board, color),
            self@.at(r) == Some(Piece::of(PieceType::King, color)),
    {
        let kings = self.spec(PieceType::King, color);
        let r = kings.lsb();
        proof {
            lemma_algebra(
                kind_bb(self@.board, PieceType::King),
                color_bb(self@.board, color),
                r,
            );
            lemma_board_bb(self@.board, r);
            crate::piece::lemma_piece_of(self@.at(r)->0);
        }
        r
    }

    /// Whether all the castling rights of `cf` are left.
    pub fn has_castle(&self, cf: CastleFlag) -> (r: bool)
        requires
            self@.states.len() > 0,
        ensures
            r == self@.top().has_right(cf),
    {
        let cf_u8: u8 = cf.bits();
        self.state().castle_rights & cf_u8 == cf_u8
    }

    /// Whether the squares between the king and the rook of `cf` are empty.
    pub fn can_castle(&self, cf: CastleFlag, tables: &Tables) -> (r: bool)
        requires
            self.wf(),
            cf.is_single(),
        ensures
            r == crate::precompute::interval_spec(cf.king_from(), cf.rook_from()).and(
                occupied(self@.board),
            ).is_empty(),
    {
        let inb = Bitboard::interval(cf.from_square(), cf.rook_from_square(), tables);
        inb.bitand(self.all()).zero()
    }

    /// The state of the latest move.
    pub fn state(&self) -> (r: &State)
        requires
            self@.states.len() > 0,
        ensures
            *r == self@.top(),
    {
        &self.states[self.states.len() - 1]
    }

    /// The square that a pawn may capture on en passant.
    pub fn ep(&self) -> (r: Option<Square>)
        requires
            self@.states.len() > 0,
        ensures
            r == self@.top().en_passant,
    {
        self.state().en_passant
    }

    /// The pieces that give check to the side to move.
    pub fn checkers(&self) -> (r: Bitboard)
        requires
            self@.states.len() > 0,
        ensures
            r == self@.top().checkers,
    {
        self.state().checkers
    }

    /// The pieces of side `color` that pin a piece to the other side's king.
    pub fn pinners(&self, color: Color) -> (r: Bitboard)
        requires
            self@.states.len() > 0,
        ensures
            r == self@.top().pinners@[color as int],
    {
        self.state().pinners[color as usize]
    }

    /// The pieces that alone shield the king of side `color` from a slider.
    pub fn blockers(&self, color: Color) -> (r: Bitboard)
        requires
            self@.states.len() > 0,
        ensures
            r == self@.top().blockers@[color as int],
    {
        self.state().blockers[color as usize]
    }

    /// The number of moves since the last capture or pawn move.
    pub fn rule50(&self) -> (r: i32)
        requires
            self@.states.len() > 0,
        ensures
            r == self@.top().halfmoves,
    {
        self.state().halfmoves
    }

    /// Whether the side to move is in check.
    pub fn in_check(&self) -> (r: bool)
        requires
            self@.states.len() > 0,
        ensures
            r == !self@.top().checkers.is_empty(),
    {
        self.checkers().nonzero()
    }

    /// Puts a piece on an empty square.
    #[verifier::rlimit(50)]
    pub fn add_piece(&mut self, piece: Piece, square: Square)
        requires
            old(self).wf(),
            old(self)@.at(square) is None,
        ensures
            final(self).wf(),
            final(self)@ == (PositionView {
                board: old(self)@.board.update(square.index(), Some(piece)),
                ..old(self)@
            }),
    {
        proof {
            lemma_square_index(square);
            lemma_place(self.board@, square, piece);
            crate::piece::lemma_piece_of(piece);
        }
        self.board[square.idx() as usize] = Some(piece);
        let bb = Bitboard::from_square(square);
        let c: usize = piece.color() as usize;
        let k: usize = piece.kind() as usize;
        self.colors[c] = self.colors[c].bitor(bb);
        self.pieces[k] = self.pieces[k].bitor(bb);
    }

    /// Takes the piece off a square, if there is one, and returns it.
    #[must_use]
    #[verifier::rlimit(50)]
    pub fn remove_piece(&mut self, square: Square) -> (r: Option<Piece>)
        requires
            old(self).wf(),
        ensures
            final(self).wf(),
            r == old(self)@.at(square),
            final(self)@ == (PositionView {
                board: old(self)@.board.update(square.index(), None),
                ..old(self)@
            }),
    {
        proof {
            lemma_square_index(square);
        }
        let i: usize = square.idx() as usize;
        match self.board[i] {
            None => {
                proof {
                    assert(self.board@.update(square.index(), None) =~= self.board@);
                }
                None
            },
            Some(pc) => {
                proof {
                    lemma_lift(self.board@, square);
                }
                self.board[i] = None;
                let bb = Bitboard::from_square(square);
                let c: usize = pc.color() as usize;
                let k: usize = pc.kind() as usize;
                self.colors[c] = self.colors[c].bitxor(bb);
                self.pieces[k] = self.pieces[k].bitxor(bb);
                Some(pc)
            },
        }
    }

    /// Moves the piece on `from` to the empty square `to`.
    pub fn move_piece(&mut self, from: Square, to: Square)
        requires
            old(self).wf(),
            from != to,
            old(self)@.at(from) is Some,
            old(self)@.at(to) is None,
        ensures
            final(self).wf(),
            final(self)@ == (PositionView {
                board: old(self)@.board.update(from.index(), None).update(
                    to.index(),
                    old(self)@.at(from),
                ),
                ..old(self)@
            }),
    {
        proof {
            lemma_square_index(from);
            lemma_square_index(to);
            if from.index() == to.index() {
                crate::square::lemma_square_eq(from, to);
            }
        }
        let pc = self.remove_piece(from);
        match pc {
            Some(p) => {
                self.add_piece(p, to);
            },
            None => {},
        }
    }

    /// Adds the castling rights of `cf`.
    pub fn add_castle_right(&mut self, cf: CastleFlag)
        requires
            old(self).wf(),
        ensures
            final(self).wf(),
            final(self)@.board == old(self)@.board,
            final(self)@.to_move == old(self)@.to_move,
            final(self)@.ply == old(self)@.ply,
            final(self)@.states == old(self)@.states.drop_last().push(
                State {
                    castle_rights: old(self)@.top().castle_rights | cf.mask(),
                    ..old(self)@.top()
                },
            ),
    {
        let mut st = *self.state();
        st.castle_rights = st.castle_rights | cf.bits();
        self.set_state(st);
    }

    /// Takes away the castling rights of `cf`.
    pub fn remove_castle_right(&mut self, cf: CastleFlag)
        requires
            old(self).wf(),
        ensures
            final(self).wf(),
            final(self)@.board == old(self)@.board,
            final(self)@.to_move == old(self)@.to_move,
            final(self)@.ply == old(self)@.ply,
            final(self)@.states == old(self)@.states.drop_last().push(
                State {
                    castle_rights: old(self)@.top().castle_rights & !cf.mask(),
                    ..old(self)@.top()
                },
            ),
    {
        let mut st = *self.state();
        st.castle_rights = st.castle_rights & !cf.bits();
        self.set_state(st);
    }

    /// Puts `st` in the place of the state of the latest move.
    pub(crate) fn set_state(&mut self, st: State)
        requires
            old(self).wf(),
        ensures
            final(self).wf(),
            final(self)@.board == old(self)@.board,
            final(self)@.to_move == old(self)@.to_move,
            final(self)@.ply == old(self)@.ply,
            final(self)@.states == old(self)@.states.drop_last().push(st),
    {
        let _ = self.states.pop();
        self.states.push(st);
    }

    /// Sets the side to move, the castling rights and the en-passant square.
    pub(crate) fn setup(&mut self, to_move: Color, rights: u8, ep: Option<Square>)
        requires
            old(self).wf(),
        ensures
            final(self).wf(),
            final(self)@ == (PositionView {
                to_move,
                states: old(self)@.states.drop_last().push(
                    State { castle_rights: rights, en_passant: ep, ..old(self)@.top() },
                ),
                ..old(self)@
            }),
    {
        self.to_move = to_move;
        let mut st = *self.state();
        st.castle_rights = rights;
        st.en_passant = ep;
        self.set_state(st);
    }

    /// Adds a state on top of the states of the moves played.
    pub(crate) fn push_state(&mut self, st: State)
        requires
            old(self).wf(),
        ensures
            final(self).wf(),
            final(self)@ == (PositionView { states: old(self)@.states.push(st), ..old(self)@ }),
    {
        self.states.push(st);
    }

    /// Drops the state of the latest move.
    pub(crate) fn pop_state(&mut self)
        requires
            old(self).wf(),
            old(self)@.states.len() > 1,
        ensures
            final(self).wf(),
            final(self)@ == (PositionView {
                states: old(self)@.states.drop_last(),
                ..old(self)@
            }),
    {
        let _ = self.states.pop();
    }

    /// Hands the move to the other side and counts one more move, or one less.
    pub(crate) fn turn(&mut self, forward: bool)
        requires
            old(self).wf(),
            forward ==> old(self)@.ply < i32::MAX,
            !forward ==> old(self)@.ply > i32::MIN,
        ensures
            final(self).wf(),
            final(self)@ == (PositionView {
                to_move: old(self)@.to_move.opposite(),
                ply: if forward {
                    old(self)@.ply + 1
                } else {
                    old(self)@.ply - 1
                },
                ..old(self)@
            }),
    {
        self.to_move = self.to_move.not();
        if forward {
            self.moves = self.moves + 1;
        } else {
            self.moves = self.moves - 1;
        }
    }

    /// The pieces of side `by` that attack `square`.
    pub fn attacks_to(&self, square: Square, by: Color, tables: &Tables) -> (r: Bitboard)
        requires
            self.wf(),
        ensures
            r == attackers(self@.board, square, by, occupied(self@.board)),
    {
        self.attacks_to_with_occ(square, by, self.all(), tables)
    }

    /// The pieces of side `by` that attack `square` when the squares of `occupancy` are
    /// taken as the occupied ones.
    pub fn attacks_to_with_occ(
        &self,
        square: Square,
        by: Color,
        occupancy: Bitboard,
        tables: &Tables,
    ) -> (r: Bitboard)
        requires
            self.wf(),
        ensures
            r == attackers(self@.board, square, by, occupancy),
    {
        let pawns = tables.pawn_attacks(square, by.not()).bitand(self.pieces(PieceType::Pawn));
        let knights = tables.knight_attacks(square).bitand(self.pieces(PieceType::Knight));
        let sliders = self.sliders_to(square, occupancy, tables);
        let kings = tables.king_attacks(square).bitand(self.pieces(PieceType::King));
        let moves = pawns.bitor(knights).bitor(sliders).bitor(kings);
        moves.bitand(self.color(by))
    }

    /// The bishops, rooks and queens, of either side, that attack `square` when the
    /// squares of `occupancy` are taken as the occupied ones.
    pub fn sliders_to(&self, square: Square, occupancy: Bitboard, tables: &Tables) -> (r:
        Bitboard)
        requires
            self.wf(),
        ensures
            r == sliders_to_spec(self@.board, square, occupancy),
    {
        let queens = self.pieces(PieceType::Queen);
        let bishops = tables.bishop_attacks(square, occupancy).bitand(
            self.pieces(PieceType::Bishop).bitor(queens),
        );
        let rooks = tables.rook_attacks(square, occupancy).bitand(
            self.pieces(PieceType::Rook).bitor(queens),
        );
        bishops.bitor(rooks)
    }

    /// The pieces that alone shield the king of side `color` from a slider, and the
    /// sliders that they shield it from.
    #[verifier::rlimit(50)]
    pub fn update_checkers_blockers(&self, color: Color, tables: &Tables) -> (r: (
        Bitboard,
        Bitboard,
    ))
        requires
            self.wf(),
            has_king(self@.board, color),
        ensures
            r.0 == blockers_of(self@.board, color),
            r.1 == pinners_against(self@.board, color),
    {
        let king = self.king(color);
        let ghost board = self@.board;
        let sliding = self.pieces(PieceType::Bishop).bitor(self.pieces(PieceType::Rook)).bitor(
            self.pieces(PieceType::Queen),
        );
        let potential = self.attacks_to_with_occ(king, color.not(), Bitboard::new(0), tables).bitand(
            sliding,
        );
        let all = self.all();
        let mut rest = potential;
        let mut blockers = Bitboard::new(0);
        let mut pinners = Bitboard::new(0);
        proof {
            lemma_empty(blockers);
        }
        while rest.nonzero()
            invariant
                self.wf(),
                board == self@.board,
                king == king_sq(board, color),
                all == occupied(board),
                potential == snipers(board, color),
                forall|s: Square| rest.contains(s) ==> potential.contains(s),
                forall|pp: Square| #[trigger]
                    pinners.contains(pp) == (potential.contains(pp) && !rest.contains(pp) && pins(
                        board,
                        color,
                        pp,
                    )),
                forall|b: Square| #[trigger]
                    blockers.contains(b) == (exists|pp: Square|
                        potential.contains(pp) && !rest.contains(pp) && pins(board, color, pp)
                            && #[trigger] screen(board, color, pp).contains(b)),
            decreases rest.0,
        {
            let pp = rest.lsb();
            let ghost rest0 = rest;
            let ghost blockers0 = blockers;
            let ghost pinners0 = pinners;
            rest = rest.without_lsb();
            let line_to_king = Bitboard::interval(king, pp, tables).bitand(all);
            let pinned = !(line_to_king.more_than_one() || line_to_king.zero());
            if pinned {
                blockers.bitor_assign(line_to_king);
                pinners.bitor_assign(Bitboard::from_square(pp));
            }
            proof {
                assert(line_to_king == screen(board, color, pp));
                assert(pinned == pins(board, color, pp));
                assert forall|s: Square| rest.contains(s) implies potential.contains(s) by {
                    lemma_without(rest0, pp, s);
                }
                assert forall|q: Square| #[trigger]
                    pinners.contains(q) == (potential.contains(q) && !rest.contains(q) && pins(
                        board,
                        color,
                        q,
                    )) by {
                    lemma_without(rest0, pp, q);
                    lemma_algebra(pinners0, Bitboard::single(pp), q);
                    lemma_single(pp, q);
                }
                assert forall|b: Square| #[trigger]
                    blockers.contains(b) == (exists|q: Square|
                        potential.contains(q) && !rest.contains(q) && pins(board, color, q)
                            && #[trigger] screen(board, color, q).contains(b)) by {
                    lemma_algebra(blockers0, line_to_king, b);
                    if blockers0.contains(b) {
                        let q = choose|q: Square|
                            potential.contains(q) && !rest0.contains(q) && pins(board, color, q)
                                && #[trigger] screen(board, color, q).contains(b);
                        lemma_without(rest0, pp, q);
                        assert(potential.contains(q) && !rest.contains(q) && pins(board, color, q)
                            && screen(board, color, q).contains(b));
                    }
                    if pinned && line_to_king.contains(b) {
                        lemma_without(rest0, pp, pp);
                        assert(potential.contains(pp) && !rest.contains(pp) && pins(
                            board,
                            color,
                            pp,
                        ) && screen(board, color, pp).contains(b));
                    }
                    if exists|q: Square|
                        potential.contains(q) && !rest.contains(q) && pins(board, color, q)
                            && #[trigger] screen(board, color, q).contains(b) {
                        let q = choose|q: Square|
                            potential.contains(q) && !rest.contains(q) && pins(board, color, q)
                                && #[trigger] screen(board, color, q).contains(b);
                        lemma_without(rest0, pp, q);
                        if q != pp {
                            assert(potential.contains(q) && !rest0.contains(q) && pins(
                                board,
                                color,
                                q,
                            ) && screen(board, color, q).contains(b));
                        }
                    }
                }
            }
        }
        proof {
            lemma_empty(rest);
            assert forall|b: Square|
                blockers.contains(b) == blockers_of(board, color).contains(b) by {
                lemma_from_set(
                    Set::new(
                        |b: Square|
                            exists|pp: Square|
                                pins(board, color, pp) && #[trigger] screen(
                                    board,
                                    color,
                                    pp,
                                ).contains(b),
                    ),
                    b,
                );
                if blockers.contains(b) {
                    let q = choose|q: Square|
                        potential.contains(q) && !rest.contains(q) && pins(board, color, q)
                            && #[trigger] screen(board, color, q).contains(b);
                    assert(pins(board, color, q) && screen(board, color, q).contains(b));
                }
                if blockers_of(board, color).contains(b) {
                    let q = choose|q: Square|
                        pins(board, color, q) && #[trigger] screen(board, color, q).contains(b);
                    assert(potential.contains(q) && !rest.contains(q) && pins(board, color, q)
                        && screen(board, color, q).contains(b));
                }
            }
            lemma_ext(blockers, blockers_of(board, color));
            assert forall|q: Square|
                pinners.contains(q) == pinners_against(board, color).contains(q) by {
                lemma_from_set(Set::new(|pp: Square| pins(board, color, pp)), q);
            }
            lemma_ext(pinners, pinners_against(board, color));
        }
        (blockers, pinners)
    }

    /// Works out anew, and records in the state of the latest move, which pieces give
    /// check and which pieces pin or shield.
    pub fn update_state(&mut self, tables: &Tables)
        requires
            old(self).wf(),
            old(self)@.has_kings(),
        ensures
            final(self).wf(),
            final(self)@.board == old(self)@.board,
            final(self)@.to_move == old(self)@.to_move,
            final(self)@.ply == old(self)@.ply,
            final(self)@.states.len() == old(self)@.states.len(),
            final(self)@.states.drop_last() == old(self)@.states.drop_last(),
            attack_info_ok(final(self)@.board, final(self)@.to_move, final(self)@.top()),
            final(self)@.top().captured == old(self)@.top().captured,
            final(self)@.top().en_passant == old(self)@.top().en_passant,
            final(self)@.top().castle_rights == old(self)@.top().castle_rights,
            final(self)@.top().halfmoves == old(self)@.top().halfmoves,
    {
        let mov_color = self.to_move();
        let king = self.king(mov_color);
        let checkers = self.attacks_to(king, mov_color.not(), tables);
        let (white_blockers, black_pinners) = self.update_checkers_blockers(Color::White, tables);
        let (black_blockers, white_pinners) = self.update_checkers_blockers(Color::Black, tables);
        let prev = *self.state();
        let st = State {
            checkers,
            pinners: [white_pinners, black_pinners],
            blockers: [white_blockers, black_blockers],
            captured: prev.captured,
            en_passant: prev.en_passant,
            castle_rights: prev.castle_rights,
            halfmoves: prev.halfmoves,
        };
        self.set_state(st);
        proof {
            assert(self@.states.drop_last() =~= old(self)@.states.drop_last());
        }
    }
}

} // verus!
