use vstd::prelude::*;
use vstd::string::StringSliceAdditionalSpecFns;

use crate::board::has_king;
use crate::color::Color;
use crate::piece::{lemma_piece_parts, Piece, PieceType};
use crate::position::play::{holds_king, lemma_king_sq, sole_king};
use crate::position::{CastleFlag, Position, PositionView, State};
use crate::precompute::Tables;
use crate::square::{lemma_square_at_xy, lemma_square_index, Square};

verus! {

/// What a position's description in text holds: the board, the side to move, the
/// castling rights and the en-passant square.
pub struct FenData {
    pub board: Seq<Option<Piece>>,
    pub to_move: Color,
    pub rights: u8,
    pub ep: Option<Square>,
}

/// The place of `b` in `s` at or after `from`, or the length of `s` if there is none.
pub open spec fn index_of(s: Seq<u8>, b: u8, from: int) -> int
    decreases s.len() - from,
{
    if from >= s.len() {
        s.len() as int
    } else if s[from] == b {
        from
    } else {
        index_of(s, b, from + 1)
    }
}

/// The number of rank separators in `s`.
pub open spec fn slashes(s: Seq<u8>) -> nat
    decreases s.len(),
{
    if s.len() == 0 {
        0
    } else {
        slashes(s.drop_last()) + if s.last() == 47 {
            1nat
        } else {
            0nat
        }
    }
}

/// The piece that a byte stands for: a letter of `pnbrqk`, upper case for White.
pub open spec fn piece_of_byte(b: u8) -> Option<Piece> {
    Piece::from_letter(b as char)
}

/// The squares that a byte of a rank's description stands for: a digit is so many empty
/// squares, a letter is a piece.
pub open spec fn token_cells(b: u8) -> Option<Seq<Option<Piece>>> {
    if 49 <= b <= 56 {
        Some(Seq::new((b - 48) as nat, |i: int| None::<Piece>))
    } else {
        match piece_of_byte(b) {
            Some(p) => Some(seq![Some(p)]),
            None => None,
        }
    }
}

/// The squares that the description `s` fills, in the order in which it names them:
/// from the eighth rank down, each rank from file A on. A separator may come only
/// where a rank is full and another is to follow, and no rank may run over.
pub open spec fn placement(s: Seq<u8>) -> Option<Seq<Option<Piece>>>
    decreases s.len(),
{
    if s.len() == 0 {
        Some(Seq::empty())
    } else {
        match placement(s.drop_last()) {
            None => None,
            Some(c) => {
                let limit = 8 * (slashes(s.drop_last()) + 1);
                if s.last() == 47 {
                    if c.len() == limit && limit < 64 {
                        Some(c)
                    } else {
                        None
                    }
                } else {
                    match token_cells(s.last()) {
                        Some(t) => if c.len() + t.len() <= limit {
                            Some(c + t)
                        } else {
                            None
                        },
                        None => None,
                    }
                }
            },
        }
    }
}

/// The place in a description's order of the square with number `i`.
pub open spec fn cell_index(i: int) -> int {
    (7 - i / 8) * 8 + i % 8
}

/// The board that the first squares of a description fill; the others are empty.
pub open spec fn board_of_cells(c: Seq<Option<Piece>>) -> Seq<Option<Piece>> {
    Seq::new(
        64,
        |i: int|
            if cell_index(i) < c.len() {
                c[cell_index(i)]
            } else {
                None
            },
    )
}

/// The castling right that a byte stands for: `K`, `Q`, `k` or `q`.
pub open spec fn flag_of_byte(b: u8) -> Option<CastleFlag> {
    if b == 75 {
        Some(CastleFlag::WhiteShort)
    } else if b == 81 {
        Some(CastleFlag::WhiteLong)
    } else if b == 107 {
        Some(CastleFlag::BlackShort)
    } else if b == 113 {
        Some(CastleFlag::BlackLong)
    } else {
        None
    }
}

/// The castling rights that a run of letters names.
pub open spec fn rights_of(s: Seq<u8>) -> Option<u8>
    decreases s.len(),
{
    if s.len() == 0 {
        Some(0)
    } else {
        match (rights_of(s.drop_last()), flag_of_byte(s.last())) {
            (Some(r), Some(cf)) => Some(r | cf.mask()),
            _ => None,
        }
    }
}

/// The castling rights that the field `s` names: `-` for none, else one letter or more.
pub open spec fn castling_field(s: Seq<u8>) -> Option<u8> {
    if s =~= seq![45u8] {
        Some(0)
    } else if s.len() == 0 {
        None
    } else {
        rights_of(s)
    }
}

/// The en-passant square that the field `s` names: `-` for none, else a file letter
/// and a rank digit. What follows in the field is not read.
pub open spec fn ep_field(s: Seq<u8>) -> Option<Option<Square>> {
    if s.len() >= 1 && s[0] == 45 {
        Some(None)
    } else if s.len() >= 2 {
        match Square::parse(s[0], s[1]) {
            Some(q) => Some(Some(q)),
            None => None,
        }
    } else {
        None
    }
}

/// The side that a byte names: `w` or `b`.
pub open spec fn side_of_byte(b: u8) -> Option<Color> {
    if b == 119 {
        Some(Color::White)
    } else if b == 98 {
        Some(Color::Black)
    } else {
        None
    }
}

/// What the text `s` describes, if it is well formed: four fields with one space
/// between them, the placement of the pieces on all 64 squares, the side to move, the
/// castling rights and the en-passant square. What follows the fourth field is not
/// read.
pub open spec fn fen_data(s: Seq<u8>) -> Option<FenData> {
    let i1 = index_of(s, 32, 0);
    let i2 = index_of(s, 32, i1 + 3);
    if i1 + 3 > s.len() || s[i1 + 2] != 32 || i2 >= s.len() {
        None
    } else {
        match (
            placement(s.subrange(0, i1)),
            side_of_byte(s[i1 + 1]),
            castling_field(s.subrange(i1 + 3, i2)),
            ep_field(s.subrange(i2 + 1, s.len() as int)),
        ) {
            (Some(c), Some(to_move), Some(rights), Some(ep)) => if c.len() == 64 {
                Some(FenData { board: board_of_cells(c), to_move, rights, ep })
            } else {
                None
            },
            _ => None,
        }
    }
}

impl FenData {
    /// Whether the description is one of a position that can be played from: each
    /// side has one king, the en-passant square is empty and lies behind a pawn of the
    /// side that is not to move, each castling right has its king and rook at home, and
    /// the side that is not to move is not in check.
    pub open spec fn fits(self) -> bool {
        let v = PositionView {
            board: self.board,
            to_move: self.to_move,
            ply: 0,
            states: seq![
                State {
                    checkers: crate::bitboard::Bitboard(0),
                    pinners: [crate::bitboard::Bitboard(0), crate::bitboard::Bitboard(0)],
                    blockers: [crate::bitboard::Bitboard(0), crate::bitboard::Bitboard(0)],
                    captured: None,
                    en_passant: self.ep,
                    castle_rights: self.rights,
                    halfmoves: 0,
                },
            ],
        };
        v.has_kings() && sole_king(self.board, Color::White) && sole_king(
            self.board,
            Color::Black,
        ) && v.ep_ok() && v.rights_ok() && v.waiting_side_safe()
    }

    /// Whether `v` is the position described, before any move: no move played, one
    /// state, nothing captured.
    pub open spec fn describes(self, v: PositionView) -> bool {
        &&& v.board == self.board
        &&& v.to_move == self.to_move
        &&& v.ply == 0
        &&& v.states.len() == 1
        &&& v.top().castle_rights == self.rights
        &&& v.top().en_passant == self.ep
        &&& v.top().captured is None
        &&& v.top().halfmoves == 0
    }
}

/// The place of the first `b` in `bytes` at or after `from`.
fn find(bytes: &[u8], b: u8, from: usize) -> (r: usize)
    ensures
        r == index_of(bytes@, b, from as int),
        from <= bytes@.len() ==> from <= r <= bytes@.len(),
{
    let mut i = from;
    while i < bytes.len()
        invariant
            from <= i,
            from <= bytes@.len() ==> i <= bytes@.len(),
            index_of(bytes@, b, from as int) == index_of(bytes@, b, i as int),
        decreases bytes@.len() - i,
    {
        if bytes[i] == b {
            return i;
        }
        i += 1;
    }
    if from <= bytes.len() {
        i
    } else {
        bytes.len()
    }
}

/// Reads the placement of the pieces from the first `end` bytes.
#[verifier::rlimit(50)]
fn parse_placement(bytes: &[u8], end: usize) -> (r: Option<Position>)
    requires
        end <= bytes@.len(),
    ensures
        match placement(bytes@.subrange(0, end as int)) {
            Some(c) => if c.len() == 64 {
                r is Some && r->0.wf() && r->0@ == (PositionView {
                    board: board_of_cells(c),
                    ..Position::fresh()
                })
            } else {
                r is None
            },
            None => r is None,
        },
{
    let mut pos = Position::new();
    let mut count: usize = 0;
    let mut ranks: usize = 1;
    let mut i: usize = 0;
    let ghost field = bytes@.subrange(0, end as int);
    let ghost mut cells: Seq<Option<Piece>> = Seq::empty();
    proof {
        assert(field.take(0) =~= Seq::<u8>::empty());
        assert(pos@.board =~= board_of_cells(cells));
        assert(pos@ == (PositionView { board: board_of_cells(cells), ..Position::fresh() }));
    }
    while i < end
        invariant
            end <= bytes@.len(),
            field == bytes@.subrange(0, end as int),
            i <= end,
            pos.wf(),
            pos@ == (PositionView { board: board_of_cells(cells), ..Position::fresh() }),
            placement(field.take(i as int)) == Some(cells),
            count == cells.len(),
            ranks == slashes(field.take(i as int)) + 1,
            count <= 8 * ranks <= 64,
        decreases end - i,
    {
        let b = bytes[i];
        proof {
            assert(field.take(i + 1) =~= field.take(i as int).push(b));
            lemma_placement_push(field.take(i as int), b);
        }
        if b == 47 {
            if count != 8 * ranks || ranks >= 8 {
                proof {
                    lemma_placement_stuck(field, i + 1);
                }
                return None;
            }
            ranks += 1;
        } else if 49 <= b && b <= 56 {
            let k: usize = (b - 48) as usize;
            if count + k > 8 * ranks {
                proof {
                    lemma_placement_stuck(field, i + 1);
                }
                return None;
            }
            proof {
                lemma_cells_gap(cells, (b - 48) as nat);
                cells = cells + Seq::new((b - 48) as nat, |j: int| None::<Piece>);
            }
            count += k;
        } else {
            match Piece::try_from(b as char) {
                Ok(p) => {
                    if count + 1 > 8 * ranks {
                        proof {
                            lemma_placement_stuck(field, i + 1);
                        }
                        return None;
                    }
                    let file: u8 = (count % 8) as u8;
                    let rank: u8 = (7 - count / 8) as u8;
                    let sq = Square::from_index(file + 8 * rank);
                    proof {
                        lemma_cells_piece(cells, p, sq);
                        cells = cells + seq![Some(p)];
                    }
                    pos.add_piece(p, sq);
                    count += 1;
                },
                Err(_) => {
                    proof {
                        lemma_placement_stuck(field, i + 1);
                    }
                    return None;
                },
            }
        }
        i += 1;
    }
    proof {
        assert(field.take(end as int) =~= field);
    }
    if count != 64 {
        return None;
    }
    Some(pos)
}

/// What one more byte adds to a description.
proof fn lemma_placement_push(head: Seq<u8>, b: u8)
    ensures
        slashes(head.push(b)) == slashes(head) + if b == 47 {
            1nat
        } else {
            0nat
        },
        placement(head.push(b)) == match placement(head) {
            None => None,
            Some(c) => {
                let limit = 8 * (slashes(head) + 1);
                if b == 47 {
                    if c.len() == limit && limit < 64 {
                        Some(c)
                    } else {
                        None
                    }
                } else {
                    match token_cells(b) {
                        Some(t) => if c.len() + t.len() <= limit {
                            Some(c + t)
                        } else {
                            None
                        },
                        None => None,
                    }
                }
            },
        },
{
    assert(head.push(b).drop_last() =~= head);
}

/// Empty squares at the end of a description leave the board as it is.
proof fn lemma_cells_gap(cells: Seq<Option<Piece>>, k: nat)
    ensures
        board_of_cells(cells + Seq::new(k, |j: int| None::<Piece>)) == board_of_cells(cells),
{
    assert(board_of_cells(cells + Seq::new(k, |j: int| None::<Piece>)) =~= board_of_cells(cells));
}

/// A piece at the end of a description stands on the square whose place in the
/// description comes next.
proof fn lemma_cells_piece(cells: Seq<Option<Piece>>, p: Piece, sq: Square)
    requires
        cells.len() < 64,
        sq.index() == cells.len() % 8 + 8 * (7 - cells.len() / 8),
    ensures
        board_of_cells(cells)[sq.index()] is None,
        board_of_cells(cells + seq![Some(p)]) == board_of_cells(cells).update(
            sq.index(),
            Some(p),
        ),
{
    let n = cells.len() as int;
    let t = seq![Some(p)];
    assert(cell_index(sq.index()) == n);
    assert forall|j: int| 0 <= j < 64 implies board_of_cells(cells + t)[j] == board_of_cells(
        cells,
    ).update(sq.index(), Some(p))[j] by {
        if cell_index(j) == n {
            assert(j == sq.index());
        }
    }
    assert(board_of_cells(cells + t) =~= board_of_cells(cells).update(sq.index(), Some(p)));
}

/// Once a part of a description is malformed, the whole is.
proof fn lemma_placement_stuck(s: Seq<u8>, n: int)
    requires
        0 <= n <= s.len(),
        placement(s.take(n)) is None,
    ensures
        placement(s) is None,
    decreases s.len() - n,
{
    if n < s.len() {
        assert(s.take(n + 1).drop_last() =~= s.take(n));
        lemma_placement_stuck(s, n + 1);
    } else {
        assert(s.take(n) =~= s);
    }
}

/// Once a part of a castling field is malformed, the whole is.
proof fn lemma_rights_stuck(s: Seq<u8>, n: int)
    requires
        0 <= n <= s.len(),
        rights_of(s.take(n)) is None,
    ensures
        rights_of(s) is None,
    decreases s.len() - n,
{
    if n < s.len() {
        assert(s.take(n + 1).drop_last() =~= s.take(n));
        lemma_rights_stuck(s, n + 1);
    } else {
        assert(s.take(n) =~= s);
    }
}

/// Reads the castling rights from the bytes `from` to `to`.
fn parse_rights(bytes: &[u8], from: usize, to: usize) -> (r: Option<u8>)
    requires
        from <= to <= bytes@.len(),
    ensures
        r == castling_field(bytes@.subrange(from as int, to as int)),
{
    let ghost field = bytes@.subrange(from as int, to as int);
    if to - from == 1 && bytes[from] == 45 {
        proof {
            assert(field =~= seq![45u8]);
        }
        return Some(0);
    }
    if to == from {
        return None;
    }
    proof {
        assert(!(field =~= seq![45u8])) by {
            if field =~= seq![45u8] {
                assert(field.len() == 1);
                assert(field[0] == 45);
            }
        }
    }
    let mut rights: u8 = 0;
    let mut i: usize = from;
    proof {
        assert(field.take(0) =~= Seq::<u8>::empty());
    }
    while i < to
        invariant
            from <= i <= to <= bytes@.len(),
            field == bytes@.subrange(from as int, to as int),
            field.len() > 0,
            !(field =~= seq![45u8]),
            rights_of(field.take(i - from)) == Some(rights),
        decreases to - i,
    {
        let b = bytes[i];
        proof {
            assert(field.take(i - from + 1).drop_last() =~= field.take(i - from));
            assert(field.take(i - from + 1).last() == b);
        }
        let cf = if b == 75 {
            CastleFlag::WhiteShort
        } else if b == 81 {
            CastleFlag::WhiteLong
        } else if b == 107 {
            CastleFlag::BlackShort
        } else if b == 113 {
            CastleFlag::BlackLong
        } else {
            proof {
                assert(flag_of_byte(b) is None);
                assert(rights_of(field.take(i - from + 1)) is None);
                lemma_rights_stuck(field, i - from + 1);
            }
            return None;
        };
        rights = rights | cf.bits();
        i += 1;
    }
    proof {
        assert(field.take(to - from) =~= field);
    }
    Some(rights)
}

/// Reads the en-passant square from the bytes that start at `from`.
fn parse_ep(bytes: &[u8], from: usize) -> (r: Option<Option<Square>>)
    requires
        from <= bytes@.len(),
    ensures
        r == ep_field(bytes@.subrange(from as int, bytes@.len() as int)),
{
    let ghost field = bytes@.subrange(from as int, bytes@.len() as int);
    let n = bytes.len();
    if n - from >= 1 && bytes[from] == 45 {
        proof {
            assert(field[0] == 45);
        }
        return Some(None);
    }
    if n - from >= 2 {
        proof {
            assert(field[0] == bytes@[from as int]);
            assert(field[1] == bytes@[from + 1]);
        }
        match Square::from_bytes(bytes[from], bytes[from + 1]) {
            Some(q) => Some(Some(q)),
            None => None,
        }
    } else {
        None
    }
}

/// Whether side `c` has one king and no more.
fn one_king(pos: &Position, c: Color) -> (r: bool)
    requires
        pos.wf(),
    ensures
        r == (has_king(pos@.board, c) && sole_king(pos@.board, c)),
{
    let kings = pos.spec(PieceType::King, c);
    let r = kings.nonzero() && !kings.more_than_one();
    proof {
        let board = pos@.board;
        lemma_piece_parts(PieceType::King, c);
        assert forall|s: Square| kings.contains(s) == holds_king(board, s, c) by {
            crate::bitboard::lemma_algebra(
                crate::board::kind_bb(board, PieceType::King),
                crate::board::color_bb(board, c),
                s,
            );
            crate::board::lemma_board_bb(board, s);
            if board[s.index()] is Some {
                crate::piece::lemma_piece_of(board[s.index()]->0);
            }
        }
        if !kings.is_empty() {
            lemma_king_sq(board, c);
            let k = crate::board::king_sq(board, c);
            if kings.has_two() {
                let (a, b) = choose|a: Square, b: Square|
                    a != b && kings.contains(a) && kings.contains(b);
                assert(holds_king(board, a, c) && holds_king(board, b, c));
            } else {
                assert forall|s: Square| #[trigger] holds_king(board, s, c) implies s == k by {
                    if s != k {
                        assert(s != k && kings.contains(s) && kings.contains(k));
                    }
                }
            }
        }
    }
    r
}

/// Whether, where the rights `rights` hold the right `cf`, its king and rook stand at
/// home.
fn right_at_home(pos: &Position, rights: u8, cf: CastleFlag) -> (r: bool)
    requires
        cf.is_single(),
    ensures
        r == (rights & cf.mask() == cf.mask() ==> pos@.at(cf.king_from()) == Some(
            Piece::of(PieceType::King, cf.color_spec()),
        ) && pos@.at(cf.rook_from()) == Some(Piece::of(PieceType::Rook, cf.color_spec()))),
{
    let m = cf.bits();
    if rights & m != m {
        return true;
    }
    proof {
        lemma_piece_parts(PieceType::King, cf.color_spec());
        lemma_piece_parts(PieceType::Rook, cf.color_spec());
    }
    let king_home = match pos.piece_on(cf.from_square()) {
        Some(p) => {
            proof {
                crate::piece::lemma_piece_of(p);
            }
            p.kind() == PieceType::King && p.color() == cf.color()
        },
        None => false,
    };
    let rook_home = match pos.piece_on(cf.rook_from_square()) {
        Some(p) => {
            proof {
                crate::piece::lemma_piece_of(p);
            }
            p.kind() == PieceType::Rook && p.color() == cf.color()
        },
        None => false,
    };
    king_home && rook_home
}

/// Whether the en-passant square, if there is one, is empty and lies behind a pawn of
/// the side that is not to move.
fn ep_at_place(pos: &Position, to_move: Color, ep: Option<Square>) -> (r: bool)
    ensures
        r == match ep {
            Some(e) => {
                let y = e.rank_index() - to_move.dy();
                &&& pos@.at(e) is None
                &&& crate::square::on_board(e.file_index(), y)
                &&& pos@.at(Square::at_xy(e.file_index(), y)) == Some(
                    Piece::of(PieceType::Pawn, to_move.opposite()),
                )
            },
            None => true,
        },
{
    match ep {
        None => true,
        Some(e) => {
            proof {
                lemma_square_index(e);
                lemma_piece_parts(PieceType::Pawn, to_move.opposite());
            }
            if !pos.empty(e) {
                return false;
            }
            let x: u8 = e.idx() % 8;
            let y0: u8 = e.idx() / 8;
            let y: u8 = match to_move {
                Color::White => {
                    if y0 == 0 {
                        return false;
                    }
                    (y0 - 1) as u8
                },
                Color::Black => {
                    if y0 == 7 {
                        return false;
                    }
                    y0 + 1
                },
            };
            proof {
                lemma_square_at_xy(x as int, y as int);
            }
            let behind = Square::from_index(x + 8 * y);
            match pos.piece_on(behind) {
                Some(p) => {
                    proof {
                        crate::piece::lemma_piece_of(p);
                    }
                    p.kind() == PieceType::Pawn && p.color() == to_move.not()
                },
                None => false,
            }
        },
    }
}

impl Position {
    /// The description of the position at the start of a game.
    pub const STARTING_FEN: &'static str =
        "rnbqkbnr/pppppppp/8/8/8/8/PPPPPPPP/RNBQKBNR w KQkq - 0 1";

    /// The description of a position with many kinds of moves, used to test move
    /// generation.
    pub const KIWIPETE_FEN: &'static str =
        "r3k2r/p1ppqpb1/bn2pnp1/3PN3/1p2P3/2N2Q1p/PPPBBPPP/R3K2R w KQkq -  0 1";

    /// Reads a position from its description in text: the placement of the pieces,
    /// rank by rank from the eighth down, with `/` between the ranks, digits for runs
    /// of empty squares and letters for pieces, upper case for White; the side to
    /// move, `w` or `b`; the castling rights, letters of `KQkq` or `-`; and the
    /// en-passant square or `-`. Gives nothing where the text is malformed or the
    /// position cannot be played from.
    #[verifier::rlimit(50)]
    pub fn parse_fen(fen: &str, tables: &Tables) -> (r: Option<Self>)
        ensures
            match fen_data(fen.spec_bytes()) {
                Some(d) => if d.fits() {
                    r is Some && r->0.inv() && r->0@.sound() && d.describes(r->0@)
                } else {
                    r is None
                },
                None => r is None,
            },
    {
        let bytes = fen.as_bytes();
        let n = bytes.len();
        let i1 = find(bytes, 32, 0);
        if n < 3 || i1 > n - 3 {
            return None;
        }
        if bytes[i1 + 2] != 32 {
            return None;
        }
        let i2 = find(bytes, 32, i1 + 3);
        if i2 >= n {
            return None;
        }
        let to_move = if bytes[i1 + 1] == 119 {
            Color::White
        } else if bytes[i1 + 1] == 98 {
            Color::Black
        } else {
            return None;
        };
        let mut pos = match parse_placement(bytes, i1) {
            Some(p) => p,
            None => {
                return None;
            },
        };
        let rights = match parse_rights(bytes, i1 + 3, i2) {
            Some(r) => r,
            None => {
                return None;
            },
        };
        let ep = match parse_ep(bytes, i2 + 1) {
            Some(e) => e,
            None => {
                return None;
            },
        };
        proof {
            assert(fen_data(bytes@) is Some);
            assert(pos@.board == fen_data(bytes@)->0.board);
        }
        if pos.set_up(to_move, rights, ep, tables) {
            Some(pos)
        } else {
            None
        }
    }

    /// Makes a board on which the pieces have been put ready for play: sets the side
    /// to move, the castling rights and the en-passant square, and works out the
    /// checks and pins. Does nothing, and says so, where the position could not be
    /// played from: where a side has no king or more than one, the en-passant square
    /// or a castling right does not fit the board, or the side that is not to move is
    /// in check.
    pub fn set_up(
        &mut self,
        to_move: Color,
        rights: u8,
        ep: Option<Square>,
        tables: &Tables,
    ) -> (r: bool)
        requires
            old(self).wf(),
            old(self)@ == (PositionView { board: old(self)@.board, ..Position::fresh() }),
        ensures
            final(self).wf(),
            r == (FenData { board: old(self)@.board, to_move, rights, ep }).fits(),
            r ==> final(self).inv() && final(self)@.sound() && (FenData {
                board: old(self)@.board,
                to_move,
                rights,
                ep,
            }).describes(final(self)@),
            !r ==> final(self)@ == old(self)@,
    {
        proof {
            self.lemma_wf_shaped();
        }
        let kings = one_king(self, Color::White) && one_king(self, Color::Black);
        let homes = right_at_home(self, rights, CastleFlag::WhiteShort) && right_at_home(
            self,
            rights,
            CastleFlag::WhiteLong,
        ) && right_at_home(self, rights, CastleFlag::BlackShort) && right_at_home(
            self,
            rights,
            CastleFlag::BlackLong,
        );
        let passing = ep_at_place(self, to_move, ep);
        if !(kings && homes && passing) {
            return false;
        }
        let waiting = to_move.not();
        if self.attacks_to(self.king(waiting), to_move, tables).nonzero() {
            return false;
        }
        self.setup(to_move, rights, ep);
        self.update_state(tables);
        true
    }

    /// Reads a position from its description in text, which must be well formed and
    /// describe a position that can be played from.
    pub fn new_from_fen(fen: &str, tables: &Tables) -> (r: Self)
        requires
            fen_data(fen.spec_bytes()) is Some,
            fen_data(fen.spec_bytes())->0.fits(),
        ensures
            r.inv(),
            r@.sound(),
            fen_data(fen.spec_bytes())->0.describes(r@),
    {
        Self::parse_fen(fen, tables).unwrap()
    }
}

} // verus!
