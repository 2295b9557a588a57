use vstd::prelude::*;

use crate::bitboard::Bitboard;
use crate::movegen::{Move, MoveKind};
use crate::piece::Piece;
use crate::position::{Position, PositionView};
use crate::square::{lemma_square_at_xy, lemma_square_index, Square};

verus! {

/// `String::push` appends the given character to the end of the string and leaves the
/// characters before it as they were.
#[verifier::external_body]
fn push_char(s: &mut String, c: char)
    ensures
        final(s)@ == old(s)@.push(c),
{
    s.push(c);
}

/// The character that shows what stands on a square: the letter of the piece, or a
/// blank.
pub open spec fn cell_char(cell: Option<Piece>) -> char {
    match cell {
        Some(p) => p.letter(),
        None => ' ',
    }
}

/// The two characters that name a square: the letter of its file and the digit of its
/// rank.
pub open spec fn square_text(s: Square) -> Seq<char> {
    seq![(97 + s.file_index()) as u8 as char, (49 + s.rank_index()) as u8 as char]
}

/// The text of a move: the names of its two squares and, for a promotion, the letter
/// of the piece.
pub open spec fn move_text(m: Move) -> Seq<char> {
    square_text(m.from_spec()) + square_text(m.to_spec()) + match m.kind_spec() {
        MoveKind::Promotion(t) => seq![t.letter()],
        _ => Seq::empty(),
    }
}

impl Bitboard {
    /// The character at place `i` of the picture of the set: eight lines of sixteen
    /// characters, the eighth rank first, each with an `X` or a `.` for every square
    /// from file A on, a blank between them and a line feed at the end.
    pub open spec fn picture_char(self, i: int) -> char {
        let rank = 7 - i / 16;
        let col = i % 16;
        if col == 15 {
            '\n'
        } else if col % 2 == 1 {
            ' '
        } else if self.has_xy(col / 2, rank) {
            'X'
        } else {
            '.'
        }
    }

    /// The picture of the set.
    pub open spec fn picture(self) -> Seq<char> {
        Seq::new(128, |i: int| self.picture_char(i))
    }

    /// Draws the set as text, the eighth rank at the top.
    pub fn render(&self) -> (r: String)
        ensures
            r@ == self.picture(),
    {
        let mut out = String::new();
        let mut i: usize = 0;
        while i < 128
            invariant
                i <= 128,
                out@ == self.picture().take(i as int),
            decreases 128 - i,
        {
            let rank: u8 = (7 - i / 16) as u8;
            let col: u8 = (i % 16) as u8;
            let c = if col == 15 {
                '\n'
            } else if col % 2 == 1 {
                ' '
            } else {
                let sq = Square::from_index(col / 2 + 8 * rank);
                proof {
                    lemma_square_index(sq);
                    crate::bitboard::lemma_has_xy(*self, sq);
                }
                if self.has(sq) {
                    'X'
                } else {
                    '.'
                }
            };
            push_char(&mut out, c);
            proof {
                assert(out@ =~= self.picture().take(i + 1));
            }
            i += 1;
        }
        proof {
            assert(self.picture().take(128) =~= self.picture());
        }
        out
    }
}

impl Square {
    /// The name of the square as text.
    pub fn text(self) -> (r: String)
        ensures
            r@ == square_text(self),
    {
        let (f, k) = self.name();
        let mut out = String::new();
        push_char(&mut out, f);
        push_char(&mut out, k);
        proof {
            lemma_square_index(self);
            assert(out@ =~= square_text(self));
        }
        out
    }
}

impl Move {
    /// The move as text: the names of its two squares and, for a promotion, the
    /// letter of the piece.
    pub fn to_uci(self) -> (r: String)
        ensures
            r@ == move_text(self),
    {
        let (a, b) = self.from().name();
        let (c, d) = self.to().name();
        let mut out = String::new();
        push_char(&mut out, a);
        push_char(&mut out, b);
        push_char(&mut out, c);
        push_char(&mut out, d);
        match self.get_promo() {
            Some(t) => {
                push_char(&mut out, char::from(t));
            },
            None => {},
        }
        proof {
            lemma_square_index(self.from_spec());
            lemma_square_index(self.to_spec());
            assert(out@ =~= move_text(self));
        }
        out
    }
}

impl PositionView {
    /// The character at place `i` of the picture of the board: for each rank from the
    /// eighth down a line of `+---` frames and a line with the pieces between bars,
    /// and one more line of frames below.
    pub open spec fn picture_char(self, i: int) -> char {
        let line = i / 34;
        let col = i % 34;
        if col == 33 {
            '\n'
        } else if line % 2 == 0 {
            if col % 4 == 0 {
                '+'
            } else {
                '-'
            }
        } else if col % 4 == 0 {
            '|'
        } else if col % 4 == 2 {
            cell_char(self.at(Square::at_xy(col / 4, 7 - line / 2)))
        } else {
            ' '
        }
    }

    /// The picture of the position: the board, then `EP: ` and the name of the
    /// en-passant square, or `n/a` where there is none.
    pub open spec fn picture(self) -> Seq<char> {
        Seq::new(578, |i: int| self.picture_char(i)) + seq!['E', 'P', ':', ' '] + match self.ep() {
            Some(s) => square_text(s),
            None => seq!['n', '/', 'a'],
        }
    }
}

impl Position {
    /// Draws the position as text: the board within a frame, the eighth rank at the
    /// top, and the en-passant square below it.
    pub fn render(&self) -> (r: String)
        requires
            self.wf(),
        ensures
            r@ == self@.picture(),
    {
        proof {
            self.lemma_wf_shaped();
        }
        let ghost v = self@;
        let ghost grid = Seq::new(578, |i: int| v.picture_char(i));
        let mut out = String::new();
        let mut i: usize = 0;
        while i < 578
            invariant
                i <= 578,
                v == self@,
                grid == Seq::new(578, |i: int| v.picture_char(i)),
                out@ == grid.take(i as int),
            decreases 578 - i,
        {
            let line: usize = i / 34;
            let col: usize = i % 34;
            let c = if col == 33 {
                '\n'
            } else if line % 2 == 0 {
                if col % 4 == 0 {
                    '+'
                } else {
                    '-'
                }
            } else if col % 4 == 0 {
                '|'
            } else if col % 4 == 2 {
                let file: u8 = (col / 4) as u8;
                let rank: u8 = (7 - line / 2) as u8;
                let sq = Square::from_index(file + 8 * rank);
                proof {
                    lemma_square_at_xy(file as int, rank as int);
                    lemma_square_index(sq);
                    crate::square::lemma_square_eq(sq, Square::at_xy(file as int, rank as int));
                }
                match self.piece_on(sq) {
                    Some(p) => char::from(p),
                    None => ' ',
                }
            } else {
                ' '
            };
            push_char(&mut out, c);
            proof {
                assert(out@ =~= grid.take(i + 1));
            }
            i += 1;
        }
        proof {
            assert(grid.take(578) =~= grid);
        }
        push_char(&mut out, 'E');
        push_char(&mut out, 'P');
        push_char(&mut out, ':');
        push_char(&mut out, ' ');
        match self.ep() {
            Some(s) => {
                let (f, k) = s.name();
                push_char(&mut out, f);
                push_char(&mut out, k);
                proof {
                    lemma_square_index(s);
                    assert(out@ =~= v.picture());
                }
            },
            None => {
                push_char(&mut out, 'n');
                push_char(&mut out, '/');
                push_char(&mut out, 'a');
                proof {
                    assert(out@ =~= v.picture());
                }
            },
        }
        out
    }
}

} // verus!
