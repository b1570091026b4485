//! Pieces, the inventory of pieces, orientations and placements.

use crate::board::{bit_set, lemma_some_bit, BitBoard, MAX_HEIGHT, WIDTH};
use vstd::prelude::*;

verus! {

/// The seven piece types.
#[derive(Clone, Copy, Debug, PartialEq, Eq, Hash, Structural)]
pub enum Piece {
    I,
    O,
    T,
    L,
    J,
    S,
    Z,
}

/// How many pieces of each type are available.
#[derive(Clone, Copy, Debug, PartialEq, Eq, Hash, Structural)]
pub struct PieceSet {
    /// Number of I pieces.
    pub i: u8,
    /// Number of O pieces.
    pub o: u8,
    /// Number of T pieces.
    pub t: u8,
    /// Number of L pieces.
    pub l: u8,
    /// Number of J pieces.
    pub j: u8,
    /// Number of S pieces.
    pub s: u8,
    /// Number of Z pieces.
    pub z: u8,
}

impl PieceSet {
    /// Number of pieces of type `piece` in the set.
    pub open spec fn count(self, piece: Piece) -> nat {
        match piece {
            Piece::I => self.i as nat,
            Piece::O => self.o as nat,
            Piece::T => self.t as nat,
            Piece::L => self.l as nat,
            Piece::J => self.j as nat,
            Piece::S => self.s as nat,
            Piece::Z => self.z as nat,
        }
    }

    /// Number of pieces in the set.
    pub open spec fn total(self) -> nat {
        (self.i + self.o + self.t + self.l + self.j + self.s + self.z) as nat
    }

    /// The set has a piece of type `piece`.
    pub open spec fn spec_contains(self, piece: Piece) -> bool {
        self.count(piece) > 0
    }

    /// The set in which the number of pieces of type `piece` is `n`.
    pub open spec fn spec_set(self, piece: Piece, n: u8) -> PieceSet {
        match piece {
            Piece::I => PieceSet { i: n, ..self },
            Piece::O => PieceSet { o: n, ..self },
            Piece::T => PieceSet { t: n, ..self },
            Piece::L => PieceSet { l: n, ..self },
            Piece::J => PieceSet { j: n, ..self },
            Piece::S => PieceSet { s: n, ..self },
            Piece::Z => PieceSet { z: n, ..self },
        }
    }

    /// The set with one piece of type `piece` fewer; the set itself when it
    /// has none.
    pub open spec fn spec_without(self, piece: Piece) -> PieceSet {
        if self.spec_contains(piece) {
            self.spec_set(piece, (self.count(piece) - 1) as u8)
        } else {
            self
        }
    }

    /// The set without any piece.
    pub fn empty() -> (r: PieceSet)
        ensures
            forall|p: Piece| r.count(p) == 0,
            r.total() == 0,
    {
        PieceSet { i: 0, o: 0, t: 0, l: 0, j: 0, s: 0, z: 0 }
    }

    /// How many pieces of type `piece` are available.
    pub fn number_of(self, piece: Piece) -> (r: u8)
        ensures
            r == self.count(piece),
    {
        match piece {
            Piece::I => self.i,
            Piece::O => self.o,
            Piece::T => self.t,
            Piece::L => self.l,
            Piece::J => self.j,
            Piece::S => self.s,
            Piece::Z => self.z,
        }
    }

    /// The set in which the number of pieces of type `piece` is `n`.
    fn set(self, piece: Piece, n: u8) -> (r: PieceSet)
        ensures
            r == self.spec_set(piece, n),
    {
        match piece {
            Piece::I => PieceSet { i: n, ..self },
            Piece::O => PieceSet { o: n, ..self },
            Piece::T => PieceSet { t: n, ..self },
            Piece::L => PieceSet { l: n, ..self },
            Piece::J => PieceSet { j: n, ..self },
            Piece::S => PieceSet { s: n, ..self },
            Piece::Z => PieceSet { z: n, ..self },
        }
    }

    /// Whether a piece of type `piece` is available.
    pub fn contains(self, piece: Piece) -> (r: bool)
        ensures
            r == self.spec_contains(piece),
    {
        self.number_of(piece) > 0
    }

    /// The set with one more piece of type `piece`.
    pub fn with(self, piece: Piece) -> (r: PieceSet)
        requires
            self.count(piece) < u8::MAX,
        ensures
            r == self.spec_set(piece, (self.count(piece) + 1) as u8),
            forall|p: Piece| r.count(p) == self.count(p) + (if p == piece { 1nat } else { 0nat }),
            r.total() == self.total() + 1,
    {
        self.set(piece, self.number_of(piece) + 1)
    }

    /// The set with one piece of type `piece` removed. A set that has no such
    /// piece is returned as it is.
    pub fn without(self, piece: Piece) -> (r: PieceSet)
        ensures
            r == self.spec_without(piece),
            forall|p: Piece|
                r.count(p) == if p == piece && self.count(p) > 0 {
                    (self.count(p) - 1) as nat
                } else {
                    self.count(p)
                },
            self.spec_contains(piece) ==> r.total() + 1 == self.total(),
    {
        let n = self.number_of(piece);
        if n > 0 {
            self.set(piece, n - 1)
        } else {
            self
        }
    }
}

/// One orientation of a piece: the cells it occupies when its leftmost
/// column is column 0, and the number of columns it spans.
#[derive(Clone, Copy, Debug, PartialEq, Eq, Hash, Structural)]
pub struct PieceState {
    /// The piece type.
    pub piece: Piece,
    /// Number of columns that the orientation spans.
    pub width: u8,
    /// The cells that the orientation occupies at offset 0.
    pub cells: BitBoard,
}

impl PieceState {
    /// The orientation occupies at least one cell, and all its cells lie in
    /// its first `width` columns and below row `height`.
    pub open spec fn fits(self, height: int) -> bool {
        &&& 1 <= self.width <= WIDTH
        &&& !self.cells.is_empty()
        &&& forall|x: int, y: int| self.cells.cell(x, y) ==> x < self.width && y < height
    }

    /// The piece type.
    pub fn piece(self) -> (r: Piece)
        ensures
            r == self.piece,
    {
        self.piece
    }

    /// Number of columns that the orientation spans.
    pub fn width(self) -> (r: u8)
        ensures
            r == self.width,
    {
        self.width
    }

    /// The cells that the orientation occupies at offset 0.
    pub fn board(self) -> (r: BitBoard)
        ensures
            r == self.cells,
    {
        self.cells
    }

    /// Whether the orientation is usable on a field of `height` rows.
    pub fn is_valid(self, height: usize) -> (r: bool)
        ensures
            r == self.fits(height as int),
    {
        if self.width < 1 || self.width as usize > WIDTH || self.cells.0 == 0 {
            return false;
        }
        let mut y: usize = 0;
        while y <= MAX_HEIGHT
            invariant
                y <= MAX_HEIGHT + 1,
                forall|cx: int, cy: int|
                    0 <= cy < y && self.cells.cell(cx, cy) ==> cx < self.width && cy < height,
            decreases MAX_HEIGHT + 1 - y,
        {
            let mut x: usize = 0;
            while x < WIDTH
                invariant
                    x <= WIDTH,
                    y <= MAX_HEIGHT,
                    forall|cx: int, cy: int|
                        0 <= cy < y && self.cells.cell(cx, cy) ==> cx < self.width && cy < height,
                    forall|cx: int|
                        0 <= cx < x && self.cells.cell(cx, y as int) ==> cx < self.width && y
                            < height,
                decreases WIDTH - x,
            {
                if self.cells.cell_filled(x, y) && (x >= self.width as usize || y >= height) {
                    return false;
                }
                x += 1;
            }
            y += 1;
        }
        true
    }
}

/// An orientation at a horizontal offset.
#[derive(Clone, Copy, Debug, PartialEq, Eq, Hash, Structural)]
pub struct Placement {
    /// The orientation.
    pub kind: PieceState,
    /// The column of the orientation's leftmost column.
    pub x: u8,
}

impl Placement {
    /// The cells that the placement occupies: those of its orientation, moved
    /// `x` columns to the right.
    pub open spec fn spec_board(self) -> BitBoard {
        BitBoard(self.kind.cells.0 << (self.x as u64))
    }

    /// The placement stays inside the ten columns and occupies a cell.
    pub open spec fn wf(self) -> bool {
        &&& self.x + self.kind.width <= WIDTH
        &&& !self.spec_board().is_empty()
    }

    /// The placement is well formed and lies below row `height`.
    pub open spec fn fits(self, height: usize) -> bool {
        &&& self.wf()
        &&& self.spec_board().within(BitBoard::spec_filled(height))
    }

    /// The cells that the placement occupies.
    pub fn board(self) -> (r: BitBoard)
        requires
            self.x + self.kind.width <= WIDTH,
        ensures
            r == self.spec_board(),
    {
        BitBoard(self.kind.cells.0 << (self.x as u64))
    }

    /// Whether the placement stays inside the ten columns and occupies a cell.
    pub fn is_valid(self) -> (r: bool)
        ensures
            r == self.wf(),
    {
        self.x as usize + self.kind.width as usize <= WIDTH && self.board().0 != 0
    }
}

/// The cells of a fitting orientation, moved to an offset that keeps it inside
/// the ten columns, are its own cells `x` columns further right.
pub proof fn lemma_placement_cells(kind: PieceState, x: u8, height: usize)
    requires
        height <= MAX_HEIGHT,
        kind.fits(height as int),
        x + kind.width <= WIDTH,
    ensures
        forall|cx: int, cy: int| #[trigger]
            (Placement { kind, x }).spec_board().cell(cx, cy) == (x <= cx && kind.cells.cell(
                cx - x,
                cy,
            )),
        (Placement { kind, x }).fits(height),
{
    let p = Placement { kind, x };
    let c = kind.cells.0;
    let s = x as u64;
    let moved = p.spec_board();
    assert forall|cx: int, cy: int| #[trigger]
        moved.cell(cx, cy) == (x <= cx && kind.cells.cell(cx - x, cy)) by {
        if 0 <= cx < 10 && 0 <= cy && cx + 10 * cy < 64 {
            let i: u64 = (cx + 10 * cy) as u64;
            assert(bit_set(c << s, i) == (i >= s && bit_set(c, (i - s) as u64))) by (bit_vector)
                requires
                    s < 64,
                    i < 64,
            ;
            if i >= s && bit_set(c, (i - s) as u64) {
                let j: int = i - s;
                assert(kind.cells.cell(j % 10, j / 10));
            }
        }
    }
    let i = lemma_some_bit(c);
    assert(kind.cells.cell((i % 10) as int, (i / 10) as int));
    assert(moved.cell((i % 10) as int + x, (i / 10) as int));
    let (m, at) = (moved.0, (i + x) as u64);
    assert(m != 0) by (bit_vector)
        requires
            bit_set(m, at),
    ;
    let full = BitBoard::spec_filled(height);
    crate::board::lemma_filled_cells(height);
    if !moved.within(full) {
        let k = lemma_some_bit(moved.0 & !full.0);
        let f = full.0;
        assert(bit_set(m & !f, k) ==> bit_set(m, k) && !bit_set(f, k)) by (bit_vector);
        assert(moved.cell((k % 10) as int, (k / 10) as int));
        assert(!full.cell((k % 10) as int, (k / 10) as int));
    }
}

} // verus!
