//! The playing field as a bit mask.
//!
//! Cell `(x, y)` is bit `x + 10 * y` of a `u64`: row 0 is the bottom row and
//! column 0 the leftmost column. Six full rows fit.

use vstd::prelude::*;

verus! {

/// Number of columns of the field.
pub const WIDTH: usize = 10;

/// Largest number of rows that a board can hold.
pub const MAX_HEIGHT: usize = 6;

/// Bit `i` of `v` is set.
pub open spec fn bit_set(v: u64, i: u64) -> bool {
    (v >> i) & 1 == 1
}

/// The word whose lowest `n` bits are set, for `n < 64`.
pub open spec fn low_bits(n: u64) -> u64 {
    ((1u64 << n) - 1) as u64
}

/// A set of cells of the field.
#[derive(Clone, Copy, Debug, PartialEq, Eq, Hash, Structural)]
pub struct BitBoard(pub u64);

impl BitBoard {
    /// Cell `(x, y)` is filled. Positions outside the ten columns or beyond
    /// the last bit are never filled.
    pub open spec fn cell(self, x: int, y: int) -> bool {
        0 <= x < 10 && 0 <= y && x + 10 * y < 64 && bit_set(self.0, (x + 10 * y) as u64)
    }

    /// The filled cells, as a set of `(column, row)` pairs.
    pub open spec fn view(self) -> Set<(int, int)> {
        Set::new(|c: (int, int)| self.cell(c.0, c.1))
    }

    /// The board whose cells below row `height` are all filled.
    pub open spec fn spec_filled(height: usize) -> BitBoard {
        BitBoard(low_bits((10 * height) as u64))
    }

    /// Cells of either board.
    pub open spec fn spec_combine(self, other: BitBoard) -> BitBoard {
        BitBoard(self.0 | other.0)
    }

    /// Cells of `self` that are not cells of `other`.
    pub open spec fn spec_remove(self, other: BitBoard) -> BitBoard {
        BitBoard(self.0 & !other.0)
    }

    /// The two boards share a cell.
    pub open spec fn spec_overlaps(self, other: BitBoard) -> bool {
        self.0 & other.0 != 0
    }

    /// Every cell of `self` is a cell of `other`.
    pub open spec fn within(self, other: BitBoard) -> bool {
        self.0 & !other.0 == 0
    }

    /// No cell is filled.
    pub open spec fn is_empty(self) -> bool {
        self.0 == 0
    }

    /// Column `x` has an unfilled cell below row `height`.
    pub open spec fn column_open(self, x: int, height: int) -> bool {
        exists|y: int| 0 <= y < height && !self.cell(x, y)
    }

    /// Rows `0..y` of column `x` are filled.
    pub open spec fn filled_below(self, x: int, y: int) -> bool {
        forall|r: int| 0 <= r < y ==> self.cell(x, r)
    }

    /// The leftmost column with an unfilled cell below row `height`, or 10
    /// when there is none.
    pub open spec fn spec_leftmost_empty_column(self, height: int) -> int {
        if exists|x: int| 0 <= x < 10 && self.column_open(x, height) {
            choose|x: int|
                0 <= x < 10 && self.column_open(x, height) && forall|c: int|
                    0 <= c < x ==> !self.column_open(c, height)
        } else {
            10
        }
    }

    /// The lowest unfilled row of column `x` below row `height`, or `height`
    /// when the column is filled that far.
    pub open spec fn spec_lowest_empty_row(self, x: int, height: int) -> int {
        if self.column_open(x, height) {
            choose|y: int| 0 <= y < height && !self.cell(x, y) && self.filled_below(x, y)
        } else {
            height
        }
    }

    /// The board with every cell below row `height` filled.
    pub fn filled(height: usize) -> (r: BitBoard)
        requires
            height <= MAX_HEIGHT,
        ensures
            r == Self::spec_filled(height),
            forall|x: int, y: int| r.cell(x, y) <==> (0 <= x < 10 && 0 <= y < height),
    {
        let n: u64 = (10 * height) as u64;
        assert(1u64 << n >= 1) by (bit_vector)
            requires
                n <= 60,
        ;
        let r = BitBoard((1u64 << n) - 1);
        proof {
            lemma_filled_cells(height);
        }
        r
    }

    /// Whether cell `(x, y)` is filled.
    pub fn cell_filled(self, x: usize, y: usize) -> (r: bool)
        ensures
            r == self.cell(x as int, y as int),
    {
        if x < WIDTH && y <= MAX_HEIGHT {
            let i: usize = x + 10 * y;
            i < 64 && (self.0 >> (i as u64)) & 1 == 1
        } else {
            false
        }
    }

    /// The cells of both boards.
    pub fn combine(self, other: BitBoard) -> (r: BitBoard)
        ensures
            r == self.spec_combine(other),
            r@ == self@.union(other@),
    {
        proof {
            lemma_union_cells(self, other);
        }
        BitBoard(self.0 | other.0)
    }

    /// The cells of `self` without those of `other`.
    pub fn remove(self, other: BitBoard) -> (r: BitBoard)
        ensures
            r == self.spec_remove(other),
            r@ == self@.difference(other@),
    {
        proof {
            lemma_difference_cells(self, other);
        }
        BitBoard(self.0 & !other.0)
    }

    /// Whether the two boards share a filled cell.
    pub fn overlaps(self, other: BitBoard) -> (r: bool)
        ensures
            r == self.spec_overlaps(other),
            r == !self@.disjoint(other@),
    {
        proof {
            lemma_overlap_cells(self, other);
        }
        self.0 & other.0 != 0
    }

    /// The lowest unfilled row of column `x` below row `height`; `height`
    /// when there is none.
    pub fn lowest_empty_row(self, x: usize, height: usize) -> (r: usize)
        requires
            height <= MAX_HEIGHT,
        ensures
            r == self.spec_lowest_empty_row(x as int, height as int),
            r <= height,
            self.filled_below(x as int, r as int),
            r < height ==> !self.cell(x as int, r as int),
    {
        let mut y: usize = 0;
        while y < height
            invariant
                y <= height <= MAX_HEIGHT,
                self.filled_below(x as int, y as int),
            decreases height - y,
        {
            if !self.cell_filled(x, y) {
                proof {
                    lemma_lowest_empty_row(self, x as int, height as int, y as int);
                }
                return y;
            }
            y += 1;
        }
        proof {
            lemma_lowest_empty_row(self, x as int, height as int, y as int);
        }
        height
    }

    /// The leftmost column that has an unfilled cell below row `height`; 10
    /// when every such cell is filled.
    pub fn leftmost_empty_column(self, height: usize) -> (r: usize)
        requires
            height <= MAX_HEIGHT,
        ensures
            r == self.spec_leftmost_empty_column(height as int),
            r <= WIDTH,
            r < WIDTH ==> self.column_open(r as int, height as int),
            forall|x: int| 0 <= x < r ==> !self.column_open(x, height as int),
    {
        let mut x: usize = 0;
        while x < WIDTH
            invariant
                x <= WIDTH,
                height <= MAX_HEIGHT,
                forall|c: int| 0 <= c < x ==> !self.column_open(c, height as int),
            decreases WIDTH - x,
        {
            if self.lowest_empty_row(x, height) < height {
                proof {
                    lemma_leftmost_empty_column(self, height as int, x as int);
                }
                return x;
            }
            x += 1;
        }
        proof {
            lemma_leftmost_empty_column(self, height as int, x as int);
        }
        WIDTH
    }
}

/// The cells of a filled board are those below its height.
pub proof fn lemma_filled_cells(height: usize)
    requires
        height <= MAX_HEIGHT,
    ensures
        forall|x: int, y: int|
            BitBoard::spec_filled(height).cell(x, y) <==> (0 <= x < 10 && 0 <= y < height),
{
    let n: u64 = (10 * height) as u64;
    assert forall|x: int, y: int|
        BitBoard::spec_filled(height).cell(x, y) <==> (0 <= x < 10 && 0 <= y < height) by {
        if 0 <= x < 10 && 0 <= y && x + 10 * y < 64 {
            let i: u64 = (x + 10 * y) as u64;
            assert(bit_set(low_bits(n), i) == (i < n)) by (bit_vector)
                requires
                    n <= 60,
                    i < 64,
            ;
        }
    }
}

/// A cell of the union is a cell of one of the two boards.
pub proof fn lemma_union_cells(a: BitBoard, b: BitBoard)
    ensures
        forall|x: int, y: int| a.spec_combine(b).cell(x, y) == (a.cell(x, y) || b.cell(x, y)),
        a.spec_combine(b)@ == a@.union(b@),
{
    let (p, q) = (a.0, b.0);
    assert forall|x: int, y: int|
        a.spec_combine(b).cell(x, y) == (a.cell(x, y) || b.cell(x, y)) by {
        if 0 <= x < 10 && 0 <= y && x + 10 * y < 64 {
            let i: u64 = (x + 10 * y) as u64;
            assert(bit_set(p | q, i) == (bit_set(p, i) || bit_set(q, i))) by (bit_vector);
        }
    }
    assert(a.spec_combine(b)@ =~= a@.union(b@));
}

/// A cell of the difference is a cell of the first board and not of the second.
pub proof fn lemma_difference_cells(a: BitBoard, b: BitBoard)
    ensures
        forall|x: int, y: int| a.spec_remove(b).cell(x, y) == (a.cell(x, y) && !b.cell(x, y)),
        a.spec_remove(b)@ == a@.difference(b@),
{
    let (p, q) = (a.0, b.0);
    assert forall|x: int, y: int|
        a.spec_remove(b).cell(x, y) == (a.cell(x, y) && !b.cell(x, y)) by {
        if 0 <= x < 10 && 0 <= y && x + 10 * y < 64 {
            let i: u64 = (x + 10 * y) as u64;
            assert(bit_set(p & !q, i) == (bit_set(p, i) && !bit_set(q, i))) by (bit_vector);
        }
    }
    assert(a.spec_remove(b)@ =~= a@.difference(b@));
}

/// A word that is not zero has a set bit.
pub proof fn lemma_some_bit(v: u64) -> (i: u64)
    requires
        v != 0,
    ensures
        i < 64,
        bit_set(v, i),
{
    broadcast use vstd::std_specs::bits::axiom_u64_trailing_zeros;

    let i = vstd::std_specs::bits::u64_trailing_zeros(v) as u64;
    i
}

/// Two boards overlap exactly when some cell is filled in both.
pub proof fn lemma_overlap_cells(a: BitBoard, b: BitBoard)
    ensures
        a.spec_overlaps(b) == (exists|x: int, y: int| a.cell(x, y) && b.cell(x, y)),
        a.spec_overlaps(b) == !a@.disjoint(b@),
{
    let (p, q) = (a.0, b.0);
    if a.spec_overlaps(b) {
        let i = lemma_some_bit(p & q);
        assert(bit_set(p & q, i) ==> bit_set(p, i) && bit_set(q, i)) by (bit_vector);
        let (x, y) = ((i % 10) as int, (i / 10) as int);
        assert(a.cell(x, y) && b.cell(x, y));
        assert(a@.contains((x, y)) && b@.contains((x, y)));
    } else {
        assert forall|x: int, y: int| !(a.cell(x, y) && b.cell(x, y)) by {
            if 0 <= x < 10 && 0 <= y && x + 10 * y < 64 {
                let i: u64 = (x + 10 * y) as u64;
                assert(!(bit_set(p, i) && bit_set(q, i))) by (bit_vector)
                    requires
                        p & q == 0,
                ;
            }
        }
        assert forall|c: (int, int)| !(a@.contains(c) && b@.contains(c)) by {
            assert(!(a.cell(c.0, c.1) && b.cell(c.0, c.1)));
        }
    }
}

/// A board lies within another exactly when each of its cells is a cell of
/// the other.
pub proof fn lemma_within_cells(a: BitBoard, b: BitBoard)
    ensures
        a.within(b) == (forall|x: int, y: int| a.cell(x, y) ==> b.cell(x, y)),
        a.within(b) == a@.subset_of(b@),
{
    let (p, q) = (a.0, b.0);
    if a.within(b) {
        assert forall|x: int, y: int| a.cell(x, y) implies b.cell(x, y) by {
            let i: u64 = (x + 10 * y) as u64;
            assert(bit_set(p, i) ==> bit_set(q, i)) by (bit_vector)
                requires
                    p & !q == 0,
            ;
        }
        assert forall|c: (int, int)| a@.contains(c) implies b@.contains(c) by {
            assert(a.cell(c.0, c.1));
        }
    } else {
        let i = lemma_some_bit(p & !q);
        assert(bit_set(p & !q, i) ==> bit_set(p, i) && !bit_set(q, i)) by (bit_vector);
        let (x, y) = ((i % 10) as int, (i / 10) as int);
        assert(a.cell(x, y) && !b.cell(x, y));
        assert(a@.contains((x, y)) && !b@.contains((x, y)));
    }
}

/// Two boards with the same cells are the same board.
pub proof fn lemma_board_extensional(a: BitBoard, b: BitBoard)
    requires
        a@ == b@,
    ensures
        a == b,
{
    let (p, q) = (a.0, b.0);
    if p != q {
        assert(p ^ q != 0) by (bit_vector)
            requires
                p != q,
        ;
        let i = lemma_some_bit(p ^ q);
        assert(bit_set(p ^ q, i) ==> bit_set(p, i) != bit_set(q, i)) by (bit_vector);
        let (x, y) = ((i % 10) as int, (i / 10) as int);
        assert(a.cell(x, y) != b.cell(x, y));
        assert(a@.contains((x, y)) == a.cell(x, y));
        assert(b@.contains((x, y)) == b.cell(x, y));
    }
}

/// A row that is unfilled and has only filled rows beneath it is the lowest
/// unfilled row; a column filled up to `height` has none.
proof fn lemma_lowest_empty_row(b: BitBoard, x: int, height: int, y: int)
    requires
        0 <= y <= height,
        b.filled_below(x, y),
        y < height ==> !b.cell(x, y),
    ensures
        b.spec_lowest_empty_row(x, height) == y,
{
    if y < height {
        let w = b.spec_lowest_empty_row(x, height);
        assert(0 <= w < height && !b.cell(x, w) && b.filled_below(x, w));
        if w < y {
            assert(b.cell(x, w));
        }
        if y < w {
            assert(b.cell(x, y));
        }
    }
}

/// A column that is open and has only closed columns to its left is the
/// leftmost open column; when all ten are closed there is none.
proof fn lemma_leftmost_empty_column(b: BitBoard, height: int, x: int)
    requires
        0 <= x <= 10,
        forall|c: int| 0 <= c < x ==> !b.column_open(c, height),
        x < 10 ==> b.column_open(x, height),
    ensures
        b.spec_leftmost_empty_column(height) == x,
{
    if x < 10 {
        let w = b.spec_leftmost_empty_column(height);
        assert(0 <= w < 10 && b.column_open(w, height) && forall|c: int|
            0 <= c < w ==> !b.column_open(c, height));
    }
}

/// Facts about unions, differences and overlaps of sets of cells.
pub proof fn lemma_cell_sets(a: BitBoard, b: BitBoard, c: BitBoard)
    ensures
        a.spec_overlaps(b) == b.spec_overlaps(a),
        a.within(a),
        BitBoard(0).within(a),
        a.within(a.spec_combine(b)),
        b.within(a.spec_combine(b)),
        a.within(c) && b.within(c) ==> a.spec_combine(b).within(c),
        a.spec_combine(b).within(c) ==> a.within(c) && b.within(c),
        a.within(b) && b.within(c) ==> a.within(c),
        a.within(b) && b.within(a) ==> a == b,
        b.within(a) ==> b.within(a.spec_combine(c)),
        b.within(a.spec_combine(c)) && !b.spec_overlaps(c) ==> b.within(a),
        !b.is_empty() && b.within(a) ==> a.spec_overlaps(b),
        !a.spec_overlaps(b) && !c.spec_overlaps(b) ==> !a.spec_combine(c).spec_overlaps(b),
        !a.spec_overlaps(b.spec_combine(c)) ==> !a.spec_overlaps(b) && !a.spec_overlaps(c),
        a.spec_remove(b).within(a),
        !a.spec_remove(b).spec_overlaps(b),
        a.within(a.spec_remove(b).spec_combine(b)),
        a.within(c) ==> a.spec_remove(b).within(c),
        !a.spec_overlaps(c) ==> !a.spec_remove(b).spec_overlaps(c),
{
    lemma_words(a.0, b.0, c.0);
}

/// The facts of [`lemma_cell_sets`], on the words that hold the cells.
proof fn lemma_words(a: u64, b: u64, c: u64)
    by (bit_vector)
    ensures
        a & b == b & a,
        a & !a == 0,
        0 & !a == 0,
        a & !(a | b) == 0,
        b & !(a | b) == 0,
        (a & !c == 0 && b & !c == 0) ==> (a | b) & !c == 0,
        ((a | b) & !c == 0) ==> (a & !c == 0 && b & !c == 0),
        (a & !b == 0 && b & !c == 0) ==> a & !c == 0,
        (a & !b == 0 && b & !a == 0) ==> a == b,
        (b & !a == 0) ==> b & !(a | c) == 0,
        (b & !(a | c) == 0 && b & c == 0) ==> b & !a == 0,
        (b != 0 && b & !a == 0) ==> a & b != 0,
        (a & b == 0 && c & b == 0) ==> (a | c) & b == 0,
        (a & (b | c) == 0) ==> (a & b == 0 && a & c == 0),
        (a & !b) & !a == 0,
        (a & !b) & b == 0,
        a & !((a & !b) | b) == 0,
        (a & !c == 0) ==> (a & !b) & !c == 0,
        (a & c == 0) ==> (a & !b) & c == 0,
{
}

} // verus!
