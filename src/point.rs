use vstd::prelude::*;

verus! {

/// A position in text: a zero-based row and a column counted in characters.
#[derive(Clone, Copy, Debug, PartialEq, Eq, Structural)]
pub struct Point {
    pub row: u32,
    pub column: u32,
}

/// Lexicographic order on (row, column).
pub open spec fn point_le(a: Point, b: Point) -> bool {
    a.row < b.row || (a.row == b.row && a.column <= b.column)
}

pub open spec fn point_lt(a: Point, b: Point) -> bool {
    a.row < b.row || (a.row == b.row && a.column < b.column)
}

/// `a + b`: a delta with no row extends the line; one with rows starts a new line.
pub open spec fn point_add(a: (nat, nat), b: (nat, nat)) -> (nat, nat) {
    if b.0 == 0 {
        (a.0, a.1 + b.1)
    } else {
        (a.0 + b.0, b.1)
    }
}

/// `a - b` for `b <= a`: the delta that leads from `b` to `a`.
pub open spec fn point_sub(a: (nat, nat), b: (nat, nat)) -> (nat, nat) {
    if a.0 == b.0 {
        (0, (a.1 - b.1) as nat)
    } else {
        ((a.0 - b.0) as nat, a.1)
    }
}

pub open spec fn pair_le(a: (nat, nat), b: (nat, nat)) -> bool {
    a.0 < b.0 || (a.0 == b.0 && a.1 <= b.1)
}

impl View for Point {
    type V = (nat, nat);

    open spec fn view(&self) -> (nat, nat) {
        (self.row as nat, self.column as nat)
    }
}

impl Point {
    pub fn new(row: u32, column: u32) -> (r: Point)
        ensures
            r.row == row,
            r.column == column,
    {
        Point { row, column }
    }

    pub fn zero() -> (r: Point)
        ensures
            r@ == (0nat, 0nat),
    {
        Point { row: 0, column: 0 }
    }

    pub fn is_zero(&self) -> (r: bool)
        ensures
            r == (self@ == (0nat, 0nat)),
    {
        self.row == 0 && self.column == 0
    }

    pub fn le(&self, other: &Point) -> (r: bool)
        ensures
            r == point_le(*self, *other),
    {
        self.row < other.row || (self.row == other.row && self.column <= other.column)
    }

    pub fn lt(&self, other: &Point) -> (r: bool)
        ensures
            r == point_lt(*self, *other),
    {
        self.row < other.row || (self.row == other.row && self.column < other.column)
    }

    /// The smaller of two points in lexicographic order.
    pub fn min(self, other: Point) -> (r: Point)
        ensures
            r == (if point_le(self, other) { self } else { other }),
    {
        if self.le(&other) {
            self
        } else {
            other
        }
    }

    pub fn add(self, delta: Point) -> (r: Point)
        requires
            point_add(self@, delta@).0 <= u32::MAX,
            point_add(self@, delta@).1 <= u32::MAX,
        ensures
            r@ == point_add(self@, delta@),
    {
        if delta.row == 0 {
            Point { row: self.row, column: self.column + delta.column }
        } else {
            Point { row: self.row + delta.row, column: delta.column }
        }
    }

    pub fn sub(self, other: Point) -> (r: Point)
        requires
            point_le(other, self),
        ensures
            r@ == point_sub(self@, other@),
    {
        if self.row == other.row {
            Point { row: 0, column: self.column - other.column }
        } else {
            Point { row: self.row - other.row, column: self.column }
        }
    }
}

pub proof fn lemma_add_sub(a: (nat, nat), b: (nat, nat))
    requires
        pair_le(b, a),
    ensures
        point_add(b, point_sub(a, b)) == a,
{
}

} // verus!
