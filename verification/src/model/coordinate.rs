use vstd::prelude::*;

verus! {

/// Error payload for a rejected coordinate; carries the offending pair and
/// the board size it was checked against.
#[derive(Debug, Clone, Copy)]
pub struct CoordinateError {
    pub row: usize,
    pub col: usize,
    pub n: u8,
}

impl Default for CoordinateError {
    fn default() -> (r: Self)
        ensures
            r.row == 0 && r.col == 0 && r.n == 0,
    {
        CoordinateError { row: 0, col: 0, n: 0 }
    }
}

/// A (row, column) pair remembering the board size it belongs to.
#[derive(Debug, Clone, Copy)]
pub struct ContextCoordinate {
    pub row: usize,
    pub col: usize,
    pub n: usize,
}

impl ContextCoordinate {
    pub fn new(row: usize, col: usize, n: usize) -> (r: Self)
        ensures
            r.row == row && r.col == col && r.n == n,
    {
        Self { row, col, n }
    }

    pub fn get_row(&self) -> (r: usize)
        ensures
            r == self.row,
    {
        self.row
    }

    pub fn get_col(&self) -> (r: usize)
        ensures
            r == self.col,
    {
        self.col
    }

    pub fn get_n(&self) -> (r: usize)
        ensures
            r == self.n,
    {
        self.n
    }
}

/// A validated linear cell index on a square board.
#[derive(Debug, Clone, Copy)]
pub struct Coordinate {
    pub raw: usize,
}

impl Coordinate {
    /// Builds the linear index `col * n + row`; rejects a pair outside the board.
    pub fn from_context(col: usize, row: usize, n: u8) -> (r: Result<Self, CoordinateError>)
        ensures
            r is Ok <==> col < n && row < n,
            r matches Ok(c) ==> c.raw == col * (n as int) + row,
    {
        if col >= n as usize || row >= n as usize {
            return Err(CoordinateError::default());
        }
        assert(col * n <= 254 * 255) by (nonlinear_arith)
            requires
                col < n,
                n <= 255,
        ;

        Ok(Self { raw: col * (n as usize) + row })
    }

    /// As `from_context`, additionally rejecting negative components.
    pub fn from_context_signed(col: isize, row: isize, n: u8) -> (r: Result<
        Self,
        CoordinateError,
    >)
        ensures
            r is Ok <==> 0 <= col < n && 0 <= row < n,
            r matches Ok(c) ==> c.raw == col * (n as int) + row,
    {
        if col < 0 || row < 0 {
            return Err(CoordinateError::default());
        }

        Self::from_context(col as usize, row as usize, n)
    }

    pub fn get(&self) -> (r: usize)
        ensures
            r == self.raw,
    {
        self.raw
    }

    /// Splits the stored index into `(index / n, index % n)`; rejects an index
    /// outside an n-by-n board.
    pub fn to_coords(self, n: usize) -> (r: Result<(usize, usize), CoordinateError>)
        requires
            n * n <= usize::MAX,
        ensures
            r is Ok <==> self.raw < n * n,
            r matches Ok(p) ==> p.0 == self.raw as int / n as int && p.1 == self.raw as int
                % n as int,
    {
        if self.raw >= n * n {
            return Err(CoordinateError::default());
        }

        let row = self.raw / n;
        let col = self.raw % n;

        Ok((row, col))
    }
}

impl From<usize> for Coordinate {
    /// Wraps a raw linear index unchecked.
    fn from(raw: usize) -> (r: Self) {
        Self { raw }
    }
}

impl vstd::std_specs::convert::FromSpecImpl<usize> for Coordinate {
    open spec fn obeys_from_spec() -> bool {
        true
    }

    open spec fn from_spec(raw: usize) -> Coordinate {
        Coordinate { raw }
    }
}

/// Splitting the merged index of an in-bounds pair gives the pair back: for
/// `col, row < n`, `(col * n + row) / n == col` and `(col * n + row) % n == row`.
pub proof fn lemma_coordinate_round_trip(col: int, row: int, n: int)
    requires
        0 <= col < n,
        0 <= row < n,
    ensures
        (col * n + row) / n == col,
        (col * n + row) % n == row,
{
    assert((col * n + row) / n == col && (col * n + row) % n == row) by (nonlinear_arith)
        requires
            0 <= col < n,
            0 <= row < n,
    ;
}

} // verus!
