use vstd::prelude::*;

use crate::model::tile::Tile;

verus! {

/// 0-indexed square matrix of tiles.
#[derive(Debug)]
pub struct Grid {
    pub data: Vec<Tile>,
    pub n: u8,
}

impl Grid {
    /// The grid holds exactly one tile per cell of the n-by-n board.
    pub open spec fn wf(self) -> bool {
        self.data@.len() == self.n * self.n
    }

    pub fn new(n: u8) -> (g: Grid)
        ensures
            g.wf(),
            g.n == n,
            forall|i: int|
                0 <= i < g.data@.len() ==> g.data@[i].set == false && g.data@[i].color == 0,
    {
        assert((n as usize) * (n as usize) <= 65025) by (nonlinear_arith)
            requires
                n <= 255,
        ;
        let size: usize = (n as usize) * (n as usize);
        let mut data: Vec<Tile> = Vec::new();
        let mut i: usize = 0;
        while i < size
            invariant
                i <= size,
                data@.len() == i,
                forall|j: int| 0 <= j < i ==> data@[j].set == false && data@[j].color == 0,
            decreases size - i,
        {
            data.push(Tile::new(false, 0));
            i = i + 1;
        }

        Grid { data, n }
    }

    pub fn get_tile(&self, index: usize) -> (r: Result<Tile, CoordinateError>)
        ensures
            r is Ok <==> index < self.data@.len(),
            r matches Ok(t) ==> t == self.data@[index as int],
            r matches Err(e) ==> e == (CoordinateError::OutOfBounds { c: index }),
    {
        if index < self.data.len() {
            Ok(self.data[index])
        } else {
            Err(CoordinateError::OutOfBounds { c: index })
        }
    }

    pub fn set_tile(&mut self, index: usize, tile: Tile)
        requires
            index < old(self).data@.len(),
        ensures
            final(self).data@ == old(self).data@.update(index as int, tile),
            final(self).n == old(self).n,
    {
        self.data[index] = tile;
    }

    pub fn get_n(&self) -> (r: usize)
        ensures
            r == self.n,
    {
        self.n as usize
    }

    pub fn get_data(&self) -> (r: &Vec<Tile>)
        ensures
            r@ == self.data@,
    {
        &self.data
    }

    /// Splits a linear index into `(column, row)` for this grid's board size.
    pub fn split_coordinate(&self, c: usize) -> (r: Result<(usize, usize), CoordinateError>)
        ensures
            r is Ok <==> c < self.n * self.n,
            r matches Ok(p) ==> p.0 == c as int % self.n as int && p.1 == c as int / self.n as int,
            r matches Err(e) ==> e == (CoordinateError::OutOfBounds { c }),
    {
        let n = self.n as usize;
        assert(n * n <= 65025) by (nonlinear_arith)
            requires
                n <= 255,
        ;
        if c >= n * n {
            return Err(CoordinateError::OutOfBounds { c });
        }

        assert(n > 0) by (nonlinear_arith)
            requires
                c < n * n,
        ;
        let col = c % n;
        let row = c / n;

        Ok((col, row))
    }

    /// Merges a `(column, row)` pair into the linear index `row * n + column`.
    pub fn merge_coordinate(&self, column: usize, row: usize) -> (r: Result<
        usize,
        CoordinateError,
    >)
        ensures
            r is Ok <==> column < self.n && row < self.n,
            r matches Ok(c) ==> c == row * (self.n as int) + column,
            r matches Err(e) ==> e == (CoordinateError::Invalid2DCoordinates {
                column,
                row,
                n: self.n as usize,
            }),
    {
        let n = self.n as usize;
        if column >= n || row >= n {
            return Err(CoordinateError::Invalid2DCoordinates { column, row, n });
        }
        assert(row * n <= 254 * 255) by (nonlinear_arith)
            requires
                row < n,
                n <= 255,
        ;

        Ok(row * n + column)
    }
}

impl Clone for Grid {
    fn clone(&self) -> (r: Self)
        ensures
            r.data@ == self.data@,
            r.n == self.n,
    {
        let mut data: Vec<Tile> = Vec::new();
        let mut i: usize = 0;
        while i < self.data.len()
            invariant
                i <= self.data@.len(),
                data@ == self.data@.take(i as int),
            decreases self.data@.len() - i,
        {
            data.push(self.data[i]);
            i = i + 1;
        }
        assert(data@ == self.data@);

        Grid { data, n: self.n }
    }
}

impl Default for Grid {
    /// A fresh 10-by-10 grid of unmarked tiles.
    fn default() -> (g: Self)
        ensures
            g.wf(),
            g.n == 10,
            forall|i: int|
                0 <= i < g.data@.len() ==> g.data@[i].set == false && g.data@[i].color == 0,
    {
        Self::new(10)
    }
}

#[derive(Debug, Clone, Copy, PartialEq, Eq, Structural)]
pub enum CoordinateError {
    OutOfBounds { c: usize },
    Invalid2DCoordinates { column: usize, row: usize, n: usize },
}

} // verus!
