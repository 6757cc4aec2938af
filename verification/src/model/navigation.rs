use vstd::arithmetic::div_mod::{lemma_fundamental_div_mod, lemma_fundamental_div_mod_converse};
use vstd::prelude::*;

verus! {

// Cursor movement on the n-by-n board, as the keyboard handlers use it: a
// plain step wraps around the current row or column, a jump goes to its far
// edge and stays put once there.

/// Moves the cursor one cell right, wrapping within its row; with `jump`, to
/// the row's right edge.
pub fn marked_right(c: usize, n: usize, jump: bool) -> (r: usize)
    requires
        1 <= n <= 255,
        c < n * n,
    ensures
        r < n * n,
        r as int / n as int == c as int / n as int,
        ({
            let col = c as int % n as int;
            let rcol = r as int % n as int;
            if jump {
                rcol == n - 1
            } else if col == n - 1 {
                rcol == 0
            } else {
                rcol == col + 1
            }
        }),
{
    proof {
        lemma_cursor_arith(c as int, n as int);
    }
    let col = c % n;
    let ghost row = c as int / n as int;
    if jump {
        if col == n - 1 {
            c
        } else {
            let r = c + (n - col) - 1;
            proof {
                lemma_fundamental_div_mod_converse(r as int, n as int, row, n as int - 1);
            }
            r
        }
    } else {
        if col == n - 1 {
            let r = c + 1 - n;
            proof {
                lemma_fundamental_div_mod_converse(r as int, n as int, row, 0);
            }
            r
        } else {
            let r = c + 1;
            proof {
                lemma_fundamental_div_mod_converse(r as int, n as int, row, col as int + 1);
            }
            r
        }
    }
}

/// Moves the cursor one cell left, wrapping within its row; with `jump`, to
/// the row's left edge.
pub fn marked_left(c: usize, n: usize, jump: bool) -> (r: usize)
    requires
        1 <= n <= 255,
        c < n * n,
    ensures
        r < n * n,
        r as int / n as int == c as int / n as int,
        ({
            let col = c as int % n as int;
            let rcol = r as int % n as int;
            if jump {
                rcol == 0
            } else if col == 0 {
                rcol == n - 1
            } else {
                rcol == col - 1
            }
        }),
{
    proof {
        lemma_cursor_arith(c as int, n as int);
    }
    let col = c % n;
    let ghost row = c as int / n as int;
    if jump {
        if col == 0 {
            c
        } else {
            let r = c - col;
            proof {
                lemma_fundamental_div_mod_converse(r as int, n as int, row, 0);
            }
            r
        }
    } else {
        if col == 0 {
            let r = c + n - 1;
            proof {
                lemma_fundamental_div_mod_converse(r as int, n as int, row, n as int - 1);
            }
            r
        } else {
            let r = c - 1;
            proof {
                lemma_fundamental_div_mod_converse(r as int, n as int, row, col as int - 1);
            }
            r
        }
    }
}

/// Moves the cursor one cell down, wrapping within its column; with `jump`,
/// to the column's bottom edge.
pub fn marked_down(c: usize, n: usize, jump: bool) -> (r: usize)
    requires
        1 <= n <= 255,
        c < n * n,
    ensures
        r < n * n,
        r as int % n as int == c as int % n as int,
        ({
            let row = c as int / n as int;
            let rrow = r as int / n as int;
            if jump {
                rrow == n - 1
            } else if row == n - 1 {
                rrow == 0
            } else {
                rrow == row + 1
            }
        }),
{
    proof {
        lemma_cursor_arith(c as int, n as int);
    }
    let ghost col = c as int % n as int;
    let ghost row = c as int / n as int;
    let bottom_start = n * (n - 1);
    if jump {
        if c >= bottom_start {
            proof {
                lemma_row_at_least(c as int, n as int);
            }
            c
        } else {
            let r = bottom_start + c % n;
            proof {
                lemma_fundamental_div_mod_converse(r as int, n as int, n as int - 1, col);
            }
            r
        }
    } else {
        if c >= bottom_start {
            proof {
                lemma_row_at_least(c as int, n as int);
            }
            let r = c + n - n * n;
            proof {
                lemma_fundamental_div_mod_converse(r as int, n as int, 0, col);
            }
            r
        } else {
            let r = c + n;
            proof {
                lemma_fundamental_div_mod_converse(r as int, n as int, row + 1, col);
            }
            r
        }
    }
}

/// Moves the cursor one cell up, wrapping within its column; with `jump`, to
/// the column's top edge.
pub fn marked_up(c: usize, n: usize, jump: bool) -> (r: usize)
    requires
        1 <= n <= 255,
        c < n * n,
    ensures
        r < n * n,
        r as int % n as int == c as int % n as int,
        ({
            let row = c as int / n as int;
            let rrow = r as int / n as int;
            if jump {
                rrow == 0
            } else if row == 0 {
                rrow == n - 1
            } else {
                rrow == row - 1
            }
        }),
{
    proof {
        lemma_cursor_arith(c as int, n as int);
    }
    let ghost col = c as int % n as int;
    let ghost row = c as int / n as int;
    if jump {
        if c < n {
            c
        } else {
            let r = c % n;
            proof {
                lemma_fundamental_div_mod_converse(r as int, n as int, 0, col);
            }
            r
        }
    } else {
        if c < n {
            let r = c + n * (n - 1);
            proof {
                lemma_fundamental_div_mod_converse(r as int, n as int, n as int - 1, col);
            }
            r
        } else {
            let r = c - n;
            proof {
                lemma_fundamental_div_mod_converse(r as int, n as int, row - 1, col);
            }
            r
        }
    }
}

/// The arithmetic facts every cursor move relies on: the cell's row/column
/// decomposition, their bounds, and the products with neighbouring rows.
proof fn lemma_cursor_arith(c: int, n: int)
    requires
        1 <= n <= 255,
        0 <= c < n * n,
    ensures
        c == (c / n) * n + c % n,
        0 <= c / n < n,
        0 <= c % n < n,
        (c / n + 1) * n == (c / n) * n + n,
        (c / n - 1) * n == (c / n) * n - n,
        (n - 1) * n == n * n - n,
        n * (n - 1) == n * n - n,
        0 <= (c / n) * n <= (n - 1) * n,
        n * n <= 65025,
        n * (n - 1) <= 255 * 254,
{
    lemma_fundamental_div_mod(c, n);
    lemma_div_bound(c, n);
    lemma_cell_decompose(c, n);
    lemma_mul_shift(c / n, n);
    lemma_mul_shift(n - 1, n);
    lemma_mul_le(0, c / n, n);
    lemma_mul_le(c / n, n - 1, n);
    assert(n * n <= 65025 && n * (n - 1) <= 255 * 254 && n * (n - 1) == n * n - n) by (
    nonlinear_arith)
        requires
            1 <= n <= 255,
    ;
}

/// Pulls one factor out of a product with a neighbouring quotient.
proof fn lemma_mul_shift(q: int, n: int)
    ensures
        (q + 1) * n == q * n + n,
        (q - 1) * n == q * n - n,
{
    assert((q + 1) * n == q * n + n && (q - 1) * n == q * n - n) by (nonlinear_arith);
}

/// Multiplying both sides of an order by a nonnegative factor keeps it.
proof fn lemma_mul_le(a: int, b: int, n: int)
    requires
        a <= b,
        0 <= n,
    ensures
        a * n <= b * n,
{
    assert(a * n <= b * n) by (nonlinear_arith)
        requires
            a <= b,
            0 <= n,
    ;
}

/// A cell index splits into its row times the board size plus its column.
proof fn lemma_cell_decompose(c: int, n: int)
    requires
        1 <= n,
        0 <= c,
    ensures
        c == (c / n) * n + c % n,
{
    lemma_fundamental_div_mod(c, n);
    assert((c / n) * n == n * (c / n)) by (nonlinear_arith);
}

/// A cell below the last row's first index lies in an earlier row, and one at
/// or past it lies in the last row.
proof fn lemma_row_at_least(c: int, n: int)
    requires
        1 <= n,
        0 <= c < n * n,
    ensures
        c >= n * (n - 1) ==> c / n == n - 1,
        c < n * (n - 1) ==> c / n < n - 1,
{
    lemma_fundamental_div_mod(c, n);
    lemma_div_bound(c, n);
    assert(n * (n - 1) == n * n - n) by (nonlinear_arith)
        requires
            1 <= n,
    ;
    if c >= n * n - n {
        if c / n < n - 1 {
            assert(c == n * (c / n) + c % n);
            assert(n * (c / n) <= n * (n - 2)) by (nonlinear_arith)
                requires
                    c / n <= n - 2,
                    1 <= n,
            ;
            assert(n * (n - 2) == n * n - 2 * n) by (nonlinear_arith);
        }
    } else {
        if c / n == n - 1 {
            assert(c == n * (n - 1) + c % n);
        }
    }
}

/// The quotient of a board cell by the board size stays on the board.
proof fn lemma_div_bound(c: int, n: int)
    requires
        1 <= n,
        0 <= c < n * n,
    ensures
        0 <= c / n < n,
        0 <= c % n < n,
{
    assert(0 <= c / n < n && 0 <= c % n < n) by (nonlinear_arith)
        requires
            1 <= n,
            0 <= c < n * n,
    ;
}

} // verus!
