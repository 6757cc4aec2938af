use vstd::arithmetic::div_mod::{lemma_fundamental_div_mod, lemma_fundamental_div_mod_converse};
use vstd::prelude::*;

use crate::model::game_rule_broken::RuleView;
use crate::model::layout::{diag_pair, no_attack, Area, Layout};
use crate::model::state::{check_fold, check_step, solved_spec, InGameState};
use crate::model::tile::{toggled, Tile};

verus! {

/// Toggling a cell twice restores the board exactly, and toggling once flips
/// exactly that cell's marker: this is what two `flip_tile` calls on the same
/// cell amount to.
pub proof fn lemma_flip_twice(d: Seq<Tile>, c: int)
    requires
        0 <= c < d.len(),
    ensures
        ({
            let once = d.update(c, toggled(d[c]));
            let twice = once.update(c, toggled(once[c]));
            &&& once[c].set == !d[c].set
            &&& forall|k: int| 0 <= k < d.len() && k != c ==> once[k] == d[k]
            &&& twice == d
        }),
{
    let once = d.update(c, toggled(d[c]));
    let twice = once.update(c, toggled(once[c]));
    assert(twice =~= d);
}

/// Cells the checker never looks at leave its state untouched.
pub proof fn lemma_fold_skip(data: Seq<Tile>, areas: Seq<Area>, n: int, a: int, b: int)
    requires
        0 <= a <= b <= data.len(),
        forall|k: int| a <= k < b ==> !(#[trigger] data[k].set),
    ensures
        check_fold(data, areas, n, b) == check_fold(data, areas, n, a),
    decreases b - a,
{
    if a < b {
        lemma_fold_skip(data, areas, n, a, b - 1);
    }
}

/// On an empty grid the checker reports no violation and the game is not won.
pub proof fn lemma_empty_grid(data: Seq<Tile>, areas: Seq<Area>, n: int)
    requires
        1 <= n,
        data.len() == n * n,
        forall|c: int| 0 <= c < data.len() ==> !(#[trigger] data[c].set),
    ensures
        ({
            let st = check_fold(data, areas, n, data.len() as int);
            st.failed is None && st.errors.len() == 0 && !solved_spec(st, n)
        }),
{
    lemma_fold_skip(data, areas, n, 0, data.len() as int);
}

/// Stepping one row down and one column right or left on the board.
proof fn lemma_step_diag(a: int, n: int)
    requires
        1 <= n,
        0 <= a,
    ensures
        a % n != n - 1 ==> (a + n + 1) / n == a / n + 1 && (a + n + 1) % n == a % n + 1,
        a % n != 0 ==> (a + n - 1) / n == a / n + 1 && (a + n - 1) % n == a % n - 1,
{
    lemma_fundamental_div_mod(a, n);
    assert(a == n * (a / n) + a % n);
    assert(0 <= a % n < n);
    if a % n != n - 1 {
        assert(a + n + 1 == (a / n + 1) * n + (a % n + 1)) by (nonlinear_arith)
            requires
                a == n * (a / n) + a % n,
        ;
        lemma_fundamental_div_mod_converse(a + n + 1, n, a / n + 1, a % n + 1);
    }
    if a % n != 0 {
        assert(a + n - 1 == (a / n + 1) * n + (a % n - 1)) by (nonlinear_arith)
            requires
                a == n * (a / n) + a % n,
        ;
        lemma_fundamental_div_mod_converse(a + n - 1, n, a / n + 1, a % n - 1);
    }
}

/// How many of the first `k` cells are marked.
pub open spec fn num_marked_below(data: Seq<Tile>, k: int) -> int
    decreases k,
{
    if k <= 0 {
        0
    } else {
        num_marked_below(data, k - 1) + if data[k - 1].set {
            1int
        } else {
            0int
        }
    }
}

/// The rows, columns and colors of the marked cells among the first `k`,
/// in cell order.
pub open spec fn marked_rows_below(data: Seq<Tile>, n: int, k: int) -> Seq<usize>
    decreases k,
{
    if k <= 0 {
        Seq::empty()
    } else if data[k - 1].set {
        marked_rows_below(data, n, k - 1).push(((k - 1) / n) as usize)
    } else {
        marked_rows_below(data, n, k - 1)
    }
}

pub open spec fn marked_cols_below(data: Seq<Tile>, n: int, k: int) -> Seq<usize>
    decreases k,
{
    if k <= 0 {
        Seq::empty()
    } else if data[k - 1].set {
        marked_cols_below(data, n, k - 1).push(((k - 1) % n) as usize)
    } else {
        marked_cols_below(data, n, k - 1)
    }
}

pub open spec fn marked_colors_below(data: Seq<Tile>, n: int, k: int) -> Seq<u8>
    decreases k,
{
    if k <= 0 {
        Seq::empty()
    } else if data[k - 1].set {
        marked_colors_below(data, n, k - 1).push(data[k - 1].color)
    } else {
        marked_colors_below(data, n, k - 1)
    }
}

proof fn lemma_marked_rows_props(data: Seq<Tile>, n: int, k: int)
    requires
        1 <= n <= 255,
        0 <= k <= data.len(),
    ensures
        marked_rows_below(data, n, k).len() == num_marked_below(data, k),
        forall|row: usize|
            marked_rows_below(data, n, k).contains(row) <==> exists|b: int|
                0 <= b < k && (#[trigger] data[b].set) && row == (b / n) as usize,
    decreases k,
{
    if k > 0 {
        lemma_marked_rows_props(data, n, k - 1);
        let prev = marked_rows_below(data, n, k - 1);
        let cur = marked_rows_below(data, n, k);
        if data[k - 1].set {
            assert forall|row: usize| cur.contains(row) implies exists|b: int|
                0 <= b < k && (#[trigger] data[b].set) && row == (b / n) as usize by {
                if row == ((k - 1) / n) as usize {
                    assert(data[k - 1].set && row == ((k - 1) / n) as usize);
                } else {
                    let j = choose|j: int| 0 <= j < cur.len() && cur[j] == row;
                    assert(prev[j] == row);
                    assert(prev.contains(row));
                }
            }
            assert forall|b: int| 0 <= b < k && (#[trigger] data[b].set) implies cur.contains(
                (b / n) as usize,
            ) by {
                if b == k - 1 {
                    assert(cur[cur.len() - 1] == (b / n) as usize);
                } else {
                    assert(prev.contains((b / n) as usize));
                    let j = choose|j: int| 0 <= j < prev.len() && prev[j] == (b / n) as usize;
                    assert(cur[j] == (b / n) as usize);
                }
            }
        }
    }
}

proof fn lemma_marked_cols_props(data: Seq<Tile>, n: int, k: int)
    requires
        1 <= n <= 255,
        0 <= k <= data.len(),
    ensures
        marked_cols_below(data, n, k).len() == num_marked_below(data, k),
        forall|col: usize|
            marked_cols_below(data, n, k).contains(col) <==> exists|b: int|
                0 <= b < k && (#[trigger] data[b].set) && col == (b % n) as usize,
    decreases k,
{
    if k > 0 {
        lemma_marked_cols_props(data, n, k - 1);
        let prev = marked_cols_below(data, n, k - 1);
        let cur = marked_cols_below(data, n, k);
        if data[k - 1].set {
            assert forall|col: usize| cur.contains(col) implies exists|b: int|
                0 <= b < k && (#[trigger] data[b].set) && col == (b % n) as usize by {
                if col == ((k - 1) % n) as usize {
                    assert(data[k - 1].set && col == ((k - 1) % n) as usize);
                } else {
                    let j = choose|j: int| 0 <= j < cur.len() && cur[j] == col;
                    assert(prev[j] == col);
                    assert(prev.contains(col));
                }
            }
            assert forall|b: int| 0 <= b < k && (#[trigger] data[b].set) implies cur.contains(
                (b % n) as usize,
            ) by {
                if b == k - 1 {
                    assert(cur[cur.len() - 1] == (b % n) as usize);
                } else {
                    assert(prev.contains((b % n) as usize));
                    let j = choose|j: int| 0 <= j < prev.len() && prev[j] == (b % n) as usize;
                    assert(cur[j] == (b % n) as usize);
                }
            }
        }
    }
}

proof fn lemma_marked_colors_props(data: Seq<Tile>, n: int, k: int)
    requires
        1 <= n <= 255,
        0 <= k <= data.len(),
    ensures
        marked_colors_below(data, n, k).len() == num_marked_below(data, k),
        forall|color: u8|
            marked_colors_below(data, n, k).contains(color) <==> exists|b: int|
                0 <= b < k && (#[trigger] data[b].set) && color == data[b].color,
    decreases k,
{
    if k > 0 {
        lemma_marked_colors_props(data, n, k - 1);
        let prev = marked_colors_below(data, n, k - 1);
        let cur = marked_colors_below(data, n, k);
        if data[k - 1].set {
            assert forall|color: u8| cur.contains(color) implies exists|b: int|
                0 <= b < k && (#[trigger] data[b].set) && color == data[b].color by {
                if color == data[k - 1].color {
                    assert(data[k - 1].set && color == data[k - 1].color);
                } else {
                    let j = choose|j: int| 0 <= j < cur.len() && cur[j] == color;
                    assert(prev[j] == color);
                    assert(prev.contains(color));
                }
            }
            assert forall|b: int| 0 <= b < k && (#[trigger] data[b].set) implies cur.contains(
                data[b].color,
            ) by {
                if b == k - 1 {
                    assert(cur[cur.len() - 1] == data[b].color);
                } else {
                    assert(prev.contains(data[b].color));
                    let j = choose|j: int| 0 <= j < prev.len() && prev[j] == data[b].color;
                    assert(cur[j] == data[b].color);
                }
            }
        }
    }
}

/// A marking with no two marked cells on a shared row, column or color and
/// none diagonally adjacent: the checker finds no violation and records
/// exactly one new row, column and color per marked cell.
pub proof fn lemma_fold_clean(data: Seq<Tile>, areas: Seq<Area>, n: int, k: int)
    requires
        1 <= n <= 255,
        data.len() == n * n,
        0 <= k <= data.len(),
        forall|a: int, b: int|
            #![trigger data[a].set, data[b].set]
            0 <= a < b < data.len() && data[a].set && data[b].set ==> a / n != b / n && a % n != b
                % n && data[a].color != data[b].color && !diag_pair(a, b, n),
    ensures
        ({
            let st = check_fold(data, areas, n, k);
            &&& st.failed is None
            &&& st.errors.len() == 0
            &&& st.rows == marked_rows_below(data, n, k)
            &&& st.cols == marked_cols_below(data, n, k)
            &&& st.colors == marked_colors_below(data, n, k)
        }),
    decreases k,
{
    if k > 0 {
        lemma_fold_clean(data, areas, n, k - 1);
        let st = check_fold(data, areas, n, k - 1);
        let st1 = check_fold(data, areas, n, k);
        assert(st1 == check_step(st, data, areas, n, k - 1));
        let a = k - 1;
        if data[a].set {
            let row = (a / n) as usize;
            let col = (a % n) as usize;
            let color = data[a].color;
            assert(!st.rows.contains(row)) by {
                lemma_marked_rows_props(data, n, k - 1);
                if st.rows.contains(row) {
                    let b = choose|b: int|
                        0 <= b < k - 1 && (#[trigger] data[b].set) && row == (b / n) as usize;
                    assert(0 <= b / n < n && 0 <= a / n < n) by (nonlinear_arith)
                        requires
                            0 <= b < n * n,
                            0 <= a < n * n,
                            0 < n,
                    ;
                    assert(b / n == a / n);
                }
            }
            assert(!st.cols.contains(col)) by {
                lemma_marked_cols_props(data, n, k - 1);
                if st.cols.contains(col) {
                    let b = choose|b: int|
                        0 <= b < k - 1 && (#[trigger] data[b].set) && col == (b % n) as usize;
                    assert(b % n == a % n);
                }
            }
            assert(!st.colors.contains(color)) by {
                lemma_marked_colors_props(data, n, k - 1);
                if st.colors.contains(color) {
                    let b = choose|b: int|
                        0 <= b < k - 1 && (#[trigger] data[b].set) && color == data[b].color;
                }
            }
            if a % n != n - 1 && a + n + 1 < data.len() && data[a + n + 1].set {
                assert(diag_pair(a, a + n + 1, n));
                assert(false);
            }
            if a % n != 0 && a + n - 1 < data.len() && data[a + n - 1].set {
                assert(a < a + n - 1) by {
                    if n == 1 {
                        assert(a % n == 0);
                    }
                }
                assert(diag_pair(a, a + n - 1, n));
                assert(false);
            }
        }
    }
}

/// Marking cells that pairwise share no row, column or color and are nowhere
/// diagonally adjacent breaks no rule; with exactly `n` such marks the board
/// is solved.
pub proof fn lemma_solution_marks(data: Seq<Tile>, areas: Seq<Area>, n: int)
    requires
        1 <= n <= 255,
        data.len() == n * n,
        forall|a: int, b: int|
            #![trigger data[a].set, data[b].set]
            0 <= a < b < data.len() && data[a].set && data[b].set ==> a / n != b / n && a % n != b
                % n && data[a].color != data[b].color && !diag_pair(a, b, n),
        num_marked_below(data, data.len() as int) == n,
    ensures
        ({
            let st = check_fold(data, areas, n, data.len() as int);
            st.failed is None && st.errors.len() == 0 && solved_spec(st, n)
        }),
{
    lemma_fold_clean(data, areas, n, data.len() as int);
    lemma_marked_rows_props(data, n, data.len() as int);
    lemma_marked_cols_props(data, n, data.len() as int);
    lemma_marked_colors_props(data, n, data.len() as int);
}

/// How many of the first `i` areas have their seed cell below `k`.
spec fn seeds_hit(l: Layout, k: int, i: int) -> int
    decreases i,
{
    if i <= 0 {
        0
    } else {
        seeds_hit(l, k, i - 1) + if l.seed_of(i - 1) < k {
            1int
        } else {
            0int
        }
    }
}

proof fn lemma_seeds_hit_step(l: Layout, k: int, i: int)
    requires
        0 <= i <= 10,
        forall|i1: int, i2: int|
            #![trigger l.seed_of(i1), l.seed_of(i2)]
            0 <= i1 < i2 < 10 ==> l.seed_of(i1) != l.seed_of(i2),
    ensures
        seeds_hit(l, k, i) == seeds_hit(l, k - 1, i) + if exists|j: int|
            0 <= j < i && (#[trigger] l.seed_of(j)) == k - 1 {
            1int
        } else {
            0int
        },
    decreases i,
{
    if i > 0 {
        lemma_seeds_hit_step(l, k, i - 1);
        if l.seed_of(i - 1) == k - 1 {
            assert forall|j: int| 0 <= j < i - 1 implies (#[trigger] l.seed_of(j)) != k - 1 by {
                assert(l.seed_of(j) != l.seed_of(i - 1));
            }
            assert(l.seed_of(i - 1) == k - 1);
        } else {
            if exists|j: int| 0 <= j < i && (#[trigger] l.seed_of(j)) == k - 1 {
                let j = choose|j: int| 0 <= j < i && (#[trigger] l.seed_of(j)) == k - 1;
                assert(j < i - 1);
            }
        }
    }
}

proof fn lemma_seeds_hit_full(l: Layout, i: int)
    requires
        0 <= i <= 10,
        forall|j: int| 0 <= j < 10 ==> (#[trigger] l.seed_of(j)) < 100,
    ensures
        seeds_hit(l, 100, i) == i,
    decreases i,
{
    if i > 0 {
        lemma_seeds_hit_full(l, i - 1);
    }
}

proof fn lemma_seed_count(l: Layout, data: Seq<Tile>, k: int)
    requires
        data.len() == 100,
        0 <= k <= 100,
        forall|i1: int, i2: int|
            #![trigger l.seed_of(i1), l.seed_of(i2)]
            0 <= i1 < i2 < 10 ==> l.seed_of(i1) != l.seed_of(i2),
        forall|c: int|
            0 <= c < 100 ==> ((#[trigger] data[c].set) <==> exists|i: int|
                0 <= i < 10 && (#[trigger] l.seed_of(i)) == c),
    ensures
        num_marked_below(data, k) == seeds_hit(l, k, 10),
    decreases k,
{
    if k > 0 {
        lemma_seed_count(l, data, k - 1);
        lemma_seeds_hit_step(l, k, 10);
    } else {
        lemma_seeds_hit_zero(l, 10);
    }
}

/// Seeds are cell indices, so none lies below zero.
proof fn lemma_seeds_hit_zero(l: Layout, i: int)
    requires
        0 <= i,
    ensures
        seeds_hit(l, 0, i) == 0,
    decreases i,
{
    if i > 0 {
        lemma_seeds_hit_zero(l, i - 1);
    }
}

/// The seed cells of a generated layout are one valid solution: marking
/// exactly them breaks no rule and wins the game.
pub proof fn lemma_seed_cells_solve(s: InGameState)
    requires
        s.wf(),
        s.layout.seeds_solve(10),
        forall|c: int|
            0 <= c < 100 ==> ((#[trigger] s.grid.data@[c].set) <==> exists|i: int|
                0 <= i < 10 && (#[trigger] s.layout.seed_of(i)) == c),
    ensures
        ({
            let st = check_fold(s.grid.data@, s.layout.areas@, 10, s.grid.data@.len() as int);
            st.failed is None && st.errors.len() == 0 && solved_spec(st, 10)
        }),
{
    let data = s.grid.data@;
    let l = s.layout;
    assert forall|i: int| 0 <= i < 10 implies l.area_has(i, #[trigger] l.seed_of(i))
        && l.seed_of(i) < 100 && data[l.seed_of(i) as int].color == i as u8 by {
        assert(l.areas@[i].sections@[0] == l.seed_of(i));
        assert(l.areas@[i].sections@.contains(l.seed_of(i)));
        assert(l.area_has(i, l.seed_of(i)));
        assert(l.areas@[i].color == i as u8);
    }
    assert forall|i1: int, i2: int|
        #![trigger l.seed_of(i1), l.seed_of(i2)]
        0 <= i1 < i2 < 10 implies l.seed_of(i1) != l.seed_of(i2) by {
        assert(no_attack(l.seed_of(i1) as int, l.seed_of(i2) as int, 10));
    }
    assert forall|a: int, b: int|
        #![trigger data[a].set, data[b].set]
        0 <= a < b < data.len() && data[a].set && data[b].set implies a / 10 != b / 10 && a % 10
        != b % 10 && data[a].color != data[b].color && !diag_pair(a, b, 10) by {
        let i = choose|i: int| 0 <= i < 10 && (#[trigger] l.seed_of(i)) == a;
        let j = choose|j: int| 0 <= j < 10 && (#[trigger] l.seed_of(j)) == b;
        assert(i != j);
        if i < j {
            assert(no_attack(l.seed_of(i) as int, l.seed_of(j) as int, 10));
        } else {
            assert(no_attack(l.seed_of(j) as int, l.seed_of(i) as int, 10));
        }
        assert(data[a].color == i as u8 && data[b].color == j as u8);
    }
    lemma_seed_count(l, data, 100);
    lemma_seeds_hit_full(l, 10);
    lemma_solution_marks(data, l.areas@, 10);
}

/// Two marked cells on one row and nothing else: the checker reports exactly
/// one duplicated-row violation, for that row, and the game is not won.
pub proof fn lemma_duplicate_row(data: Seq<Tile>, areas: Seq<Area>, n: int, a: int, b: int)
    requires
        1 <= n <= 255,
        data.len() == n * n,
        0 <= a < b < data.len(),
        data[a].set,
        data[b].set,
        forall|c: int| 0 <= c < data.len() && c != a && c != b ==> !(#[trigger] data[c].set),
        a / n == b / n,
        a % n != b % n,
        data[a].color != data[b].color,
    ensures
        ({
            let st = check_fold(data, areas, n, data.len() as int);
            &&& st.failed is None
            &&& st.errors == seq![RuleView::Row { row: (a / n) as usize }]
            &&& !solved_spec(st, n)
        }),
{
    lemma_step_diag(a, n);
    lemma_step_diag(b, n);
    assert(n >= 2) by {
        if n == 1 {
            assert(a % n == 0 && b % n == 0);
        }
    }
    lemma_fold_skip(data, areas, n, 0, a);
    let st_a = check_fold(data, areas, n, a);
    let st_a1 = check_fold(data, areas, n, a + 1);
    assert(st_a1 == check_step(st_a, data, areas, n, a));
    // at cell a nothing has been seen yet, and neither forward diagonal of a
    // is marked: a diagonal neighbour would lie on the next row, but b shares
    // a's row
    assert(a % n != n - 1 && a + n + 1 < data.len() ==> !data[a + n + 1].set) by {
        if a % n != n - 1 && a + n + 1 < data.len() && data[a + n + 1].set {
            assert(a + n + 1 == b);
            assert((a + n + 1) / n == a / n + 1);
        }
    }
    assert(a % n != 0 && a + n - 1 < data.len() ==> !data[a + n - 1].set) by {
        if a % n != 0 && a + n - 1 < data.len() && data[a + n - 1].set {
            assert(a + n - 1 == b);
            assert((a + n - 1) / n == a / n + 1);
        }
    }
    assert(st_a1.errors =~= Seq::<RuleView>::empty());
    assert(st_a1.rows =~= seq![((a / n) as usize)]);
    assert(st_a1.cols =~= seq![((a % n) as usize)]);
    assert(st_a1.colors =~= seq![data[a].color]);
    lemma_fold_skip(data, areas, n, a + 1, b);
    let st_b = check_fold(data, areas, n, b);
    let st_b1 = check_fold(data, areas, n, b + 1);
    assert(st_b1 == check_step(st_b, data, areas, n, b));
    assert(0 <= a / n < n && 0 <= b / n < n) by (nonlinear_arith)
        requires
            0 <= a < n * n,
            0 <= b < n * n,
            0 < n,
    ;
    assert(st_b.rows.contains((b / n) as usize)) by {
        assert(st_b.rows[0] == (b / n) as usize);
    }
    assert(!st_b.cols.contains((b % n) as usize));
    assert(!st_b.colors.contains(data[b].color));
    assert(b % n != n - 1 && b + n + 1 < data.len() ==> !data[b + n + 1].set) by {
        if b % n != n - 1 && b + n + 1 < data.len() && data[b + n + 1].set {
            assert(b + n + 1 == a || b + n + 1 == b);
        }
    }
    assert(b % n != 0 && b + n - 1 < data.len() ==> !data[b + n - 1].set) by {
        if b % n != 0 && b + n - 1 < data.len() && data[b + n - 1].set {
            assert(b + n - 1 == a || b + n - 1 == b);
        }
    }
    assert(st_b1.errors =~= seq![RuleView::Row { row: (a / n) as usize }]);
    lemma_fold_skip(data, areas, n, b + 1, data.len() as int);
}

/// Two diagonally adjacent marked cells and nothing else: the checker
/// reports exactly one diagonal violation, naming the upper cell first, and
/// the game is not won.
pub proof fn lemma_diagonal_pair(data: Seq<Tile>, areas: Seq<Area>, n: int, a: int)
    requires
        1 <= n <= 255,
        data.len() == n * n,
        0 <= a,
        a % n != n - 1,
        a + n + 1 < data.len(),
        data[a].set,
        data[a + n + 1].set,
        forall|c: int|
            0 <= c < data.len() && c != a && c != a + n + 1 ==> !(#[trigger] data[c].set),
        data[a].color != data[a + n + 1].color,
    ensures
        ({
            let st = check_fold(data, areas, n, data.len() as int);
            &&& st.failed is None
            &&& st.errors == seq![
                RuleView::Diagonal { c1: a as usize, c2: (a + n + 1) as usize },
            ]
            &&& !solved_spec(st, n)
        }),
{
    let b = a + n + 1;
    lemma_step_diag(a, n);
    assert(n >= 2) by {
        if n == 1 {
            assert(a % n == 0 && n - 1 == 0);
        }
    }
    lemma_fold_skip(data, areas, n, 0, a);
    let st_a = check_fold(data, areas, n, a);
    let st_a1 = check_fold(data, areas, n, a + 1);
    assert(st_a1 == check_step(st_a, data, areas, n, a));
    assert(a % n != 0 && a + n - 1 < data.len() ==> !data[a + n - 1].set) by {
        if a % n != 0 && a + n - 1 < data.len() && data[a + n - 1].set {
            assert(a + n - 1 == a || a + n - 1 == b);
        }
    }
    assert(st_a1.errors =~= seq![
        RuleView::Diagonal { c1: a as usize, c2: (a + n + 1) as usize },
    ]);
    assert(st_a1.rows =~= seq![((a / n) as usize)]);
    assert(st_a1.cols =~= seq![((a % n) as usize)]);
    assert(st_a1.colors =~= seq![data[a].color]);
    lemma_fold_skip(data, areas, n, a + 1, b);
    let st_b = check_fold(data, areas, n, b);
    let st_b1 = check_fold(data, areas, n, b + 1);
    assert(st_b1 == check_step(st_b, data, areas, n, b));
    assert(0 <= a / n < n && 0 <= b / n < n) by (nonlinear_arith)
        requires
            0 <= a < n * n,
            0 <= b < n * n,
            0 < n,
    ;
    assert(b / n == a / n + 1 && b % n == a % n + 1);
    assert(!st_b.rows.contains((b / n) as usize)) by {
        if st_b.rows.contains((b / n) as usize) {
            assert(st_b.rows[0] == (a / n) as usize);
        }
    }
    assert(!st_b.cols.contains((b % n) as usize)) by {
        if st_b.cols.contains((b % n) as usize) {
            assert(st_b.cols[0] == (a % n) as usize);
        }
    }
    assert(!st_b.colors.contains(data[b].color)) by {
        if st_b.colors.contains(data[b].color) {
            assert(st_b.colors[0] == data[a].color);
        }
    }
    assert(b % n != n - 1 && b + n + 1 < data.len() ==> !data[b + n + 1].set) by {
        if b % n != n - 1 && b + n + 1 < data.len() && data[b + n + 1].set {
            assert(b + n + 1 == a || b + n + 1 == b);
        }
    }
    assert(b % n != 0 && b + n - 1 < data.len() ==> !data[b + n - 1].set) by {
        if b % n != 0 && b + n - 1 < data.len() && data[b + n - 1].set {
            assert(b + n - 1 == a || b + n - 1 == b);
        }
    }
    assert(st_b1.errors =~= seq![
        RuleView::Diagonal { c1: a as usize, c2: (a + n + 1) as usize },
    ]);
    lemma_fold_skip(data, areas, n, b + 1, data.len() as int);
}

/// A marked cell with both its forward diagonal neighbours marked, and
/// nothing else: the checker reports the two diagonal violations once each,
/// from the upper cell, and one duplicated-row violation for the lower pair.
#[verifier::rlimit(60)]
pub proof fn lemma_diagonal_pair_both(data: Seq<Tile>, areas: Seq<Area>, n: int, a: int)
    requires
        4 <= n <= 255,
        data.len() == n * n,
        0 <= a,
        a % n != n - 1,
        a % n != 0,
        a + n + 1 < data.len(),
        data[a].set,
        data[a + n - 1].set,
        data[a + n + 1].set,
        forall|c: int|
            0 <= c < data.len() && c != a && c != a + n - 1 && c != a + n + 1 ==> !(
            #[trigger] data[c].set),
        data[a].color != data[a + n - 1].color,
        data[a].color != data[a + n + 1].color,
        data[a + n - 1].color != data[a + n + 1].color,
    ensures
        ({
            let st = check_fold(data, areas, n, data.len() as int);
            &&& st.failed is None
            &&& st.errors == seq![
                RuleView::Diagonal { c1: a as usize, c2: (a + n + 1) as usize },
                RuleView::Diagonal { c1: a as usize, c2: (a + n - 1) as usize },
                RuleView::Row { row: (a / n + 1) as usize },
            ]
            &&& !solved_spec(st, n)
        }),
{
    let b1 = a + n - 1;
    let b2 = a + n + 1;
    lemma_step_diag(a, n);
    lemma_fold_skip(data, areas, n, 0, a);
    let st_a = check_fold(data, areas, n, a);
    let st_a1 = check_fold(data, areas, n, a + 1);
    assert(st_a1 == check_step(st_a, data, areas, n, a));
    assert(st_a1.errors =~= seq![
        RuleView::Diagonal { c1: a as usize, c2: (a + n + 1) as usize },
        RuleView::Diagonal { c1: a as usize, c2: (a + n - 1) as usize },
    ]);
    assert(st_a1.rows =~= seq![((a / n) as usize)]);
    assert(st_a1.cols =~= seq![((a % n) as usize)]);
    assert(st_a1.colors =~= seq![data[a].color]);
    lemma_fold_skip(data, areas, n, a + 1, b1);
    let st_c = check_fold(data, areas, n, b1);
    let st_c1 = check_fold(data, areas, n, b1 + 1);
    assert(st_c1 == check_step(st_c, data, areas, n, b1));
    assert(0 <= a / n < n && 0 <= b1 / n < n && 0 <= b2 / n < n) by (nonlinear_arith)
        requires
            0 <= a < n * n,
            0 <= b1 < n * n,
            0 <= b2 < n * n,
            0 < n,
    ;
    assert(b1 / n == a / n + 1 && b1 % n == a % n - 1);
    assert(b2 / n == a / n + 1 && b2 % n == a % n + 1);
    assert(!st_c.rows.contains((b1 / n) as usize)) by {
        if st_c.rows.contains((b1 / n) as usize) {
            assert(st_c.rows[0] == (a / n) as usize);
        }
    }
    assert(!st_c.cols.contains((b1 % n) as usize)) by {
        if st_c.cols.contains((b1 % n) as usize) {
            assert(st_c.cols[0] == (a % n) as usize);
        }
    }
    assert(!st_c.colors.contains(data[b1].color)) by {
        if st_c.colors.contains(data[b1].color) {
            assert(st_c.colors[0] == data[a].color);
        }
    }
    // neither forward diagonal of the lower-left cell is marked
    assert(b1 % n != n - 1 && b1 + n + 1 < data.len() ==> !data[b1 + n + 1].set) by {
        if b1 % n != n - 1 && b1 + n + 1 < data.len() && data[b1 + n + 1].set {
            assert(b1 + n + 1 == a || b1 + n + 1 == b1 || b1 + n + 1 == b2);
        }
    }
    assert(b1 % n != 0 && b1 + n - 1 < data.len() ==> !data[b1 + n - 1].set) by {
        if b1 % n != 0 && b1 + n - 1 < data.len() && data[b1 + n - 1].set {
            assert(b1 + n - 1 == a || b1 + n - 1 == b1 || b1 + n - 1 == b2);
        }
    }
    assert(st_c1.errors == st_a1.errors);
    assert(st_c1.rows =~= st_a1.rows.push((b1 / n) as usize));
    assert(st_c1.cols =~= st_a1.cols.push((b1 % n) as usize));
    assert(st_c1.colors =~= st_a1.colors.push(data[b1].color));
    lemma_fold_skip(data, areas, n, b1 + 1, b2);
    let st_d = check_fold(data, areas, n, b2);
    let st_d1 = check_fold(data, areas, n, b2 + 1);
    assert(st_d1 == check_step(st_d, data, areas, n, b2));
    // the lower-right cell shares its row with the lower-left one
    assert(st_d.rows.contains((b2 / n) as usize)) by {
        assert(st_d.rows[1] == (b1 / n) as usize);
    }
    assert(!st_d.cols.contains((b2 % n) as usize)) by {
        if st_d.cols.contains((b2 % n) as usize) {
            let j = choose|j: int| 0 <= j < st_d.cols.len() && st_d.cols[j] == (b2 % n) as usize;
            assert(j == 0 || j == 1);
        }
    }
    assert(!st_d.colors.contains(data[b2].color)) by {
        if st_d.colors.contains(data[b2].color) {
            let j = choose|j: int| 0 <= j < st_d.colors.len() && st_d.colors[j] == data[b2].color;
            assert(j == 0 || j == 1);
        }
    }
    assert(b2 % n != n - 1 && b2 + n + 1 < data.len() ==> !data[b2 + n + 1].set) by {
        if b2 % n != n - 1 && b2 + n + 1 < data.len() && data[b2 + n + 1].set {
            assert(b2 + n + 1 == a || b2 + n + 1 == b1 || b2 + n + 1 == b2);
        }
    }
    assert(b2 % n != 0 && b2 + n - 1 < data.len() ==> !data[b2 + n - 1].set) by {
        if b2 % n != 0 && b2 + n - 1 < data.len() && data[b2 + n - 1].set {
            assert(b2 + n - 1 == a || b2 + n - 1 == b1 || b2 + n - 1 == b2);
        }
    }
    assert(st_d1.errors =~= seq![
        RuleView::Diagonal { c1: a as usize, c2: (a + n + 1) as usize },
        RuleView::Diagonal { c1: a as usize, c2: (a + n - 1) as usize },
        RuleView::Row { row: (a / n + 1) as usize },
    ]);
    lemma_fold_skip(data, areas, n, b2 + 1, data.len() as int);
}

} // verus!
