use vstd::arithmetic::div_mod::lemma_fundamental_div_mod;
use vstd::prelude::*;

use crate::errors::{QueensError, QueensResult};
use crate::model::game_rule_broken::{lemma_views_push, views_of, GameRuleBroken, RuleView};
use crate::model::generator::generate_layout;
use crate::model::grid::Grid;
use crate::model::layout::{complex_layout, easy_layout, owner_from, Area, Layout, LayoutType};
use crate::model::tile::{toggled, Tile};

verus! {

/// The running state of the rule check after a prefix of the cells: the
/// violations found so far and the rows, columns and colors already seen on
/// marked cells; `failed` records the first marked cell whose area lookup
/// found nothing.
pub struct CheckSt {
    pub errors: Seq<RuleView>,
    pub rows: Seq<usize>,
    pub cols: Seq<usize>,
    pub colors: Seq<u8>,
    pub failed: Option<usize>,
}

pub open spec fn empty_check() -> CheckSt {
    CheckSt {
        errors: Seq::empty(),
        rows: Seq::empty(),
        cols: Seq::empty(),
        colors: Seq::empty(),
        failed: None,
    }
}

/// One step of the rule check, examining cell `k`: a marked cell reports a
/// duplicated row, column and area (first occurrences stay silent), then one
/// violation for each marked forward-diagonal neighbour.
pub open spec fn check_step(st: CheckSt, data: Seq<Tile>, areas: Seq<Area>, n: int, k: int) -> CheckSt {
    if st.failed is Some || !data[k].set {
        st
    } else {
        let row = (k / n) as usize;
        let col = (k % n) as usize;
        let color = data[k].color;
        let row_dup = st.rows.contains(row);
        let col_dup = st.cols.contains(col);
        let color_dup = st.colors.contains(color);
        let e1 = if row_dup {
            st.errors.push(RuleView::Row { row })
        } else {
            st.errors
        };
        let rows1 = if row_dup {
            st.rows
        } else {
            st.rows.push(row)
        };
        let e2 = if col_dup {
            e1.push(RuleView::Column { col })
        } else {
            e1
        };
        let cols1 = if col_dup {
            st.cols
        } else {
            st.cols.push(col)
        };
        if color_dup && owner_from(areas, k as usize, 0) is None {
            CheckSt { errors: e2, rows: rows1, cols: cols1, colors: st.colors, failed: Some(
                k as usize,
            ) }
        } else {
            let e3 = if color_dup {
                match owner_from(areas, k as usize, 0) {
                    Some(i) => e2.push(
                        RuleView::Area { members: areas[i].sections@, color: areas[i].color },
                    ),
                    None => e2,
                }
            } else {
                e2
            };
            let colors1 = if color_dup {
                st.colors
            } else {
                st.colors.push(color)
            };
            let e4 = if k % n != n - 1 && k + n + 1 < data.len() && data[k + n + 1].set {
                e3.push(RuleView::Diagonal { c1: k as usize, c2: (k + n + 1) as usize })
            } else {
                e3
            };
            let e5 = if k % n != 0 && k + n - 1 < data.len() && data[k + n - 1].set {
                e4.push(RuleView::Diagonal { c1: k as usize, c2: (k + n - 1) as usize })
            } else {
                e4
            };
            CheckSt { errors: e5, rows: rows1, cols: cols1, colors: colors1, failed: None }
        }
    }
}

/// The state of the rule check after the first `k` cells.
pub open spec fn check_fold(data: Seq<Tile>, areas: Seq<Area>, n: int, k: int) -> CheckSt
    decreases k,
{
    if k <= 0 {
        empty_check()
    } else {
        check_step(check_fold(data, areas, n, k - 1), data, areas, n, k - 1)
    }
}

/// The board is solved when n distinct rows, columns and colors are marked
/// and no rule is broken.
pub open spec fn solved_spec(st: CheckSt, n: int) -> bool {
    st.rows.len() == n && st.cols.len() == n && st.colors.len() == n && st.errors.len() == 0
}

/// Once the check has failed, later cells change nothing.
pub proof fn lemma_fold_frozen(data: Seq<Tile>, areas: Seq<Area>, n: int, a: int, b: int)
    requires
        0 <= a <= b,
        check_fold(data, areas, n, a).failed is Some,
    ensures
        check_fold(data, areas, n, b) == check_fold(data, areas, n, a),
    decreases b - a,
{
    if a < b {
        lemma_fold_frozen(data, areas, n, a, b - 1);
    }
}

/// Returns whether `x` occurs in `v`.
fn contains_usize(v: &Vec<usize>, x: usize) -> (b: bool)
    ensures
        b == v@.contains(x),
{
    let mut i: usize = 0;
    while i < v.len()
        invariant
            i <= v@.len(),
            forall|j: int| 0 <= j < i ==> v@[j] != x,
        decreases v@.len() - i,
    {
        if v[i] == x {
            return true;
        }
        i = i + 1;
    }
    false
}

/// Returns whether `x` occurs in `v`.
fn contains_u8(v: &Vec<u8>, x: u8) -> (b: bool)
    ensures
        b == v@.contains(x),
{
    let mut i: usize = 0;
    while i < v.len()
        invariant
            i <= v@.len(),
            forall|j: int| 0 <= j < i ==> v@[j] != x,
        decreases v@.len() - i,
    {
        if v[i] == x {
            return true;
        }
        i = i + 1;
    }
    false
}

/// The live part of a play session: the grid, the layout it was built from,
/// and the cell the keyboard cursor sits on.
#[derive(Clone)]
pub struct InGameState {
    pub grid: Grid,
    pub layout: Layout,
    pub marked: Option<usize>,
}

impl InGameState {
    /// The session invariant: a 10-by-10 grid whose tiles carry exactly the
    /// colors of the layout's areas, and a layout that partitions the board.
    pub open spec fn wf(self) -> bool {
        &&& self.grid.n == 10
        &&& self.grid.wf()
        &&& self.layout.is_partition(10)
        &&& self.layout.distinct_colors()
        &&& forall|i: int, c: usize|
            0 <= i < 10 && #[trigger] self.layout.area_has(i, c) ==> self.grid.data@[c as int].color
                == self.layout.areas@[i].color
    }

    /// Builds a fresh unmarked grid from a newly constructed layout, copying
    /// each area's color onto its tiles.
    #[verifier::loop_isolation(false)]
    pub fn new(n: usize, layout_type: LayoutType) -> (s: InGameState)
        requires
            n == 10,
        ensures
            s.wf(),
            s.marked is None,
            forall|c: int| 0 <= c < 100 ==> !s.grid.data@[c].set,
            s.layout.areas_distinct(),
            layout_type == LayoutType::Easy ==> s.layout.is_rows_layout(),
            layout_type == LayoutType::Complex ==> s.layout.is_template_layout(),
            layout_type == LayoutType::Generated ==> s.layout.seeds_solve(10)
                || s.layout.is_rows_layout(),
    {
        let mut grid = Grid::new(n as u8);
        let layout = match layout_type {
            LayoutType::Easy => easy_layout(),
            LayoutType::Complex => complex_layout(),
            LayoutType::Generated => generate_layout(),
        };

        let mut i: usize = 0;
        while i < layout.areas.len()
            invariant
                grid.n == 10,
                grid.wf(),
                forall|c: int| 0 <= c < 100 ==> !grid.data@[c].set,
                forall|i2: int, c: usize|
                    0 <= i2 < i && #[trigger] layout.area_has(i2, c) ==> grid.data@[c as int].color
                        == layout.areas@[i2].color,
            decreases layout.areas@.len() - i,
        {
            let mut j: usize = 0;
            while j < layout.areas[i].sections.len()
                invariant
                    grid.n == 10,
                    grid.wf(),
                    i < 10,
                    j <= layout.areas@[i as int].sections@.len(),
                    forall|c: int| 0 <= c < 100 ==> !grid.data@[c].set,
                    forall|i2: int, c: usize|
                        0 <= i2 < i && #[trigger] layout.area_has(i2, c) ==> grid.data@[
                            c as int
                        ].color == layout.areas@[i2].color,
                    forall|k: int|
                        0 <= k < j ==> grid.data@[layout.areas@[i as int].sections@[k] as int].color
                            == layout.areas@[i as int].color,
                decreases layout.areas@[i as int].sections@.len() - j,
            {
                let idx = layout.areas[i].sections[j];
                proof {
                    assert(layout.area_has(i as int, idx));
                }
                grid.set_tile(idx, Tile::new(false, layout.areas[i].get_color()));
                proof {
                    assert forall|i2: int, c: usize|
                        0 <= i2 < i && #[trigger] layout.area_has(i2, c) implies grid.data@[
                        c as int
                    ].color == layout.areas@[i2].color by {
                        if c == idx {
                            assert(layout.area_has(i as int, idx));
                        }
                    }
                    assert forall|k: int| 0 <= k <= j implies grid.data@[layout.areas@[
                        i as int
                    ].sections@[k] as int].color == layout.areas@[i as int].color by {
                        let ck = layout.areas@[i as int].sections@[k];
                        assert(layout.areas@[i as int].sections@[k] == ck);
                        assert(layout.area_has(i as int, ck));
                    }
                }
                j = j + 1;
            }
            proof {
                assert forall|c: usize| #[trigger] layout.area_has(i as int, c) implies grid.data@[
                    c as int
                ].color == layout.areas@[i as int].color by {
                    let k = choose|k: int|
                        0 <= k < layout.areas@[i as int].sections@.len() && layout.areas@[
                            i as int
                        ].sections@[k] == c;
                }
            }
            i = i + 1;
        }

        InGameState { grid, layout, marked: None }
    }

    pub fn get_grid(&self) -> (r: Grid)
        ensures
            r.data@ == self.grid.data@,
            r.n == self.grid.n,
    {
        self.grid.clone()
    }

    pub fn get_marked(&self) -> (r: Option<usize>)
        ensures
            r == self.marked,
    {
        self.marked
    }

    pub fn set_marked(&mut self, marked: Option<usize>)
        ensures
            final(self).marked == marked,
            final(self).grid == old(self).grid,
            final(self).layout == old(self).layout,
    {
        self.marked = marked;
    }

    pub fn get_layout(&self) -> (r: Layout)
        ensures
            r.areas@.len() == self.layout.areas@.len(),
            forall|i: int|
                0 <= i < self.layout.areas@.len() ==> (#[trigger] r.areas@[i]).sections@
                    == self.layout.areas@[i].sections@ && r.areas@[i].color
                    == self.layout.areas@[i].color,
    {
        self.layout.clone()
    }

    pub fn get_tile(&self, x: usize) -> (r: QueensResult<Tile>)
        ensures
            r is Ok <==> x < self.grid.data@.len(),
            r matches Ok(t) ==> t == self.grid.data@[x as int],
            r matches Err(e) ==> e == (QueensError::OutOfBounds { c: x }),
    {
        match self.grid.get_tile(x) {
            Ok(t) => Ok(t),
            Err(_) => Err(QueensError::OutOfBounds { c: x }),
        }
    }

    pub fn set_tile(&mut self, x: usize, tile: Tile)
        requires
            x < old(self).grid.data@.len(),
        ensures
            final(self).grid.data@ == old(self).grid.data@.update(x as int, tile),
            final(self).grid.n == old(self).grid.n,
            final(self).layout == old(self).layout,
            final(self).marked == old(self).marked,
    {
        self.grid.set_tile(x, tile);
    }

    /// Flips the marker on cell `c`, leaving every other cell untouched.
    pub fn flip_tile(&mut self, c: usize) -> (r: QueensResult<()>)
        ensures
            c < old(self).grid.data@.len() ==> r is Ok && final(self).grid.data@ == old(
                self,
            ).grid.data@.update(c as int, toggled(old(self).grid.data@[c as int])),
            c >= old(self).grid.data@.len() ==> (r matches Err(e) && e == (
            QueensError::OutOfBounds { c })) && final(self).grid.data@ == old(self).grid.data@,
            final(self).grid.n == old(self).grid.n,
            final(self).layout == old(self).layout,
            final(self).marked == old(self).marked,
    {
        match self.grid.get_tile(c) {
            Ok(tile) => {
                self.grid.set_tile(c, tile.on_click());
                Ok(())
            },
            Err(_) => Err(QueensError::OutOfBounds { c }),
        }
    }

    /// Walks the grid once in index order and collects every broken rule,
    /// then decides whether the board is solved. Fails only when a marked
    /// duplicate-color cell lies in no area of the layout.
    #[verifier::loop_isolation(false)]
    #[verifier::rlimit(60)]
    pub fn get_win_status(&self, n: usize) -> (r: QueensResult<(Vec<GameRuleBroken>, bool)>)
        requires
            self.grid.wf(),
            n == self.grid.n,
        ensures
            ({
                let st = check_fold(
                    self.grid.data@,
                    self.layout.areas@,
                    n as int,
                    self.grid.data@.len() as int,
                );
                match st.failed {
                    Some(c) => r matches Err(e) && e == (QueensError::AreaNotFound { c }),
                    None => (r matches Ok(p) && views_of(p.0@) == st.errors && p.1 == solved_spec(
                        st,
                        n as int,
                    )),
                }
            }),
    {
        let ghost data = self.grid.data@;
        let ghost areasg = self.layout.areas@;
        let ghost ni = n as int;

        let mut errors: Vec<GameRuleBroken> = Vec::new();
        let mut rows: Vec<usize> = Vec::new();
        let mut cols: Vec<usize> = Vec::new();
        let mut colors: Vec<u8> = Vec::new();

        assert(n * n <= 65025) by (nonlinear_arith)
            requires
                n <= 255,
        ;
        let size = self.grid.data.len();
        let mut index: usize = 0;
        while index < size
            invariant
                index <= size,
                check_fold(data, areasg, ni, index as int).failed is None,
                views_of(errors@) == check_fold(data, areasg, ni, index as int).errors,
                rows@ == check_fold(data, areasg, ni, index as int).rows,
                cols@ == check_fold(data, areasg, ni, index as int).cols,
                colors@ == check_fold(data, areasg, ni, index as int).colors,
            decreases size - index,
        {
            assert(n > 0) by (nonlinear_arith)
                requires
                    index < n * n,
            ;
            let ghost st = check_fold(data, areasg, ni, index as int);
            proof {
                assert(check_fold(data, areasg, ni, index as int + 1) == check_step(
                    st,
                    data,
                    areasg,
                    ni,
                    index as int,
                ));
            }
            let tile = self.grid.data[index];
            if tile.is_set() {
                let color = tile.get_raw_color();
                let (col, row) = match self.grid.split_coordinate(index) {
                    Ok(p) => p,
                    Err(_) => {
                        return Err(QueensError::OutOfBounds { c: index });
                    },
                };

                if contains_usize(&rows, row) {
                    errors.push(GameRuleBroken::Row { row });
                    proof {
                        lemma_views_push(errors@.drop_last(), GameRuleBroken::Row { row });
                        assert(errors@.drop_last().push(GameRuleBroken::Row { row }) =~= errors@);
                    }
                } else {
                    rows.push(row);
                }

                if contains_usize(&cols, col) {
                    errors.push(GameRuleBroken::Column { col });
                    proof {
                        lemma_views_push(errors@.drop_last(), GameRuleBroken::Column { col });
                        assert(errors@.drop_last().push(GameRuleBroken::Column { col })
                            =~= errors@);
                    }
                } else {
                    cols.push(col);
                }

                proof {
                    assert(index as int / ni < ni && index as int % ni < ni) by (nonlinear_arith)
                        requires
                            0 < ni,
                            index < ni * ni,
                    ;
                }
                if contains_u8(&colors, color) {
                    let merged = match self.grid.merge_coordinate(col, row) {
                        Ok(m) => m,
                        Err(_) => {
                            return Err(
                                QueensError::Invalid2DCoordinate { column: col, row, n },
                            );
                        },
                    };
                    proof {
                        lemma_fundamental_div_mod(index as int, ni);
                        assert(ni * (index as int / ni) == (index as int / ni) * ni)
                            by (nonlinear_arith);
                        assert(merged == index);
                    }
                    match self.layout.get_area(merged) {
                        Ok(area) => {
                            errors.push(GameRuleBroken::Area { area });
                            proof {
                                let e = errors@.last();
                                lemma_views_push(errors@.drop_last(), e);
                                assert(errors@.drop_last().push(e) =~= errors@);
                            }
                        },
                        Err(_) => {
                            proof {
                                assert(check_fold(data, areasg, ni, index as int + 1).failed
                                    == Some(index));
                                lemma_fold_frozen(
                                    data,
                                    areasg,
                                    ni,
                                    index as int + 1,
                                    size as int,
                                );
                            }
                            return Err(QueensError::AreaNotFound { c: merged });
                        },
                    }
                } else {
                    colors.push(color);
                }

                if index % n != n - 1 {
                    // not all the way to the right
                    let below_right = index + n + 1;
                    let diag = match self.grid.get_tile(below_right) {
                        Ok(t) => t.is_set(),
                        Err(_) => false,
                    };
                    if diag {
                        errors.push(GameRuleBroken::Diagonal { c1: index, c2: below_right });
                        proof {
                            let e = errors@.last();
                            lemma_views_push(errors@.drop_last(), e);
                            assert(errors@.drop_last().push(e) =~= errors@);
                        }
                    }
                }

                if index % n != 0 {
                    // not all the way to the left
                    let below_left = index + n - 1;
                    let diag = match self.grid.get_tile(below_left) {
                        Ok(t) => t.is_set(),
                        Err(_) => false,
                    };
                    if diag {
                        errors.push(GameRuleBroken::Diagonal { c1: index, c2: below_left });
                        proof {
                            let e = errors@.last();
                            lemma_views_push(errors@.drop_last(), e);
                            assert(errors@.drop_last().push(e) =~= errors@);
                        }
                    }
                }
            }
            index = index + 1;
        }

        let solved = rows.len() == n && cols.len() == n && colors.len() == n && errors.len()
            == 0;
        Ok((errors, solved))
    }
}

/// Which screen the game is on.
#[derive(Clone)]
pub enum GameState {
    MainMenu,
    InGame(InGameState),
    Won,
}

impl Default for GameState {
    fn default() -> (r: Self)
        ensures
            r is MainMenu,
    {
        GameState::MainMenu
    }
}

/// The whole application state: the chosen board size and layout strategy,
/// and the current screen.
#[derive(Clone)]
pub struct State {
    pub n: usize,
    pub layout_type: LayoutType,
    pub game_state: GameState,
}

impl State {
    pub fn get_game_state(&self) -> (r: &GameState)
        ensures
            r == &self.game_state,
    {
        &self.game_state
    }

    /// Starts a fresh session with the configured size and strategy.
    pub fn load_in_game(&mut self)
        requires
            old(self).n == 10,
        ensures
            final(self).n == old(self).n,
            final(self).layout_type == old(self).layout_type,
            final(self).game_state matches GameState::InGame(s) && s.wf() && s.marked is None
                && s.layout.areas_distinct() && (forall|c: int|
                0 <= c < 100 ==> !s.grid.data@[c].set) && (old(
                self,
            ).layout_type == LayoutType::Easy ==> s.layout.is_rows_layout()) && (old(
                self,
            ).layout_type == LayoutType::Complex ==> s.layout.is_template_layout()) && (old(
                self,
            ).layout_type == LayoutType::Generated ==> s.layout.seeds_solve(10)
                || s.layout.is_rows_layout()),
    {
        self.game_state = GameState::InGame(InGameState::new(self.n, self.layout_type));
    }

    pub fn set_game_won(&mut self)
        ensures
            final(self).game_state is Won,
            final(self).n == old(self).n,
            final(self).layout_type == old(self).layout_type,
    {
        self.game_state = GameState::Won;
    }

    pub fn get_layout_type(&self) -> (r: &LayoutType)
        ensures
            r == &self.layout_type,
    {
        &self.layout_type
    }

    pub fn set_layout_type(&mut self, layout_type: LayoutType)
        ensures
            final(self).layout_type == layout_type,
            final(self).n == old(self).n,
            final(self).game_state == old(self).game_state,
    {
        self.layout_type = layout_type;
    }

    pub fn set_n(&mut self, n: usize)
        ensures
            final(self).n == n,
            final(self).layout_type == old(self).layout_type,
            final(self).game_state == old(self).game_state,
    {
        self.n = n;
    }

    pub fn get_n(&self) -> (r: usize)
        ensures
            r == self.n,
    {
        self.n
    }

    pub fn in_game_mut(&mut self) -> (r: &mut InGameState)
        requires
            old(self).game_state is InGame,
        ensures
            *r == old(self).game_state->InGame_0,
            final(self).game_state == GameState::InGame(*final(r)),
            final(self).n == old(self).n,
            final(self).layout_type == old(self).layout_type,
    {
        match &mut self.game_state {
            GameState::InGame(s) => s,
            _ => vstd::pervasive::unreached(),
        }
    }

    pub fn in_game(&self) -> (r: &InGameState)
        requires
            self.game_state is InGame,
        ensures
            *r == self.game_state->InGame_0,
    {
        match &self.game_state {
            GameState::InGame(s) => s,
            _ => vstd::pervasive::unreached(),
        }
    }

    pub fn get_grid(&self) -> (r: Grid)
        requires
            self.game_state is InGame,
        ensures
            r.data@ == self.game_state->InGame_0.grid.data@,
            r.n == self.game_state->InGame_0.grid.n,
    {
        self.in_game().get_grid()
    }

    pub fn get_marked(&self) -> (r: Option<usize>)
        requires
            self.game_state is InGame,
        ensures
            r == self.game_state->InGame_0.marked,
    {
        self.in_game().get_marked()
    }

    pub fn set_marked(&mut self, marked: Option<usize>)
        requires
            old(self).game_state is InGame,
        ensures
            final(self).game_state matches GameState::InGame(s) && s.marked == marked && s.grid
                == old(self).game_state->InGame_0.grid && s.layout == old(
                self,
            ).game_state->InGame_0.layout,
            final(self).n == old(self).n,
            final(self).layout_type == old(self).layout_type,
    {
        self.in_game_mut().set_marked(marked)
    }

    pub fn get_layout(&self) -> (r: Layout)
        requires
            self.game_state is InGame,
        ensures
            r.areas@.len() == self.game_state->InGame_0.layout.areas@.len(),
            forall|i: int|
                0 <= i < r.areas@.len() ==> (#[trigger] r.areas@[i]).sections@ == self.game_state
                    ->InGame_0.layout.areas@[i].sections@ && r.areas@[i].color == self.game_state
                    ->InGame_0.layout.areas@[i].color,
    {
        self.in_game().get_layout()
    }

    pub fn get_tile(&self, x: usize) -> (r: QueensResult<Tile>)
        requires
            self.game_state is InGame,
        ensures
            r is Ok <==> x < self.game_state->InGame_0.grid.data@.len(),
            r matches Ok(t) ==> t == self.game_state->InGame_0.grid.data@[x as int],
            r matches Err(e) ==> e == (QueensError::OutOfBounds { c: x }),
    {
        self.in_game().get_tile(x)
    }

    pub fn set_tile(&mut self, x: usize, tile: Tile)
        requires
            old(self).game_state is InGame,
            x < old(self).game_state->InGame_0.grid.data@.len(),
        ensures
            final(self).game_state matches GameState::InGame(s) && s.grid.data@ == old(
                self,
            ).game_state->InGame_0.grid.data@.update(x as int, tile) && s.grid.n == old(
                self,
            ).game_state->InGame_0.grid.n && s.layout == old(self).game_state->InGame_0.layout
                && s.marked == old(self).game_state->InGame_0.marked,
            final(self).n == old(self).n,
            final(self).layout_type == old(self).layout_type,
    {
        self.in_game_mut().set_tile(x, tile)
    }

    /// Flips the marker on cell `c` of the running session.
    pub fn flip_tile(&mut self, c: usize) -> (r: QueensResult<()>)
        requires
            old(self).game_state is InGame,
        ensures
            ({
                let g0 = old(self).game_state->InGame_0;
                &&& final(self).game_state matches GameState::InGame(s) && s.layout == g0.layout
                    && s.marked == g0.marked && s.grid.n == g0.grid.n && (if c
                    < g0.grid.data@.len() {
                    r is Ok && s.grid.data@ == g0.grid.data@.update(
                        c as int,
                        toggled(g0.grid.data@[c as int]),
                    )
                } else {
                    (r matches Err(e) && e == (QueensError::OutOfBounds { c })) && s.grid.data@
                        == g0.grid.data@
                })
                &&& final(self).n == old(self).n
                &&& final(self).layout_type == old(self).layout_type
            }),
    {
        self.in_game_mut().flip_tile(c)
    }

    /// Get the list of broken rules and whether the game has been won.
    pub fn get_win_status(&self) -> (r: QueensResult<(Vec<GameRuleBroken>, bool)>)
        requires
            self.game_state is InGame,
            self.game_state->InGame_0.grid.wf(),
            self.n == self.game_state->InGame_0.grid.n,
        ensures
            ({
                let g0 = self.game_state->InGame_0;
                let st = check_fold(
                    g0.grid.data@,
                    g0.layout.areas@,
                    self.n as int,
                    g0.grid.data@.len() as int,
                );
                match st.failed {
                    Some(c) => r matches Err(e) && e == (QueensError::AreaNotFound { c }),
                    None => (r matches Ok(p) && views_of(p.0@) == st.errors && p.1 == solved_spec(
                        st,
                        self.n as int,
                    )),
                }
            }),
    {
        self.in_game().get_win_status(self.n)
    }
}

impl Default for State {
    /// A fresh application: board size 10, the generated strategy, main menu.
    fn default() -> (r: Self)
        ensures
            r.n == 10,
            r.layout_type == LayoutType::Generated,
            r.game_state is MainMenu,
    {
        Self { n: 10, layout_type: LayoutType::default(), game_state: GameState::default() }
    }
}

} // verus!
