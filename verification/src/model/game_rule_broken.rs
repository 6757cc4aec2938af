use vstd::prelude::*;

use crate::model::layout::Area;

verus! {

/// One broken constraint found by the rule checker: a duplicated row, column
/// or area, or two marked cells touching diagonally.
#[derive(Clone, Debug)]
pub enum GameRuleBroken {
    Row { row: usize },
    Column { col: usize },
    Area { area: Area },
    Diagonal { c1: usize, c2: usize },
}

/// The mathematical shape of one broken rule; the area variant keeps the
/// area's cells and color rather than the carrier vector.
pub enum RuleView {
    Row { row: usize },
    Column { col: usize },
    Area { members: Seq<usize>, color: u8 },
    Diagonal { c1: usize, c2: usize },
}

impl View for GameRuleBroken {
    type V = RuleView;

    open spec fn view(&self) -> RuleView {
        match self {
            GameRuleBroken::Row { row } => RuleView::Row { row: *row },
            GameRuleBroken::Column { col } => RuleView::Column { col: *col },
            GameRuleBroken::Area { area } => RuleView::Area {
                members: area.sections@,
                color: area.color,
            },
            GameRuleBroken::Diagonal { c1, c2 } => RuleView::Diagonal { c1: *c1, c2: *c2 },
        }
    }
}

/// The views of a list of broken rules, in order.
pub open spec fn views_of(s: Seq<GameRuleBroken>) -> Seq<RuleView> {
    s.map_values(|e: GameRuleBroken| e@)
}

/// Appending one broken rule appends its view.
pub proof fn lemma_views_push(s: Seq<GameRuleBroken>, e: GameRuleBroken)
    ensures
        views_of(s.push(e)) == views_of(s).push(e@),
{
    assert(views_of(s.push(e)) =~= views_of(s).push(e@));
}

} // verus!
