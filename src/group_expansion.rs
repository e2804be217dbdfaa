use vstd::prelude::*;

use crate::board::GameY;
use crate::coords::{lemma_tri_bound, Coordinates};
use crate::strategy::{
    borders_any, borders_player, free_neighbors, lemma_borders_listed, lists_near_or_any,
    pick_near_or_any, player_has_frontier, valid_choice, YBot,
};

verus! {

/// A strategy that grows its own group: it plays an empty cell next to one
/// of its pieces, drawn uniformly, or any empty cell when there is none.
pub struct GroupExpansionBot;

impl GroupExpansionBot {
    pub fn name(&self) -> (r: &'static str)
        ensures
            r@ == "group_expansion_bot"@,
    {
        "group_expansion_bot"
    }

    pub fn choose_move(&self, board: &GameY) -> (r: Option<Coordinates>)
        requires
            board.wf(),
        ensures
            valid_choice(board, r),
            r matches Some(c) ==> (player_has_frontier(board, board.turn) ==> borders_player(
                board,
                board.turn,
                c.index(board.size as nat) as int,
            )),
            r matches Some(c) ==> exists|cands: Seq<u32>|
                #[trigger] lists_near_or_any(board, board.turn, cands) && cands.contains(c.index(board.size as nat) as u32),
    {
        let available_cells = board.available_cells();
        if available_cells.len() == 0 {
            assert(!board.has_free_cell());
            return None;
        }
        assert(board.is_free(available_cells@[0] as int));
        let actual_player = board.turn;
        let bot_cells = board.cells_for_player(actual_player);
        let candidates = obtein_all_available_neighbors(bot_cells, board, &available_cells);
        proof {
            lemma_tri_bound(board.size as nat);
            assert forall|i: u32|
                #[trigger] candidates@.contains(i) <==> available_cells@.contains(i) && borders_player(
                    board,
                    actual_player,
                    i as int,
                ) by {
                lemma_borders_listed(board, actual_player, bot_cells@, i as int);
                if candidates@.contains(i) {
                    let m = choose|m: int| 0 <= m < candidates@.len() && candidates@[m] == i;
                }
            }
        }
        let r = pick_near_or_any(board, actual_player, &available_cells, &candidates);
        r
    }
}

impl YBot for GroupExpansionBot {
    fn name(&self) -> &str {
        GroupExpansionBot::name(self)
    }

    fn choose_move(&self, board: &GameY) -> (r: Option<Coordinates>) {
        GroupExpansionBot::choose_move(self, board)
    }
}

/// The empty cells among `available_cells` that border one of `bot_cells`,
/// each listed once.
pub fn obtein_all_available_neighbors(
    bot_cells: Vec<Coordinates>,
    board: &GameY,
    available_cells: &Vec<u32>,
) -> (r: Vec<u32>)
    requires
        board.wf(),
        forall|k: int| 0 <= k < bot_cells@.len() ==> board.holds(#[trigger] bot_cells@[k]),
        forall|k: int| 0 <= k < available_cells@.len() ==> available_cells@[k] < board.num_cells(),
    ensures
        r@.no_duplicates(),
        forall|k: int|
            0 <= k < r@.len() ==> available_cells@.contains(#[trigger] r@[k]) && borders_any(
                board,
                bot_cells@,
                r@[k] as int,
            ),
        forall|i: int|
            available_cells@.contains(i as u32) && borders_any(board, bot_cells@, i)
                ==> r@.contains(i as u32),
{
    free_neighbors(&bot_cells, board, available_cells)
}

} // verus!
