use vstd::prelude::*;

use crate::board::GameY;
use crate::coords::{lemma_tri_bound, Coordinates};
use crate::strategy::{
    borders_any, borders_player, free_neighbors, lemma_borders_listed, lists_near_or_any,
    pick_near_or_any, player_has_frontier, valid_choice, YBot,
};

verus! {

/// A strategy that obstructs the other player: it plays an empty cell next
/// to one of the opponent's pieces, drawn uniformly, or any empty cell when
/// there is none.
pub struct SimpleBlockerBot;

impl SimpleBlockerBot {
    pub fn name(&self) -> (r: &'static str)
        ensures
            r@ == "simple_blocker_bot"@,
    {
        "simple_blocker_bot"
    }

    pub fn choose_move(&self, board: &GameY) -> (r: Option<Coordinates>)
        requires
            board.wf(),
        ensures
            valid_choice(board, r),
            r matches Some(c) ==> (player_has_frontier(board, board.turn.spec_other())
                ==> borders_player(
                board,
                board.turn.spec_other(),
                c.index(board.size as nat) as int,
            )),
            r matches Some(c) ==> exists|cands: Seq<u32>|
                #[trigger] lists_near_or_any(board, board.turn.spec_other(), cands) && cands.contains(c.index(board.size as nat) as u32),
    {
        let available_cells = board.available_cells();
        if available_cells.len() == 0 {
            assert(!board.has_free_cell());
            return None;
        }
        assert(board.is_free(available_cells@[0] as int));
        let my_id = board.turn;
        let enemy_id = my_id.other();
        let enemy_cells = board.cells_for_player(enemy_id);
        let candidates = obtain_enemy_neighbors(enemy_cells, board, &available_cells);
        proof {
            lemma_tri_bound(board.size as nat);
            assert forall|i: u32|
                #[trigger] candidates@.contains(i) <==> available_cells@.contains(i) && borders_player(
                    board,
                    enemy_id,
                    i as int,
                ) by {
                lemma_borders_listed(board, enemy_id, enemy_cells@, i as int);
                if candidates@.contains(i) {
                    let m = choose|m: int| 0 <= m < candidates@.len() && candidates@[m] == i;
                }
            }
        }
        let r = pick_near_or_any(board, enemy_id, &available_cells, &candidates);
        r
    }
}

impl YBot for SimpleBlockerBot {
    fn name(&self) -> &str {
        SimpleBlockerBot::name(self)
    }

    fn choose_move(&self, board: &GameY) -> (r: Option<Coordinates>) {
        SimpleBlockerBot::choose_move(self, board)
    }
}

/// The empty cells among `available_cells` that border one of `enemy_cells`,
/// each listed once.
pub fn obtain_enemy_neighbors(
    enemy_cells: Vec<Coordinates>,
    board: &GameY,
    available_cells: &Vec<u32>,
) -> (r: Vec<u32>)
    requires
        board.wf(),
        forall|k: int| 0 <= k < enemy_cells@.len() ==> board.holds(#[trigger] enemy_cells@[k]),
        forall|k: int| 0 <= k < available_cells@.len() ==> available_cells@[k] < board.num_cells(),
    ensures
        r@.no_duplicates(),
        forall|k: int|
            0 <= k < r@.len() ==> available_cells@.contains(#[trigger] r@[k]) && borders_any(
                board,
                enemy_cells@,
                r@[k] as int,
            ),
        forall|i: int|
            available_cells@.contains(i as u32) && borders_any(board, enemy_cells@, i)
                ==> r@.contains(i as u32),
{
    free_neighbors(&enemy_cells, board, available_cells)
}

} // verus!
