use vstd::prelude::*;

use crate::coords::MAX_CELLS;

use crate::board::GameY;
use crate::coords::{cell_at, lemma_cell_at_valid, lemma_index_bound, lemma_index_injective, lemma_tri_bound, neighbor_seq, Coordinates, PlayerId};
use crate::strategy::{
    borders_any, borders_player, count_owned, free_neighbors, lemma_borders_listed, lemma_free_list_exact,
    lemma_listed_is_free, pick_cell, player_has_frontier, valid_choice, YBot,
};

verus! {

/// An empty cell next to two or more pieces of `p`.
pub open spec fn is_junction(board: &GameY, p: PlayerId, c: Coordinates) -> bool {
    board.free_at(c) && count_owned(board, neighbor_seq(c), p) >= 2
}

/// Some empty cell of the board is a junction for `p`.
pub open spec fn has_junction(board: &GameY, p: PlayerId) -> bool {
    exists|c: Coordinates| #[trigger] is_junction(board, p, c)
}

/// The cells Triangle Attack may play for the player to move: junctions when
/// there are any, else empty cells next to its pieces when there are any,
/// else any empty cell.
pub open spec fn attack_move(board: &GameY, i: u32) -> bool {
    let p = board.turn;
    &&& board.is_free(i as int)
    &&& has_junction(board, p) ==> is_junction(board, p, cell_at(i as nat, board.size as nat))
    &&& !has_junction(board, p) && player_has_frontier(board, p) ==> borders_player(board, p, i as int)
}

/// `cands` lists each index allowed by `attack_move` once, and no other.
pub open spec fn lists_attack_moves(board: &GameY, cands: Seq<u32>) -> bool {
    &&& cands.no_duplicates()
    &&& forall|i: u32| #[trigger] cands.contains(i) <==> attack_move(board, i)
}

/// A strategy that joins its own pieces: it plays a junction when there is
/// one, else an empty cell next to one of its pieces, else any empty cell,
/// each drawn uniformly.
pub struct TriangleAttackBot;

impl TriangleAttackBot {
    pub fn name(&self) -> (r: &'static str)
        ensures
            r@ == "triangle_attack_bot"@,
    {
        "triangle_attack_bot"
    }

    pub fn choose_move(&self, board: &GameY) -> (r: Option<Coordinates>)
        requires
            board.wf(),
        ensures
            valid_choice(board, r),
            r matches Some(c) ==> (has_junction(board, board.turn) ==> is_junction(
                board,
                board.turn,
                c,
            )),
            r matches Some(c) ==> (!has_junction(board, board.turn) && player_has_frontier(
                board,
                board.turn,
            ) ==> borders_player(board, board.turn, c.index(board.size as nat) as int)),
            r matches Some(c) ==> exists|cands: Seq<u32>|
                #[trigger] lists_attack_moves(board, cands) && cands.contains(
                    c.index(board.size as nat) as u32,
                ),
    {
        let available_cells = board.available_cells();
        if available_cells.len() == 0 {
            assert(!board.has_free_cell());
            return None;
        }
        assert(board.is_free(available_cells@[0] as int));
        let actual_player = board.turn;
        let board_size = board.size;
        proof {
            lemma_tri_bound(board_size as nat);
        }
        let mut pivots: Vec<u32> = Vec::new();
        let mut j: usize = 0;
        while j < available_cells.len()
            invariant
                board.wf(),
                board_size == board.size,
                board.num_cells() <= MAX_CELLS,
                j <= available_cells@.len(),
                forall|k: int|
                    0 <= k < available_cells@.len() ==> board.is_free(
                        available_cells@[k] as int,
                    ),
                forall|k: int|
                    0 <= k < pivots@.len() ==> available_cells@.contains(#[trigger] pivots@[k]),
                forall|a: int, b: int| 0 <= a < b < available_cells@.len() ==> available_cells@[a] < available_cells@[b],
                forall|a: int, b: int| 0 <= a < b < pivots@.len() ==> pivots@[a] < pivots@[b],
                forall|m: int|
                    0 <= m < pivots@.len() && j < available_cells@.len() ==> #[trigger] pivots@[m]
                        < available_cells@[j as int],
                forall|c: Coordinates|
                    board.holds(c) && pivots@.contains(c.index(board.size as nat) as u32)
                        ==> is_junction(board, actual_player, c),
                forall|c: Coordinates, k: int|
                    #![trigger available_cells@[k], is_junction(board, actual_player, c)]
                    0 <= k < j && board.holds(c) && available_cells@[k] == c.index(
                        board.size as nat,
                    ) && is_junction(board, actual_player, c) ==> pivots@.contains(
                        available_cells@[k],
                    ),
            decreases available_cells@.len() - j,
        {
            let cell_index = available_cells[j];
            let coords = Coordinates::from_index(cell_index, board_size);
            let my_neighbors_count = count_my_neighbors(board, &coords, actual_player);
            proof {
                assert(board.is_free(available_cells@[j as int] as int));
                assert forall|c: Coordinates|
                    board.holds(c) && c.index(board.size as nat) == cell_index implies c
                    == coords by {
                    lemma_index_injective(c, coords, board.size as nat);
                }
            }
            if my_neighbors_count >= 2 {
                let ghost prev = pivots@;
                pivots.push(cell_index);
                proof {
                    assert(pivots@[pivots@.len() - 1] == cell_index);
                    assert forall|a: int, b: int| 0 <= a < b < pivots@.len() implies pivots@[a] < pivots@[b] by {
                        if b == pivots@.len() - 1 {
                            assert(prev[a] == pivots@[a]);
                        } else {
                            assert(prev[a] == pivots@[a] && prev[b] == pivots@[b]);
                        }
                    }
                    assert forall|m: int|
                        0 <= m < pivots@.len() && j + 1 < available_cells@.len() implies #[trigger] pivots@[m]
                            < available_cells@[j + 1] by {
                        if m < prev.len() {
                            assert(prev[m] == pivots@[m]);
                        }
                    }
                    assert forall|c: Coordinates|
                        board.holds(c) && pivots@.contains(c.index(board.size as nat) as u32)
                            implies is_junction(board, actual_player, c) by {
                        lemma_index_bound(c, board.size as nat);
                        let k = choose|k: int|
                            0 <= k < pivots@.len() && pivots@[k] == c.index(board.size as nat) as u32;
                        if k < prev.len() {
                            assert(prev[k] == pivots@[k]);
                        }
                    }
                    assert forall|c: Coordinates, k: int|
                    #![trigger available_cells@[k], is_junction(board, actual_player, c)]
                        0 <= k < j + 1 && board.holds(c) && available_cells@[k]
                            == c.index(board.size as nat) && is_junction(board, actual_player, c)
                            implies pivots@.contains(available_cells@[k]) by {
                        if k < j {
                            let m = choose|m: int| 0 <= m < prev.len() && prev[m] == available_cells@[k];
                            assert(pivots@[m] == prev[m]);
                        }
                    }
                }
            } else {
                proof {
                    assert forall|c: Coordinates, k: int|
                    #![trigger available_cells@[k], is_junction(board, actual_player, c)]
                        0 <= k < j + 1 && board.holds(c) && available_cells@[k]
                            == c.index(board.size as nat) && is_junction(board, actual_player, c)
                            implies pivots@.contains(available_cells@[k]) by {}
                }
            }
            j = j + 1;
        }
        proof {
            assert forall|a: int, b: int| 0 <= a < pivots@.len() && 0 <= b < pivots@.len() && a != b
                implies pivots@[a] != pivots@[b] by {
                if a < b {
                    assert(pivots@[a] < pivots@[b]);
                } else {
                    assert(pivots@[b] < pivots@[a]);
                }
            }
            assert(pivots@.no_duplicates());
            lemma_free_list_exact(board, available_cells@);
        }
        if pivots.len() > 0 {
            let r = pick_cell(board, &pivots);
            proof {
                if let Some(c) = r {
                    let k0 = choose|k: int| 0 <= k < pivots@.len() && pivots@[k] == c.index(board.size as nat) as u32;
                    assert(pivots@.contains(pivots@[k0]));
                    assert(has_junction(board, actual_player)) by {
                        lemma_index_bound(c, board.size as nat);
                        assert(is_junction(board, actual_player, c));
                    }
                    assert forall|i: u32| #[trigger] pivots@.contains(i) implies attack_move(board, i) by {
                        let m = choose|m: int| 0 <= m < pivots@.len() && pivots@[m] == i;
                        assert(available_cells@.contains(pivots@[m]));
                        assert(board.is_free(i as int));
                        lemma_cell_at_valid(i as nat, board.size as nat);
                        let d = cell_at(i as nat, board.size as nat);
                        assert(board.holds(d));
                        assert(d.index(board.size as nat) as u32 == i);
                        assert(pivots@.contains(d.index(board.size as nat) as u32));
                        assert(is_junction(board, actual_player, d));
                    }
                    assert forall|i: u32| attack_move(board, i) implies #[trigger] pivots@.contains(i) by {
                        assert(available_cells@.contains(i));
                        let k = choose|k: int| 0 <= k < available_cells@.len() && available_cells@[k] == i;
                        lemma_cell_at_valid(i as nat, board.size as nat);
                        let d = cell_at(i as nat, board.size as nat);
                        assert(board.holds(d));
                        assert(is_junction(board, actual_player, d));
                        assert(available_cells@[k] == d.index(board.size as nat));
                        assert(pivots@.contains(available_cells@[k]));
                    }
                    assert(lists_attack_moves(board, pivots@));
                    lemma_listed_is_free(board, available_cells@, c);
                }
            }
            return r;
        }
        proof {
            assert forall|c: Coordinates| !is_junction(board, actual_player, c) by {
                if is_junction(board, actual_player, c) {
                    lemma_index_bound(c, board.size as nat);
                    let i = c.index(board.size as nat) as int;
                    assert(board.is_free(i));
                    let k = choose|k: int|
                        0 <= k < available_cells@.len() && available_cells@[k] == i as u32;
                    assert(pivots@.contains(available_cells@[k]));
                }
            }
        }
        let my_cells = board.cells_for_player(actual_player);
        let expansion_moves = free_neighbors(&my_cells, board, &available_cells);
        proof {
            assert forall|i: int| #[trigger] borders_player(board, actual_player, i) implies borders_any(
                board,
                my_cells@,
                i,
            ) by {
                lemma_borders_listed(board, actual_player, my_cells@, i);
            }
        }
        if expansion_moves.len() > 0 {
            let r = pick_cell(board, &expansion_moves);
            proof {
                if let Some(c) = r {
                    let i = c.index(board.size as nat) as int;
                    lemma_index_bound(c, board.size as nat);
                    lemma_borders_listed(board, actual_player, my_cells@, i);
                    let k = choose|k: int|
                        0 <= k < expansion_moves@.len() && expansion_moves@[k] == i as u32;
                    assert(available_cells@.contains(expansion_moves@[k]));
                    lemma_listed_is_free(board, available_cells@, c);
                    assert forall|i: u32| #[trigger] expansion_moves@.contains(i) <==> attack_move(board, i) by {
                        lemma_borders_listed(board, actual_player, my_cells@, i as int);
                        if expansion_moves@.contains(i) {
                            let m = choose|m: int| 0 <= m < expansion_moves@.len() && expansion_moves@[m] == i;
                            assert(available_cells@.contains(expansion_moves@[m]));
                        }
                        if attack_move(board, i) {
                            assert(available_cells@.contains(i));
                        }
                    }
                    assert(lists_attack_moves(board, expansion_moves@));
                }
            }
            return r;
        }
        assert(!player_has_frontier(board, actual_player));
        let r = pick_cell(board, &available_cells);
        proof {
            if let Some(c) = r {
                lemma_listed_is_free(board, available_cells@, c);
                assert(lists_attack_moves(board, available_cells@));
            }
        }
        r
    }
}

impl YBot for TriangleAttackBot {
    fn name(&self) -> &str {
        TriangleAttackBot::name(self)
    }

    fn choose_move(&self, board: &GameY) -> (r: Option<Coordinates>) {
        TriangleAttackBot::choose_move(self, board)
    }
}

/// How many cells next to `coords` hold a piece of `my_id`.
pub fn count_my_neighbors(board: &GameY, coords: &Coordinates, my_id: PlayerId) -> (r: usize)
    requires
        board.wf(),
        board.holds(*coords),
    ensures
        r == count_owned(board, neighbor_seq(*coords), my_id),
{
    let mut count: usize = 0;
    let neighbors = board.get_neighbors(coords);
    let mut j: usize = 0;
    while j < neighbors.len()
        invariant
            board.wf(),
            neighbors@ == neighbor_seq(*coords),
            neighbors@.len() <= 6,
            forall|k: int| 0 <= k < neighbors@.len() ==> board.holds(#[trigger] neighbors@[k]),
            j <= neighbors@.len(),
            count == count_owned(board, neighbors@.take(j as int), my_id),
            count <= j,
        decreases neighbors@.len() - j,
    {
        assert(neighbors@.take(j + 1).drop_last() =~= neighbors@.take(j as int));
        if board.player_at(&neighbors[j]) == Some(my_id) {
            count = count + 1;
        }
        j = j + 1;
    }
    assert(neighbors@.take(j as int) =~= neighbors@);
    count
}

} // verus!
