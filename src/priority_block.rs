use vstd::prelude::*;

use crate::coords::MAX_CELLS;

use crate::board::GameY;
use crate::coords::{
    cell_at, lemma_cell_at, lemma_cell_at_valid, lemma_index_bound, lemma_index_injective, lemma_tri_bound, neighbor_seq, lemma_neighbor_seq_valid,
    Coordinates, PlayerId,
};
use crate::strategy::{
    contact_points, is_top, lemma_free_list_exact, lemma_listed_is_free, pick_cell, top_scored,
    touches_other, valid_choice, YBot,
};

verus! {

/// What the empty cell `c` is worth to `me`: a point for each neighbouring
/// piece of its own, two for each of the other player, and three more when
/// `c` lies on a side of the board and borders a piece of the other player.
pub open spec fn cell_score(board: &GameY, c: Coordinates, me: PlayerId) -> int {
    contact_points(board, neighbor_seq(c), me) + if c.on_edge() && touches_other(
        board,
        neighbor_seq(c),
        me,
    ) {
        3int
    } else {
        0int
    }
}

/// Neither points nor contact come from cells that hold no piece.
proof fn lemma_no_contact(board: &GameY, s: Seq<Coordinates>, me: PlayerId)
    requires
        forall|k: int| 0 <= k < s.len() ==> board.owner_of(#[trigger] s[k]) is None,
    ensures
        contact_points(board, s, me) == 0,
        !touches_other(board, s, me),
    decreases s.len(),
{
    if s.len() > 0 {
        lemma_no_contact(board, s.drop_last(), me);
        assert(board.owner_of(s[s.len() - 1]) is None);
    }
}

/// On a board without pieces every cell scores zero, so every empty cell
/// ties for the best.
pub proof fn lemma_empty_board_scores_zero(board: &GameY, c: Coordinates, me: PlayerId)
    requires
        board.wf(),
        board.holds(c),
        forall|i: int| 0 <= i < board.num_cells() ==> board.is_free(i),
    ensures
        cell_score(board, c, me) == 0,
{
    let s = neighbor_seq(c);
    assert forall|k: int| 0 <= k < s.len() implies board.owner_of(#[trigger] s[k]) is None by {
        lemma_neighbor_seq_valid(c, board.size as nat, k);
        lemma_index_bound(s[k], board.size as nat);
        assert(board.is_free(s[k].index(board.size as nat) as int));
    }
    lemma_no_contact(board, s, me);
}

/// The cell of index `i` scores for the player to move as much as `c` does.
pub open spec fn scores_as(board: &GameY, c: Coordinates, i: u32) -> bool {
    cell_score(board, cell_at(i as nat, board.size as nat), board.turn) == cell_score(board, c, board.turn)
}

/// `cands` lists once each index of `pool` that scores as much as `c`, and
/// no other.
pub open spec fn lists_ties_in(board: &GameY, pool: Seq<u32>, c: Coordinates, cands: Seq<u32>) -> bool {
    &&& cands.no_duplicates()
    &&& forall|i: u32| #[trigger] cands.contains(i) <==> pool.contains(i) && scores_as(board, c, i)
}

/// `cands` lists once each empty cell that scores as much as `c`, and no
/// other.
pub open spec fn lists_ties(board: &GameY, c: Coordinates, cands: Seq<u32>) -> bool {
    &&& cands.no_duplicates()
    &&& forall|i: u32| #[trigger] cands.contains(i) <==> board.is_free(i as int) && scores_as(board, c, i)
}

/// On a board without pieces the draw list of the strategy holds every
/// empty cell, so each of them can be played.
pub proof fn lemma_empty_board_draws_every_cell(board: &GameY, c: Coordinates, cands: Seq<u32>, i: u32)
    requires
        board.wf(),
        board.holds(c),
        forall|k: int| 0 <= k < board.num_cells() ==> board.is_free(k),
        lists_ties(board, c, cands),
        i < board.num_cells(),
    ensures
        cands.contains(i),
{
    lemma_cell_at_valid(i as nat, board.size as nat);
    lemma_empty_board_scores_zero(board, c, board.turn);
    lemma_empty_board_scores_zero(board, cell_at(i as nat, board.size as nat), board.turn);
    assert(board.is_free(i as int));
}

/// A strategy that blocks while it builds: it plays the empty cell of highest
/// score, drawn uniformly among those that share it.
pub struct PriorityBlockBot;

impl PriorityBlockBot {
    pub fn name(&self) -> (r: &'static str)
        ensures
            r@ == "priority_block_bot"@,
    {
        "priority_block_bot"
    }

    pub fn choose_move(&self, board: &GameY) -> (r: Option<Coordinates>)
        requires
            board.wf(),
        ensures
            valid_choice(board, r),
            r matches Some(c) ==> forall|d: Coordinates|
                board.free_at(d) ==> cell_score(board, d, board.turn) <= cell_score(
                    board,
                    c,
                    board.turn,
                ),
            r matches Some(c) ==> exists|cands: Seq<u32>|
                #[trigger] lists_ties(board, c, cands) && cands.contains(c.index(board.size as nat) as u32),
    {
        let available_cells = board.available_cells();
        if available_cells.len() == 0 {
            assert(!board.has_free_cell());
            return None;
        }
        assert(board.is_free(available_cells@[0] as int));
        proof {
            lemma_tri_bound(board.size as nat);
        }
        let r = get_better_cell(board, &available_cells);
        proof {
            if let Some(c) = r {
                lemma_free_list_exact(board, available_cells@);
                let cands = choose|cands: Seq<u32>|
                    #[trigger] lists_ties_in(board, available_cells@, c, cands) && cands.contains(
                        c.index(board.size as nat) as u32,
                    );
                assert(lists_ties(board, c, cands));
                lemma_listed_is_free(board, available_cells@, c);
                assert forall|d: Coordinates| board.free_at(d) implies available_cells@.contains(
                    d.index(board.size as nat) as u32,
                ) by {
                    lemma_index_bound(d, board.size as nat);
                    assert(board.is_free(d.index(board.size as nat) as int));
                }
            }
        }
        r
    }
}

impl YBot for PriorityBlockBot {
    fn name(&self) -> &str {
        PriorityBlockBot::name(self)
    }

    fn choose_move(&self, board: &GameY) -> (r: Option<Coordinates>) {
        PriorityBlockBot::choose_move(self, board)
    }
}

/// The score of `coords` for `me`, as `cell_score` states it.
pub fn score_cell(board: &GameY, coords: &Coordinates, me: PlayerId) -> (r: i64)
    requires
        board.wf(),
        board.holds(*coords),
    ensures
        r == cell_score(board, *coords, me),
        0 <= r <= 15,
{
    let neighbors = board.get_neighbors(coords);
    let mut points: i64 = 0;
    let mut touches_enemy = false;
    let mut j: usize = 0;
    while j < neighbors.len()
        invariant
            board.wf(),
            neighbors@ == neighbor_seq(*coords),
            neighbors@.len() <= 6,
            forall|k: int| 0 <= k < neighbors@.len() ==> board.holds(#[trigger] neighbors@[k]),
            j <= neighbors@.len(),
            points == contact_points(board, neighbors@.take(j as int), me),
            0 <= points <= 2 * j,
            touches_enemy == touches_other(board, neighbors@.take(j as int), me),
        decreases neighbors@.len() - j,
    {
        let ghost before = neighbors@.take(j as int);
        let ghost after = neighbors@.take(j + 1);
        assert(after.drop_last() =~= before);
        match board.player_at(&neighbors[j]) {
            None => {},
            Some(q) => {
                if q == me {
                    points = points + 1;
                } else {
                    points = points + 2;
                    touches_enemy = true;
                }
            },
        }
        proof {
            assert(after[j as int] == neighbors@[j as int]);
            if touches_other(board, after, me) && !touches_other(board, before, me) {
                let k = choose|k: int|
                    0 <= k < after.len() && #[trigger] board.owner_of(after[k]) is Some
                        && board.owner_of(after[k]) != Some(me);
                if k < j {
                    assert(before[k] == after[k]);
                }
            }
            if touches_other(board, before, me) {
                let k = choose|k: int|
                    0 <= k < before.len() && #[trigger] board.owner_of(before[k]) is Some
                        && board.owner_of(before[k]) != Some(me);
                assert(after[k] == before[k]);
            }
        }
        j = j + 1;
    }
    assert(neighbors@.take(j as int) =~= neighbors@);
    let is_edge = coords.x == 0 || coords.y == 0 || coords.z == 0;
    if is_edge && touches_enemy {
        points = points + 3;
    }
    points
}

/// The cell of highest score for the player to move among `available_cells`,
/// drawn uniformly among those that share it; `None` when there is no cell
/// to pick.
#[verifier::rlimit(80)]
#[verifier::spinoff_prover]
pub fn get_better_cell(board: &GameY, available_cells: &Vec<u32>) -> (r: Option<Coordinates>)
    requires
        board.wf(),
        forall|k: int| 0 <= k < available_cells@.len() ==> available_cells@[k] < board.num_cells(),
        available_cells@.no_duplicates(),
    ensures
        r is None <==> available_cells@.len() == 0,
        r matches Some(c) ==> exists|cands: Seq<u32>|
            #[trigger] lists_ties_in(board, available_cells@, c, cands) && cands.contains(
                c.index(board.size as nat) as u32,
            ),
        r matches Some(c) ==> board.holds(c) && available_cells@.contains(
            c.index(board.size as nat) as u32,
        ),
        r matches Some(c) ==> forall|d: Coordinates|
            board.holds(d) && available_cells@.contains(d.index(board.size as nat) as u32)
                ==> cell_score(board, d, board.turn) <= cell_score(board, c, board.turn),
{
    let bot_id = board.turn;
    let ghost size = board.size as nat;
    if available_cells.len() == 0 {
        return None;
    }
    proof {
        lemma_tri_bound(size);
    }
    let mut scores: Vec<i64> = Vec::new();
    let mut j: usize = 0;
    while j < available_cells.len()
        invariant
            board.wf(),
            size == board.size,
            bot_id == board.turn,
            forall|k: int| 0 <= k < available_cells@.len() ==> available_cells@[k] < board.num_cells(),
            j <= available_cells@.len(),
            scores@.len() == j,
            forall|k: int|
                0 <= k < j ==> cell_at(#[trigger] available_cells@[k] as nat, size).valid_for(size)
                    && cell_at(available_cells@[k] as nat, size).index(size) == available_cells@[k]
                    && scores@[k] == cell_score(board, cell_at(available_cells@[k] as nat, size), bot_id),
        decreases available_cells@.len() - j,
    {
        let coords = Coordinates::from_index(available_cells[j], board.size);
        let actual_score = score_cell(board, &coords, bot_id);
        proof {
            lemma_cell_at(coords, size);
        }
        scores.push(actual_score);
        j = j + 1;
    }
    let best_cells = top_scored(available_cells, &scores);
    proof {
        assert forall|m: int| 0 <= m < best_cells@.len() implies best_cells@[m] < board.num_cells() by {
            assert(available_cells@.contains(best_cells@[m]));
        }
    }
    let r = pick_cell(board, &best_cells);
    proof {
        if let Some(c) = r {
            lemma_index_bound(c, size);
            lemma_cell_at(c, size);
            let i = c.index(size) as u32;
            assert(best_cells@.contains(i));
            let mb = choose|m: int| 0 <= m < best_cells@.len() && best_cells@[m] == i;
            assert(available_cells@.contains(best_cells@[mb]));
            let kc = choose|k: int| 0 <= k < available_cells@.len() && available_cells@[k] == i;
            assert(is_top(scores@, kc));
            assert(scores@[kc] == cell_score(board, c, bot_id));
            assert forall|d: Coordinates|
                board.holds(d) && available_cells@.contains(d.index(size) as u32) implies cell_score(
                board,
                d,
                bot_id,
            ) <= cell_score(board, c, bot_id) by {
                lemma_index_bound(d, size);
                lemma_cell_at(d, size);
                let k = choose|k: int|
                    0 <= k < available_cells@.len() && available_cells@[k] == d.index(size) as u32;
                assert(scores@[k] <= scores@[kc]);
            }
            assert forall|x: u32|
                #[trigger] best_cells@.contains(x) <==> available_cells@.contains(x) && scores_as(
                    board,
                    c,
                    x,
                ) by {
                if available_cells@.contains(x) {
                    let k = choose|k: int| 0 <= k < available_cells@.len() && available_cells@[k] == x;
                    if is_top(scores@, k) {
                        assert(scores@[k] <= scores@[kc] && scores@[kc] <= scores@[k]);
                    }
                    if scores@[k] == scores@[kc] {
                        assert(is_top(scores@, k));
                    }
                }
                if best_cells@.contains(x) {
                    let m = choose|m: int| 0 <= m < best_cells@.len() && best_cells@[m] == x;
                    assert(available_cells@.contains(best_cells@[m]));
                }
            }
            assert(lists_ties_in(board, available_cells@, c, best_cells@));
        }
    }
    r
}

} // verus!
