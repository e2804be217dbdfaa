use vstd::prelude::*;

use crate::coords::MAX_CELLS;

use crate::board::{after_placement, placement_error, BoardState, GameStatus, GameY, Movement};
use crate::coords::{
    cell_at, cell_count, lemma_cell_at, lemma_cell_at_valid, lemma_index_bound, lemma_tri_bound, Coordinates, PlayerId,
};
use crate::random::shuffle_in_place;
use crate::strategy::{
    is_top, lemma_free_list_exact, lemma_listed_is_free, pick_cell, top_scored, valid_choice, YBot,
};

verus! {

/// Playouts run for each candidate cell.
pub const SIMULATIONS: u32 = 100;

/// One step of a continuation: the player to move takes the cell of index
/// `i`, unless the game is over or that cell cannot be taken.
pub open spec fn continue_with(s: BoardState, i: u32) -> BoardState {
    if s.status is Finished || i >= cell_count(s.size) || s.cells[i as int] is Some {
        s
    } else {
        after_placement(s, s.turn, cell_at(i as nat, s.size))
    }
}

/// The state reached from `s` by taking the cells of `order` in turn.
pub open spec fn playout(s: BoardState, order: Seq<u32>) -> BoardState
    decreases order.len(),
{
    if order.len() == 0 {
        s
    } else {
        playout(continue_with(s, order[0]), order.drop_first())
    }
}

/// The state after `me` opens on `c`, or `board` itself when that
/// placement is refused.
pub open spec fn opening(board: GameY, me: PlayerId, c: Coordinates) -> BoardState {
    let mv = Movement::Placement { player: me, coords: c };
    if placement_error(board, mv) is Some {
        board.state()
    } else {
        after_placement(board.state(), me, c)
    }
}

/// `order` holds exactly the indices of the empty cells of `s`.
pub open spec fn lists_free(s: BoardState, order: Seq<u32>) -> bool {
    forall|i: u32|
        #![trigger order.contains(i)]
        order.contains(i) <==> (i < s.cells.len() && s.cells[i as int] is None)
}

/// How many of `orders` end in a win for `me` once `me` has opened on `c`.
pub open spec fn wins_over(board: GameY, me: PlayerId, c: Coordinates, orders: Seq<Seq<u32>>) -> int
    decreases orders.len(),
{
    if orders.len() == 0 {
        0
    } else {
        wins_over(board, me, c, orders.drop_last()) + if playout(
            opening(board, me, c),
            orders.last(),
        ).status == (GameStatus::Finished { winner: me }) {
            1int
        } else {
            0int
        }
    }
}

/// `draws` holds, for each empty cell of `board`, as many orders as there are
/// playouts, each listing exactly the empty cells left after the player to
/// move opens there.
pub open spec fn fair_draws(board: GameY, draws: Map<Coordinates, Seq<Seq<u32>>>) -> bool {
    forall|d: Coordinates|
        #[trigger] board.free_at(d) ==> draws.contains_key(d) && draws[d].len() == SIMULATIONS
            && forall|m: int|
            0 <= m < draws[d].len() ==> lists_free(opening(board, board.turn, d), #[trigger] draws[d][m])
}

/// `cands` lists once each empty cell that won as often as `c` over its
/// draws, and no other.
pub open spec fn lists_most_wins(
    board: &GameY,
    draws: Map<Coordinates, Seq<Seq<u32>>>,
    c: Coordinates,
    cands: Seq<u32>,
) -> bool {
    &&& cands.no_duplicates()
    &&& forall|i: u32|
        #[trigger] cands.contains(i) <==> board.is_free(i as int) && {
            let d = cell_at(i as nat, board.size as nat);
            wins_over(*board, board.turn, d, draws[d]) == wins_over(*board, board.turn, c, draws[c])
        }
}

/// A finished game stays as it is whatever comes after.
pub proof fn lemma_playout_finished(s: BoardState, order: Seq<u32>)
    requires
        s.status is Finished,
    ensures
        playout(s, order) == s,
    decreases order.len(),
{
    if order.len() > 0 {
        lemma_playout_finished(s, order.drop_first());
    }
}

/// A strategy that estimates by random playouts how often each empty cell
/// wins, and plays one of the cells that won most often.
pub struct MonteCarloBot;

impl MonteCarloBot {
    pub fn name(&self) -> (r: &'static str)
        ensures
            r@ == "monte_carlo_bot"@,
    {
        "monte_carlo_bot"
    }

    #[verifier::rlimit(80)]
    #[verifier::spinoff_prover]
    pub fn choose_move(&self, board: &GameY) -> (r: Option<Coordinates>)
        requires
            board.wf(),
        ensures
            valid_choice(board, r),
            r matches Some(c) ==> exists|draws: Map<Coordinates, Seq<Seq<u32>>>, cands: Seq<u32>|
                #![trigger fair_draws(*board, draws), lists_most_wins(board, draws, c, cands)]
                fair_draws(*board, draws) && lists_most_wins(board, draws, c, cands) && cands.contains(
                    c.index(board.size as nat) as u32,
                ) && forall|d: Coordinates|
                    #[trigger] board.free_at(d) ==> wins_over(*board, board.turn, d, draws[d])
                        <= wins_over(*board, board.turn, c, draws[c]),
    {
        let available_cells = board.available_cells();
        if available_cells.len() == 0 {
            assert(!board.has_free_cell());
            return None;
        }
        assert(board.is_free(available_cells@[0] as int));
        let bot_id = board.turn;
        let ghost size = board.size as nat;
        proof {
            lemma_tri_bound(board.size as nat);
        }
        let mut win_counts: Vec<i64> = Vec::new();
        let ghost mut samples: Seq<Seq<Seq<u32>>> = Seq::empty();
        let mut j: usize = 0;
        while j < available_cells.len()
            invariant
                board.wf(),
                size == board.size,
                bot_id == board.turn,
                board.num_cells() <= MAX_CELLS,
                forall|k: int|
                    0 <= k < available_cells@.len() ==> board.is_free(
                        #[trigger] available_cells@[k] as int,
                    ),
                j <= available_cells@.len(),
                samples.len() == j,
                win_counts@.len() == j,
                forall|k: int|
                    0 <= k < j ==> (#[trigger] samples[k]).len() == SIMULATIONS && forall|m: int|
                        0 <= m < samples[k].len() ==> lists_free(
                            opening(*board, bot_id, cell_at(available_cells@[k] as nat, size)),
                            #[trigger] samples[k][m],
                        ),
                forall|k: int|
                    0 <= k < j ==> #[trigger] win_counts@[k] == wins_over(
                        *board,
                        bot_id,
                        cell_at(available_cells@[k] as nat, size),
                        samples[k],
                    ),
            decreases available_cells@.len() - j,
        {
            let cell = available_cells[j];
            assert(board.is_free(cell as int));
            let coords = Coordinates::from_index(cell, board.size);
            proof {
                lemma_cell_at(coords, size);
            }
            let mut wins: i64 = 0;
            let ghost mut drawn: Seq<Seq<u32>> = Seq::empty();
            let mut s: u32 = 0;
            while s < SIMULATIONS
                invariant
                    board.wf(),
                    board.holds(coords),
                    bot_id.is_valid(),
                    0 <= wins <= s,
                    s <= SIMULATIONS,
                    drawn.len() == s,
                    forall|m: int|
                        0 <= m < s ==> lists_free(opening(*board, bot_id, coords), #[trigger] drawn[m]),
                    wins == wins_over(*board, bot_id, coords, drawn),
                decreases SIMULATIONS - s,
            {
                let won = rollout(board, &coords, bot_id);
                proof {
                    let order = choose|order: Seq<u32>|
                        #![trigger playout(opening(*board, bot_id, coords), order)]
                        lists_free(opening(*board, bot_id, coords), order) && won == (playout(
                            opening(*board, bot_id, coords),
                            order,
                        ).status == GameStatus::Finished { winner: bot_id });
                    let longer = drawn.push(order);
                    assert(longer.drop_last() =~= drawn);
                    assert(longer.last() == order);
                    drawn = longer;
                }
                if won {
                    wins = wins + 1;
                }
                s = s + 1;
            }
            let ghost prev_samples = samples;
            proof {
                samples = samples.push(drawn);
                assert(samples[j as int] == drawn);
                assert forall|k: int| 0 <= k < j implies samples[k] == prev_samples[k] by {}
            }
            win_counts.push(wins);
            j = j + 1;
        }
        let best_cells = top_scored(&available_cells, &win_counts);
        proof {
            assert forall|m: int| 0 <= m < best_cells@.len() implies best_cells@[m]
                < board.num_cells() by {
                assert(available_cells@.contains(best_cells@[m]));
                let k = choose|k: int|
                    0 <= k < available_cells@.len() && available_cells@[k] == best_cells@[m];
                assert(board.is_free(available_cells@[k] as int));
            }
        }
        let r = pick_cell(board, &best_cells);
        proof {
            if let Some(c) = r {
                let n = available_cells@.len();
                lemma_index_bound(c, size);
                lemma_cell_at(c, size);
                lemma_free_list_exact(board, available_cells@);
                lemma_listed_is_free(board, available_cells@, c);
                let pos = |d: Coordinates|
                    choose|k: int| 0 <= k < n && available_cells@[k] == d.index(size) as u32;
                let draws = Map::new(|d: Coordinates| board.free_at(d), |d: Coordinates| samples[pos(d)]);
                assert forall|d: Coordinates| board.free_at(d) implies ({
                    let k = pos(d);
                    &&& 0 <= k < n
                    &&& available_cells@[k] == d.index(size) as u32
                    &&& cell_at(available_cells@[k] as nat, size) == d
                    &&& win_counts@[k] == wins_over(*board, bot_id, d, draws[d])
                }) by {
                    lemma_index_bound(d, size);
                    assert(board.is_free(d.index(size) as int));
                    lemma_cell_at(d, size);
                }
                let kc = pos(c);
                assert(is_top(win_counts@, kc)) by {
                    assert(best_cells@.contains(available_cells@[kc]));
                }
                assert forall|d: Coordinates| #[trigger] board.free_at(d) implies draws.contains_key(d)
                    && draws[d].len() == SIMULATIONS && forall|m: int|
                    0 <= m < draws[d].len() ==> lists_free(
                        opening(*board, board.turn, d),
                        #[trigger] draws[d][m],
                    ) by {
                    assert(samples[pos(d)].len() == SIMULATIONS);
                }
                assert(fair_draws(*board, draws));
                assert forall|d: Coordinates| #[trigger] board.free_at(d) implies wins_over(
                    *board,
                    board.turn,
                    d,
                    draws[d],
                ) <= wins_over(*board, board.turn, c, draws[c]) by {
                    assert(win_counts@[pos(d)] <= win_counts@[kc]);
                }
                assert forall|x: u32|
                    #[trigger] best_cells@.contains(x) <==> board.is_free(x as int) && {
                        let d = cell_at(x as nat, board.size as nat);
                        wins_over(*board, board.turn, d, draws[d]) == wins_over(
                            *board,
                            board.turn,
                            c,
                            draws[c],
                        )
                    } by {
                    if board.is_free(x as int) {
                        lemma_cell_at_valid(x as nat, size);
                        let d = cell_at(x as nat, size);
                        assert(board.free_at(d));
                        let k = pos(d);
                        assert(available_cells@[k] == x);
                        if is_top(win_counts@, k) {
                            assert(win_counts@[k] <= win_counts@[kc] && win_counts@[kc] <= win_counts@[k]);
                        }
                        if win_counts@[k] == win_counts@[kc] {
                            assert(is_top(win_counts@, k));
                        }
                    }
                    if best_cells@.contains(x) {
                        let m = choose|m: int| 0 <= m < best_cells@.len() && best_cells@[m] == x;
                        assert(available_cells@.contains(best_cells@[m]));
                    }
                }
                assert(lists_most_wins(board, draws, c, best_cells@));
            }
        }
        r
    }
}

impl YBot for MonteCarloBot {
    fn name(&self) -> &str {
        MonteCarloBot::name(self)
    }

    fn choose_move(&self, board: &GameY) -> (r: Option<Coordinates>) {
        MonteCarloBot::choose_move(self, board)
    }
}

/// Takes the cells of `order` in turn on `board`, for whichever player is to
/// move, skipping those that cannot be taken, until the game is over.
pub fn play_out(board: &mut GameY, order: &Vec<u32>)
    requires
        old(board).wf(),
    ensures
        final(board).wf(),
        final(board).state() == playout(old(board).state(), order@),
{
    let ghost start = board.state();
    assert(start == old(board).state());
    proof {
        lemma_tri_bound(board.size as nat);
    }
    let n = crate::board::total_cells(board.size);
    let mut j: usize = 0;
    assert(order@.skip(0) =~= order@);
    while j < order.len() && !board.check_game_over()
        invariant
            board.wf(),
            n == cell_count(board.size as nat),
            j <= order@.len(),
            playout(board.state(), order@.skip(j as int)) == playout(start, order@),
        decreases order@.len() - j,
    {
        let ghost before = board.state();
        assert(order@.skip(j as int).drop_first() =~= order@.skip(j + 1));
        assert(order@.skip(j as int)[0] == order@[j as int]);
        let cell = order[j];
        if cell < n {
            let player = board.turn;
            let coords = Coordinates::from_index(cell, board.size);
            proof {
                lemma_cell_at(coords, board.size as nat);
            }
            let _ = board.add_move(Movement::Placement { player, coords });
        }
        assert(board.state() == continue_with(before, cell));
        j = j + 1;
    }
    proof {
        if j < order@.len() {
            lemma_playout_finished(board.state(), order@.skip(j as int));
        } else {
            assert(order@.skip(j as int) =~= Seq::<u32>::empty());
        }
    }
}

/// One random playout: on a copy of `board`, `me` opens on `coords`, then
/// the empty cells are taken in an order drawn uniformly. Reports whether
/// `me` won; `board` is left as it is.
pub fn rollout(board: &GameY, coords: &Coordinates, me: PlayerId) -> (r: bool)
    requires
        board.wf(),
    ensures
        exists|order: Seq<u32>|
            #![trigger playout(opening(*board, me, *coords), order)]
            lists_free(opening(*board, me, *coords), order) && r == (playout(
                opening(*board, me, *coords),
                order,
            ).status == GameStatus::Finished { winner: me }),
{
    let mut sim = board.duplicate();
    let _ = sim.add_move(Movement::Placement { player: me, coords: *coords });
    let ghost first = sim.state();
    assert(first == opening(*board, me, *coords));
    let mut remaining = sim.available_cells();
    let ghost listed = remaining@;
    proof {
        lemma_tri_bound(board.size as nat);
    }
    shuffle_in_place(&mut remaining);
    proof {
        broadcast use vstd::seq_lib::to_multiset_contains;

        assert forall|i: u32|
            #![trigger remaining@.contains(i)]
            remaining@.contains(i) <==> (i < first.cells.len() && first.cells[i as int] is None) by {
            assert(remaining@.contains(i) <==> remaining@.to_multiset().count(i) > 0);
            assert(listed.contains(i) <==> listed.to_multiset().count(i) > 0);
            if listed.contains(i) {
                let k = choose|k: int| 0 <= k < listed.len() && listed[k] == i;
                assert(sim.is_free(listed[k] as int));
            }
            if i < first.cells.len() && first.cells[i as int] is None {
                assert(sim.is_free(i as int));
            }
        }
    }
    let r = playout_wins(&sim, &remaining, me);
    assert(lists_free(first, remaining@));
    assert(r == (playout(first, remaining@).status == GameStatus::Finished { winner: me }));
    r
}

/// Whether `me` has won once the cells of `order` are taken in turn on a
/// copy of `board`.
pub fn playout_wins(board: &GameY, order: &Vec<u32>, me: PlayerId) -> (r: bool)
    requires
        board.wf(),
    ensures
        r == (playout(board.state(), order@).status == GameStatus::Finished { winner: me }),
{
    let mut sim = board.duplicate();
    play_out(&mut sim, order);
    match sim.status() {
        GameStatus::Finished { winner } => winner == me,
        GameStatus::InProgress => false,
    }
}

} // verus!
