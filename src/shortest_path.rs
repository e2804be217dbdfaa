use vstd::prelude::*;

use crate::coords::MAX_CELLS;

use crate::board::{group_wins, is_chain, lemma_group_survives_placement, linked, GameStatus, GameY};
use crate::coords::{
    cell_at, cell_count, lemma_cell_at, lemma_index_bound, lemma_index_injective, lemma_tri_bound, Coordinates, PlayerId,
};
use crate::distance::{
    distancias_desde_borde, is_side_distance, lemma_chain_is_free_route, side_distance, Side,
    UNREACHABLE,
};
use crate::strategy::{
    is_top, lemma_free_list_exact, lemma_listed_is_free, pick_cell, top_scored, valid_choice, YBot,
};

verus! {

/// `c` can join the three sides for `p`: each side is reached from it for less
/// than the `UNREACHABLE` sentinel.
pub open spec fn is_hub(size: nat, cells: Seq<Option<PlayerId>>, p: PlayerId, c: Coordinates) -> bool {
    &&& c.valid_for(size)
    &&& side_distance(size, cells, p, Side::A, c) < UNREACHABLE
    &&& side_distance(size, cells, p, Side::B, c) < UNREACHABLE
    &&& side_distance(size, cells, p, Side::C, c) < UNREACHABLE
}

/// The cost for `p` of joining the three sides through `c`: the sum of its
/// three distances, less two when `c` is empty or already `p`'s own.
pub open spec fn hub_cost(size: nat, cells: Seq<Option<PlayerId>>, p: PlayerId, c: Coordinates) -> int {
    let sum = side_distance(size, cells, p, Side::A, c) + side_distance(size, cells, p, Side::B, c)
        + side_distance(size, cells, p, Side::C, c);
    let owner = cells[c.index(size) as int];
    if owner == Some(p) || owner is None {
        if sum >= 2 {
            sum - 2
        } else {
            0
        }
    } else {
        sum
    }
}

/// `t` is the total distance of `p`: the least hub cost over all hubs, and
/// at most `UNREACHABLE`, which it is when no hub costs less.
pub open spec fn is_total_distance(size: nat, cells: Seq<Option<PlayerId>>, p: PlayerId, t: int) -> bool {
    &&& 0 <= t <= UNREACHABLE
    &&& forall|c: Coordinates| #[trigger] is_hub(size, cells, p, c) ==> t <= hub_cost(size, cells, p, c)
    &&& t < UNREACHABLE ==> exists|c: Coordinates|
        #[trigger] is_hub(size, cells, p, c) && hub_cost(size, cells, p, c) == t
}

/// The total distance of `p` on the cells `cells`.
pub open spec fn total_distance(size: nat, cells: Seq<Option<PlayerId>>, p: PlayerId) -> int {
    choose|t: int| is_total_distance(size, cells, p, t)
}

pub proof fn lemma_total_distance_unique(size: nat, cells: Seq<Option<PlayerId>>, p: PlayerId, t: int)
    requires
        is_total_distance(size, cells, p, t),
    ensures
        total_distance(size, cells, p) == t,
{
    let e = total_distance(size, cells, p);
    assert(is_total_distance(size, cells, p, e));
    if e < t {
        let c = choose|c: Coordinates| #[trigger] is_hub(size, cells, p, c) && hub_cost(size, cells, p, c) == e;
    } else if t < e {
        let c = choose|c: Coordinates| #[trigger] is_hub(size, cells, p, c) && hub_cost(size, cells, p, c) == t;
    }
}

/// When no cell can reach some side, `p` has no hub and its total distance
/// stays at `UNREACHABLE`.
pub proof fn lemma_unreachable_side_keeps_sentinel(
    size: nat,
    cells: Seq<Option<PlayerId>>,
    p: PlayerId,
    side: Side,
)
    requires
        forall|c: Coordinates|
            c.valid_for(size) ==> #[trigger] side_distance(size, cells, p, side, c) == UNREACHABLE,
    ensures
        total_distance(size, cells, p) == UNREACHABLE,
{
    assert forall|c: Coordinates| !#[trigger] is_hub(size, cells, p, c) by {
        if c.valid_for(size) {
            assert(side_distance(size, cells, p, side, c) == UNREACHABLE);
        }
    }
    lemma_total_distance_unique(size, cells, p, UNREACHABLE as int);
}

/// How much playing `c` is worth to `me`: ten points for each step it takes
/// off its own total distance, fifteen for each step it adds to the other
/// player's.
pub open spec fn placement_score(size: nat, cells: Seq<Option<PlayerId>>, me: PlayerId, c: Coordinates) -> int {
    let after = cells.update(c.index(size) as int, Some(me));
    let rival = me.spec_other();
    10 * (total_distance(size, cells, me) - total_distance(size, after, me)) + 15 * (
    total_distance(size, after, rival) - total_distance(size, cells, rival))
}

/// `cands` lists once each empty cell whose placement scores as much as
/// playing `c` does, and no other.
pub open spec fn lists_best_placements(board: &GameY, c: Coordinates, cands: Seq<u32>) -> bool {
    &&& cands.no_duplicates()
    &&& forall|i: u32|
        #[trigger] cands.contains(i) <==> board.is_free(i as int) && placement_score(
            board.size as nat,
            board.cells@,
            board.turn,
            cell_at(i as nat, board.size as nat),
        ) == placement_score(board.size as nat, board.cells@, board.turn, c)
}

/// A strategy that weighs connectivity: it plays the empty cell that most
/// shortens its own route across the three sides and lengthens the other
/// player's, drawn uniformly among those that share the best score.
pub struct ShortestPathBot;

impl ShortestPathBot {
    pub fn name(&self) -> (r: &'static str)
        ensures
            r@ == "shortest_path_bot"@,
    {
        "shortest_path_bot"
    }

    #[verifier::rlimit(80)]
    #[verifier::spinoff_prover]
    pub fn choose_move(&self, board: &GameY) -> (r: Option<Coordinates>)
        requires
            board.wf(),
        ensures
            valid_choice(board, r),
            r matches Some(c) ==> forall|d: Coordinates|
                board.free_at(d) ==> placement_score(board.size as nat, board.cells@, board.turn, d)
                    <= placement_score(board.size as nat, board.cells@, board.turn, c),
            r matches Some(c) ==> exists|cands: Seq<u32>|
                #[trigger] lists_best_placements(board, c, cands) && cands.contains(
                    c.index(board.size as nat) as u32,
                ),
    {
        let available_cells = board.available_cells();
        if available_cells.len() == 0 {
            assert(!board.has_free_cell());
            return None;
        }
        assert(board.is_free(available_cells@[0] as int));
        let me = board.turn;
        let rival = me.other();
        let ghost size = board.size as nat;
        let ghost cells = board.cells@;
        proof {
            lemma_tri_bound(size);
        }
        let mi_distancia_antes = calcular_distancia_total(board, me);
        let rival_distancia_antes = calcular_distancia_total(board, rival);
        let mut puntuaciones: Vec<i64> = Vec::new();
        let mut j: usize = 0;
        while j < available_cells.len()
            invariant
                board.wf(),
                size == board.size,
                cells == board.cells@,
                me == board.turn,
                rival == me.spec_other(),
                board.num_cells() <= MAX_CELLS,
                mi_distancia_antes == total_distance(size, cells, me),
                mi_distancia_antes <= UNREACHABLE,
                rival_distancia_antes <= UNREACHABLE,
                rival_distancia_antes == total_distance(size, cells, rival),
                forall|k: int|
                    0 <= k < available_cells@.len() ==> board.is_free(
                        #[trigger] available_cells@[k] as int,
                    ),
                j <= available_cells@.len(),
                puntuaciones@.len() == j,
                forall|k: int|
                    0 <= k < j ==> cell_at(#[trigger] available_cells@[k] as nat, size).valid_for(size)
                        && cell_at(available_cells@[k] as nat, size).index(size) == available_cells@[k]
                        && puntuaciones@[k] == placement_score(
                        size,
                        cells,
                        me,
                        cell_at(available_cells@[k] as nat, size),
                    ),
            decreases available_cells@.len() - j,
        {
            let indice = available_cells[j];
            assert(board.is_free(indice as int));
            let coords = Coordinates::from_index(indice, board.size);
            proof {
                lemma_cell_at(coords, size);
            }
            let mut tablero_simulado = board.duplicate();
            tablero_simulado.cells.set(indice as usize, Some(me));
            proof {
                if let GameStatus::Finished { winner } = board.status {
                    let s = choose|s: Coordinates| #[trigger] board.owned_by(s, winner) && board.wins_from(winner, s);
                    lemma_group_survives_placement(size, cells, winner, s, indice as int, me);
                    lemma_index_bound(s, size);
                    assert(s.index(size) != indice);
                    assert(tablero_simulado.owned_by(s, winner) && tablero_simulado.wins_from(winner, s));
                }
                assert(tablero_simulado.wf());
            }
            assert(tablero_simulado.cells@ == cells.update(indice as int, Some(me)));
            let mi_distancia_despues = calcular_distancia_total(&tablero_simulado, me);
            let mi_mejora = (mi_distancia_antes as i64) - (mi_distancia_despues as i64);
            let rival_distancia_despues = calcular_distancia_total(&tablero_simulado, rival);
            let rival_perjuicio = (rival_distancia_despues as i64) - (rival_distancia_antes as i64);
            let puntuacion_total = (mi_mejora * 10) + (rival_perjuicio * 15);
            assert(puntuacion_total == placement_score(size, cells, me, coords));
            puntuaciones.push(puntuacion_total);
            j = j + 1;
        }
        let mejores_casillas = top_scored(&available_cells, &puntuaciones);
        proof {
            assert forall|m: int| 0 <= m < mejores_casillas@.len() implies mejores_casillas@[m]
                < board.num_cells() by {
                assert(available_cells@.contains(mejores_casillas@[m]));
                let k = choose|k: int|
                    0 <= k < available_cells@.len() && available_cells@[k] == mejores_casillas@[m];
                assert(board.is_free(available_cells@[k] as int));
            }
        }
        let r = pick_cell(board, &mejores_casillas);
        proof {
            if let Some(c) = r {
                lemma_index_bound(c, size);
                lemma_cell_at(c, size);
                lemma_free_list_exact(board, available_cells@);
                let i = c.index(size) as u32;
                assert(mejores_casillas@.contains(i));
                let mb = choose|m: int| 0 <= m < mejores_casillas@.len() && mejores_casillas@[m] == i;
                assert(available_cells@.contains(mejores_casillas@[mb]));
                let kc = choose|k: int| 0 <= k < available_cells@.len() && available_cells@[k] == i;
                assert(is_top(puntuaciones@, kc));
                assert(puntuaciones@[kc] == placement_score(size, cells, me, c));
                lemma_listed_is_free(board, available_cells@, c);
                assert forall|d: Coordinates| board.free_at(d) implies placement_score(size, cells, me, d)
                    <= placement_score(size, cells, me, c) by {
                    lemma_index_bound(d, size);
                    lemma_cell_at(d, size);
                    assert(board.is_free(d.index(size) as int));
                    let k = choose|k: int|
                        0 <= k < available_cells@.len() && available_cells@[k] == d.index(size) as u32;
                    assert(puntuaciones@[k] <= puntuaciones@[kc]);
                }
                assert forall|x: u32|
                    #[trigger] mejores_casillas@.contains(x) <==> board.is_free(x as int) && placement_score(
                        size,
                        cells,
                        me,
                        cell_at(x as nat, size),
                    ) == placement_score(size, cells, me, c) by {
                    if board.is_free(x as int) {
                        assert(available_cells@.contains(x));
                        let k = choose|k: int| 0 <= k < available_cells@.len() && available_cells@[k] == x;
                        if is_top(puntuaciones@, k) {
                            assert(puntuaciones@[k] <= puntuaciones@[kc] && puntuaciones@[kc] <= puntuaciones@[k]);
                        }
                        if puntuaciones@[k] == puntuaciones@[kc] {
                            assert(is_top(puntuaciones@, k));
                        }
                    }
                    if mejores_casillas@.contains(x) {
                        let m = choose|m: int| 0 <= m < mejores_casillas@.len() && mejores_casillas@[m] == x;
                        assert(available_cells@.contains(mejores_casillas@[m]));
                    }
                }
                assert(lists_best_placements(board, c, mejores_casillas@));
            }
        }
        r
    }
}

impl YBot for ShortestPathBot {
    fn name(&self) -> &str {
        ShortestPathBot::name(self)
    }

    fn choose_move(&self, board: &GameY) -> (r: Option<Coordinates>) {
        ShortestPathBot::choose_move(self, board)
    }
}

/// The total distance of `jugador` on `board`, as `total_distance` states it.
pub fn calcular_distancia_total(board: &GameY, jugador: PlayerId) -> (r: usize)
    requires
        board.wf(),
        jugador.is_valid(),
    ensures
        r == total_distance(board.size as nat, board.cells@, jugador),
        is_total_distance(board.size as nat, board.cells@, jugador, r as int),
        r <= UNREACHABLE,
        board.status == (GameStatus::Finished { winner: jugador }) ==> r == 0,
{
    let ghost size = board.size as nat;
    let ghost cells = board.cells@;
    proof {
        lemma_tri_bound(size);
    }
    let dist_a = distancias_desde_borde(board, jugador, Side::A);
    let dist_b = distancias_desde_borde(board, jugador, Side::B);
    let dist_c = distancias_desde_borde(board, jugador, Side::C);
    let ghost won = board.status == (GameStatus::Finished { winner: jugador });
    let ghost ws = choose|s: Coordinates| #[trigger] board.owned_by(s, jugador) && board.wins_from(jugador, s);
    proof {
        if won {
            reveal(group_wins);
            reveal(is_side_distance);
            lemma_index_bound(ws, size);
            let a = choose|a: Coordinates| #[trigger] linked(size, cells, jugador, ws, a) && a.on_side_a();
            let pa = choose|path: Seq<Coordinates>|
                #![trigger is_chain(size, cells, jugador, path)]
                is_chain(size, cells, jugador, path) && path[0] == ws && path.last() == a;
            lemma_chain_is_free_route(size, cells, jugador, Side::A, pa);
            assert(dist_a@[ws.index(size) as int] == 0);
            let b = choose|b: Coordinates| #[trigger] linked(size, cells, jugador, ws, b) && b.on_side_b();
            let pb = choose|path: Seq<Coordinates>|
                #![trigger is_chain(size, cells, jugador, path)]
                is_chain(size, cells, jugador, path) && path[0] == ws && path.last() == b;
            lemma_chain_is_free_route(size, cells, jugador, Side::B, pb);
            assert(dist_b@[ws.index(size) as int] == 0);
            let c = choose|c: Coordinates| #[trigger] linked(size, cells, jugador, ws, c) && c.on_side_c();
            let pc = choose|path: Seq<Coordinates>|
                #![trigger is_chain(size, cells, jugador, path)]
                is_chain(size, cells, jugador, path) && path[0] == ws && path.last() == c;
            lemma_chain_is_free_route(size, cells, jugador, Side::C, pc);
            assert(dist_c@[ws.index(size) as int] == 0);
            assert(is_hub(size, cells, jugador, ws));
            assert(hub_cost(size, cells, jugador, ws) == 0);
        }
    }
    let n = board.cells.len();
    let mut distancia_minima: usize = UNREACHABLE;
    let mut i: usize = 0;
    while i < n
        invariant
            board.wf(),
            size == board.size,
            cells == board.cells@,
            n == cells.len(),
            n <= MAX_CELLS,
            i <= n,
            dist_a@.len() == n && dist_b@.len() == n && dist_c@.len() == n,
            forall|c: Coordinates|
                board.holds(c) ==> #[trigger] dist_a@[c.index(size) as int] == side_distance(
                    size,
                    cells,
                    jugador,
                    Side::A,
                    c,
                ),
            forall|c: Coordinates|
                board.holds(c) ==> #[trigger] dist_b@[c.index(size) as int] == side_distance(
                    size,
                    cells,
                    jugador,
                    Side::B,
                    c,
                ),
            forall|c: Coordinates|
                board.holds(c) ==> #[trigger] dist_c@[c.index(size) as int] == side_distance(
                    size,
                    cells,
                    jugador,
                    Side::C,
                    c,
                ),
            distancia_minima <= UNREACHABLE,
            won ==> is_hub(size, cells, jugador, ws) && hub_cost(size, cells, jugador, ws) == 0,
            forall|c: Coordinates|
                #[trigger] is_hub(size, cells, jugador, c) && c.index(size) < i ==> distancia_minima
                    <= hub_cost(size, cells, jugador, c),
            distancia_minima < UNREACHABLE ==> exists|c: Coordinates|
                #[trigger] is_hub(size, cells, jugador, c) && hub_cost(size, cells, jugador, c)
                    == distancia_minima,
        decreases n - i,
    {
        let c = Coordinates::from_index(i as u32, board.size);
        proof {
            assert forall|d: Coordinates| d.valid_for(size) && d.index(size) == i implies d == c by {
                lemma_index_injective(c, d, size);
            }
        }
        let d1 = dist_a[i];
        let d2 = dist_b[i];
        let d3 = dist_c[i];
        proof {
            assert(c.index(size) == i);
            assert(dist_a@[c.index(size) as int] == side_distance(size, cells, jugador, Side::A, c));
            assert(dist_b@[c.index(size) as int] == side_distance(size, cells, jugador, Side::B, c));
            assert(dist_c@[c.index(size) as int] == side_distance(size, cells, jugador, Side::C, c));
        }
        if d1 < UNREACHABLE && d2 < UNREACHABLE && d3 < UNREACHABLE {
            assert(is_hub(size, cells, jugador, c));
            let mut suma: usize = d1 + d2 + d3;
            let owner = board.cells[i];
            if owner == Some(jugador) || owner.is_none() {
                if suma >= 2 {
                    suma = suma - 2;
                } else {
                    suma = 0;
                }
            }
            assert(suma == hub_cost(size, cells, jugador, c));
            if suma < distancia_minima {
                distancia_minima = suma;
            }
        }
        i = i + 1;
    }
    proof {
        assert forall|c: Coordinates| #[trigger] is_hub(size, cells, jugador, c) implies distancia_minima
            <= hub_cost(size, cells, jugador, c) by {
            lemma_index_bound(c, size);
        }
        lemma_total_distance_unique(size, cells, jugador, distancia_minima as int);
        assert(is_total_distance(size, cells, jugador, distancia_minima as int));
    }
    distancia_minima
}

} // verus!
