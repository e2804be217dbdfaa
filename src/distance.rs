use vstd::prelude::*;

use crate::coords::MAX_CELLS;

use vstd::set_lib::{lemma_int_range, lemma_len_subset, set_int_range};

use crate::board::{is_chain, owns, GameY};
use crate::coords::{
    adjacent, cell_count, lemma_index_bound, lemma_index_injective, lemma_tri_bound, Coordinates,
    PlayerId,
};

verus! {

/// The distance given to a cell that no route reaches.
pub const UNREACHABLE: usize = 999;

/// The starting value of the search: above the number of cells of the
/// largest board, so above the cost of every cheapest route.
pub const SEARCH_BOUND: usize = 1800030001;

/// One of the three sides of the board.
#[derive(Clone, Copy, Debug, PartialEq, Eq, Structural)]
pub enum Side {
    A,
    B,
    C,
}

pub open spec fn on_side(c: Coordinates, side: Side) -> bool {
    match side {
        Side::A => c.on_side_a(),
        Side::B => c.on_side_b(),
        Side::C => c.on_side_c(),
    }
}

/// The cell `c` holds a piece of the other player than `p`.
pub open spec fn blocked(size: nat, cells: Seq<Option<PlayerId>>, p: PlayerId, c: Coordinates) -> bool {
    cells[c.index(size) as int] == Some(p.spec_other())
}

/// What entering `c` costs `p`: nothing on its own piece, one elsewhere.
pub open spec fn step_cost(size: nat, cells: Seq<Option<PlayerId>>, p: PlayerId, c: Coordinates) -> nat {
    if cells[c.index(size) as int] == Some(p) {
        0
    } else {
        1
    }
}

/// `path` starts on `side` and walks from cell to neighbouring cell, never
/// onto a piece of the other player.
#[verifier::opaque]
pub open spec fn is_route(
    size: nat,
    cells: Seq<Option<PlayerId>>,
    p: PlayerId,
    side: Side,
    path: Seq<Coordinates>,
) -> bool {
    &&& path.len() > 0
    &&& on_side(path[0], side)
    &&& forall|k: int|
        0 <= k < path.len() ==> (#[trigger] path[k]).valid_for(size) && !blocked(
            size,
            cells,
            p,
            path[k],
        )
    &&& forall|k: int| 0 <= k < path.len() - 1 ==> adjacent(#[trigger] path[k], path[k + 1])
}

/// The sum of the step costs of the cells of `path`, its first included.
pub open spec fn route_cost(size: nat, cells: Seq<Option<PlayerId>>, p: PlayerId, path: Seq<Coordinates>) -> nat
    decreases path.len(),
{
    if path.len() == 0 {
        0
    } else {
        route_cost(size, cells, p, path.drop_last()) + step_cost(size, cells, p, path.last())
    }
}

/// A cell of the side that the other player does not hold is a route by
/// itself, costing its step cost.
pub proof fn lemma_route_single(
    size: nat,
    cells: Seq<Option<PlayerId>>,
    p: PlayerId,
    side: Side,
    c: Coordinates,
)
    requires
        c.valid_for(size),
        on_side(c, side),
        !blocked(size, cells, p, c),
    ensures
        is_route(size, cells, p, side, seq![c]),
        route_cost(size, cells, p, seq![c]) == step_cost(size, cells, p, c),
        seq![c].last() == c,
{
    reveal(is_route);
    let path = seq![c];
    assert(path.drop_last() =~= Seq::<Coordinates>::empty());
    assert(route_cost(size, cells, p, path.drop_last()) == 0);
}

/// A route extended by a neighbouring cell that the other player does not
/// hold is a route, costing that cell's step cost more.
pub proof fn lemma_route_push(
    size: nat,
    cells: Seq<Option<PlayerId>>,
    p: PlayerId,
    side: Side,
    path: Seq<Coordinates>,
    v: Coordinates,
)
    requires
        is_route(size, cells, p, side, path),
        v.valid_for(size),
        !blocked(size, cells, p, v),
        adjacent(path.last(), v),
    ensures
        is_route(size, cells, p, side, path.push(v)),
        route_cost(size, cells, p, path.push(v)) == route_cost(size, cells, p, path) + step_cost(
            size,
            cells,
            p,
            v,
        ),
        path.push(v).last() == v,
{
    reveal(is_route);
    let longer = path.push(v);
    assert(longer.drop_last() =~= path);
    assert(longer[longer.len() - 2] == path.last());
    assert forall|k: int| 0 <= k < longer.len() - 1 implies adjacent(#[trigger] longer[k], longer[k + 1]) by {
        if k < path.len() - 1 {
            assert(longer[k] == path[k] && longer[k + 1] == path[k + 1]);
        }
    }
    assert forall|k: int| 0 <= k < longer.len() implies (#[trigger] longer[k]).valid_for(size)
        && !blocked(size, cells, p, longer[k]) by {
        if k < path.len() {
            assert(longer[k] == path[k]);
        }
    }
}

/// `d` is what the search finds for `c`: the least cost of a route from the
/// side to `c`, or `SEARCH_BOUND` when there is no such route.
#[verifier::opaque]
pub open spec fn is_search_distance(
    size: nat,
    cells: Seq<Option<PlayerId>>,
    p: PlayerId,
    side: Side,
    c: Coordinates,
    d: int,
) -> bool {
    &&& 0 <= d <= SEARCH_BOUND
    &&& forall|path: Seq<Coordinates>|
        #[trigger] is_route(size, cells, p, side, path) && path.last() == c ==> d <= route_cost(
            size,
            cells,
            p,
            path,
        )
    &&& d < SEARCH_BOUND ==> exists|path: Seq<Coordinates>|
        #[trigger] is_route(size, cells, p, side, path) && path.last() == c && route_cost(
            size,
            cells,
            p,
            path,
        ) == d
    &&& d == SEARCH_BOUND ==> forall|path: Seq<Coordinates>|
        #[trigger] is_route(size, cells, p, side, path) ==> path.last() != c
}

/// A walk over `p`'s own pieces costs `p` nothing.
pub proof fn lemma_own_walk_free(
    size: nat,
    cells: Seq<Option<PlayerId>>,
    p: PlayerId,
    path: Seq<Coordinates>,
)
    requires
        forall|k: int| 0 <= k < path.len() ==> owns(size, cells, p, #[trigger] path[k]),
    ensures
        route_cost(size, cells, p, path) == 0,
    decreases path.len(),
{
    if path.len() > 0 {
        let prefix = path.drop_last();
        assert forall|k: int| 0 <= k < prefix.len() implies owns(size, cells, p, #[trigger] prefix[k]) by {
            assert(prefix[k] == path[k]);
        }
        lemma_own_walk_free(size, cells, p, prefix);
        assert(owns(size, cells, p, path[path.len() - 1]));
    }
}

/// A chain of `p`'s pieces that ends on `side`, walked backwards, is a route
/// from that side that costs `p` nothing.
pub proof fn lemma_chain_is_free_route(
    size: nat,
    cells: Seq<Option<PlayerId>>,
    p: PlayerId,
    side: Side,
    path: Seq<Coordinates>,
)
    requires
        is_chain(size, cells, p, path),
        on_side(path.last(), side),
    ensures
        is_route(size, cells, p, side, path.reverse()),
        route_cost(size, cells, p, path.reverse()) == 0,
        path.reverse().last() == path[0],
{
    reveal(is_route);
    let rev = path.reverse();
    let n = path.len() as int;
    assert forall|k: int| 0 <= k < rev.len() implies owns(size, cells, p, #[trigger] rev[k]) by {
        assert(rev[k] == path[n - 1 - k]);
    }
    assert forall|k: int| 0 <= k < rev.len() implies (#[trigger] rev[k]).valid_for(size) && !blocked(
        size,
        cells,
        p,
        rev[k],
    ) by {
        assert(owns(size, cells, p, rev[k]));
    }
    assert forall|k: int| 0 <= k < rev.len() - 1 implies adjacent(#[trigger] rev[k], rev[k + 1]) by {
        assert(rev[k] == path[n - 1 - k] && rev[k + 1] == path[n - 2 - k]);
        assert(adjacent(path[n - 2 - k], path[n - 2 - k + 1]));
    }
    assert(rev[0] == path.last());
    assert(rev.last() == path[0]);
    lemma_own_walk_free(size, cells, p, rev);
}

/// A route costs at most its number of cells.
pub proof fn lemma_cost_le_len(size: nat, cells: Seq<Option<PlayerId>>, p: PlayerId, path: Seq<Coordinates>)
    ensures
        route_cost(size, cells, p, path) <= path.len(),
    decreases path.len(),
{
    if path.len() > 0 {
        lemma_cost_le_len(size, cells, p, path.drop_last());
    }
}

/// A walk over more cells than the board has visits some cell twice.
pub proof fn lemma_long_walk_repeats(size: nat, path: Seq<Coordinates>)
    requires
        forall|k: int| 0 <= k < path.len() ==> (#[trigger] path[k]).valid_for(size),
        path.len() > cell_count(size),
    ensures
        exists|i: int, j: int| 0 <= i < j < path.len() && #[trigger] path[i] == #[trigger] path[j],
{
    if !exists|i: int, j: int| 0 <= i < j < path.len() && #[trigger] path[i] == #[trigger] path[j] {
        let n = cell_count(size);
        let idxs = Seq::new(path.len(), |k: int| path[k].index(size) as int);
        assert forall|a: int, b: int| 0 <= a < idxs.len() && 0 <= b < idxs.len() && a != b implies idxs[a]
            != idxs[b] by {
            if idxs[a] == idxs[b] {
                lemma_index_injective(path[a], path[b], size);
                if a < b {
                    assert(path[a] == path[b]);
                } else {
                    assert(path[b] == path[a]);
                }
            }
        }
        assert(idxs.no_duplicates());
        idxs.unique_seq_to_set();
        assert forall|x: int| idxs.to_set().contains(x) implies set_int_range(0, n as int).contains(x) by {
            let k = choose|k: int| 0 <= k < idxs.len() && idxs[k] == x;
            lemma_index_bound(path[k], size);
        }
        lemma_int_range(0, n as int);
        lemma_len_subset(idxs.to_set(), set_int_range(0, n as int));
    }
}

/// Whenever a route reaches `c`, some route reaches it for at most as many
/// as the board has cells.
#[verifier::rlimit(60)]
#[verifier::spinoff_prover]
pub proof fn lemma_cheap_route(
    size: nat,
    cells: Seq<Option<PlayerId>>,
    p: PlayerId,
    side: Side,
    path: Seq<Coordinates>,
)
    requires
        is_route(size, cells, p, side, path),
    ensures
        exists|q: Seq<Coordinates>|
            #[trigger] is_route(size, cells, p, side, q) && q.last() == path.last() && route_cost(
                size,
                cells,
                p,
                q,
            ) <= cell_count(size),
    decreases path.len(),
{
    reveal(is_route);
    if path.len() <= cell_count(size) {
        lemma_cost_le_len(size, cells, p, path);
    } else {
        lemma_long_walk_repeats(size, path);
        let (i, j) = choose|i: int, j: int|
            0 <= i < j < path.len() && #[trigger] path[i] == #[trigger] path[j];
        let q = path.subrange(0, i + 1) + path.subrange(j + 1, path.len() as int);
        assert(q.len() == path.len() - (j - i));
        assert forall|k: int| 0 <= k < q.len() implies #[trigger] q[k] == if k <= i {
            path[k]
        } else {
            path[k + j - i]
        } by {}
        assert forall|k: int| 0 <= k < q.len() implies (#[trigger] q[k]).valid_for(size) && !blocked(
            size,
            cells,
            p,
            q[k],
        ) by {
            if k <= i {
                assert(path[k] == q[k]);
            } else {
                assert(path[k + j - i] == q[k]);
            }
        }
        assert forall|k: int| 0 <= k < q.len() - 1 implies adjacent(#[trigger] q[k], q[k + 1]) by {
            if k < i {
                assert(adjacent(path[k], path[k + 1]));
            } else if k == i {
                assert(adjacent(path[j], path[j + 1]));
            } else {
                assert(adjacent(path[k + j - i], path[k + j - i + 1]));
            }
        }
        assert(q[0] == path[0]);
        assert(q.last() == path.last()) by {
            if j == path.len() - 1 {
                assert(q.last() == path[i]);
            } else {
                assert(q.last() == path[q.len() - 1 + j - i]);
            }
        }
        assert(is_route(size, cells, p, side, q));
        lemma_cheap_route(size, cells, p, side, q);
    }
}

/// Some route from `side` reaches `c`.
pub open spec fn reachable(
    size: nat,
    cells: Seq<Option<PlayerId>>,
    p: PlayerId,
    side: Side,
    c: Coordinates,
) -> bool {
    exists|path: Seq<Coordinates>| #[trigger] is_route(size, cells, p, side, path) && path.last() == c
}

/// `d` is the distance of `c` from `side` for `p`: the least cost of a route
/// from the side to `c` when there is one, and `UNREACHABLE` otherwise.
#[verifier::opaque]
pub open spec fn is_side_distance(
    size: nat,
    cells: Seq<Option<PlayerId>>,
    p: PlayerId,
    side: Side,
    c: Coordinates,
    d: int,
) -> bool {
    &&& reachable(size, cells, p, side, c) ==> {
        &&& forall|path: Seq<Coordinates>|
            #[trigger] is_route(size, cells, p, side, path) && path.last() == c ==> d <= route_cost(
                size,
                cells,
                p,
                path,
            )
        &&& exists|path: Seq<Coordinates>|
            #[trigger] is_route(size, cells, p, side, path) && path.last() == c && route_cost(
                size,
                cells,
                p,
                path,
            ) == d
    }
    &&& !reachable(size, cells, p, side, c) ==> d == UNREACHABLE
}

/// The distance of `c` from `side` for `p`.
pub open spec fn side_distance(
    size: nat,
    cells: Seq<Option<PlayerId>>,
    p: PlayerId,
    side: Side,
    c: Coordinates,
) -> int {
    choose|d: int| is_side_distance(size, cells, p, side, c, d)
}

/// The distance of a cell is unique.
pub proof fn lemma_side_distance_unique(
    size: nat,
    cells: Seq<Option<PlayerId>>,
    p: PlayerId,
    side: Side,
    c: Coordinates,
    d: int,
)
    requires
        is_side_distance(size, cells, p, side, c, d),
    ensures
        side_distance(size, cells, p, side, c) == d,
{
    reveal(is_side_distance);
    let e = side_distance(size, cells, p, side, c);
    assert(is_side_distance(size, cells, p, side, c, e));
    if reachable(size, cells, p, side, c) {
        if e < d {
            let path = choose|path: Seq<Coordinates>|
                #[trigger] is_route(size, cells, p, side, path) && path.last() == c && route_cost(
                    size,
                    cells,
                    p,
                    path,
                ) == e;
        } else if d < e {
            let path = choose|path: Seq<Coordinates>|
                #[trigger] is_route(size, cells, p, side, path) && path.last() == c && route_cost(
                    size,
                    cells,
                    p,
                    path,
                ) == d;
        }
    }
}

/// What the search finds, with its starting value read as `UNREACHABLE`, is
/// the distance.
pub proof fn lemma_search_gives_distance(
    size: nat,
    cells: Seq<Option<PlayerId>>,
    p: PlayerId,
    side: Side,
    c: Coordinates,
    d: int,
)
    requires
        is_search_distance(size, cells, p, side, c, d),
    ensures
        is_side_distance(
            size,
            cells,
            p,
            side,
            c,
            if d == SEARCH_BOUND {
                UNREACHABLE as int
            } else {
                d
            },
        ),
{
    reveal(is_search_distance);
    reveal(is_side_distance);
    if d == SEARCH_BOUND {
        if reachable(size, cells, p, side, c) {
            let path = choose|path: Seq<Coordinates>|
                #[trigger] is_route(size, cells, p, side, path) && path.last() == c;
        }
    } else {
        let path = choose|path: Seq<Coordinates>|
            #[trigger] is_route(size, cells, p, side, path) && path.last() == c && route_cost(
                size,
                cells,
                p,
                path,
            ) == d;
    }
}

pub open spec fn sum_of(s: Seq<usize>) -> int
    decreases s.len(),
{
    if s.len() == 0 {
        0
    } else {
        sum_of(s.drop_last()) + s.last()
    }
}

pub proof fn lemma_sum_nonneg(s: Seq<usize>)
    ensures
        sum_of(s) >= 0,
    decreases s.len(),
{
    if s.len() > 0 {
        lemma_sum_nonneg(s.drop_last());
    }
}

pub proof fn lemma_sum_update(s: Seq<usize>, i: int, v: usize)
    requires
        0 <= i < s.len(),
    ensures
        sum_of(s.update(i, v)) == sum_of(s) - s[i] + v,
    decreases s.len(),
{
    let t = s.update(i, v);
    if i == s.len() - 1 {
        assert(t.drop_last() =~= s.drop_last());
    } else {
        assert(t.drop_last() =~= s.drop_last().update(i, v));
        lemma_sum_update(s.drop_last(), i, v);
    }
}

/// Every cell of `dist` that leaves `u` costs at most the distance of `u`
/// plus the cost of entering it.
#[verifier::opaque]
pub open spec fn relaxed(
    size: nat,
    cells: Seq<Option<PlayerId>>,
    p: PlayerId,
    dist: Seq<usize>,
    u: Coordinates,
) -> bool {
    forall|v: Coordinates|
        v.valid_for(size) && #[trigger] adjacent(u, v) && !blocked(size, cells, p, v)
            ==> dist[v.index(size) as int] <= dist[u.index(size) as int] + step_cost(
            size,
            cells,
            p,
            v,
        )
}

/// Lowering the distance of another cell keeps `u` relaxed.
pub proof fn lemma_lower_keeps_relaxed(
    size: nat,
    cells: Seq<Option<PlayerId>>,
    p: PlayerId,
    dist: Seq<usize>,
    i: int,
    val: usize,
    u: Coordinates,
)
    requires
        relaxed(size, cells, p, dist, u),
        dist.len() == cell_count(size),
        u.valid_for(size),
        0 <= i < dist.len(),
        val <= dist[i],
        u.index(size) != i,
    ensures
        relaxed(size, cells, p, dist.update(i, val), u),
{
    reveal(relaxed);
    let nd = dist.update(i, val);
    lemma_index_bound(u, size);
    assert forall|v: Coordinates|
        v.valid_for(size) && #[trigger] adjacent(u, v) && !blocked(size, cells, p, v) implies nd[v.index(
            size,
        ) as int] <= nd[u.index(size) as int] + step_cost(size, cells, p, v) by {
        lemma_index_bound(v, size);
    }
}

/// Distances that are relaxed everywhere and at most the step cost on the
/// side bound the cost of every route.
pub proof fn lemma_route_bound(
    size: nat,
    cells: Seq<Option<PlayerId>>,
    p: PlayerId,
    side: Side,
    dist: Seq<usize>,
    path: Seq<Coordinates>,
)
    requires
        is_route(size, cells, p, side, path),
        dist.len() == cell_count(size),
        forall|c: Coordinates|
            c.valid_for(size) && on_side(c, side) && !blocked(size, cells, p, c) ==> dist[c.index(
                size,
            ) as int] <= step_cost(size, cells, p, c),
        forall|u: Coordinates| u.valid_for(size) ==> #[trigger] relaxed(size, cells, p, dist, u),
    ensures
        dist[path.last().index(size) as int] <= route_cost(size, cells, p, path),
    decreases path.len(),
{
    reveal(relaxed);
    reveal(is_route);
    if path.len() > 1 {
        let prefix = path.drop_last();
        assert(is_route(size, cells, p, side, prefix)) by {
            assert forall|k: int| 0 <= k < prefix.len() - 1 implies adjacent(
                #[trigger] prefix[k],
                prefix[k + 1],
            ) by {
                assert(adjacent(path[k], path[k + 1]));
            }
            assert forall|k: int| 0 <= k < prefix.len() implies (#[trigger] prefix[k]).valid_for(
                size,
            ) && !blocked(size, cells, p, prefix[k]) by {
                assert(path[k] == prefix[k]);
            }
        }
        lemma_route_bound(size, cells, p, side, dist, prefix);
        let u = prefix.last();
        let v = path.last();
        assert(u == path[path.len() - 2]);
        assert(adjacent(path[path.len() - 2], path[path.len() - 1]));
        assert(relaxed(size, cells, p, dist, u));
        assert(v.valid_for(size) && !blocked(size, cells, p, v)) by {
            assert(path[path.len() - 1] == v);
        }
    } else {
        assert(path.drop_last() =~= Seq::<Coordinates>::empty());
        assert(path[0] == path.last());
    }
}

/// Whether `c` lies on `side`.
pub fn touches(c: &Coordinates, side: Side) -> (r: bool)
    ensures
        r == on_side(*c, side),
{
    match side {
        Side::A => c.touches_side_a(),
        Side::B => c.touches_side_b(),
        Side::C => c.touches_side_c(),
    }
}

/// The distance of every cell from `lado` for `jugador`, by cell index: a
/// search seeded with the cells of the side that the other player does not
/// hold, which re-queues a cell each time its distance drops.
#[verifier::rlimit(100)]
#[verifier::spinoff_prover]
pub fn distancias_desde_borde(board: &GameY, jugador: PlayerId, lado: Side) -> (r: Vec<usize>)
    requires
        board.wf(),
        jugador.is_valid(),
    ensures
        r@.len() == board.num_cells(),
        forall|c: Coordinates|
            board.holds(c) ==> is_side_distance(
                board.size as nat,
                board.cells@,
                jugador,
                lado,
                c,
                #[trigger] r@[c.index(board.size as nat) as int] as int,
            ),
        forall|c: Coordinates|
            board.holds(c) ==> #[trigger] r@[c.index(board.size as nat) as int] == side_distance(
                board.size as nat,
                board.cells@,
                jugador,
                lado,
                c,
            ),
{
    let ghost size = board.size as nat;
    let ghost cells = board.cells@;
    proof {
        lemma_tri_bound(size);
        assert forall|c: Coordinates| c.valid_for(size) implies c.index(size) < cells.len() by {
            lemma_index_bound(c, size);
        }
    }
    let n = board.cells.len();
    let rival = jugador.other();
    let mut dist: Vec<usize> = Vec::new();
    let mut i: usize = 0;
    while i < n
        invariant
            n == cells.len(),
            i <= n,
            dist@.len() == i,
            forall|k: int| 0 <= k < i ==> dist@[k] == SEARCH_BOUND,
        decreases n - i,
    {
        dist.push(SEARCH_BOUND);
        i = i + 1;
    }
    let mut queue: Vec<Coordinates> = Vec::new();
    let mut i: usize = 0;
    while i < n
        invariant
            board.wf(),
            size == board.size,
            cells == board.cells@,
            n == cells.len(),
            n <= MAX_CELLS,
            rival == jugador.spec_other(),
            forall|c: Coordinates| c.valid_for(size) ==> #[trigger] c.index(size) < cells.len(),
            i <= n,
            dist@.len() == n,
            forall|k: int| 0 <= k < n ==> dist@[k] <= SEARCH_BOUND,
            forall|k: int| 0 <= k < queue@.len() ==> (#[trigger] queue@[k]).valid_for(size),
            forall|c: Coordinates|
                c.valid_for(size) && #[trigger] dist@[c.index(size) as int] < SEARCH_BOUND
                    ==> exists|path: Seq<Coordinates>|
                    #[trigger] is_route(size, cells, jugador, lado, path) && path.last() == c
                        && route_cost(size, cells, jugador, path) == dist@[c.index(size) as int],
            forall|c: Coordinates|
                c.valid_for(size) && c.index(size) < i && on_side(c, lado) && !blocked(
                    size,
                    cells,
                    jugador,
                    c,
                ) ==> #[trigger] dist@[c.index(size) as int] <= step_cost(size, cells, jugador, c),
            forall|c: Coordinates|
                c.valid_for(size) ==> queue@.contains(c) || #[trigger] dist@[c.index(size) as int]
                    == SEARCH_BOUND,
        decreases n - i,
    {
        let c = Coordinates::from_index(i as u32, board.size);
        proof {
            assert forall|d: Coordinates| d.valid_for(size) && d.index(size) == i implies d == c by {
                lemma_index_injective(c, d, size);
            }
        }
        if touches(&c, lado) && board.cells[i] != Some(rival) {
            let coste: usize = if board.cells[i] == Some(jugador) {
                0
            } else {
                1
            };
            dist.set(i, coste);
            let ghost prev = queue@;
            queue.push(c);
            proof {
                let path = seq![c];
                lemma_route_single(size, cells, jugador, lado, c);
                assert(c.index(size) == i);
                assert(step_cost(size, cells, jugador, c) == coste);
                assert(route_cost(size, cells, jugador, path) == coste);
                assert(queue@[queue@.len() - 1] == c);
                assert forall|d: Coordinates| d.valid_for(size) && prev.contains(d) implies queue@.contains(d) by {
                    let k = choose|k: int| 0 <= k < prev.len() && prev[k] == d;
                    assert(queue@[k] == d);
                }
            }
        }
        i = i + 1;
    }
    let mut head: usize = 0;
    proof {
        reveal(relaxed);
        lemma_sum_nonneg(dist@);
        assert forall|u: Coordinates|
            u.valid_for(size) && !queue@.subrange(head as int, queue@.len() as int).contains(u)
            implies #[trigger] relaxed(size, cells, jugador, dist@, u) by {
            assert(queue@.subrange(0, queue@.len() as int) =~= queue@);
        }
    }
    while head < queue.len()
        invariant
            board.wf(),
            size == board.size,
            cells == board.cells@,
            n == cells.len(),
            n <= MAX_CELLS,
            rival == jugador.spec_other(),
            forall|c: Coordinates| c.valid_for(size) ==> #[trigger] c.index(size) < cells.len(),
            head <= queue@.len(),
            dist@.len() == n,
            forall|k: int| 0 <= k < n ==> dist@[k] <= SEARCH_BOUND,
            forall|k: int| 0 <= k < queue@.len() ==> (#[trigger] queue@[k]).valid_for(size),
            forall|c: Coordinates|
                c.valid_for(size) && #[trigger] dist@[c.index(size) as int] < SEARCH_BOUND
                    ==> exists|path: Seq<Coordinates>|
                    #[trigger] is_route(size, cells, jugador, lado, path) && path.last() == c
                        && route_cost(size, cells, jugador, path) == dist@[c.index(size) as int],
            forall|c: Coordinates|
                c.valid_for(size) && on_side(c, lado) && !blocked(size, cells, jugador, c)
                    ==> #[trigger] dist@[c.index(size) as int] <= step_cost(
                    size,
                    cells,
                    jugador,
                    c,
                ),
            forall|u: Coordinates|
                u.valid_for(size) && !queue@.subrange(head as int, queue@.len() as int).contains(u)
                    ==> #[trigger] relaxed(size, cells, jugador, dist@, u),
        decreases sum_of(dist@), queue@.len() - head,
    {
        let ghost sum_before = sum_of(dist@);
        let ghost pending_before = queue@.len() - head;
        let actual = queue[head];
        head = head + 1;
        let ghost q_after_pop = queue@;
        proof {
            lemma_index_bound(actual, size);
            assert forall|u: Coordinates|
                u.valid_for(size) && !queue@.subrange(head as int, queue@.len() as int).contains(u)
                    && u != actual implies #[trigger] relaxed(size, cells, jugador, dist@, u) by {
                let sub = queue@.subrange(head - 1, queue@.len() as int);
                if sub.contains(u) {
                    let k = choose|k: int| 0 <= k < sub.len() && sub[k] == u;
                    assert(k != 0);
                    assert(queue@.subrange(head as int, queue@.len() as int)[k - 1] == u);
                }
            }
        }
        let idx_actual = actual.to_index(board.size) as usize;
        let d_actual = dist[idx_actual];
        let vecinos = board.get_neighbors(&actual);
        let mut j: usize = 0;
        while j < vecinos.len()
            invariant
                board.wf(),
                size == board.size,
                cells == board.cells@,
                n == cells.len(),
                n <= MAX_CELLS,
                rival == jugador.spec_other(),
                forall|c: Coordinates| c.valid_for(size) ==> #[trigger] c.index(size) < cells.len(),
                1 <= head <= queue@.len(),
                dist@.len() == n,
                forall|k: int| 0 <= k < n ==> dist@[k] <= SEARCH_BOUND,
                forall|k: int| 0 <= k < queue@.len() ==> (#[trigger] queue@[k]).valid_for(size),
                actual.valid_for(size),
                idx_actual == actual.index(size),
                d_actual == dist@[idx_actual as int],
                forall|k: int|
                    0 <= k < vecinos@.len() ==> (#[trigger] vecinos@[k]).valid_for(size)
                        && adjacent(actual, vecinos@[k]),
                forall|v: Coordinates| v.valid_for(size) && adjacent(actual, v) ==> vecinos@.contains(v),
                j <= vecinos@.len(),
                forall|c: Coordinates|
                    c.valid_for(size) && #[trigger] dist@[c.index(size) as int] < SEARCH_BOUND
                        ==> exists|path: Seq<Coordinates>|
                        #[trigger] is_route(size, cells, jugador, lado, path) && path.last() == c
                            && route_cost(size, cells, jugador, path) == dist@[c.index(size) as int],
                forall|c: Coordinates|
                    c.valid_for(size) && on_side(c, lado) && !blocked(size, cells, jugador, c)
                        ==> #[trigger] dist@[c.index(size) as int] <= step_cost(
                        size,
                        cells,
                        jugador,
                        c,
                    ),
                forall|u: Coordinates|
                    u.valid_for(size) && !queue@.subrange(head as int, queue@.len() as int).contains(
                        u,
                    ) && u != actual ==> #[trigger] relaxed(size, cells, jugador, dist@, u),
                forall|k: int|
                    0 <= k < j && !blocked(size, cells, jugador, #[trigger] vecinos@[k])
                        ==> dist@[vecinos@[k].index(size) as int] <= d_actual + step_cost(
                        size,
                        cells,
                        jugador,
                        vecinos@[k],
                    ),
                sum_of(dist@) <= sum_before,
                sum_of(dist@) == sum_before ==> queue@.len() - head == pending_before - 1,
            decreases vecinos@.len() - j,
        {
            let vecino = vecinos[j];
            let idx_v = vecino.to_index(board.size) as usize;
            proof {
                assert(adjacent(actual, vecinos@[j as int]));
                assert forall|d: Coordinates| d.valid_for(size) && d.index(size) == idx_v implies d
                    == vecino by {
                    lemma_index_injective(vecino, d, size);
                }
            }
            if board.cells[idx_v] != Some(rival) {
                let coste_paso: usize = if board.cells[idx_v] == Some(jugador) {
                    0
                } else {
                    1
                };
                let nueva_dist = d_actual + coste_paso;
                if nueva_dist < dist[idx_v] {
                    let ghost old_dist = dist@;
                    let ghost old_queue = queue@;
                    proof {
                        lemma_sum_update(dist@, idx_v as int, nueva_dist);
                        assert(idx_v != idx_actual);
                        let path = choose|path: Seq<Coordinates>|
                            #[trigger] is_route(size, cells, jugador, lado, path) && path.last()
                                == actual && route_cost(size, cells, jugador, path) == d_actual;
                        lemma_route_push(size, cells, jugador, lado, path, vecino);
                    }
                    dist.set(idx_v, nueva_dist);
                    queue.push(vecino);
                    proof {
                        assert(queue@[queue@.len() - 1] == vecino);
                        assert(queue@.subrange(head as int, queue@.len() as int).contains(vecino)) by {
                            assert(queue@.subrange(head as int, queue@.len() as int)[queue@.len()
                                - 1 - head] == vecino);
                        }
                        assert forall|u: Coordinates|
                            u.valid_for(size) && !queue@.subrange(
                                head as int,
                                queue@.len() as int,
                            ).contains(u) && u != actual implies #[trigger] relaxed(
                            size,
                            cells,
                            jugador,
                            dist@,
                            u,
                        ) by {
                            assert(u != vecino);
                            let sub = old_queue.subrange(head as int, old_queue.len() as int);
                            if sub.contains(u) {
                                let k = choose|k: int| 0 <= k < sub.len() && sub[k] == u;
                                assert(queue@.subrange(head as int, queue@.len() as int)[k] == u);
                            }
                            lemma_index_bound(u, size);
                            lemma_lower_keeps_relaxed(
                                size,
                                cells,
                                jugador,
                                old_dist,
                                idx_v as int,
                                nueva_dist,
                                u,
                            );
                        }
                    }
                }
            }
            j = j + 1;
        }
        proof {
            reveal(relaxed);
            assert forall|v: Coordinates|
                v.valid_for(size) && #[trigger] adjacent(actual, v) && !blocked(size, cells, jugador, v)
                    implies dist@[v.index(size) as int] <= dist@[actual.index(size) as int]
                + step_cost(size, cells, jugador, v) by {
                let k = choose|k: int| 0 <= k < vecinos@.len() && vecinos@[k] == v;
            }
            assert(relaxed(size, cells, jugador, dist@, actual));
            lemma_sum_nonneg(dist@);
        }
    }
    proof {
        reveal(is_search_distance);
        assert forall|c: Coordinates| c.valid_for(size) implies is_search_distance(
            size,
            cells,
            jugador,
            lado,
            c,
            #[trigger] dist@[c.index(size) as int] as int,
        ) by {
            assert forall|path: Seq<Coordinates>|
                #[trigger] is_route(size, cells, jugador, lado, path) && path.last() == c implies dist@[c.index(
                size,
            ) as int] <= route_cost(size, cells, jugador, path) by {
                assert forall|u: Coordinates| u.valid_for(size) implies #[trigger] relaxed(
                    size,
                    cells,
                    jugador,
                    dist@,
                    u,
                ) by {
                    assert(queue@.subrange(head as int, queue@.len() as int) =~= Seq::<Coordinates>::empty());
                }
                lemma_route_bound(size, cells, jugador, lado, dist@, path);
            }
            assert forall|path: Seq<Coordinates>|
                #[trigger] is_route(size, cells, jugador, lado, path) && dist@[c.index(size) as int]
                    == SEARCH_BOUND implies path.last() != c by {
                if path.last() == c {
                    lemma_cheap_route(size, cells, jugador, lado, path);
                    let q = choose|q: Seq<Coordinates>|
                        #[trigger] is_route(size, cells, jugador, lado, q) && q.last() == path.last()
                            && route_cost(size, cells, jugador, q) <= cell_count(size);
                    assert(dist@[c.index(size) as int] <= route_cost(size, cells, jugador, q));
                }
            }
        }
    }
    let mut k: usize = 0;
    while k < n
        invariant
            n == cells.len(),
            size == board.size,
            cells == board.cells@,
            k <= n,
            dist@.len() == n,
            forall|c: Coordinates| c.valid_for(size) ==> #[trigger] c.index(size) < cells.len(),
            forall|c: Coordinates|
                c.valid_for(size) && c.index(size) >= k ==> is_search_distance(
                    size,
                    cells,
                    jugador,
                    lado,
                    c,
                    #[trigger] dist@[c.index(size) as int] as int,
                ),
            forall|c: Coordinates|
                c.valid_for(size) && c.index(size) < k ==> is_side_distance(
                    size,
                    cells,
                    jugador,
                    lado,
                    c,
                    #[trigger] dist@[c.index(size) as int] as int,
                ),
        decreases n - k,
    {
        let ghost before = dist@;
        if dist[k] == SEARCH_BOUND {
            dist.set(k, UNREACHABLE);
        }
        proof {
            assert forall|c: Coordinates| c.valid_for(size) && c.index(size) < k + 1 implies is_side_distance(
                size,
                cells,
                jugador,
                lado,
                c,
                #[trigger] dist@[c.index(size) as int] as int,
            ) by {
                if c.index(size) == k {
                    lemma_search_gives_distance(size, cells, jugador, lado, c, before[k as int] as int);
                }
            }
        }
        k = k + 1;
    }
    proof {
        assert forall|c: Coordinates| c.valid_for(size) implies #[trigger] dist@[c.index(size) as int]
            == side_distance(size, cells, jugador, lado, c) by {
            lemma_side_distance_unique(size, cells, jugador, lado, c, dist@[c.index(size) as int] as int);
        }
    }
    dist
}

} // verus!
