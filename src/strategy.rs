use vstd::prelude::*;

use crate::coords::MAX_CELLS;

use crate::board::GameY;
use crate::coords::{cell_at, lemma_cell_at, adjacent, lemma_index_bound, lemma_tri_bound, Coordinates, PlayerId};
use crate::random::random_below;

verus! {

/// What every strategy owes its caller: nothing exactly when no cell is
/// empty, and otherwise an empty cell of the board.
pub open spec fn valid_choice(board: &GameY, r: Option<Coordinates>) -> bool {
    &&& r is None <==> !board.has_free_cell()
    &&& r matches Some(c) ==> board.free_at(c)
}

/// A move-selection strategy.
pub trait YBot {
    /// A stable identifier of the strategy.
    fn name(&self) -> &str;

    /// The cell the strategy plays next on `board`, if a move can be made.
    fn choose_move(&self, board: &GameY) -> (r: Option<Coordinates>)
        requires
            board.wf(),
        ensures
            valid_choice(board, r),
    ;
}

/// When one empty cell is left, every strategy plays it.
pub proof fn lemma_last_free_cell_is_played(board: &GameY, c: Coordinates, r: Option<Coordinates>)
    requires
        board.wf(),
        board.free_at(c),
        forall|d: Coordinates| #[trigger] board.free_at(d) ==> d == c,
        valid_choice(board, r),
    ensures
        r == Some(c),
{
    lemma_index_bound(c, board.size as nat);
    assert(board.is_free(c.index(board.size as nat) as int));
}

/// Cell index `i` borders one of the cells listed in `cells`.
pub open spec fn borders_any(board: &GameY, cells: Seq<Coordinates>, i: int) -> bool {
    exists|j: int, b: Coordinates|
        0 <= j < cells.len() && board.holds(b) && #[trigger] adjacent(cells[j], b) && b.index(
            board.size as nat,
        ) == i
}

/// Cell index `i` borders a piece of `p`.
pub open spec fn borders_player(board: &GameY, p: PlayerId, i: int) -> bool {
    exists|c: Coordinates, b: Coordinates|
        board.owned_by(c, p) && board.holds(b) && #[trigger] adjacent(c, b) && b.index(
            board.size as nat,
        ) == i
}

/// Some empty cell borders a piece of `p`.
pub open spec fn player_has_frontier(board: &GameY, p: PlayerId) -> bool {
    exists|i: int| board.is_free(i) && #[trigger] borders_player(board, p, i)
}

/// How many of the cells in `s` belong to `p`.
pub open spec fn count_owned(board: &GameY, s: Seq<Coordinates>, p: PlayerId) -> nat
    decreases s.len(),
{
    if s.len() == 0 {
        0
    } else {
        count_owned(board, s.drop_last(), p) + if board.owner_of(s.last()) == Some(p) {
            1nat
        } else {
            0nat
        }
    }
}

/// The pieces among the cells of `s` weighed for `me`: one point for each of
/// its own, two for each of the other player.
pub open spec fn contact_points(board: &GameY, s: Seq<Coordinates>, me: PlayerId) -> nat
    decreases s.len(),
{
    if s.len() == 0 {
        0
    } else {
        contact_points(board, s.drop_last(), me) + match board.owner_of(s.last()) {
            None => 0nat,
            Some(q) => if q == me {
                1nat
            } else {
                2nat
            },
        }
    }
}

/// One of the cells of `s` holds a piece that is not `me`'s.
pub open spec fn touches_other(board: &GameY, s: Seq<Coordinates>, me: PlayerId) -> bool {
    exists|k: int|
        0 <= k < s.len() && #[trigger] board.owner_of(s[k]) is Some && board.owner_of(s[k])
            != Some(me)
}

/// One mark per cell of `board`, set for the indices that `items` lists.
fn membership(board: &GameY, items: &Vec<u32>) -> (r: Vec<bool>)
    requires
        board.wf(),
        forall|k: int| 0 <= k < items@.len() ==> items@[k] < board.num_cells(),
    ensures
        r@.len() == board.num_cells(),
        forall|i: int| 0 <= i < r@.len() ==> (r@[i] <==> items@.contains(i as u32)),
{
    proof {
        lemma_tri_bound(board.size as nat);
    }
    let n = board.cells.len();
    let mut r: Vec<bool> = Vec::new();
    let mut i: usize = 0;
    while i < n
        invariant
            n == board.num_cells(),
            i <= n,
            r@.len() == i,
            forall|k: int| 0 <= k < i ==> !r@[k],
        decreases n - i,
    {
        r.push(false);
        i = i + 1;
    }
    let mut j: usize = 0;
    while j < items.len()
        invariant
            n == board.num_cells(),
            n <= MAX_CELLS,
            r@.len() == n,
            j <= items@.len(),
            forall|k: int| 0 <= k < items@.len() ==> items@[k] < n,
            forall|i: int|
                0 <= i < n ==> (r@[i] <==> exists|k: int|
                    0 <= k < j && #[trigger] items@[k] == i as u32),
        decreases items@.len() - j,
    {
        let v = items[j];
        r.set(v as usize, true);
        proof {
            assert forall|i: int| 0 <= i < n implies (r@[i] <==> exists|k: int|
                0 <= k < j + 1 && #[trigger] items@[k] == i as u32) by {
                if i == v as int {
                    assert(items@[j as int] == i as u32);
                }
            }
        }
        j = j + 1;
    }
    proof {
        assert forall|i: int| 0 <= i < n implies (r@[i] <==> items@.contains(i as u32)) by {
            if items@.contains(i as u32) {
                let k = choose|k: int| 0 <= k < items@.len() && items@[k] == i as u32;
            }
        }
    }
    r
}

/// The indices of `available` that border one of `cells`, each once.
pub fn free_neighbors(cells: &Vec<Coordinates>, board: &GameY, available: &Vec<u32>) -> (r: Vec<u32>)
    requires
        board.wf(),
        forall|k: int| 0 <= k < cells@.len() ==> board.holds(#[trigger] cells@[k]),
        forall|k: int| 0 <= k < available@.len() ==> available@[k] < board.num_cells(),
    ensures
        r@.no_duplicates(),
        forall|k: int|
            0 <= k < r@.len() ==> available@.contains(#[trigger] r@[k]) && borders_any(
                board,
                cells@,
                r@[k] as int,
            ),
        forall|i: int|
            available@.contains(i as u32) && borders_any(board, cells@, i) ==> r@.contains(
                i as u32,
            ),
{
    let size = board.size;
    proof {
        lemma_tri_bound(board.size as nat);
        assert forall|b: Coordinates| board.holds(b) implies b.index(size as nat) < board.num_cells() by {
            lemma_index_bound(b, size as nat);
        }
    }
    let open_cells = membership(board, available);
    let mut taken: Vec<bool> = Vec::new();
    let n = board.cells.len();
    let mut i: usize = 0;
    while i < n
        invariant
            n == board.num_cells(),
            i <= n,
            taken@.len() == i,
            forall|k: int| 0 <= k < i ==> !taken@[k],
        decreases n - i,
    {
        taken.push(false);
        i = i + 1;
    }
    let mut r: Vec<u32> = Vec::new();
    let mut j: usize = 0;
    while j < cells.len()
        invariant
            board.wf(),
            size == board.size,
            n == board.num_cells(),
            n <= MAX_CELLS,
            forall|b: Coordinates| board.holds(b) ==> #[trigger] b.index(size as nat) < n,
            j <= cells@.len(),
            forall|k: int| 0 <= k < cells@.len() ==> board.holds(#[trigger] cells@[k]),
            forall|k: int| 0 <= k < available@.len() ==> available@[k] < n,
            open_cells@.len() == n,
            forall|i: int| 0 <= i < n ==> (open_cells@[i] <==> available@.contains(i as u32)),
            taken@.len() == n,
            forall|i: int| 0 <= i < n ==> (taken@[i] <==> r@.contains(i as u32)),
            r@.no_duplicates(),
            forall|k: int|
                0 <= k < r@.len() ==> available@.contains(#[trigger] r@[k]) && borders_any(
                    board,
                    cells@,
                    r@[k] as int,
                ) && r@[k] < n,
            forall|jj: int, b: Coordinates|
                0 <= jj < j && board.holds(b) && #[trigger] adjacent(cells@[jj], b)
                    && available@.contains(b.index(size as nat) as u32) ==> taken@[b.index(
                    size as nat,
                ) as int],
        decreases cells@.len() - j,
    {
        let around = board.get_neighbors(&cells[j]);
        let mut m: usize = 0;
        while m < around.len()
            invariant
                board.wf(),
                size == board.size,
                n == board.num_cells(),
                n <= MAX_CELLS,
                forall|b: Coordinates| board.holds(b) ==> #[trigger] b.index(size as nat) < n,
                j < cells@.len(),
                m <= around@.len(),
                forall|k: int| 0 <= k < cells@.len() ==> board.holds(#[trigger] cells@[k]),
                forall|k: int| 0 <= k < available@.len() ==> available@[k] < n,
                forall|k: int|
                    0 <= k < around@.len() ==> board.holds(#[trigger] around@[k]) && adjacent(
                        cells@[j as int],
                        around@[k],
                    ),
                forall|b: Coordinates|
                    board.holds(b) && adjacent(cells@[j as int], b) ==> around@.contains(b),
                open_cells@.len() == n,
                forall|i: int| 0 <= i < n ==> (open_cells@[i] <==> available@.contains(i as u32)),
                taken@.len() == n,
                forall|i: int| 0 <= i < n ==> (taken@[i] <==> r@.contains(i as u32)),
                r@.no_duplicates(),
                forall|k: int|
                    0 <= k < r@.len() ==> available@.contains(#[trigger] r@[k]) && borders_any(
                        board,
                        cells@,
                        r@[k] as int,
                    ) && r@[k] < n,
                forall|jj: int, b: Coordinates|
                    0 <= jj < j && board.holds(b) && #[trigger] adjacent(cells@[jj], b)
                        && available@.contains(b.index(size as nat) as u32) ==> taken@[b.index(
                        size as nat,
                    ) as int],
                forall|k: int|
                    0 <= k < m && available@.contains(
                        #[trigger] around@[k].index(size as nat) as u32,
                    ) ==> taken@[around@[k].index(size as nat) as int],
            decreases around@.len() - m,
        {
            let b = around[m];
            proof {
                lemma_index_bound(b, size as nat);
            }
            let idx = b.to_index(size);
            if open_cells[idx as usize] && !taken[idx as usize] {
                let ghost prev = r@;
                proof {
                    assert(borders_any(board, cells@, idx as int)) by {
                        assert(adjacent(cells@[j as int], b));
                    }
                }
                r.push(idx);
                taken.set(idx as usize, true);
                proof {
                    assert(r@[r@.len() - 1] == idx);
                    assert forall|i: int| 0 <= i < n implies (taken@[i] <==> r@.contains(
                        i as u32,
                    )) by {
                        if i != idx as int && r@.contains(i as u32) {
                            let k = choose|k: int| 0 <= k < r@.len() && r@[k] == i as u32;
                            assert(k < prev.len());
                            assert(prev[k] == i as u32);
                        }
                        if prev.contains(i as u32) {
                            let k = choose|k: int| 0 <= k < prev.len() && prev[k] == i as u32;
                            assert(r@[k] == i as u32);
                        }
                    }
                }
            }
            m = m + 1;
        }
        proof {
            assert forall|jj: int, b: Coordinates|
                0 <= jj < j + 1 && board.holds(b) && #[trigger] adjacent(cells@[jj], b)
                    && available@.contains(b.index(size as nat) as u32) implies taken@[b.index(
                    size as nat,
                ) as int] by {
                if jj == j {
                    let k = choose|k: int| 0 <= k < around@.len() && around@[k] == b;
                    assert(available@.contains(around@[k].index(size as nat) as u32));
                }
            }
        }
        j = j + 1;
    }
    proof {
        assert forall|i: int|
            available@.contains(i as u32) && borders_any(board, cells@, i) implies r@.contains(
            i as u32,
        ) by {
            let (jj, b) = choose|jj: int, b: Coordinates|
                0 <= jj < cells@.len() && board.holds(b) && #[trigger] adjacent(cells@[jj], b)
                    && b.index(size as nat) == i;
        }
    }
    r
}

/// When `cells` lists exactly the pieces of `p`, bordering one of `cells` is
/// bordering a piece of `p`.
pub proof fn lemma_borders_listed(board: &GameY, p: PlayerId, cells: Seq<Coordinates>, i: int)
    requires
        forall|k: int| 0 <= k < cells.len() ==> board.owned_by(#[trigger] cells[k], p),
        forall|c: Coordinates| board.owned_by(c, p) ==> cells.contains(c),
    ensures
        borders_any(board, cells, i) <==> borders_player(board, p, i),
{
    if borders_any(board, cells, i) {
        let (j, b) = choose|j: int, b: Coordinates|
            0 <= j < cells.len() && board.holds(b) && #[trigger] adjacent(cells[j], b) && b.index(
                board.size as nat,
            ) == i;
        assert(board.owned_by(cells[j], p));
    }
    if borders_player(board, p, i) {
        let (c, b) = choose|c: Coordinates, b: Coordinates|
            board.owned_by(c, p) && board.holds(b) && #[trigger] adjacent(c, b) && b.index(
                board.size as nat,
            ) == i;
        assert(cells.contains(c));
        let j = choose|j: int| 0 <= j < cells.len() && cells[j] == c;
        assert(adjacent(cells[j], b));
    }
}

/// A cell whose index is listed among the empty cells is empty.
pub proof fn lemma_listed_is_free(board: &GameY, avail: Seq<u32>, c: Coordinates)
    requires
        board.wf(),
        board.holds(c),
        forall|k: int| 0 <= k < avail.len() ==> board.is_free(#[trigger] avail[k] as int),
        avail.contains(c.index(board.size as nat) as u32),
    ensures
        board.free_at(c),
{
    lemma_index_bound(c, board.size as nat);
    lemma_tri_bound(board.size as nat);
    let k = choose|k: int| 0 <= k < avail.len() && avail[k] == c.index(board.size as nat) as u32;
    assert(board.is_free(avail[k] as int));
}

/// The cell whose index stands at position `k` of `items`.
pub fn pick_cell_at(board: &GameY, items: &Vec<u32>, k: usize) -> (r: Coordinates)
    requires
        board.wf(),
        k < items@.len(),
        items@[k as int] < board.num_cells(),
    ensures
        board.holds(r),
        r.index(board.size as nat) == items@[k as int],
        r == cell_at(items@[k as int] as nat, board.size as nat),
{
    let c = Coordinates::from_index(items[k], board.size);
    proof {
        lemma_cell_at(c, board.size as nat);
    }
    c
}

/// A cell drawn uniformly from the indices in `items`, as coordinates.
pub fn pick_cell(board: &GameY, items: &Vec<u32>) -> (r: Option<Coordinates>)
    requires
        board.wf(),
        forall|k: int| 0 <= k < items@.len() ==> items@[k] < board.num_cells(),
    ensures
        r is None <==> items@.len() == 0,
        r matches Some(c) ==> board.holds(c) && items@.contains(c.index(board.size as nat) as u32),
{
    if items.len() == 0 {
        return None;
    }
    let k = random_below(items.len());
    let c = pick_cell_at(board, items, k);
    proof {
        lemma_index_bound(c, board.size as nat);
        lemma_tri_bound(board.size as nat);
        assert(items@[k as int] == c.index(board.size as nat) as u32);
    }
    Some(c)
}

/// A list that holds every empty cell and only empty cells holds an index
/// exactly when that cell is empty.
pub proof fn lemma_free_list_exact(board: &GameY, avail: Seq<u32>)
    requires
        forall|k: int| 0 <= k < avail.len() ==> board.is_free(#[trigger] avail[k] as int),
        forall|i: int| board.is_free(i) ==> avail.contains(i as u32),
    ensures
        forall|i: u32| #[trigger] avail.contains(i) <==> board.is_free(i as int),
{
    assert forall|i: u32| #[trigger] avail.contains(i) implies board.is_free(i as int) by {
        let k = choose|k: int| 0 <= k < avail.len() && avail[k] == i;
    }
}

/// An empty cell next to a piece of `p`, or any empty cell when no empty
/// cell is next to one.
pub open spec fn near_or_any(board: &GameY, p: PlayerId, i: u32) -> bool {
    board.is_free(i as int) && (player_has_frontier(board, p) ==> borders_player(board, p, i as int))
}

/// `cands` lists each index allowed by `near_or_any` once, and no other.
pub open spec fn lists_near_or_any(board: &GameY, p: PlayerId, cands: Seq<u32>) -> bool {
    &&& cands.no_duplicates()
    &&& forall|i: u32| #[trigger] cands.contains(i) <==> near_or_any(board, p, i)
}

/// The score at position `k` is the highest of `scores`.
pub open spec fn is_top(scores: Seq<i64>, k: int) -> bool {
    forall|k2: int| 0 <= k2 < scores.len() ==> scores[k2] <= scores[k]
}

/// The entries of `items` whose score is the highest, each once, in order.
pub fn top_scored(items: &Vec<u32>, scores: &Vec<i64>) -> (r: Vec<u32>)
    requires
        items@.len() == scores@.len(),
        items@.len() > 0,
        items@.no_duplicates(),
    ensures
        r@.len() > 0,
        r@.no_duplicates(),
        forall|m: int| 0 <= m < r@.len() ==> items@.contains(#[trigger] r@[m]),
        forall|k: int|
            0 <= k < items@.len() ==> (r@.contains(#[trigger] items@[k]) <==> is_top(scores@, k)),
{
    let n = scores.len();
    let mut best: i64 = scores[0];
    let ghost mut at: int = 0;
    let mut k: usize = 1;
    while k < n
        invariant
            n == scores@.len(),
            1 <= k <= n,
            0 <= at < k,
            scores@[at] == best,
            forall|k2: int| 0 <= k2 < k ==> scores@[k2] <= best,
        decreases n - k,
    {
        if scores[k] > best {
            best = scores[k];
            proof {
                at = k as int;
            }
        }
        k = k + 1;
    }
    let mut r: Vec<u32> = Vec::new();
    let ghost mut pos: Seq<int> = Seq::empty();
    let mut k: usize = 0;
    while k < n
        invariant
            n == scores@.len(),
            n == items@.len(),
            items@.no_duplicates(),
            k <= n,
            0 <= at < n,
            scores@[at] == best,
            forall|k2: int| 0 <= k2 < n ==> scores@[k2] <= best,
            pos.len() == r@.len(),
            forall|m: int|
                0 <= m < r@.len() ==> 0 <= #[trigger] pos[m] < k && items@[pos[m]] == r@[m]
                    && scores@[pos[m]] == best,
            forall|m1: int, m2: int| 0 <= m1 < m2 < r@.len() ==> #[trigger] pos[m1] < #[trigger] pos[m2],
            forall|k2: int| 0 <= k2 < k && scores@[k2] == best ==> r@.contains(#[trigger] items@[k2]),
        decreases n - k,
    {
        if scores[k] == best {
            let ghost prev = r@;
            let ghost prev_pos = pos;
            r.push(items[k]);
            proof {
                pos = pos.push(k as int);
                assert forall|m: int|
                    0 <= m < r@.len() implies 0 <= #[trigger] pos[m] < k + 1 && items@[pos[m]] == r@[m]
                    && scores@[pos[m]] == best by {
                    if m < prev.len() {
                        assert(prev_pos[m] == pos[m] && prev[m] == r@[m]);
                    }
                }
                assert forall|k2: int| 0 <= k2 < k + 1 && scores@[k2] == best implies r@.contains(
                    #[trigger] items@[k2],
                ) by {
                    if k2 < k {
                        let m = choose|m: int| 0 <= m < prev.len() && prev[m] == items@[k2];
                        assert(r@[m] == prev[m]);
                    } else {
                        assert(r@[prev.len() as int] == items@[k2]);
                    }
                }
            }
        }
        k = k + 1;
    }
    proof {
        assert(r@.contains(items@[at]));
        assert forall|m1: int, m2: int| 0 <= m1 < r@.len() && 0 <= m2 < r@.len() && m1 != m2 implies r@[m1]
            != r@[m2] by {
            if m1 < m2 {
                assert(pos[m1] < pos[m2]);
            } else {
                assert(pos[m2] < pos[m1]);
            }
        }
        assert(r@.no_duplicates());
        assert forall|m: int| 0 <= m < r@.len() implies items@.contains(#[trigger] r@[m]) by {
            assert(items@[pos[m]] == r@[m]);
        }
        assert forall|k2: int| 0 <= k2 < n implies (r@.contains(#[trigger] items@[k2]) <==> is_top(
            scores@,
            k2,
        )) by {
            if r@.contains(items@[k2]) {
                let m = choose|m: int| 0 <= m < r@.len() && r@[m] == items@[k2];
                assert(items@[pos[m]] == items@[k2]);
            }
            if is_top(scores@, k2) {
                assert(scores@[at] <= scores@[k2]);
            }
        }
    }
    r
}

/// Plays next to the pieces of `p`: one of `candidates`, the empty cells
/// that border them, drawn uniformly, or any empty cell when there is none.
pub fn pick_near_or_any(board: &GameY, p: PlayerId, available: &Vec<u32>, candidates: &Vec<u32>) -> (r:
    Option<Coordinates>)
    requires
        board.wf(),
        available@.len() > 0,
        available@.no_duplicates(),
        forall|k: int| 0 <= k < available@.len() ==> board.is_free(#[trigger] available@[k] as int),
        forall|i: int| board.is_free(i) ==> available@.contains(i as u32),
        candidates@.no_duplicates(),
        forall|i: u32|
            #[trigger] candidates@.contains(i) <==> available@.contains(i) && borders_player(
                board,
                p,
                i as int,
            ),
    ensures
        r is Some,
        r matches Some(c) ==> board.free_at(c),
        r matches Some(c) ==> (player_has_frontier(board, p) ==> borders_player(
            board,
            p,
            c.index(board.size as nat) as int,
        )),
        r matches Some(c) ==> exists|cands: Seq<u32>|
            #[trigger] lists_near_or_any(board, p, cands) && cands.contains(
                c.index(board.size as nat) as u32,
            ),
{
    proof {
        lemma_free_list_exact(board, available@);
        lemma_tri_bound(board.size as nat);
        assert forall|k: int| 0 <= k < available@.len() implies available@[k] < board.num_cells() by {
            assert(board.is_free(available@[k] as int));
        }
    }
    if candidates.len() == 0 {
        assert(!player_has_frontier(board, p)) by {
            if player_has_frontier(board, p) {
                let i = choose|i: int| board.is_free(i) && #[trigger] borders_player(board, p, i);
                assert(candidates@.contains(i as u32));
            }
        }
        let r = pick_cell(board, available);
        proof {
            if let Some(c) = r {
                lemma_listed_is_free(board, available@, c);
                assert(lists_near_or_any(board, p, available@));
            }
        }
        return r;
    }
    proof {
        assert forall|k: int| 0 <= k < candidates@.len() implies candidates@[k] < board.num_cells() by {
            assert(candidates@.contains(candidates@[k]));
            assert(board.is_free(candidates@[k] as int));
        }
    }
    let r = pick_cell(board, candidates);
    proof {
        if let Some(c) = r {
            lemma_index_bound(c, board.size as nat);
            let i = c.index(board.size as nat) as u32;
            assert(candidates@.contains(i));
            lemma_listed_is_free(board, available@, c);
            assert(player_has_frontier(board, p)) by {
                assert(board.is_free(i as int) && borders_player(board, p, i as int));
            }
            assert(lists_near_or_any(board, p, candidates@));
        }
    }
    r
}

} // verus!
