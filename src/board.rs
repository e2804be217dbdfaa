use vstd::prelude::*;

use crate::coords::MAX_CELLS;
use vstd::set_lib::{lemma_int_range, lemma_len_subset, set_int_range};

use crate::coords::{
    adjacent, cell_count, neighbor_seq, lemma_index_bound, lemma_index_injective, lemma_tri_bound, neighbors_of, valid_size,
    Coordinates, PlayerId,
};

verus! {

/// Whether a game is still running, and who won it otherwise.
#[derive(Clone, Copy, Debug, PartialEq, Eq, Structural)]
pub enum GameStatus {
    InProgress,
    Finished { winner: PlayerId },
}

/// An action a player takes on the board.
#[derive(Clone, Copy, Debug, PartialEq, Eq, Structural)]
pub enum Movement {
    Placement { player: PlayerId, coords: Coordinates },
}

/// Why a placement was refused.
#[derive(Clone, Copy, Debug, PartialEq, Eq, Structural)]
pub enum GameYError {
    GameOver,
    InvalidPlayer,
    OutOfBounds,
    Occupied,
}

/// The mathematical state of a board.
pub struct BoardState {
    pub size: nat,
    pub cells: Seq<Option<PlayerId>>,
    pub turn: PlayerId,
    pub status: GameStatus,
}

/// A board of side `size`: the owner of each cell by dense index, whose turn
/// comes next, and the state of the game.
#[derive(Debug)]
pub struct GameY {
    pub size: u32,
    pub cells: Vec<Option<PlayerId>>,
    pub turn: PlayerId,
    pub status: GameStatus,
}

impl GameY {
    pub open spec fn wf(&self) -> bool {
        &&& valid_size(self.size as nat)
        &&& self.cells@.len() == cell_count(self.size as nat)
        &&& self.turn.is_valid()
        &&& forall|i: int|
            #![trigger self.cells@[i]]
            0 <= i < self.cells@.len() && self.cells@[i] is Some ==> self.cells@[i]->0.is_valid()
        &&& self.status matches GameStatus::Finished { winner } ==> winner.is_valid()
            && exists|s: Coordinates| #[trigger] self.owned_by(s, winner) && self.wins_from(winner, s)
    }

    pub open spec fn state(&self) -> BoardState {
        BoardState {
            size: self.size as nat,
            cells: self.cells@,
            turn: self.turn,
            status: self.status,
        }
    }

    pub open spec fn num_cells(&self) -> nat {
        self.cells@.len()
    }

    pub open spec fn is_free(&self, i: int) -> bool {
        0 <= i < self.cells@.len() && self.cells@[i] is None
    }

    pub open spec fn has_free_cell(&self) -> bool {
        exists|i: int| self.is_free(i)
    }

    pub open spec fn owner_of(&self, c: Coordinates) -> Option<PlayerId> {
        self.cells@[c.index(self.size as nat) as int]
    }

    pub open spec fn holds(&self, c: Coordinates) -> bool {
        c.valid_for(self.size as nat)
    }

    /// The cell `c` of this board is empty.
    pub open spec fn free_at(&self, c: Coordinates) -> bool {
        self.holds(c) && self.owner_of(c) is None
    }

    /// The cell `c` of this board belongs to `p`.
    pub open spec fn owned_by(&self, c: Coordinates, p: PlayerId) -> bool {
        self.holds(c) && self.owner_of(c) == Some(p)
    }

    pub open spec fn is_over(&self) -> bool {
        self.status is Finished
    }

    pub open spec fn spec_next_player(&self) -> Option<PlayerId> {
        if self.is_over() {
            None
        } else {
            Some(self.turn)
        }
    }

    /// An empty board of side `size`, player 0 to move.
    pub fn new(size: u32) -> (r: GameY)
        requires
            valid_size(size as nat),
        ensures
            r.wf(),
            r.size == size,
            r.turn.id == 0,
            r.status == GameStatus::InProgress,
            forall|i: int| 0 <= i < r.num_cells() ==> r.is_free(i),
    {
        proof {
            lemma_tri_bound(size as nat);
        }
        let n = total_cells(size);
        let mut cells: Vec<Option<PlayerId>> = Vec::new();
        let mut i: u32 = 0;
        while i < n
            invariant
                i <= n,
                cells@.len() == i,
                forall|k: int| 0 <= k < i ==> cells@[k] is None,
            decreases n - i,
        {
            cells.push(None);
            i = i + 1;
        }
        GameY { size, cells, turn: PlayerId { id: 0 }, status: GameStatus::InProgress }
    }

    pub fn board_size(&self) -> (r: u32)
        ensures
            r == self.size,
    {
        self.size
    }

    /// The group of `p` that holds `s` touches all three sides of the board.
    pub open spec fn wins_from(&self, p: PlayerId, s: Coordinates) -> bool {
        group_wins(self.size as nat, self.cells@, p, s)
    }

    /// An independent copy of this board.
    pub fn duplicate(&self) -> (r: GameY)
        requires
            self.wf(),
        ensures
            r.wf(),
            r.size == self.size,
            r.cells@ == self.cells@,
            r.turn == self.turn,
            r.status == self.status,
    {
        let mut cells: Vec<Option<PlayerId>> = Vec::new();
        let mut i: usize = 0;
        while i < self.cells.len()
            invariant
                i <= self.cells@.len(),
                cells@ == self.cells@.subrange(0, i as int),
            decreases self.cells@.len() - i,
        {
            cells.push(self.cells[i]);
            i = i + 1;
        }
        assert(cells@ == self.cells@);
        let r = GameY { size: self.size, cells, turn: self.turn, status: self.status };
        proof {
            if let GameStatus::Finished { winner } = self.status {
                let s = choose|s: Coordinates| #[trigger] self.owned_by(s, winner) && self.wins_from(winner, s);
                assert(r.owned_by(s, winner) && r.wins_from(winner, s));
            }
        }
        r
    }

    /// The player to move, or `None` once the game is over.
    pub fn next_player(&self) -> (r: Option<PlayerId>)
        ensures
            r == self.spec_next_player(),
    {
        match self.status {
            GameStatus::InProgress => Some(self.turn),
            GameStatus::Finished { .. } => None,
        }
    }

    pub fn status(&self) -> (r: GameStatus)
        ensures
            r == self.status,
    {
        self.status
    }

    pub fn check_game_over(&self) -> (r: bool)
        ensures
            r == self.is_over(),
    {
        match self.status {
            GameStatus::InProgress => false,
            GameStatus::Finished { .. } => true,
        }
    }

    /// The owner of cell `c`, if any.
    pub fn player_at(&self, c: &Coordinates) -> (r: Option<PlayerId>)
        requires
            self.wf(),
            self.holds(*c),
        ensures
            r == self.owner_of(*c),
    {
        let idx = c.to_index(self.size);
        self.cells[idx as usize]
    }

    /// The cells that border `c`, whoever owns them.
    pub fn get_neighbors(&self, c: &Coordinates) -> (r: Vec<Coordinates>)
        requires
            self.wf(),
            self.holds(*c),
        ensures
            r@ == neighbor_seq(*c),
            r@.len() <= 6,
            r@.no_duplicates(),
            forall|k: int| 0 <= k < r@.len() ==> self.holds(#[trigger] r@[k]) && adjacent(*c, r@[k]),
            forall|b: Coordinates| self.holds(b) && adjacent(*c, b) ==> r@.contains(b),
    {
        neighbors_of(c, self.size)
    }

    /// The indices of the empty cells, in increasing order.
    pub fn available_cells(&self) -> (r: Vec<u32>)
        requires
            self.wf(),
        ensures
            forall|a: int, b: int| 0 <= a < b < r@.len() ==> r@[a] < r@[b],
            forall|k: int| 0 <= k < r@.len() ==> self.is_free(#[trigger] r@[k] as int),
            forall|i: int| self.is_free(i) ==> r@.contains(i as u32),
            r@.no_duplicates(),
    {
        proof {
            lemma_tri_bound(self.size as nat);
        }
        let mut r: Vec<u32> = Vec::new();
        let mut i: usize = 0;
        while i < self.cells.len()
            invariant
                self.wf(),
                i <= self.cells@.len(),
                forall|a: int, b: int| 0 <= a < b < r@.len() ==> r@[a] < r@[b],
                forall|k: int| 0 <= k < r@.len() ==> r@[k] < i && self.is_free(#[trigger] r@[k] as int),
                forall|j: int| 0 <= j < i && self.is_free(j) ==> r@.contains(j as u32),
                self.cells@.len() <= MAX_CELLS,
            decreases self.cells@.len() - i,
        {
            if self.cells[i].is_none() {
                let ghost prev = r@;
                r.push(i as u32);
                proof {
                    assert forall|j: int| 0 <= j < i + 1 && self.is_free(j) implies r@.contains(
                        j as u32,
                    ) by {
                        if j == i {
                            assert(r@[r@.len() - 1] == i as u32);
                        } else {
                            let k = choose|k: int| 0 <= k < prev.len() && prev[k] == j as u32;
                            assert(r@[k] == j as u32);
                        }
                    }
                }
            }
            i = i + 1;
        }
        r
    }

    /// The cells that belong to `p`, in increasing index order.
    pub fn cells_for_player(&self, p: PlayerId) -> (r: Vec<Coordinates>)
        requires
            self.wf(),
        ensures
            forall|k: int| 0 <= k < r@.len() ==> self.owned_by(#[trigger] r@[k], p),
            forall|c: Coordinates| self.owned_by(c, p) ==> r@.contains(c),
            r@.no_duplicates(),
    {
        proof {
            lemma_tri_bound(self.size as nat);
        }
        let mut r: Vec<Coordinates> = Vec::new();
        let mut i: usize = 0;
        while i < self.cells.len()
            invariant
                self.wf(),
                i <= self.cells@.len(),
                forall|k: int|
                    0 <= k < r@.len() ==> self.owned_by(#[trigger] r@[k], p) && r@[k].index(
                        self.size as nat,
                    ) < i,
                forall|c: Coordinates|
                    self.owned_by(c, p) && c.index(self.size as nat) < i ==> r@.contains(c),
                r@.no_duplicates(),
                self.cells@.len() <= MAX_CELLS,
            decreases self.cells@.len() - i,
        {
            if self.cells[i] == Some(p) {
                let c = Coordinates::from_index(i as u32, self.size);
                proof {
                    assert forall|c2: Coordinates|
                        self.owned_by(c2, p) && c2.index(self.size as nat) < i + 1 implies (r@.push(
                            c,
                        )).contains(c2) by {
                        lemma_index_bound(c2, self.size as nat);
                        if c2.index(self.size as nat) == i {
                            lemma_index_injective(c, c2, self.size as nat);
                            assert(r@.push(c)[r@.len() as int] == c);
                        } else {
                            let k = choose|k: int| 0 <= k < r@.len() && r@[k] == c2;
                            assert(r@.push(c)[k] == c2);
                        }
                    }
                }
                r.push(c);
            }
            i = i + 1;
        }
        proof {
            assert forall|c: Coordinates| self.owned_by(c, p) implies r@.contains(c) by {
                lemma_index_bound(c, self.size as nat);
            }
        }
        r
    }
    /// Walks the group of `p` that holds `start` and reports whether it
    /// touches the three sides.
    #[verifier::rlimit(100)]
    #[verifier::spinoff_prover]
    fn group_touches_all_sides(&self, start: Coordinates, p: PlayerId) -> (r: bool)
        requires
            self.wf(),
            self.owned_by(start, p),
        ensures
            r == self.wins_from(p, start),
    {
        let ghost size = self.size as nat;
        let ghost cells = self.cells@;
        proof {
            lemma_tri_bound(self.size as nat);
            lemma_index_bound(start, self.size as nat);
            lemma_int_range(0, self.cells@.len() as int);
            let path = seq![start];
            assert(is_chain(size, cells, p, path));
        }
        let n = self.cells.len();
        let mut seen: Vec<bool> = Vec::new();
        let mut i: usize = 0;
        while i < n
            invariant
                i <= n,
                n == self.cells@.len(),
                seen@.len() == i,
                forall|k: int| 0 <= k < i ==> !seen@[k],
            decreases n - i,
        {
            seen.push(false);
            i = i + 1;
        }
        let first = start.to_index(self.size);
        seen.set(first as usize, true);
        let ghost mut marked: Set<int> = set![first as int];
        let mut stack: Vec<Coordinates> = Vec::new();
        stack.push(start);
        proof {
            assert forall|c: Coordinates|
                c.valid_for(size) && marked.contains(c.index(size) as int) implies stack@.contains(c)
                && owns(size, cells, p, c) && linked(size, cells, p, start, c) by {
                lemma_index_injective(c, start, size);
                assert(stack@[0] == c);
            }
        }
        while stack.len() > 0
            invariant
                self.wf(),
                size == self.size,
                cells == self.cells@,
                self.owned_by(start, p),
                n == self.cells@.len(),
                n <= MAX_CELLS,
                seen@.len() == n,
                forall|k: int| 0 <= k < n ==> (seen@[k] <==> marked.contains(k)),
                marked.subset_of(set_int_range(0, n as int)),
                set_int_range(0, n as int).finite(),
                set_int_range(0, n as int).len() == n,
                marked.finite(),
                marked.contains(start.index(size) as int),
                forall|k: int|
                    0 <= k < stack@.len() ==> self.owned_by(#[trigger] stack@[k], p) && linked(
                        size,
                        cells,
                        p,
                        start,
                        stack@[k],
                    ),
                forall|c: Coordinates|
                    c.valid_for(size) && #[trigger] marked.contains(c.index(size) as int) ==> owns(
                        size,
                        cells,
                        p,
                        c,
                    ) && linked(size, cells, p, start, c) && (stack@.contains(c) || closed(
                        size,
                        cells,
                        p,
                        marked,
                        c,
                    )),
            decreases n - marked.len(), stack@.len(),
        {
            proof {
                lemma_len_subset(marked, set_int_range(0, n as int));
            }
            let ghost marked_before = marked.len();
            let ghost stack_before = stack@;
            let cur = stack.pop().unwrap();
            assert(linked(size, cells, p, start, cur));
            assert(stack_before.last() == cur);
            assert(stack_before == stack@.push(cur));
            proof {
                assert forall|c: Coordinates|
                    c.valid_for(size) && #[trigger] marked.contains(c.index(size) as int) && c
                        != cur implies stack@.contains(c) || closed(size, cells, p, marked, c) by {
                    if stack_before.contains(c) && !closed(size, cells, p, marked, c) {
                        let k = choose|k: int| 0 <= k < stack_before.len() && stack_before[k] == c;
                        assert(k < stack@.len());
                        assert(stack@[k] == c);
                    }
                }
            }
            let ghost stack_after_pop = stack@.len();
            let around = neighbors_of(&cur, self.size);
            let mut j: usize = 0;
            while j < around.len()
                invariant
                    self.wf(),
                    size == self.size,
                    cells == self.cells@,
                    n == self.cells@.len(),
                    n <= MAX_CELLS,
                    seen@.len() == n,
                    forall|k: int| 0 <= k < n ==> (seen@[k] <==> marked.contains(k)),
                    marked.subset_of(set_int_range(0, n as int)),
                    set_int_range(0, n as int).finite(),
                    set_int_range(0, n as int).len() == n,
                    marked.contains(start.index(size) as int),
                    forall|k: int|
                        0 <= k < stack@.len() ==> self.owned_by(#[trigger] stack@[k], p)
                            && linked(size, cells, p, start, stack@[k]),
                    self.owned_by(cur, p),
                    linked(size, cells, p, start, cur),
                    forall|k: int|
                        0 <= k < around@.len() ==> #[trigger] around@[k].valid_for(size)
                            && adjacent(cur, around@[k]),
                    forall|b: Coordinates|
                        b.valid_for(size) && adjacent(cur, b) ==> around@.contains(b),
                    forall|k: int|
                        0 <= k < j && owns(size, cells, p, #[trigger] around@[k]) ==> marked.contains(
                            around@[k].index(size) as int,
                        ),
                    forall|c: Coordinates|
                        c.valid_for(size) && #[trigger] marked.contains(c.index(size) as int) ==> owns(
                            size,
                            cells,
                            p,
                            c,
                        ) && linked(size, cells, p, start, c) && (stack@.contains(c) || closed(
                            size,
                            cells,
                            p,
                            marked,
                            c,
                        ) || c == cur),
                    marked.finite(),
                    marked.len() >= marked_before,
                    marked.len() == marked_before ==> stack@.len() == stack_after_pop,
                    j <= around@.len(),
                decreases around@.len() - j,
            {
                let v = around[j];
                proof {
                    lemma_index_bound(v, self.size as nat);
                }
                let idx = v.to_index(self.size);
                if self.cells[idx as usize] == Some(p) && !seen[idx as usize] {
                    let ghost old_marked = marked;
                    let ghost old_stack = stack@;
                    proof {
                        let path = choose|path: Seq<Coordinates>|
                            is_chain(size, cells, p, path) && path[0] == start && path.last() == cur;
                        let longer = path.push(v);
                        assert(longer[longer.len() - 2] == cur);
                        assert(is_chain(size, cells, p, longer));
                        assert(longer[0] == start);
                        assert(!marked.contains(idx as int));
                        marked = marked.insert(idx as int);
                    }
                    seen.set(idx as usize, true);
                    stack.push(v);
                    proof {
                        assert(stack@[stack@.len() - 1] == v);
                        assert forall|c: Coordinates|
                            c.valid_for(size) && #[trigger] marked.contains(
                                c.index(size) as int,
                            ) implies owns(size, cells, p, c) && linked(size, cells, p, start, c)
                            && (stack@.contains(c) || closed(size, cells, p, marked, c)
                            || c == cur) by {
                            if c.index(size) == idx {
                                lemma_index_injective(c, v, size);
                            } else {
                                assert(old_marked.contains(c.index(size) as int));
                                if old_stack.contains(c) {
                                    let k = choose|k: int|
                                        0 <= k < old_stack.len() && old_stack[k] == c;
                                    assert(stack@[k] == c);
                                } else if closed(size, cells, p, old_marked, c) {
                                    assert forall|b: Coordinates|
                                        b.valid_for(size) && adjacent(c, b) && owns(
                                            size,
                                            cells,
                                            p,
                                            b,
                                        ) implies #[trigger] marked.contains(
                                        b.index(size) as int,
                                    ) by {
                                        assert(old_marked.contains(b.index(size) as int));
                                    }
                                }
                            }
                        }
                    }
                }
                j = j + 1;
            }
            proof {
                lemma_len_subset(marked, set_int_range(0, n as int));
                assert forall|b: Coordinates|
                    b.valid_for(size) && adjacent(cur, b) && owns(
                        size,
                        cells,
                        p,
                        b,
                    ) implies #[trigger] marked.contains(b.index(size) as int) by {
                    let k = choose|k: int| 0 <= k < around@.len() && around@[k] == b;
                }
                assert(closed(size, cells, p, marked, cur));
            }
        }
        proof {
            assert forall|c: Coordinates|
                c.valid_for(size) && #[trigger] marked.contains(c.index(size) as int) implies closed(
                size,
                cells,
                p,
                marked,
                c,
            ) by {}
        }
        let mut side_a = false;
        let mut side_b = false;
        let mut side_c = false;
        let mut i: usize = 0;
        while i < n
            invariant
                self.wf(),
                size == self.size,
                cells == self.cells@,
                n == self.cells@.len(),
                n <= MAX_CELLS,
                i <= n,
                seen@.len() == n,
                forall|k: int| 0 <= k < n ==> (seen@[k] <==> marked.contains(k)),
                side_a <==> exists|c: Coordinates|
                    c.valid_for(size) && c.index(size) < i && #[trigger] marked.contains(
                        c.index(size) as int,
                    ) && c.on_side_a(),
                side_b <==> exists|c: Coordinates|
                    c.valid_for(size) && c.index(size) < i && #[trigger] marked.contains(
                        c.index(size) as int,
                    ) && c.on_side_b(),
                side_c <==> exists|c: Coordinates|
                    c.valid_for(size) && c.index(size) < i && #[trigger] marked.contains(
                        c.index(size) as int,
                    ) && c.on_side_c(),
            decreases n - i,
        {
            if seen[i] {
                let c = Coordinates::from_index(i as u32, self.size);
                if c.x == 0 {
                    side_a = true;
                }
                if c.y == 0 {
                    side_b = true;
                }
                if c.z == 0 {
                    side_c = true;
                }
                proof {
                    assert forall|d: Coordinates|
                        d.valid_for(size) && d.index(size) == i implies d == c by {
                        lemma_index_injective(c, d, size);
                    }
                    assert(marked.contains(c.index(size) as int));
                }
            }
            proof {
                assert forall|d: Coordinates|
                    d.valid_for(size) && d.index(size) == i && #[trigger] marked.contains(
                        d.index(size) as int,
                    ) implies seen@[i as int] by {}
            }
            i = i + 1;
        }
        proof {
            reveal(group_wins);
            assert forall|a: Coordinates| #[trigger]
                linked(size, cells, p, start, a) implies a.valid_for(size) && marked.contains(
                a.index(size) as int,
            ) by {
                let path = choose|path: Seq<Coordinates>|
                    is_chain(size, cells, p, path) && path[0] == start && path.last() == a;
                lemma_closed_reaches(size, cells, p, marked, path, (path.len() - 1) as nat);
                lemma_index_bound(a, size);
            }
        }
        side_a && side_b && side_c
    }

    /// Places a piece. A placement is refused, and the board left as it was,
    /// when the game is over, the player is not one of the two, the cell is
    /// off the board or the cell is taken, checked in that order.
    #[verifier::rlimit(40)]
    pub fn add_move(&mut self, mv: Movement) -> (r: Result<(), GameYError>)
        requires
            old(self).wf(),
        ensures
            final(self).wf(),
            r == match placement_error(*old(self), mv) {
                Some(e) => Err(e),
                None => Ok(()),
            },
            r is Err ==> *final(self) == *old(self),
            r is Ok ==> placed(*old(self), *final(self), mv),
    {
        let Movement::Placement { player, coords } = mv;
        if self.check_game_over() {
            return Err(GameYError::GameOver);
        }
        if player.id >= 2 {
            return Err(GameYError::InvalidPlayer);
        }
        if !valid_coords(&coords, self.size) {
            return Err(GameYError::OutOfBounds);
        }
        let idx = coords.to_index(self.size);
        proof {
            lemma_index_bound(coords, self.size as nat);
        }
        if self.cells[idx as usize].is_some() {
            return Err(GameYError::Occupied);
        }
        self.cells.set(idx as usize, Some(player));
        self.turn = player.other();
        assert(self.wf());
        if self.group_touches_all_sides(coords, player) {
            self.status = GameStatus::Finished { winner: player };
            assert(self.owned_by(coords, player) && self.wins_from(player, coords));
        }
        Ok(())
    }
}

/// `c` is a cell of a board of side `size` whose owner in `cells` is `p`.
pub open spec fn owns(size: nat, cells: Seq<Option<PlayerId>>, p: PlayerId, c: Coordinates) -> bool {
    c.valid_for(size) && cells[c.index(size) as int] == Some(p)
}

/// `path` walks from cell to neighbouring cell over pieces of `p` only.
pub open spec fn is_chain(
    size: nat,
    cells: Seq<Option<PlayerId>>,
    p: PlayerId,
    path: Seq<Coordinates>,
) -> bool {
    &&& path.len() > 0
    &&& forall|k: int| 0 <= k < path.len() ==> owns(size, cells, p, #[trigger] path[k])
    &&& forall|k: int| 0 <= k < path.len() - 1 ==> adjacent(#[trigger] path[k], path[k + 1])
}

/// The pieces of `p` at `a` and `c` belong to one connected group.
pub open spec fn linked(
    size: nat,
    cells: Seq<Option<PlayerId>>,
    p: PlayerId,
    a: Coordinates,
    c: Coordinates,
) -> bool {
    exists|path: Seq<Coordinates>|
        #![trigger is_chain(size, cells, p, path)]
        is_chain(size, cells, p, path) && path[0] == a && path.last() == c
}

/// Every piece of `p` next to `c` has its index in `marked`.
pub open spec fn closed(
    size: nat,
    cells: Seq<Option<PlayerId>>,
    p: PlayerId,
    marked: Set<int>,
    c: Coordinates,
) -> bool {
    forall|b: Coordinates|
        b.valid_for(size) && adjacent(c, b) && owns(size, cells, p, b) ==> #[trigger] marked.contains(
            b.index(size) as int,
        )
}

/// A set of indices that holds the first cell of a chain and is closed
/// around each of its cells holds the whole chain.
pub proof fn lemma_closed_reaches(
    size: nat,
    cells: Seq<Option<PlayerId>>,
    p: PlayerId,
    marked: Set<int>,
    path: Seq<Coordinates>,
    k: nat,
)
    requires
        is_chain(size, cells, p, path),
        k < path.len(),
        marked.contains(path[0].index(size) as int),
        forall|c: Coordinates|
            c.valid_for(size) && #[trigger] marked.contains(c.index(size) as int) ==> closed(
                size,
                cells,
                p,
                marked,
                c,
            ),
    ensures
        marked.contains(path[k as int].index(size) as int),
    decreases k,
{
    if k > 0 {
        lemma_closed_reaches(size, cells, p, marked, path, (k - 1) as nat);
        let prev = path[k - 1];
        assert(owns(size, cells, p, prev));
        assert(adjacent(path[k - 1], path[k as int]));
        assert(owns(size, cells, p, path[k as int]));
    }
}

/// The group of `p` that holds `s` touches all three sides of the board.
#[verifier::opaque]
pub open spec fn group_wins(size: nat, cells: Seq<Option<PlayerId>>, p: PlayerId, s: Coordinates) -> bool {
    &&& exists|a: Coordinates| #[trigger] linked(size, cells, p, s, a) && a.on_side_a()
    &&& exists|b: Coordinates| #[trigger] linked(size, cells, p, s, b) && b.on_side_b()
    &&& exists|c: Coordinates| #[trigger] linked(size, cells, p, s, c) && c.on_side_c()
}

/// Placing a piece on an empty cell keeps every winning group winning.
pub proof fn lemma_group_survives_placement(
    size: nat,
    cells: Seq<Option<PlayerId>>,
    p: PlayerId,
    s: Coordinates,
    i: int,
    q: PlayerId,
)
    requires
        group_wins(size, cells, p, s),
        cells.len() == cell_count(size),
        0 <= i < cells.len(),
        cells[i] is None,
    ensures
        group_wins(size, cells.update(i, Some(q)), p, s),
{
    reveal(group_wins);
    let after = cells.update(i, Some(q));
    assert forall|a: Coordinates| #[trigger] linked(size, cells, p, s, a) implies linked(size, after, p, s, a) by {
        let path = choose|path: Seq<Coordinates>|
            #![trigger is_chain(size, cells, p, path)]
            is_chain(size, cells, p, path) && path[0] == s && path.last() == a;
        assert forall|k: int| 0 <= k < path.len() implies owns(size, after, p, #[trigger] path[k]) by {
            assert(owns(size, cells, p, path[k]));
            lemma_index_bound(path[k], size);
        }
        assert(is_chain(size, after, p, path));
    }
}

/// Why `mv` cannot be played on `b`, if it cannot: the first of a finished
/// game, a player other than the two, a cell off the board, a taken cell.
pub open spec fn placement_error(b: GameY, mv: Movement) -> Option<GameYError> {
    let Movement::Placement { player, coords } = mv;
    if b.is_over() {
        Some(GameYError::GameOver)
    } else if !player.is_valid() {
        Some(GameYError::InvalidPlayer)
    } else if !b.holds(coords) {
        Some(GameYError::OutOfBounds)
    } else if !b.free_at(coords) {
        Some(GameYError::Occupied)
    } else {
        None
    }
}

/// `s` with a piece of `p` placed on `c`, the turn passed to the other
/// player, and the game won by `p` when the group that the new piece joins
/// touches all three sides.
pub open spec fn after_placement(s: BoardState, p: PlayerId, c: Coordinates) -> BoardState {
    let cells = s.cells.update(c.index(s.size) as int, Some(p));
    BoardState {
        size: s.size,
        cells,
        turn: p.spec_other(),
        status: if group_wins(s.size, cells, p, c) {
            GameStatus::Finished { winner: p }
        } else {
            GameStatus::InProgress
        },
    }
}

/// `after` is `before` with the piece of `mv` placed.
pub open spec fn placed(before: GameY, after: GameY, mv: Movement) -> bool {
    let Movement::Placement { player, coords } = mv;
    after.state() == after_placement(before.state(), player, coords)
}

/// Whether `c` is a cell of a board of side `size`.
pub fn valid_coords(c: &Coordinates, size: u32) -> (r: bool)
    ensures
        r == c.valid_for(size as nat),
{
    c.x as u64 + c.y as u64 + c.z as u64 + 1 == size as u64
}

/// Number of cells on a board of side `size`.
pub fn total_cells(size: u32) -> (r: u32)
    requires
        valid_size(size as nat),
    ensures
        r == cell_count(size as nat),
{
    proof {
        lemma_tri_bound(size as nat);
        crate::coords::lemma_tri_closed(size as nat);
    }
    assert((size as nat) * (size as nat + 1) <= 60000 * 60001) by (nonlinear_arith)
        requires
            size <= 60000,
    ;
    size * (size + 1) / 2
}

} // verus!
