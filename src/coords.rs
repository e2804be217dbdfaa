use vstd::prelude::*;

verus! {

/// The largest side length a board may have: every cell index then fits in a `u32`.
pub const MAX_BOARD_SIZE: u32 = 60000;

/// The number of cells of a board of the largest side.
pub const MAX_CELLS: u32 = 1800030000;

/// Number of cells in the first `n` rows of a triangular board.
pub open spec fn tri(n: nat) -> nat
    decreases n,
{
    if n == 0 {
        0
    } else {
        tri((n - 1) as nat) + n
    }
}

pub proof fn lemma_tri_closed(n: nat)
    ensures
        tri(n) == n * (n + 1) / 2,
    decreases n,
{
    if n > 0 {
        let m = (n - 1) as nat;
        lemma_tri_closed(m);
        assert(m * (m + 1) / 2 + n == n * (n + 1) / 2) by (nonlinear_arith)
            requires
                n == m + 1,
        ;
    } else {
        assert(n * (n + 1) / 2 == 0) by (nonlinear_arith)
            requires
                n == 0,
        ;
    }
}

pub proof fn lemma_tri_monotonic(a: nat, b: nat)
    requires
        a <= b,
    ensures
        tri(a) <= tri(b),
    decreases b,
{
    if a < b {
        lemma_tri_monotonic(a, (b - 1) as nat);
    }
}

pub proof fn lemma_tri_bound(n: nat)
    requires
        n <= MAX_BOARD_SIZE,
    ensures
        tri(n) <= MAX_CELLS,
{
    lemma_tri_closed(n);
    assert(n * (n + 1) <= 60000 * 60001) by (nonlinear_arith)
        requires
            n <= 60000,
    ;
}

/// Distinct cells of one board have distinct indices.
pub proof fn lemma_index_injective(a: Coordinates, b: Coordinates, size: nat)
    requires
        a.valid_for(size),
        b.valid_for(size),
        a.index(size) == b.index(size),
    ensures
        a == b,
{
    let ra = (size - 1 - a.x) as nat;
    let rb = (size - 1 - b.x) as nat;
    if ra < rb {
        lemma_tri_monotonic(ra + 1, rb);
    } else if rb < ra {
        lemma_tri_monotonic(rb + 1, ra);
    }
}

/// Every cell of a board has an index below the number of cells.
pub proof fn lemma_index_bound(c: Coordinates, size: nat)
    requires
        c.valid_for(size),
    ensures
        c.index(size) < cell_count(size),
{
    lemma_tri_monotonic((size - c.x) as nat, size);
}

/// The cell whose index on a board of side `size` is `i`.
pub open spec fn cell_at(i: nat, size: nat) -> Coordinates {
    choose|c: Coordinates| c.valid_for(size) && c.index(size) == i
}

pub proof fn lemma_cell_at(c: Coordinates, size: nat)
    requires
        c.valid_for(size),
    ensures
        cell_at(c.index(size), size) == c,
{
    let d = cell_at(c.index(size), size);
    lemma_index_injective(c, d, size);
}

proof fn lemma_index_witness(i: nat, size: nat, r: nat)
    requires
        valid_size(size),
        tri(r) <= i,
        r < size,
        i < tri(size),
    ensures
        exists|c: Coordinates| c.valid_for(size) && c.index(size) == i,
    decreases size - r,
{
    if i < tri(r + 1) {
        let y = (i - tri(r)) as nat;
        let c = Coordinates { x: (size - 1 - r) as u32, y: y as u32, z: (r - y) as u32 };
        assert(c.valid_for(size) && c.index(size) == i);
    } else {
        if r + 1 >= size {
            lemma_tri_monotonic(size, r + 1);
        }
        lemma_index_witness(i, size, r + 1);
    }
}

/// Every index below the number of cells names a cell of the board.
pub proof fn lemma_cell_at_valid(i: nat, size: nat)
    requires
        valid_size(size),
        i < cell_count(size),
    ensures
        cell_at(i, size).valid_for(size),
        cell_at(i, size).index(size) == i,
{
    lemma_index_witness(i, size, 0);
}

/// Identifier of one of the two players.
#[derive(Clone, Copy, Debug, PartialEq, Eq, Structural)]
pub struct PlayerId {
    pub id: u32,
}

impl PlayerId {
    pub fn new(id: u32) -> (r: PlayerId)
        ensures
            r.id == id,
    {
        PlayerId { id }
    }

    pub fn id(&self) -> (r: u32)
        ensures
            r == self.id,
    {
        self.id
    }

    pub open spec fn is_valid(self) -> bool {
        self.id < 2
    }

    pub open spec fn spec_other(self) -> PlayerId {
        PlayerId { id: if self.id == 0 { 1 } else { 0 } }
    }

    /// The complement of this player under the two-player scheme.
    pub fn other(&self) -> (r: PlayerId)
        ensures
            r == self.spec_other(),
    {
        if self.id == 0 {
            PlayerId { id: 1 }
        } else {
            PlayerId { id: 0 }
        }
    }
}

/// A cell of a triangular board of side `size`, written as three barycentric
/// components with `x + y + z == size - 1`.
#[derive(Clone, Copy, Debug, PartialEq, Eq, Structural)]
pub struct Coordinates {
    pub x: u32,
    pub y: u32,
    pub z: u32,
}

/// The dense index of the cell whose components are `(x, y, z)`: cells are
/// numbered row by row, the row being `size - 1 - x`, and by `y` within it.
pub open spec fn index_of(x: nat, y: nat, size: nat) -> nat {
    tri((size - 1 - x) as nat) + y
}

/// Number of cells on a board of side `size`.
pub open spec fn cell_count(size: nat) -> nat {
    tri(size)
}

pub open spec fn valid_size(size: nat) -> bool {
    1 <= size <= MAX_BOARD_SIZE
}

impl Coordinates {
    pub fn new(x: u32, y: u32, z: u32) -> (r: Coordinates)
        ensures
            r.x == x && r.y == y && r.z == z,
    {
        Coordinates { x, y, z }
    }

    pub fn x(&self) -> (r: u32)
        ensures
            r == self.x,
    {
        self.x
    }

    pub fn y(&self) -> (r: u32)
        ensures
            r == self.y,
    {
        self.y
    }

    pub fn z(&self) -> (r: u32)
        ensures
            r == self.z,
    {
        self.z
    }

    /// The cell lies on a board of side `size`.
    pub open spec fn valid_for(self, size: nat) -> bool {
        self.x + self.y + self.z + 1 == size
    }

    pub open spec fn index(self, size: nat) -> nat {
        index_of(self.x as nat, self.y as nat, size)
    }

    pub open spec fn on_side_a(self) -> bool {
        self.x == 0
    }

    pub open spec fn on_side_b(self) -> bool {
        self.y == 0
    }

    pub open spec fn on_side_c(self) -> bool {
        self.z == 0
    }

    pub open spec fn on_edge(self) -> bool {
        self.on_side_a() || self.on_side_b() || self.on_side_c()
    }

    pub fn touches_side_a(&self) -> (r: bool)
        ensures
            r == self.on_side_a(),
    {
        self.x == 0
    }

    pub fn touches_side_b(&self) -> (r: bool)
        ensures
            r == self.on_side_b(),
    {
        self.y == 0
    }

    pub fn touches_side_c(&self) -> (r: bool)
        ensures
            r == self.on_side_c(),
    {
        self.z == 0
    }

    pub fn to_index(&self, size: u32) -> (r: u32)
        requires
            valid_size(size as nat),
            self.valid_for(size as nat),
        ensures
            r == self.index(size as nat),
            r < cell_count(size as nat),
    {
        let row: u32 = size - 1 - self.x;
        proof {
            lemma_tri_monotonic((row + 1) as nat, size as nat);
            lemma_tri_bound(size as nat);
        }
        let mut base: u32 = 0;
        let mut i: u32 = 0;
        while i < row
            invariant
                i <= row,
                row < size,
                valid_size(size as nat),
                base == tri(i as nat),
                tri((row + 1) as nat) <= tri(size as nat),
                tri(size as nat) <= MAX_CELLS,
            decreases row - i,
        {
            proof {
                lemma_tri_monotonic((i + 1) as nat, (row + 1) as nat);
            }
            i = i + 1;
            base = base + i;
        }
        base + self.y
    }

    /// The cell whose dense index on a board of side `size` is `idx`.
    pub fn from_index(idx: u32, size: u32) -> (r: Coordinates)
        requires
            valid_size(size as nat),
            idx < cell_count(size as nat),
        ensures
            r.valid_for(size as nat),
            r.index(size as nat) == idx,
    {
        let mut base: u32 = 0;
        let mut row: u32 = 0;
        proof {
            lemma_tri_bound(size as nat);
        }
        while base + row + 1 <= idx
            invariant
                base == tri(row as nat),
                base <= idx,
                idx < tri(size as nat),
                tri(size as nat) <= MAX_CELLS,
                row < size,
            decreases idx - base,
        {
            proof {
                if row + 1 >= size {
                    lemma_tri_monotonic(size as nat, (row + 1) as nat);
                }
            }
            row = row + 1;
            base = base + row;
        }
        let y: u32 = idx - base;
        Coordinates { x: size - 1 - row, y, z: row - y }
    }
}

/// Two cells are neighbours: one unit moves from one component to another.
pub open spec fn adjacent(a: Coordinates, b: Coordinates) -> bool {
    let (ax, ay, az) = (a.x as int, a.y as int, a.z as int);
    let (bx, by, bz) = (b.x as int, b.y as int, b.z as int);
    ||| (bx == ax - 1 && by == ay + 1 && bz == az)
    ||| (bx == ax - 1 && by == ay && bz == az + 1)
    ||| (bx == ax + 1 && by == ay - 1 && bz == az)
    ||| (bx == ax && by == ay - 1 && bz == az + 1)
    ||| (bx == ax + 1 && by == ay && bz == az - 1)
    ||| (bx == ax && by == ay + 1 && bz == az - 1)
}

/// The cells that border `c`, in the order they are listed: those taking a
/// unit from `x`, then from `y`, then from `z`.
#[verifier::opaque]
pub open spec fn neighbor_seq(c: Coordinates) -> Seq<Coordinates> {
    let (x, y, z) = (c.x, c.y, c.z);
    let from_x = if x > 0 {
        seq![
            Coordinates { x: (x - 1) as u32, y: (y + 1) as u32, z },
            Coordinates { x: (x - 1) as u32, y, z: (z + 1) as u32 },
        ]
    } else {
        Seq::empty()
    };
    let from_y = if y > 0 {
        seq![
            Coordinates { x: (x + 1) as u32, y: (y - 1) as u32, z },
            Coordinates { x, y: (y - 1) as u32, z: (z + 1) as u32 },
        ]
    } else {
        Seq::empty()
    };
    let from_z = if z > 0 {
        seq![
            Coordinates { x: (x + 1) as u32, y, z: (z - 1) as u32 },
            Coordinates { x, y: (y + 1) as u32, z: (z - 1) as u32 },
        ]
    } else {
        Seq::empty()
    };
    from_x + from_y + from_z
}

/// Each listed neighbour of a cell of a board lies on that board.
pub proof fn lemma_neighbor_seq_valid(c: Coordinates, size: nat, k: int)
    requires
        valid_size(size),
        c.valid_for(size),
        0 <= k < neighbor_seq(c).len(),
    ensures
        neighbor_seq(c)[k].valid_for(size),
        adjacent(c, neighbor_seq(c)[k]),
{
    let (x, y, z) = (c.x, c.y, c.z);
    let from_x: Seq<Coordinates> = if x > 0 {
        seq![
            Coordinates { x: (x - 1) as u32, y: (y + 1) as u32, z },
            Coordinates { x: (x - 1) as u32, y, z: (z + 1) as u32 },
        ]
    } else {
        Seq::empty()
    };
    let from_y: Seq<Coordinates> = if y > 0 {
        seq![
            Coordinates { x: (x + 1) as u32, y: (y - 1) as u32, z },
            Coordinates { x, y: (y - 1) as u32, z: (z + 1) as u32 },
        ]
    } else {
        Seq::empty()
    };
    let from_z: Seq<Coordinates> = if z > 0 {
        seq![
            Coordinates { x: (x + 1) as u32, y, z: (z - 1) as u32 },
            Coordinates { x, y: (y + 1) as u32, z: (z - 1) as u32 },
        ]
    } else {
        Seq::empty()
    };
    let all = from_x + from_y + from_z;
    reveal(neighbor_seq);
    assert(all == neighbor_seq(c));
    let e = all[k];
    if k < from_x.len() {
        assert(e == from_x[k]);
    } else if k < from_x.len() + from_y.len() {
        assert(e == from_y[k - from_x.len()]);
    } else {
        assert(e == from_z[k - from_x.len() - from_y.len()]);
    }
}

/// The cells of a board of side `size` that border `c`.
pub fn neighbors_of(c: &Coordinates, size: u32) -> (r: Vec<Coordinates>)
    requires
        valid_size(size as nat),
        c.valid_for(size as nat),
    ensures
        r@ == neighbor_seq(*c),
        r@.len() <= 6,
        r@.no_duplicates(),
        forall|k: int| 0 <= k < r@.len() ==> r@[k].valid_for(size as nat) && adjacent(*c, r@[k]),
        forall|b: Coordinates| b.valid_for(size as nat) && adjacent(*c, b) ==> r@.contains(b),
{
    let mut r: Vec<Coordinates> = Vec::new();
    let (x, y, z) = (c.x, c.y, c.z);
    if x > 0 {
        r.push(Coordinates { x: x - 1, y: y + 1, z });
        r.push(Coordinates { x: x - 1, y, z: z + 1 });
    }
    if y > 0 {
        r.push(Coordinates { x: x + 1, y: y - 1, z });
        r.push(Coordinates { x, y: y - 1, z: z + 1 });
    }
    if z > 0 {
        r.push(Coordinates { x: x + 1, y, z: z - 1 });
        r.push(Coordinates { x, y: y + 1, z: z - 1 });
    }
    proof {
        reveal(neighbor_seq);
        assert(r@ =~= neighbor_seq(*c));
        assert forall|b: Coordinates| b.valid_for(size as nat) && adjacent(*c, b) implies r@.contains(
            b,
        ) by {
            if b.x + 1 == x && b.y == y + 1 && b.z == z {
                assert(r@[0] == b);
            } else if b.x + 1 == x && b.y == y && b.z == z + 1 {
                assert(r@[1] == b);
            } else if b.x == x + 1 && b.y + 1 == y && b.z == z {
                assert(r@[if x > 0 { 2int } else { 0int }] == b);
            } else if b.x == x && b.y + 1 == y && b.z == z + 1 {
                assert(r@[if x > 0 { 3int } else { 1int }] == b);
            } else if b.x == x + 1 && b.y == y && b.z + 1 == z {
                let k: int = (if x > 0 { 2int } else { 0int }) + (if y > 0 { 2int } else { 0int });
                assert(r@[k] == b);
            } else {
                let k: int = (if x > 0 { 2int } else { 0int }) + (if y > 0 { 2int } else { 0int });
                assert(r@[k + 1] == b);
            }
        }
    }
    r
}

} // verus!
