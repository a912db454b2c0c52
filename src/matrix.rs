//! The packed node table: for `i < j` the upper cell `(i, j)` holds the
//! travel cost between `i` and `j`, the lower cell `(j, i)` the direction
//! symbol for travelling from `i` to `j`, and the diagonal cell `(i, i)`
//! the priority of `i`. Cost reads are symmetric, direction reads are
//! anti-symmetric, whatever order the two nodes are given in.
use vstd::prelude::*;

verus! {

/// Direction symbols, as character-generator codes of the display.
pub const CGR_UP: u8 = 0;
pub const CGR_DOWN: u8 = 1;
pub const CGR_UPLEFT: u8 = 2;
pub const CGR_DOWNRIGHT: u8 = 3;
pub const CGR_UPRIGHT: u8 = 4;
pub const CGR_DOWNLEFT: u8 = 5;
pub const CGR_LEFT: u8 = 126;
pub const CGR_RIGHT: u8 = 127;
/// What the inverse of a code outside the alphabet reads as.
pub const CGR_NONE: u8 = 255;

/// The largest cost; also stands for "unreachable".
pub const INFINITY: u8 = 255;

/// Number of locations in the built-in campus table.
pub const CAMPUS_SIZE: usize = 10;

pub open spec fn is_direction(s: u8) -> bool {
    s == CGR_UP || s == CGR_DOWN || s == CGR_UPLEFT || s == CGR_DOWNRIGHT || s == CGR_UPRIGHT
        || s == CGR_DOWNLEFT || s == CGR_LEFT || s == CGR_RIGHT
}

/// The opposite direction: up and down, left and right, up-left and
/// down-right, up-right and down-left swap.
pub open spec fn inverse(s: u8) -> u8 {
    if s == CGR_UP {
        CGR_DOWN
    } else if s == CGR_DOWN {
        CGR_UP
    } else if s == CGR_LEFT {
        CGR_RIGHT
    } else if s == CGR_RIGHT {
        CGR_LEFT
    } else if s == CGR_UPRIGHT {
        CGR_DOWNLEFT
    } else if s == CGR_DOWNLEFT {
        CGR_UPRIGHT
    } else if s == CGR_UPLEFT {
        CGR_DOWNRIGHT
    } else if s == CGR_DOWNRIGHT {
        CGR_UPLEFT
    } else {
        CGR_NONE
    }
}

/// Exec form of [`inverse`].
pub fn inverse_direction(s: u8) -> (r: u8)
    ensures
        r == inverse(s),
{
    match s {
        CGR_UP => CGR_DOWN,
        CGR_DOWN => CGR_UP,
        CGR_RIGHT => CGR_LEFT,
        CGR_LEFT => CGR_RIGHT,
        CGR_UPRIGHT => CGR_DOWNLEFT,
        CGR_DOWNLEFT => CGR_UPRIGHT,
        CGR_UPLEFT => CGR_DOWNRIGHT,
        CGR_DOWNRIGHT => CGR_UPLEFT,
        _ => CGR_NONE,
    }
}

/// The built-in campus table, row by row (ten locations: drop-off, G010,
/// veranda, I315, B888, C148, C024, atrium, Y249, F012). Costs already
/// include the elevator and atrium surcharges.
pub open spec fn campus_table() -> Seq<u8> {
    seq![
        25, 20, 40, 31, 36, 10, 28, 58, 62, 45,
        127, 5, 20, 15, 16, 26, 8, 38, 52, 28,
        127, 127, 12, 11, 21, 73, 48, 23, 17, 40,
        3, 1, 5, 10, 66, 38, 53, 38, 42, 80,
        4, 4, 2, 0, 18, 36, 56, 26, 28, 59,
        0, 2, 2, 2, 2, 16, 15, 40, 66, 47,
        4, 0, 2, 0, 2, 127, 16, 10, 41, 67,
        4, 4, 0, 4, 0, 127, 127, 8, 11, 51,
        4, 4, 0, 4, 4, 4, 4, 4, 18, 5,
        4, 0, 2, 0, 0, 4, 0, 2, 2, 8,
    ]
}

proof fn lemma_index_in_bounds(r: int, c: int, n: int)
    requires
        0 <= r < n,
        0 <= c < n,
    ensures
        0 <= r * n + c < n * n,
{
    assert(0 <= r * n + c < n * n) by (nonlinear_arith)
        requires
            0 <= r < n,
            0 <= c < n,
    ;
}

/// Cell `(r, c)` of a table of `n` nodes stored row by row.
pub open spec fn cell_in(n: nat, t: Seq<u8>, r: int, c: int) -> u8 {
    t[r * n + c]
}

/// Travel cost between two nodes, read from the upper triangle; on the
/// diagonal this is the node's priority.
pub open spec fn cost_in(n: nat, t: Seq<u8>, u: int, v: int) -> u8 {
    if u <= v {
        cell_in(n, t, u, v)
    } else {
        cell_in(n, t, v, u)
    }
}

/// Direction from `u` to `v` (`u != v`): stored below the diagonal for the
/// smaller index first, inverted for the other orientation.
pub open spec fn direction_in(n: nat, t: Seq<u8>, u: int, v: int) -> u8 {
    if u < v {
        cell_in(n, t, v, u)
    } else {
        inverse(cell_in(n, t, u, v))
    }
}

/// A combined lookup: the priority on the diagonal, else the cost
/// (`cost_side`) or the direction.
pub open spec fn lookup_in(n: nat, t: Seq<u8>, u: int, v: int, cost_side: bool) -> u8 {
    if u == v {
        cell_in(n, t, u, u)
    } else if cost_side {
        cost_in(n, t, u, v)
    } else {
        direction_in(n, t, u, v)
    }
}

/// A square table of `size * size` bytes, stored row by row.
pub struct DistanceMatrix {
    size: usize,
    cells: Vec<u8>,
}

/// The table is well formed when it is square and each cell below the
/// diagonal holds a direction symbol.
pub open spec fn table_ok(size: nat, cells: Seq<u8>) -> bool {
    &&& cells.len() == size * size
    &&& size * size <= usize::MAX
    &&& forall|r: int, c: int|
        0 <= c < r < size ==> #[trigger] is_direction(cells[r * size + c])
}

impl DistanceMatrix {
    /// Number of nodes.
    pub closed spec fn dim(&self) -> nat {
        self.size as nat
    }

    /// The raw cells, row by row.
    pub closed spec fn table(&self) -> Seq<u8> {
        self.cells@
    }

    pub open spec fn cell(&self, r: int, c: int) -> u8 {
        cell_in(self.dim(), self.table(), r, c)
    }

    pub open spec fn wf(&self) -> bool {
        table_ok(self.dim(), self.table())
    }

    pub open spec fn spec_cost(&self, u: int, v: int) -> u8 {
        cost_in(self.dim(), self.table(), u, v)
    }

    pub open spec fn spec_direction(&self, u: int, v: int) -> u8 {
        direction_in(self.dim(), self.table(), u, v)
    }

    pub open spec fn spec_lookup(&self, u: int, v: int, cost_side: bool) -> u8 {
        lookup_in(self.dim(), self.table(), u, v, cost_side)
    }

    /// Builds a table of `size` nodes from its cells, row by row; `None`
    /// when the cells are not `size * size` or a cell below the diagonal is
    /// not a direction symbol.
    pub fn from_table(size: usize, cells: Vec<u8>) -> (r: Option<DistanceMatrix>)
        ensures
            r is Some <==> table_ok(size as nat, cells@),
            r matches Some(m) ==> m.wf() && m.dim() == size && m.table() == cells@,
    {
        let len = cells.len();
        match size.checked_mul(size) {
            None => {
                return None;
            },
            Some(sq) => {
                if sq != len {
                    return None;
                }
            },
        }
        let mut r: usize = 1;
        while r < size
            invariant
                cells@.len() == size * size,
                1 <= r <= size || size == 0,
                forall|i: int, j: int|
                    0 <= j < i < r && i < size ==> #[trigger] is_direction(cells@[i * size + j]),
            decreases size - r,
        {
            let mut c: usize = 0;
            while c < r
                invariant
                    cells@.len() == size * size,
                    1 <= r < size,
                    0 <= c <= r,
                    forall|i: int, j: int|
                        0 <= j < i < r ==> #[trigger] is_direction(cells@[i * size + j]),
                    forall|j: int| 0 <= j < c ==> #[trigger] is_direction(cells@[r * size + j]),
                decreases r - c,
            {
                proof {
                    lemma_index_in_bounds(r as int, c as int, size as int);
                }
                assert(r * size + c < cells.len());
                let s = cells[r * size + c];
                if !(s == CGR_UP || s == CGR_DOWN || s == CGR_UPLEFT || s == CGR_DOWNRIGHT
                    || s == CGR_UPRIGHT || s == CGR_DOWNLEFT || s == CGR_LEFT || s == CGR_RIGHT) {
                    assert(!is_direction(cells@[r * size + c]));
                    return None;
                }
                c = c + 1;
            }
            r = r + 1;
        }
        Some(DistanceMatrix { size, cells })
    }

    /// The built-in campus table.
    pub fn campus() -> (m: DistanceMatrix)
        ensures
            m.wf(),
            m.dim() == CAMPUS_SIZE,
            m.table() == campus_table(),
    {
        let cells: Vec<u8> = vec![
            25, 20, 40, 31, 36, 10, 28, 58, 62, 45,
            127, 5, 20, 15, 16, 26, 8, 38, 52, 28,
            127, 127, 12, 11, 21, 73, 48, 23, 17, 40,
            3, 1, 5, 10, 66, 38, 53, 38, 42, 80,
            4, 4, 2, 0, 18, 36, 56, 26, 28, 59,
            0, 2, 2, 2, 2, 16, 15, 40, 66, 47,
            4, 0, 2, 0, 2, 127, 16, 10, 41, 67,
            4, 4, 0, 4, 0, 127, 127, 8, 11, 51,
            4, 4, 0, 4, 4, 4, 4, 4, 18, 5,
            4, 0, 2, 0, 0, 4, 0, 2, 2, 8,
        ];
        assert(cells@ =~= campus_table());
        assert forall|r: int, c: int| 0 <= c < r < 10 implies #[trigger] is_direction(
            cells@[r * 10 + c],
        ) by {
            assert(0 <= r * 10 + c < 100);
        }
        DistanceMatrix { size: CAMPUS_SIZE, cells }
    }

    /// Number of nodes.
    pub fn size(&self) -> (n: usize)
        ensures
            n == self.dim(),
    {
        self.size
    }

    fn at(&self, r: usize, c: usize) -> (x: u8)
        requires
            self.wf(),
            r < self.dim(),
            c < self.dim(),
        ensures
            x == self.cell(r as int, c as int),
    {
        proof {
            lemma_index_in_bounds(r as int, c as int, self.size as int);
        }
        let len = self.cells.len();
        assert(r * self.size + c < len);
        self.cells[r * self.size + c]
    }

    /// Travel cost between `u` and `v`, the same in both orientations.
    pub fn cost(&self, u: usize, v: usize) -> (x: u8)
        requires
            self.wf(),
            u < self.dim(),
            v < self.dim(),
        ensures
            x == self.spec_cost(u as int, v as int),
    {
        if u <= v {
            self.at(u, v)
        } else {
            self.at(v, u)
        }
    }

    /// Direction symbol for travelling from `u` to `v`.
    pub fn direction(&self, u: usize, v: usize) -> (x: u8)
        requires
            self.wf(),
            u < self.dim(),
            v < self.dim(),
            u != v,
        ensures
            x == self.spec_direction(u as int, v as int),
    {
        if u < v {
            self.at(v, u)
        } else {
            inverse_direction(self.at(u, v))
        }
    }

    /// Priority of node `u`, kept on the diagonal.
    pub fn priority(&self, u: usize) -> (x: u8)
        requires
            self.wf(),
            u < self.dim(),
        ensures
            x == self.cell(u as int, u as int),
    {
        self.at(u, u)
    }

    /// Combined lookup: the priority when `u == v`, else the cost when
    /// `cost_side` holds and the direction otherwise.
    pub fn lookup(&self, u: usize, v: usize, cost_side: bool) -> (x: u8)
        requires
            self.wf(),
            u < self.dim(),
            v < self.dim(),
        ensures
            x == self.spec_lookup(u as int, v as int, cost_side),
    {
        if u == v {
            self.priority(u)
        } else if cost_side {
            self.cost(u, v)
        } else {
            self.direction(u, v)
        }
    }
}

/// Combined lookup in the built-in campus table (see
/// [`DistanceMatrix::lookup`]).
pub fn ext_dm(u: usize, v: usize, opt_high: bool) -> (x: u8)
    requires
        u < CAMPUS_SIZE,
        v < CAMPUS_SIZE,
    ensures
        x == lookup_in(CAMPUS_SIZE as nat, campus_table(), u as int, v as int, opt_high),
{
    let m = DistanceMatrix::campus();
    m.lookup(u, v, opt_high)
}

/// Cost reads are symmetric.
pub proof fn lemma_cost_symmetric(m: DistanceMatrix, u: int, v: int)
    requires
        m.wf(),
        0 <= u < m.dim(),
        0 <= v < m.dim(),
        u != v,
    ensures
        m.spec_cost(u, v) == m.spec_cost(v, u),
{
}

/// Inverting a direction symbol twice gives it back.
pub proof fn lemma_inverse_involutive(s: u8)
    requires
        is_direction(s),
    ensures
        is_direction(inverse(s)),
        inverse(inverse(s)) == s,
{
}

/// Direction reads are anti-symmetric: each orientation reads as the
/// inverse of the other.
pub proof fn lemma_direction_antisymmetric(m: DistanceMatrix, u: int, v: int)
    requires
        m.wf(),
        0 <= u < m.dim(),
        0 <= v < m.dim(),
        u != v,
    ensures
        m.spec_direction(u, v) == inverse(m.spec_direction(v, u)),
        is_direction(m.spec_direction(u, v)),
{
    let (lo, hi) = if u < v { (u, v) } else { (v, u) };
    assert(is_direction(m.table()[hi * m.dim() + lo]));
    lemma_inverse_involutive(m.cell(hi, lo));
}

} // verus!
