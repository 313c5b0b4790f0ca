use vstd::prelude::*;

verus! {

/// One square of the minefield.
#[derive(Clone, Copy, Debug, PartialEq, Eq, Structural)]
pub struct FieldCell {
    pub is_mine: bool,
    pub is_flagged: bool,
    pub is_uncovered: bool,
    /// Number of mines among the up to eight adjacent cells.
    pub neighbors: usize,
    /// Number of flagged cells among the up to eight adjacent cells.
    pub flagged_neighbors: usize,
}

impl FieldCell {
    /// A covered, unflagged, mine-free cell with zeroed counters.
    pub fn new() -> (r: Self)
        ensures
            !r.is_mine,
            !r.is_flagged,
            !r.is_uncovered,
            r.neighbors == 0,
            r.flagged_neighbors == 0,
    {
        FieldCell {
            is_mine: false,
            is_flagged: false,
            is_uncovered: false,
            neighbors: 0,
            flagged_neighbors: 0,
        }
    }
}

impl FieldCell {
    /// The same cell with another flag counter.
    pub open spec fn with_flag_count(self, n: usize) -> FieldCell {
        FieldCell { flagged_neighbors: n, ..self }
    }

    /// The same cell, uncovered or not as `u` says.
    pub open spec fn with_uncovered(self, u: bool) -> FieldCell {
        FieldCell { is_uncovered: u, ..self }
    }
}

/// Whether `(x, y)` lies on a `w` by `h` grid.
pub open spec fn in_grid(w: int, h: int, x: int, y: int) -> bool {
    0 <= x < w && 0 <= y < h
}

/// Position of `(x, y)` in a row-major buffer of rows of width `w`.
pub open spec fn flat(w: int, x: int, y: int) -> int {
    y * w + x
}

/// 1 where the layer is set at an in-grid position, 0 elsewhere (also off the grid).
pub open spec fn layer_at(s: Seq<bool>, w: int, h: int, x: int, y: int) -> nat {
    if in_grid(w, h, x, y) && s[flat(w, x, y)] {
        1
    } else {
        0
    }
}

/// How many of the eight cells around `(x, y)` are set in the layer.
pub open spec fn around(s: Seq<bool>, w: int, h: int, x: int, y: int) -> nat {
    layer_at(s, w, h, x - 1, y - 1) + layer_at(s, w, h, x, y - 1) + layer_at(s, w, h, x + 1, y - 1)
        + layer_at(s, w, h, x - 1, y) + layer_at(s, w, h, x + 1, y)
        + layer_at(s, w, h, x - 1, y + 1) + layer_at(s, w, h, x, y + 1)
        + layer_at(s, w, h, x + 1, y + 1)
}

/// Two distinct cells that touch, edge or corner.
pub open spec fn adjacent(ax: int, ay: int, bx: int, by: int) -> bool {
    (ax != bx || ay != by) && -1 <= ax - bx <= 1 && -1 <= ay - by <= 1
}

/// Column offset of neighbour direction `d` (0..8, row by row, centre skipped).
pub open spec fn dir_dx(d: int) -> int {
    if d == 0 || d == 3 || d == 5 {
        -1
    } else if d == 1 || d == 6 {
        0
    } else {
        1
    }
}

/// Row offset of neighbour direction `d`.
pub open spec fn dir_dy(d: int) -> int {
    if d < 3 {
        -1
    } else if d < 5 {
        0
    } else {
        1
    }
}

/// The direction that leads from a cell to an adjacent one at offset `(dx, dy)`.
pub open spec fn dir_of(dx: int, dy: int) -> int {
    let k = (dy + 1) * 3 + (dx + 1);
    if k > 4 {
        k - 1
    } else {
        k
    }
}

/// Number of `true` entries.
pub open spec fn count_true(s: Seq<bool>) -> nat
    decreases s.len(),
{
    if s.len() == 0 {
        0
    } else {
        count_true(s.drop_last()) + if s.last() {
            1nat
        } else {
            0nat
        }
    }
}

pub open spec fn mines_of(cells: Seq<FieldCell>) -> Seq<bool> {
    cells.map_values(|c: FieldCell| c.is_mine)
}

pub open spec fn flags_of(cells: Seq<FieldCell>) -> Seq<bool> {
    cells.map_values(|c: FieldCell| c.is_flagged)
}

pub open spec fn covered_of(cells: Seq<FieldCell>) -> Seq<bool> {
    cells.map_values(|c: FieldCell| !c.is_uncovered)
}

pub proof fn lemma_count_true_bound(s: Seq<bool>)
    ensures
        count_true(s) <= s.len(),
    decreases s.len(),
{
    if s.len() > 0 {
        lemma_count_true_bound(s.drop_last());
    }
}

pub proof fn lemma_count_true_update(s: Seq<bool>, i: int, v: bool)
    requires
        0 <= i < s.len(),
    ensures
        count_true(s.update(i, v)) + (if s[i] { 1int } else { 0int }) == count_true(s) + (if v {
            1int
        } else {
            0int
        }),
    decreases s.len(),
{
    let t = s.update(i, v);
    if i == s.len() - 1 {
        assert(t.drop_last() =~= s.drop_last());
    } else {
        lemma_count_true_update(s.drop_last(), i, v);
        assert(t.drop_last() =~= s.drop_last().update(i, v));
    }
}

pub proof fn lemma_count_true_push(s: Seq<bool>, v: bool)
    ensures
        count_true(s.push(v)) == count_true(s) + if v { 1nat } else { 0nat },
{
    assert(s.push(v).drop_last() =~= s);
}

/// Row-major positions of in-grid cells are in range and tell cells apart.
pub proof fn lemma_flat(w: int, h: int, x: int, y: int)
    requires
        in_grid(w, h, x, y),
    ensures
        0 <= flat(w, x, y) < w * h,
{
    assert(0 <= y * w) by (nonlinear_arith)
        requires
            0 <= y,
            0 <= w,
    ;
    assert(y * w + w <= w * h) by (nonlinear_arith)
        requires
            y < h,
            0 <= w,
    ;
}

pub proof fn lemma_flat_injective(w: int, h: int, ax: int, ay: int, bx: int, by: int)
    requires
        in_grid(w, h, ax, ay),
        in_grid(w, h, bx, by),
    ensures
        flat(w, ax, ay) == flat(w, bx, by) <==> (ax == bx && ay == by),
{
    if flat(w, ax, ay) == flat(w, bx, by) {
        lemma_flat_coords(w, h, ax, ay);
        lemma_flat_coords(w, h, bx, by);
    }
}

/// Changing one entry of a layer changes `layer_at` at that cell only.
pub proof fn lemma_layer_update(s: Seq<bool>, w: int, h: int, tx: int, ty: int, v: bool, x: int, y: int)
    requires
        in_grid(w, h, tx, ty),
        s.len() == w * h,
    ensures
        layer_at(s.update(flat(w, tx, ty), v), w, h, x, y) == if x == tx && y == ty {
            if v {
                1nat
            } else {
                0nat
            }
        } else {
            layer_at(s, w, h, x, y)
        },
{
    lemma_flat(w, h, tx, ty);
    if in_grid(w, h, x, y) {
        lemma_flat(w, h, x, y);
        lemma_flat_injective(w, h, tx, ty, x, y);
    }
}

/// Changing one entry of a layer changes `around` only at the cells adjacent to it.
pub proof fn lemma_around_update(s: Seq<bool>, w: int, h: int, tx: int, ty: int, v: bool, x: int, y: int)
    requires
        in_grid(w, h, tx, ty),
        s.len() == w * h,
    ensures
        around(s.update(flat(w, tx, ty), v), w, h, x, y) + (if adjacent(tx, ty, x, y) && s[flat(w, tx, ty)] {
            1int
        } else {
            0int
        }) == around(s, w, h, x, y) + (if adjacent(tx, ty, x, y) && v {
            1int
        } else {
            0int
        }),
{
    lemma_flat(w, h, tx, ty);
    lemma_layer_update(s, w, h, tx, ty, v, x - 1, y - 1);
    lemma_layer_update(s, w, h, tx, ty, v, x, y - 1);
    lemma_layer_update(s, w, h, tx, ty, v, x + 1, y - 1);
    lemma_layer_update(s, w, h, tx, ty, v, x - 1, y);
    lemma_layer_update(s, w, h, tx, ty, v, x + 1, y);
    lemma_layer_update(s, w, h, tx, ty, v, x - 1, y + 1);
    lemma_layer_update(s, w, h, tx, ty, v, x, y + 1);
    lemma_layer_update(s, w, h, tx, ty, v, x + 1, y + 1);
}

/// An in-grid cell is recovered from its row-major position.
pub proof fn lemma_flat_coords(w: int, h: int, x: int, y: int)
    requires
        in_grid(w, h, x, y),
    ensures
        flat(w, x, y) % w == x,
        flat(w, x, y) / w == y,
{
    vstd::arithmetic::div_mod::lemma_fundamental_div_mod_converse(flat(w, x, y), w, y, x);
}

/// Every row-major position below `w * h` belongs to an in-grid cell.
pub proof fn lemma_unflat(w: int, h: int, i: int)
    requires
        w > 0,
        0 <= i < w * h,
    ensures
        in_grid(w, h, i % w, i / w),
        flat(w, i % w, i / w) == i,
{
    vstd::arithmetic::div_mod::lemma_fundamental_div_mod(i, w);
    vstd::arithmetic::div_mod::lemma_mod_pos_bound(i, w);
    let q = i / w;
    let r = i % w;
    assert(q * w == w * q) by (nonlinear_arith);
    assert(0 <= q < h) by (nonlinear_arith)
        requires
            i == w * q + r,
            0 <= r < w,
            0 <= i < w * h,
            w > 0,
    ;
}

/// Why a board could not be built.
#[derive(Clone, Copy, Debug, PartialEq, Eq, Structural)]
pub enum BoardError {
    /// Width or height is zero.
    EmptyBoard,
    /// The number of cells does not fit in `usize`.
    TooLarge,
    /// A mine layout whose length is not `width * height`.
    SizeMismatch,
    /// At least as many mines as cells.
    TooManyMines,
    /// The first click lies off the grid.
    OriginOutOfBounds,
    /// Fewer cells outside the first click's neighbourhood than mines to place.
    NoRoomForMines,
}

/// A `width` by `height` minefield, stored row by row.
pub struct Board {
    pub(crate) width: usize,
    pub(crate) height: usize,
    pub(crate) mine_count: usize,
    pub(crate) cells: Vec<FieldCell>,
}

impl Board {
    pub open(crate) spec fn w(&self) -> int {
        self.width as int
    }

    pub open(crate) spec fn h(&self) -> int {
        self.height as int
    }

    pub open(crate) spec fn mines(&self) -> nat {
        self.mine_count as nat
    }

    pub open(crate) spec fn cells(&self) -> Seq<FieldCell> {
        self.cells@
    }

    pub open spec fn in_grid(&self, x: int, y: int) -> bool {
        in_grid(self.w(), self.h(), x, y)
    }

    pub open spec fn cell(&self, x: int, y: int) -> FieldCell {
        self.cells()[flat(self.w(), x, y)]
    }

    pub open spec fn mine_layer(&self) -> Seq<bool> {
        mines_of(self.cells())
    }

    pub open spec fn flag_layer(&self) -> Seq<bool> {
        flags_of(self.cells())
    }

    /// Number of cells that are not uncovered.
    pub open spec fn covered(&self) -> nat {
        count_true(covered_of(self.cells()))
    }

    /// The cell at `(x, y)` is consistent with the whole board: its counters
    /// are the literal counts of mines and flags around it, and it is never
    /// both uncovered and a mine or a flag.
    pub open spec fn cell_ok(&self, x: int, y: int) -> bool {
        let c = self.cell(x, y);
        &&& c.neighbors == around(self.mine_layer(), self.w(), self.h(), x, y)
        &&& c.flagged_neighbors == around(self.flag_layer(), self.w(), self.h(), x, y)
        &&& !(c.is_uncovered && (c.is_mine || c.is_flagged))
    }

    pub open spec fn wf(&self) -> bool {
        &&& self.w() >= 1
        &&& self.h() >= 1
        &&& self.cells().len() == self.w() * self.h()
        &&& self.w() * self.h() <= usize::MAX
        &&& self.mines() == count_true(self.mine_layer())
        &&& self.mines() < self.cells().len()
        &&& forall|x: int, y: int| self.in_grid(x, y) ==> #[trigger] self.cell_ok(x, y)
    }

    pub fn width(&self) -> (r: usize)
        ensures
            r == self.w(),
    {
        self.width
    }

    pub fn height(&self) -> (r: usize)
        ensures
            r == self.h(),
    {
        self.height
    }

    pub fn mine_count(&self) -> (r: usize)
        ensures
            r == self.mines(),
    {
        self.mine_count
    }

    /// A board with the given mines (`layout` row by row, `true` for a mine),
    /// nothing flagged and nothing uncovered.
    pub fn from_mines(width: usize, height: usize, layout: &Vec<bool>) -> (r: Result<
        Board,
        BoardError,
    >)
        ensures
            width == 0 || height == 0 ==> r == Err::<Board, BoardError>(BoardError::EmptyBoard),
            width > 0 && height > 0 && width * height > usize::MAX ==> r == Err::<
                Board,
                BoardError,
            >(BoardError::TooLarge),
            width > 0 && height > 0 && width * height <= usize::MAX && layout@.len() != width
                * height ==> r == Err::<Board, BoardError>(BoardError::SizeMismatch),
            width > 0 && height > 0 && layout@.len() == width * height && count_true(layout@)
                >= layout@.len() ==> r == Err::<Board, BoardError>(BoardError::TooManyMines),
            width > 0 && height > 0 && layout@.len() == width * height && count_true(layout@)
                < layout@.len() ==> r is Ok,
            r matches Ok(b) ==> b.wf() && b.w() == width && b.h() == height && b.mine_layer()
                == layout@ && b.fresh(),
    {
        let len = layout.len();
        if width == 0 || height == 0 {
            return Err(BoardError::EmptyBoard);
        }
        let n = match width.checked_mul(height) {
            Some(n) => n,
            None => {
                return Err(BoardError::TooLarge);
            },
        };
        if len != n {
            return Err(BoardError::SizeMismatch);
        }
        let mut mines: usize = 0;
        let mut i: usize = 0;
        while i < n
            invariant
                i <= n,
                n == layout@.len(),
                mines == count_true(layout@.take(i as int)),
                mines <= i,
            decreases n - i,
        {
            proof {
                assert(layout@.take(i + 1).drop_last() =~= layout@.take(i as int));
            }
            if layout[i] {
                mines = mines + 1;
            }
            i = i + 1;
        }
        assert(layout@.take(n as int) =~= layout@);
        if mines >= n {
            return Err(BoardError::TooManyMines);
        }
        let mut cells: Vec<FieldCell> = Vec::new();
        let mut i: usize = 0;
        while i < n
            invariant
                i <= n,
                n == layout@.len(),
                n == width * height,
                width > 0,
                cells@.len() == i,
                forall|j: int|
                    0 <= j < i ==> {
                        let c = #[trigger] cells@[j];
                        &&& c.is_mine == layout@[j]
                        &&& !c.is_flagged
                        &&& !c.is_uncovered
                        &&& c.flagged_neighbors == 0
                        &&& c.neighbors == around(
                            layout@,
                            width as int,
                            height as int,
                            j % width as int,
                            j / width as int,
                        )
                    },
            decreases n - i,
        {
            proof {
                lemma_unflat(width as int, height as int, i as int);
            }
            let x = i % width;
            let y = i / width;
            let mut c = FieldCell::new();
            c.is_mine = layout[i];
            c.neighbors = count_around(layout, width, height, x, y);
            cells.push(c);
            i = i + 1;
        }
        let b = Board { width, height, mine_count: mines, cells };
        proof {
            assert(b.mine_layer() =~= layout@);
            assert forall|x: int, y: int| b.in_grid(x, y) implies #[trigger] b.cell_ok(x, y) by {
                lemma_flat(width as int, height as int, x, y);
                lemma_flat_coords(width as int, height as int, x, y);
                assert forall|ax: int, ay: int| in_grid(b.w(), b.h(), ax, ay) implies !b.flag_layer()[flat(b.w(), ax, ay)] by {
                    lemma_flat(width as int, height as int, ax, ay);
                }
            }
            assert forall|x: int, y: int| b.in_grid(x, y) implies {
                let c = #[trigger] b.cell(x, y);
                !c.is_flagged && !c.is_uncovered
            } by {
                lemma_flat(width as int, height as int, x, y);
            }
        }
        Ok(b)
    }

    /// Nothing is flagged and nothing is uncovered.
    pub open spec fn fresh(&self) -> bool {
        forall|x: int, y: int|
            self.in_grid(x, y) ==> {
                let c = #[trigger] self.cell(x, y);
                !c.is_flagged && !c.is_uncovered
            }
    }

    /// Number of cells not yet uncovered.
    pub fn covered_count(&self) -> (r: usize)
        requires
            self.wf(),
        ensures
            r == self.covered(),
    {
        let n = self.cells.len();
        let mut k: usize = 0;
        let mut i: usize = 0;
        while i < n
            invariant
                i <= n,
                n == self.cells().len(),
                k == count_true(covered_of(self.cells()).take(i as int)),
                k <= i,
            decreases n - i,
        {
            proof {
                assert(covered_of(self.cells()).take(i + 1).drop_last() =~= covered_of(
                    self.cells(),
                ).take(i as int));
            }
            if !self.cells[i].is_uncovered {
                k = k + 1;
            }
            i = i + 1;
        }
        assert(covered_of(self.cells()).take(n as int) =~= covered_of(self.cells()));
        k
    }

    /// The game is won once the only covered cells left are the mines.
    pub fn is_won(&self) -> (r: bool)
        requires
            self.wf(),
        ensures
            r == (self.covered() == self.mines()),
    {
        self.covered_count() == self.mine_count
    }

    /// The cell at `(x, y)`, or `None` off the grid.
    pub fn cell_at(&self, x: usize, y: usize) -> (r: Option<FieldCell>)
        requires
            self.wf(),
        ensures
            r == if self.in_grid(x as int, y as int) {
                Some(self.cell(x as int, y as int))
            } else {
                None
            },
    {
        if x < self.width && y < self.height {
            let i = index(self.width, self.height, x, y);
            Some(self.cells[i])
        } else {
            None
        }
    }
}

/// Row-major position of an in-grid cell.
pub fn index(w: usize, h: usize, x: usize, y: usize) -> (r: usize)
    requires
        in_grid(w as int, h as int, x as int, y as int),
        w * h <= usize::MAX,
    ensures
        r as int == flat(w as int, x as int, y as int),
        r < w * h,
{
    proof {
        lemma_flat(w as int, h as int, x as int, y as int);
    }
    y * w + x
}

/// The neighbour of `(x, y)` in direction `d`, or `None` where it falls off the grid.
pub fn neighbor(w: usize, h: usize, x: usize, y: usize, d: usize) -> (r: Option<(usize, usize)>)
    requires
        in_grid(w as int, h as int, x as int, y as int),
        d < 8,
    ensures
        match r {
            Some((nx, ny)) => in_grid(w as int, h as int, nx as int, ny as int) && nx == x + dir_dx(
                d as int,
            ) && ny == y + dir_dy(d as int),
            None => !in_grid(w as int, h as int, x + dir_dx(d as int), y + dir_dy(d as int)),
        },
{
    let col: Option<usize> = if d == 0 || d == 3 || d == 5 {
        if x == 0 {
            None
        } else {
            Some(x - 1)
        }
    } else if d == 1 || d == 6 {
        Some(x)
    } else if x + 1 < w {
        Some(x + 1)
    } else {
        None
    };
    let row: Option<usize> = if d < 3 {
        if y == 0 {
            None
        } else {
            Some(y - 1)
        }
    } else if d < 5 {
        Some(y)
    } else if y + 1 < h {
        Some(y + 1)
    } else {
        None
    };
    match (col, row) {
        (Some(nx), Some(ny)) => Some((nx, ny)),
        _ => None,
    }
}

/// 1 where the neighbour of `(x, y)` in direction `d` is set in `layer`, else 0.
fn layer_near(layer: &Vec<bool>, w: usize, h: usize, x: usize, y: usize, d: usize) -> (r: usize)
    requires
        in_grid(w as int, h as int, x as int, y as int),
        layer@.len() == w * h,
        w * h <= usize::MAX,
        d < 8,
    ensures
        r == layer_at(layer@, w as int, h as int, x + dir_dx(d as int), y + dir_dy(d as int)),
{
    match neighbor(w, h, x, y, d) {
        Some((nx, ny)) => {
            let i = index(w, h, nx, ny);
            if layer[i] {
                1
            } else {
                0
            }
        },
        None => 0,
    }
}

/// How many of the eight cells around `(x, y)` are set in `layer`.
pub fn count_around(layer: &Vec<bool>, w: usize, h: usize, x: usize, y: usize) -> (r: usize)
    requires
        in_grid(w as int, h as int, x as int, y as int),
        layer@.len() == w * h,
        w * h <= usize::MAX,
    ensures
        r == around(layer@, w as int, h as int, x as int, y as int),
        r <= 8,
{
    let mut n: usize = 0;
    let mut d: usize = 0;
    while d < 8
        invariant
            in_grid(w as int, h as int, x as int, y as int),
            layer@.len() == w * h,
            w * h <= usize::MAX,
            d <= 8,
            n <= d,
            n == partial_around(layer@, w as int, h as int, x as int, y as int, d as int),
        decreases 8 - d,
    {
        n = n + layer_near(layer, w, h, x, y, d);
        d = d + 1;
    }
    proof {
        reveal_with_fuel(partial_around, 9);
    }
    n
}

/// The first `k` terms of `around`, in direction order.
pub open spec fn partial_around(s: Seq<bool>, w: int, h: int, x: int, y: int, k: int) -> nat
    decreases k,
{
    if k <= 0 {
        0
    } else {
        partial_around(s, w, h, x, y, k - 1) + layer_at(
            s,
            w,
            h,
            x + dir_dx(k - 1),
            y + dir_dy(k - 1),
        )
    }
}

} // verus!
