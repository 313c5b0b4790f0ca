use vstd::prelude::*;

use crate::board::{
    adjacent, covered_of, dir_dx, dir_dy, dir_of, flat, in_grid, index, lemma_count_true_bound,
    lemma_count_true_update, lemma_flat, lemma_flat_injective, lemma_unflat, neighbor, Board,
    FieldCell,
};

verus! {

/// What a reveal did.
#[derive(Clone, Copy, Debug, PartialEq, Eq, Structural)]
pub enum RevealOutcome {
    /// This many cells went from covered to uncovered.
    NewlyUncovered(usize),
    /// The reveal reached a mine.
    MineHit,
}

impl Board {
    /// The reveal that started at `(sx, sy)` carries on from `(x, y)` to its
    /// neighbours: the cell is safe, unflagged, has as many flags as mines
    /// around it, and was covered (or is the clicked start cell itself).
    pub open spec fn spreads(&self, clicked: bool, sx: int, sy: int, x: int, y: int) -> bool {
        let c = self.cell(x, y);
        &&& self.in_grid(x, y)
        &&& !c.is_mine
        &&& !c.is_flagged
        &&& c.neighbors == c.flagged_neighbors
        &&& (!c.is_uncovered || (clicked && x == sx && y == sy))
    }

    /// The reveal that started at `(sx, sy)` arrives at the unflagged in-grid
    /// cell `(x, y)` within `k` steps of spreading.
    pub open spec fn reached(&self, clicked: bool, sx: int, sy: int, x: int, y: int, k: nat) -> bool
        decreases k, 0nat,
    {
        &&& self.in_grid(x, y)
        &&& !self.cell(x, y).is_flagged
        &&& if k == 0 {
            x == sx && y == sy
        } else {
            let j = (k - 1) as nat;
            self.reached(clicked, sx, sy, x, y, j)
                || self.carries(clicked, sx, sy, x - 1, y - 1, j)
                || self.carries(clicked, sx, sy, x, y - 1, j)
                || self.carries(clicked, sx, sy, x + 1, y - 1, j)
                || self.carries(clicked, sx, sy, x - 1, y, j)
                || self.carries(clicked, sx, sy, x + 1, y, j)
                || self.carries(clicked, sx, sy, x - 1, y + 1, j)
                || self.carries(clicked, sx, sy, x, y + 1, j)
                || self.carries(clicked, sx, sy, x + 1, y + 1, j)
        }
    }

    /// `(x, y)` is reached within `j` steps and spreads further.
    pub open spec fn carries(&self, clicked: bool, sx: int, sy: int, x: int, y: int, j: nat) -> bool
        decreases j, 1nat,
    {
        self.reached(clicked, sx, sy, x, y, j) && self.spreads(clicked, sx, sy, x, y)
    }

    /// `self` is `before` with some cells uncovered, none of them a mine or flagged.
    pub open spec fn uncovers_only(&self, before: Board) -> bool {
        &&& self.w() == before.w()
        &&& self.h() == before.h()
        &&& self.mines() == before.mines()
        &&& self.cells().len() == before.cells().len()
        &&& forall|a: int, b: int|
            #![trigger self.cell(a, b)]
            self.in_grid(a, b) ==> {
                &&& self.cell(a, b) == before.cell(a, b).with_uncovered(self.cell(a, b).is_uncovered)
                &&& before.cell(a, b).is_uncovered ==> self.cell(a, b).is_uncovered
                &&& self.cell(a, b).is_uncovered ==> !self.cell(a, b).is_mine && !self.cell(
                    a,
                    b,
                ).is_flagged
            }
    }
}

/// Every unflagged in-grid cell next to `(px, py)` in a direction below `d` is uncovered in `now`.
pub open spec fn settled(now: Board, before: Board, px: int, py: int, d: int) -> bool {
    forall|a: int, b: int|
        #![trigger now.cell(a, b)]
        now.in_grid(a, b) && adjacent(px, py, a, b) && !before.cell(a, b).is_flagged && dir_of(
            a - px,
            b - py,
        ) < d ==> now.cell(a, b).is_uncovered
}

proof fn lemma_uncovers_only_wf(before: Board, now: Board)
    requires
        before.wf(),
        now.uncovers_only(before),
    ensures
        now.wf(),
        now.mine_layer() == before.mine_layer(),
        now.flag_layer() == before.flag_layer(),
{
    let w = now.w();
    let h = now.h();
    assert forall|k: int| 0 <= k < now.cells().len() implies now.cells()[k] == before.cells()[k].with_uncovered(
        now.cells()[k].is_uncovered,
    ) by {
        lemma_unflat(w, h, k);
        assert(now.cell(k % w, k / w) == now.cells()[k]);
    }
    assert(now.mine_layer() =~= before.mine_layer());
    assert(now.flag_layer() =~= before.flag_layer());
    assert forall|x: int, y: int| now.in_grid(x, y) implies #[trigger] now.cell_ok(x, y) by {
        assert(before.cell_ok(x, y));
    }
}

/// A cell reached in exactly `k > 0` steps has a spreading neighbour reached in `k - 1`.
proof fn lemma_parent(b0: Board, clicked: bool, sx: int, sy: int, x: int, y: int, k: nat) -> (p: (
    int,
    int,
))
    requires
        k > 0,
        b0.reached(clicked, sx, sy, x, y, k),
        !b0.reached(clicked, sx, sy, x, y, (k - 1) as nat),
    ensures
        b0.carries(clicked, sx, sy, p.0, p.1, (k - 1) as nat),
        adjacent(p.0, p.1, x, y),
{
    let j = (k - 1) as nat;
    if b0.carries(clicked, sx, sy, x - 1, y - 1, j) {
        (x - 1, y - 1)
    } else if b0.carries(clicked, sx, sy, x, y - 1, j) {
        (x, y - 1)
    } else if b0.carries(clicked, sx, sy, x + 1, y - 1, j) {
        (x + 1, y - 1)
    } else if b0.carries(clicked, sx, sy, x - 1, y, j) {
        (x - 1, y)
    } else if b0.carries(clicked, sx, sy, x + 1, y, j) {
        (x + 1, y)
    } else if b0.carries(clicked, sx, sy, x - 1, y + 1, j) {
        (x - 1, y + 1)
    } else if b0.carries(clicked, sx, sy, x, y + 1, j) {
        (x, y + 1)
    } else {
        (x + 1, y + 1)
    }
}

/// When no cell spreads but the start, the reveal reaches the start alone.
proof fn lemma_reached_start_only(b0: Board, clicked: bool, sx: int, sy: int, x: int, y: int, k: nat)
    requires
        b0.reached(clicked, sx, sy, x, y, k),
        !b0.spreads(clicked, sx, sy, sx, sy),
    ensures
        x == sx && y == sy,
    decreases k,
{
    if k > 0 {
        let j = (k - 1) as nat;
        if b0.reached(clicked, sx, sy, x, y, j) {
            lemma_reached_start_only(b0, clicked, sx, sy, x, y, j);
        } else {
            let p = lemma_parent(b0, clicked, sx, sy, x, y, k);
            lemma_reached_start_only(b0, clicked, sx, sy, p.0, p.1, j);
        }
    }
}

/// Once the start is uncovered and every uncovered spreading cell has its
/// neighbours uncovered, everything the reveal reaches is uncovered.
proof fn lemma_reached_uncovered(
    b0: Board,
    now: Board,
    clicked: bool,
    sx: int,
    sy: int,
    x: int,
    y: int,
    k: nat,
)
    requires
        b0.reached(clicked, sx, sy, x, y, k),
        now.w() == b0.w(),
        now.h() == b0.h(),
        now.cell(sx, sy).is_uncovered,
        forall|a: int, b: int|
            #![trigger b0.spreads(clicked, sx, sy, a, b)]
            now.in_grid(a, b) && now.cell(a, b).is_uncovered && b0.spreads(clicked, sx, sy, a, b)
                ==> settled(now, b0, a, b, 8),
    ensures
        now.cell(x, y).is_uncovered,
    decreases k,
{
    if k > 0 {
        let j = (k - 1) as nat;
        if b0.reached(clicked, sx, sy, x, y, j) {
            lemma_reached_uncovered(b0, now, clicked, sx, sy, x, y, j);
        } else {
            let p = lemma_parent(b0, clicked, sx, sy, x, y, k);
            lemma_reached_uncovered(b0, now, clicked, sx, sy, p.0, p.1, j);
            assert(settled(now, b0, p.0, p.1, 8));
            assert(now.cell(x, y).is_uncovered);
        }
    }
}

/// Uncovering more cells keeps a cell settled.
proof fn lemma_settled_grows(now: Board, later: Board, b0: Board, px: int, py: int, d: int)
    requires
        settled(now, b0, px, py, d),
        later.w() == now.w(),
        later.h() == now.h(),
        forall|a: int, b: int|
            #![trigger later.cell(a, b)]
            now.in_grid(a, b) && now.cell(a, b).is_uncovered ==> later.cell(a, b).is_uncovered,
    ensures
        settled(later, b0, px, py, d),
{
    assert forall|a: int, b: int|
        later.in_grid(a, b) && adjacent(px, py, a, b) && !b0.cell(a, b).is_flagged && dir_of(
            a - px,
            b - py,
        ) < d implies #[trigger] later.cell(a, b).is_uncovered by {
        assert(now.cell(a, b).is_uncovered);
    }
}

proof fn lemma_untouched(b: Board)
    requires
        b.wf(),
    ensures
        b.uncovers_only(b),
{
    assert forall|a: int, c: int| #![trigger b.cell(a, c)]
        b.in_grid(a, c) && b.cell(a, c).is_uncovered implies !b.cell(a, c).is_mine && !b.cell(
        a,
        c,
    ).is_flagged by {
        assert(b.cell_ok(a, c));
    }
}

/// What holds of the board at every step of a reveal that started at `(sx, sy)`.
pub open spec fn in_progress(now: Board, b0: Board, clicked: bool, sx: int, sy: int, count: int) -> bool {
    &&& b0.wf()
    &&& b0.in_grid(sx, sy)
    &&& now.uncovers_only(b0)
    &&& now.cell(sx, sy).is_uncovered
    &&& forall|a: int, b: int|
        #![trigger now.cell(a, b)]
        now.in_grid(a, b) && now.cell(a, b).is_uncovered && !b0.cell(a, b).is_uncovered
            ==> exists|k: nat| b0.reached(clicked, sx, sy, a, b, k)
    &&& count == b0.covered() - now.covered()
}

/// Every entry of the worklist is an uncovered, reached cell that spreads.
pub open spec fn pending_ok(work: Seq<(usize, usize)>, now: Board, b0: Board, clicked: bool, sx: int, sy: int) -> bool {
    forall|q: int|
        0 <= q < work.len() ==> {
            let (a, b) = #[trigger] work[q];
            &&& b0.spreads(clicked, sx, sy, a as int, b as int)
            &&& now.cell(a as int, b as int).is_uncovered
            &&& exists|k: nat| b0.reached(clicked, sx, sy, a as int, b as int, k)
        }
}

/// A direct click on the cell that a direct click has just revealed reaches
/// nothing that is still covered and no mine: with the contract of
/// `reveal_at`, the second click yields `NewlyUncovered(0)` and leaves the
/// board as it is. Here `after` is what the first click, having returned
/// `NewlyUncovered`, left of `before`.
pub proof fn lemma_reveal_twice(before: Board, after: Board, x: int, y: int)
    requires
        before.wf(),
        after.wf(),
        after.uncovers_only(before),
        forall|a: int, b: int, k: nat| #[trigger]
            before.reached(true, x, y, a, b, k) ==> after.cell(a, b).is_uncovered,
    ensures
        forall|a: int, b: int, k: nat| #[trigger]
            after.reached(true, x, y, a, b, k) ==> after.cell(a, b).is_uncovered && !after.cell(
                a,
                b,
            ).is_mine,
{
    assert forall|a: int, b: int, k: nat| #[trigger]
        after.reached(true, x, y, a, b, k) implies after.cell(a, b).is_uncovered && !after.cell(
        a,
        b,
    ).is_mine by {
        lemma_twice_reaches_near_start(before, after, x, y, a, b, k);
        assert(after.cell_ok(a, b));
    }
}

proof fn lemma_twice_reaches_near_start(
    before: Board,
    after: Board,
    x: int,
    y: int,
    a: int,
    b: int,
    k: nat,
)
    requires
        before.wf(),
        after.uncovers_only(before),
        forall|a: int, b: int, k: nat| #[trigger]
            before.reached(true, x, y, a, b, k) ==> after.cell(a, b).is_uncovered,
        after.reached(true, x, y, a, b, k),
    ensures
        after.cell(a, b).is_uncovered,
        (a == x && b == y) || before.reached(true, x, y, a, b, 1),
    decreases k,
{
    assert(after.cell(a, b) == before.cell(a, b).with_uncovered(after.cell(a, b).is_uncovered));
    if k == 0 {
        assert(before.reached(true, x, y, a, b, 0));
    } else {
        let j = (k - 1) as nat;
        if after.reached(true, x, y, a, b, j) {
            lemma_twice_reaches_near_start(before, after, x, y, a, b, j);
        } else {
            let p = lemma_parent(after, true, x, y, a, b, k);
            lemma_twice_reaches_near_start(before, after, x, y, p.0, p.1, j);
            assert(after.cell(p.0, p.1) == before.cell(p.0, p.1).with_uncovered(
                after.cell(p.0, p.1).is_uncovered,
            ));
            assert(p.0 == x && p.1 == y);
            assert(before.reached(true, x, y, x, y, 0));
            assert(before.carries(true, x, y, x, y, 0));
            assert(before.reached(true, x, y, a, b, 1));
        }
    }
}

impl Board {
    /// Marks the covered in-grid cell `(x, y)` uncovered, touching nothing else.
    fn uncover_cell(&mut self, x: usize, y: usize)
        requires
            old(self).in_grid(x as int, y as int),
            old(self).cells().len() == old(self).w() * old(self).h(),
            old(self).w() * old(self).h() <= usize::MAX,
            !old(self).cell(x as int, y as int).is_uncovered,
        ensures
            final(self).w() == old(self).w(),
            final(self).h() == old(self).h(),
            final(self).mines() == old(self).mines(),
            final(self).cells().len() == old(self).cells().len(),
            forall|a: int, b: int|
                #![trigger final(self).cell(a, b)]
                final(self).in_grid(a, b) ==> final(self).cell(a, b) == if a == x && b == y {
                    old(self).cell(a, b).with_uncovered(true)
                } else {
                    old(self).cell(a, b)
                },
            final(self).covered() + 1 == old(self).covered(),
    {
        let w = self.width;
        let h = self.height;
        let i = index(w, h, x, y);
        let mut c = self.cells[i];
        c.is_uncovered = true;
        let ghost before = *self;
        self.cells.set(i, c);
        proof {
            assert forall|a: int, b: int| #[trigger]
                in_grid(w as int, h as int, a, b) implies self.cell(a, b) == if a == x && b == y {
                c
            } else {
                before.cell(a, b)
            } by {
                lemma_flat(w as int, h as int, a, b);
                lemma_flat_injective(w as int, h as int, a, b, x as int, y as int);
            }
            assert(covered_of(self.cells()) =~= covered_of(before.cells()).update(i as int, false));
            lemma_count_true_update(covered_of(before.cells()), i as int, false);
        }
    }

    /// Uncovers the cell at `(x, y)` and, while the cells it arrives at have
    /// as many flags as mines around them, their neighbours too. Off the grid
    /// and on a flagged cell nothing happens; a covered start cell is counted,
    /// an already uncovered one spreads only when `clicked`.
    #[verifier::rlimit(60)]
    pub fn reveal_at(&mut self, x: isize, y: isize, clicked: bool) -> (r: RevealOutcome)
        requires
            old(self).wf(),
        ensures
            final(self).wf(),
            final(self).uncovers_only(*old(self)),
            final(self).mine_layer() == old(self).mine_layer(),
            final(self).flag_layer() == old(self).flag_layer(),
            forall|a: int, b: int|
                #![trigger final(self).cell(a, b)]
                final(self).in_grid(a, b) && final(self).cell(a, b).is_uncovered && !old(self).cell(
                    a,
                    b,
                ).is_uncovered ==> exists|k: nat| old(self).reached(clicked, x as int, y as int, a, b, k),
            r == RevealOutcome::MineHit ==> exists|a: int, b: int, k: nat|
                #[trigger] old(self).reached(clicked, x as int, y as int, a, b, k) && old(self).cell(
                    a,
                    b,
                ).is_mine,
            r matches RevealOutcome::NewlyUncovered(n) ==> {
                &&& n == old(self).covered() - final(self).covered()
                &&& forall|a: int, b: int, k: nat|
                    #[trigger] old(self).reached(clicked, x as int, y as int, a, b, k) ==> final(self).cell(a, b).is_uncovered
            },
            !old(self).in_grid(x as int, y as int) || old(self).cell(x as int, y as int).is_flagged
                ==> r == RevealOutcome::NewlyUncovered(0) && final(self).cells() == old(self).cells(),
    {
        let ghost b0 = *self;
        proof {
            lemma_untouched(b0);
        }
        if x < 0 || y < 0 || x as usize >= self.width || y as usize >= self.height {
            proof {
                assert forall|a: int, b: int, k: nat| #[trigger]
                    b0.reached(clicked, x as int, y as int, a, b, k) implies false by {
                    lemma_reached_start_only(b0, clicked, x as int, y as int, a, b, k);
                }
            }
            return RevealOutcome::NewlyUncovered(0);
        }
        let sx = x as usize;
        let sy = y as usize;
        let w = self.width;
        let h = self.height;
        let si = index(w, h, sx, sy);
        let start = self.cells[si];
        if start.is_flagged || (start.is_uncovered && !clicked) {
            proof {
                assert forall|a: int, b: int, k: nat| #[trigger]
                    b0.reached(clicked, x as int, y as int, a, b, k) implies self.cell(a, b).is_uncovered by {
                    lemma_reached_start_only(b0, clicked, x as int, y as int, a, b, k);
                }
            }
            return RevealOutcome::NewlyUncovered(0);
        }
        if start.is_mine {
            assert(b0.reached(clicked, x as int, y as int, x as int, y as int, 0));
            return RevealOutcome::MineHit;
        }
        let mut count: usize = 0;
        proof {
            lemma_flat(w as int, h as int, sx as int, sy as int);
            lemma_count_true_bound(covered_of(b0.cells()));
        }
        if !start.is_uncovered {
            self.uncover_cell(sx, sy);
            count = 1;
            assert(b0.reached(clicked, x as int, y as int, x as int, y as int, 0));
        }
        let mut work: Vec<(usize, usize)> = Vec::new();
        if start.neighbors == start.flagged_neighbors {
            work.push((sx, sy));
            assert(b0.reached(clicked, x as int, y as int, x as int, y as int, 0));
            assert(work@[0] == (sx, sy));
        }
        proof {
            assert forall|a: int, b: int|
                #![trigger b0.spreads(clicked, x as int, y as int, a, b)]
                self.in_grid(a, b) && self.cell(a, b).is_uncovered && b0.spreads(
                    clicked,
                    x as int,
                    y as int,
                    a,
                    b,
                ) implies work@.contains((a as usize, b as usize)) by {
                assert(work@[0] == (sx, sy));
            }
        }
        while work.len() > 0
            invariant
                b0 == *old(self),
                in_progress(*self, b0, clicked, x as int, y as int, count as int),
                pending_ok(work@, *self, b0, clicked, x as int, y as int),
                w == b0.width,
                h == b0.height,
                sx == x,
                sy == y,
                forall|a: int, b: int|
                    #![trigger b0.spreads(clicked, x as int, y as int, a, b)]
                    self.in_grid(a, b) && self.cell(a, b).is_uncovered && b0.spreads(
                        clicked,
                        x as int,
                        y as int,
                        a,
                        b,
                    ) ==> work@.contains((a as usize, b as usize)) || settled(*self, b0, a, b, 8),
            decreases 9 * self.covered() + work@.len(),
        {
            let ghost m0 = 9 * self.covered() + work@.len();
            let ghost whole = work@;
            let (px, py) = match work.pop() {
                Some(p) => p,
                None => (sx, sy),
            };
            assert(whole[whole.len() - 1] == (px, py));
            let ghost kp = choose|k: nat| b0.reached(clicked, x as int, y as int, px as int, py as int, k);
            proof {
                assert(work@ =~= whole.drop_last());
                assert forall|a: int, b: int|
                    #![trigger b0.spreads(clicked, x as int, y as int, a, b)]
                    self.in_grid(a, b) && self.cell(a, b).is_uncovered && b0.spreads(
                        clicked,
                        x as int,
                        y as int,
                        a,
                        b,
                    ) implies work@.contains((a as usize, b as usize)) || settled(*self, b0, a, b, 8)
                        || (a == px && b == py) by {
                    if whole.contains((a as usize, b as usize)) && (a != px || b != py) {
                        let q = choose|q: int| 0 <= q < whole.len() && whole[q] == (a as usize, b as usize);
                        assert(work@[q] == whole[q]);
                    }
                }
                assert(pending_ok(work@, *self, b0, clicked, x as int, y as int)) by {
                    assert forall|q: int| 0 <= q < work@.len() implies #[trigger] work@[q] == whole[q] by {}
                }
            }
            let mut d: usize = 0;
            while d < 8
                invariant
                    b0 == *old(self),
                in_progress(*self, b0, clicked, x as int, y as int, count as int),
                    pending_ok(work@, *self, b0, clicked, x as int, y as int),
                    w == b0.width,
                    h == b0.height,
                    sx == x,
                    sy == y,
                    d <= 8,
                    in_grid(w as int, h as int, px as int, py as int),
                    b0.carries(clicked, x as int, y as int, px as int, py as int, kp),
                    settled(*self, b0, px as int, py as int, d as int),
                    9 * self.covered() + work@.len() < m0,
                    forall|a: int, b: int|
                        #![trigger b0.spreads(clicked, x as int, y as int, a, b)]
                        self.in_grid(a, b) && self.cell(a, b).is_uncovered && b0.spreads(
                            clicked,
                            x as int,
                            y as int,
                            a,
                            b,
                        ) ==> work@.contains((a as usize, b as usize)) || settled(*self, b0, a, b, 8)
                            || (a == px && b == py),
                decreases 8 - d,
            {
                match neighbor(w, h, px, py, d) {
                    Some((nx, ny)) => {
                        let j = index(w, h, nx, ny);
                        let n = self.cells[j];
                        proof {
                            lemma_flat(w as int, h as int, nx as int, ny as int);
                            assert(n == self.cell(nx as int, ny as int));
                        }
                        if n.is_flagged || n.is_uncovered {
                        } else if n.is_mine {
                            proof {
                                assert(b0.reached(clicked, x as int, y as int, nx as int, ny as int, kp + 1));
                                lemma_uncovers_only_wf(b0, *self);
                            }
                            return RevealOutcome::MineHit;
                        } else {
                            let ghost before = *self;
                            let ghost wl = work@;
                            self.uncover_cell(nx, ny);
                            proof {
                                lemma_count_true_bound(covered_of(b0.cells()));
                                assert(b0.reached(clicked, x as int, y as int, nx as int, ny as int, kp + 1));
                            }
                            count = count + 1;
                            if n.neighbors == n.flagged_neighbors {
                                work.push((nx, ny));
                            }
                            proof {
                                assert forall|q: int| 0 <= q < work@.len() implies {
                                    let e = #[trigger] work@[q];
                                    &&& b0.spreads(clicked, x as int, y as int, e.0 as int, e.1 as int)
                                    &&& self.cell(e.0 as int, e.1 as int).is_uncovered
                                    &&& exists|k: nat|
                                        b0.reached(clicked, x as int, y as int, e.0 as int, e.1 as int, k)
                                } by {
                                    if q < wl.len() {
                                        assert(work@[q] == wl[q]);
                                        assert(before.cell(work@[q].0 as int, work@[q].1 as int).is_uncovered);
                                    } else {
                                        assert(work@[q] == (nx, ny));
                                        assert(b0.reached(
                                            clicked,
                                            x as int,
                                            y as int,
                                            nx as int,
                                            ny as int,
                                            kp + 1,
                                        ));
                                    }
                                }
                                assert(pending_ok(work@, *self, b0, clicked, x as int, y as int));
                                lemma_settled_grows(before, *self, b0, px as int, py as int, d as int);
                                assert forall|a: int, b: int|
                                    #![trigger b0.spreads(clicked, x as int, y as int, a, b)]
                                    self.in_grid(a, b) && self.cell(a, b).is_uncovered && b0.spreads(
                                        clicked,
                                        x as int,
                                        y as int,
                                        a,
                                        b,
                                    ) implies work@.contains((a as usize, b as usize)) || settled(
                                        *self,
                                        b0,
                                        a,
                                        b,
                                        8,
                                    ) || (a == px && b == py) by {
                                    if a == nx && b == ny {
                                        assert(work@[work@.len() - 1] == (nx, ny));
                                    } else if wl.contains((a as usize, b as usize)) {
                                        let q = choose|q: int| 0 <= q < wl.len() && wl[q] == (a as usize, b as usize);
                                        assert(work@[q] == wl[q]);
                                    } else if settled(before, b0, a, b, 8) {
                                        lemma_settled_grows(before, *self, b0, a, b, 8);
                                    }
                                }
                            }
                        }
                    },
                    None => {},
                }
                d = d + 1;
            }
            proof {
                assert forall|a: int, b: int|
                    #![trigger b0.spreads(clicked, x as int, y as int, a, b)]
                    self.in_grid(a, b) && self.cell(a, b).is_uncovered && b0.spreads(
                        clicked,
                        x as int,
                        y as int,
                        a,
                        b,
                    ) implies work@.contains((a as usize, b as usize)) || settled(*self, b0, a, b, 8) by {
                }
            }
        }
        proof {
            lemma_uncovers_only_wf(b0, *self);
            assert forall|a: int, b: int, k: nat| #[trigger]
                b0.reached(clicked, x as int, y as int, a, b, k) implies self.cell(a, b).is_uncovered by {
                lemma_reached_uncovered(b0, *self, clicked, x as int, y as int, a, b, k);
            }
        }
        RevealOutcome::NewlyUncovered(count)
    }
}

} // verus!
