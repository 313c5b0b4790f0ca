use vstd::prelude::*;

use crate::board::{
    adjacent, around, dir_dx, dir_dy, dir_of, flat, in_grid, index, lemma_around_update, lemma_flat,
    lemma_flat_injective, lemma_unflat, neighbor, Board,
};

verus! {

impl Board {
    /// Flags or unflags the covered cell at `(x, y)` and moves the flag
    /// counters of its neighbours by one. Does nothing off the grid or on an
    /// uncovered cell.
    pub fn toggle_flag(&mut self, x: usize, y: usize)
        requires
            old(self).wf(),
        ensures
            final(self).wf(),
            final(self).w() == old(self).w(),
            final(self).h() == old(self).h(),
            final(self).mines() == old(self).mines(),
            final(self).mine_layer() == old(self).mine_layer(),
            forall|a: int, b: int|
                #![trigger final(self).cell(a, b)]
                final(self).in_grid(a, b) ==> final(self).cell(a, b).is_uncovered == old(self).cell(
                    a,
                    b,
                ).is_uncovered,
            !old(self).in_grid(x as int, y as int) || old(self).cell(
                x as int,
                y as int,
            ).is_uncovered ==> final(self).cells() == old(self).cells(),
            old(self).in_grid(x as int, y as int) && !old(self).cell(
                x as int,
                y as int,
            ).is_uncovered ==> final(self).flag_layer() == old(self).flag_layer().update(
                flat(old(self).w(), x as int, y as int),
                !old(self).cell(x as int, y as int).is_flagged,
            ),
    {
        if x >= self.width || y >= self.height {
            return;
        }
        let ghost b0 = *self;
        let w = self.width;
        let h = self.height;
        let i = index(w, h, x, y);
        let mut c = self.cells[i];
        if c.is_uncovered {
            return;
        }
        let flagged = !c.is_flagged;
        c.is_flagged = flagged;
        self.cells.set(i, c);
        let ghost delta: int = if flagged {
            1
        } else {
            -1
        };
        proof {
            assert forall|a: int, b: int| #[trigger]
                in_grid(w as int, h as int, a, b) implies self.cell(a, b) == if a == x && b == y {
                c
            } else {
                b0.cell(a, b)
            } by {
                lemma_flat(w as int, h as int, a, b);
                lemma_flat_injective(w as int, h as int, a, b, x as int, y as int);
            }
        }
        let mut d: usize = 0;
        while d < 8
            invariant
                b0.wf(),
                w == b0.width,
                h == b0.height,
                in_grid(w as int, h as int, x as int, y as int),
                i == flat(w as int, x as int, y as int),
                self.width == w,
                self.height == h,
                self.mine_count == b0.mine_count,
                self.cells().len() == b0.cells().len(),
                !b0.cell(x as int, y as int).is_uncovered,
                flagged == !b0.cell(x as int, y as int).is_flagged,
                delta == if flagged {
                    1int
                } else {
                    -1int
                },
                d <= 8,
                forall|a: int, b: int|
                    #![trigger self.cell(a, b)]
                    in_grid(w as int, h as int, a, b) ==> {
                        let c = self.cell(a, b);
                        let o = b0.cell(a, b);
                        &&& c.is_mine == o.is_mine
                        &&& c.is_uncovered == o.is_uncovered
                        &&& c.neighbors == o.neighbors
                        &&& c.is_flagged == if a == x && b == y {
                            flagged
                        } else {
                            o.is_flagged
                        }
                        &&& c.flagged_neighbors == o.flagged_neighbors + if adjacent(
                            x as int,
                            y as int,
                            a,
                            b,
                        ) && dir_of(a - x, b - y) < d {
                            delta
                        } else {
                            0
                        }
                    },
            decreases 8 - d,
        {
            match neighbor(w, h, x, y, d) {
                Some((nx, ny)) => {
                    let j = index(w, h, nx, ny);
                    let mut n = self.cells[j];
                    let ghost before = *self;
                    proof {
                        lemma_flat(w as int, h as int, nx as int, ny as int);
                        assert(n == self.cell(nx as int, ny as int));
                        assert(b0.cell_ok(nx as int, ny as int));
                        assert(n.flagged_neighbors <= 8);
                        lemma_flat(w as int, h as int, x as int, y as int);
                        if !flagged {
                            assert(b0.flag_layer()[i as int]);
                            assert(n.flagged_neighbors == b0.cell(nx as int, ny as int).flagged_neighbors);
                            assert(n.flagged_neighbors >= 1);
                        }
                    }
                    if flagged {
                        n.flagged_neighbors = n.flagged_neighbors + 1;
                    } else {
                        n.flagged_neighbors = n.flagged_neighbors - 1;
                    }
                    self.cells.set(j, n);
                    proof {
                        assert forall|a: int, b: int| #[trigger]
                            in_grid(w as int, h as int, a, b) implies self.cell(a, b) == if a == nx
                            && b == ny {
                            n
                        } else {
                            before.cell(a, b)
                        } by {
                            lemma_flat(w as int, h as int, a, b);
                            lemma_flat_injective(w as int, h as int, a, b, nx as int, ny as int);
                        }
                    }
                },
                None => {},
            }
            d = d + 1;
        }
        proof {
            let f0 = b0.flag_layer();
            lemma_flat(w as int, h as int, x as int, y as int);
            assert forall|k: int| 0 <= k < self.cells().len() implies self.cells()[k] == if k == i {
                c
            } else {
                b0.cells()[k]
            }.with_flag_count(self.cells()[k].flagged_neighbors) by {
                lemma_unflat(w as int, h as int, k);
                let a = k % w as int;
                let b = k / w as int;
                assert(self.cell(a, b) == self.cells()[k]);
                assert(b0.cell(a, b) == b0.cells()[k]);
                if k != i {
                    assert(a != x || b != y);
                }
            }
            assert(self.flag_layer() =~= f0.update(i as int, flagged));
            assert(self.mine_layer() =~= b0.mine_layer());
            assert forall|a: int, b: int| self.in_grid(a, b) implies #[trigger] self.cell_ok(a, b) by {
                lemma_around_update(f0, w as int, h as int, x as int, y as int, flagged, a, b);
                assert(b0.cell_ok(a, b));
            }
        }
    }
}

} // verus!
