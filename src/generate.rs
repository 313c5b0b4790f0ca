use vstd::prelude::*;

use rand::Rng;

use crate::board::{
    count_true, in_grid, lemma_count_true_push, lemma_count_true_update, lemma_flat,
    lemma_flat_coords, lemma_unflat, Board, BoardError,
};

verus! {

/// The cell `(x, y)` is the cell `(cx, cy)` or one of its neighbours.
pub open spec fn near(cx: int, cy: int, x: int, y: int) -> bool {
    -1 <= x - cx <= 1 && -1 <= y - cy <= 1
}

/// Row by row, which cells of a `w` by `h` grid lie outside the
/// neighbourhood of `(fx, fy)` and so may hold a mine.
pub open spec fn mine_slots(w: int, h: int, fx: int, fy: int) -> Seq<bool> {
    Seq::new((w * h) as nat, |i: int| !near(fx, fy, i % w, i / w))
}

/// Relies on rand::thread_rng and rand::Rng::gen_range: a value drawn from
/// `0..n`. gen_range panics on an empty range.
#[verifier::external_body]
fn random_below(n: usize) -> (r: usize)
    requires
        n > 0,
    ensures
        r < n,
{
    rand::thread_rng().gen_range(0..n)
}

/// A fresh board of `width` by `height` cells with `mines` mines placed at
/// random, none of them on the first click `(first_x, first_y)` or next to it.
pub fn generate_board(mines: usize, first_x: usize, first_y: usize, width: usize, height: usize) -> (r:
    Result<Board, BoardError>)
    ensures
        width == 0 || height == 0 ==> r == Err::<Board, BoardError>(BoardError::EmptyBoard),
        width > 0 && height > 0 && width * height > usize::MAX ==> r == Err::<Board, BoardError>(
            BoardError::TooLarge,
        ),
        width > 0 && height > 0 && width * height <= usize::MAX && (first_x >= width || first_y
            >= height) ==> r == Err::<Board, BoardError>(BoardError::OriginOutOfBounds),
        width * height <= usize::MAX && in_grid(width as int, height as int, first_x as int, first_y as int)
            && mines >= width * height ==> r == Err::<Board, BoardError>(BoardError::TooManyMines),
        width * height <= usize::MAX && in_grid(width as int, height as int, first_x as int, first_y as int)
            && mines < width * height && mines > count_true(
            mine_slots(width as int, height as int, first_x as int, first_y as int),
        ) ==> r == Err::<Board, BoardError>(BoardError::NoRoomForMines),
        width * height <= usize::MAX && in_grid(width as int, height as int, first_x as int, first_y as int)
            && mines <= count_true(mine_slots(width as int, height as int, first_x as int, first_y as int))
            && mines < width * height ==> r is Ok,
        r matches Ok(b) ==> {
            &&& b.wf()
            &&& b.w() == width
            &&& b.h() == height
            &&& b.mines() == mines
            &&& b.fresh()
            &&& forall|x: int, y: int|
                #![trigger b.cell(x, y)]
                b.in_grid(x, y) && near(first_x as int, first_y as int, x, y) ==> !b.cell(x, y).is_mine
        },
{
    if width == 0 || height == 0 {
        return Err(BoardError::EmptyBoard);
    }
    let n = match width.checked_mul(height) {
        Some(n) => n,
        None => {
            return Err(BoardError::TooLarge);
        },
    };
    if first_x >= width || first_y >= height {
        return Err(BoardError::OriginOutOfBounds);
    }
    if mines >= n {
        return Err(BoardError::TooManyMines);
    }
    let ghost slots = mine_slots(width as int, height as int, first_x as int, first_y as int);
    let mut layout: Vec<bool> = Vec::new();
    let mut free: Vec<usize> = Vec::new();
    let mut i: usize = 0;
    while i < n
        invariant
            i <= n,
            n == width * height,
            width > 0,
            slots == mine_slots(width as int, height as int, first_x as int, first_y as int),
            first_x < width,
            first_y < height,
            layout@.len() == i,
            count_true(layout@) == 0,
            forall|k: int| 0 <= k < i ==> !#[trigger] layout@[k],
            free@.len() == count_true(slots.take(i as int)),
            forall|q: int|
                0 <= q < free@.len() ==> #[trigger] free@[q] < i && slots[free@[q] as int],
            forall|p: int, q: int|
                0 <= p < q < free@.len() ==> #[trigger] free@[p] < #[trigger] free@[q],
        decreases n - i,
    {
        proof {
            lemma_unflat(width as int, height as int, i as int);
            assert(slots.take(i + 1) =~= slots.take(i as int).push(slots[i as int]));
            lemma_count_true_push(slots.take(i as int), slots[i as int]);
            lemma_count_true_push(layout@, false);
        }
        let x = i % width;
        let y = i / width;
        layout.push(false);
        if x + 1 < first_x || first_x + 1 < x || y + 1 < first_y || first_y + 1 < y {
            free.push(i);
        }
        i = i + 1;
    }
    assert(slots.take(n as int) =~= slots);
    if mines > free.len() {
        return Err(BoardError::NoRoomForMines);
    }
    let ghost total = free@.len();
    let mut placed: usize = 0;
    while placed < mines
        invariant
            placed <= mines,
            mines <= total,
            free@.len() + placed == total,
            n == width * height,
            width > 0,
            slots == mine_slots(width as int, height as int, first_x as int, first_y as int),
            layout@.len() == n,
            count_true(layout@) == placed,
            forall|k: int| 0 <= k < n && #[trigger] layout@[k] ==> slots[k],
            forall|q: int|
                0 <= q < free@.len() ==> #[trigger] free@[q] < n && slots[free@[q] as int]
                    && !layout@[free@[q] as int],
            forall|p: int, q: int|
                0 <= p < free@.len() && 0 <= q < free@.len() && p != q ==> #[trigger] free@[p]
                    != #[trigger] free@[q],
        decreases mines - placed,
    {
        let pick = random_below(free.len());
        let ghost before = free@;
        let k = free.swap_remove(pick);
        proof {
            lemma_count_true_update(layout@, k as int, true);
            assert forall|q: int| 0 <= q < free@.len() implies #[trigger] free@[q] == if q == pick {
                before[before.len() - 1]
            } else {
                before[q]
            } by {}
        }
        layout.set(k, true);
        placed = placed + 1;
    }
    match Board::from_mines(width, height, &layout) {
        Ok(b) => {
            proof {
                assert forall|x: int, y: int|
                    #![trigger b.cell(x, y)]
                    b.in_grid(x, y) && near(first_x as int, first_y as int, x, y) implies !b.cell(
                    x,
                    y,
                ).is_mine by {
                    lemma_flat(width as int, height as int, x, y);
                    lemma_flat_coords(width as int, height as int, x, y);
                    assert(b.mine_layer()[x + y * width] == layout@[x + y * width]);
                }
            }
            Ok(b)
        },
        Err(e) => Err(e),
    }
}

} // verus!
