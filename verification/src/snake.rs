//! Walking a grid of tiles row by row, turning round at the end of each row.
use vstd::prelude::*;

verus! {

/// The row of the `i`-th tile of the walk, on a grid `w` tiles wide.
pub open spec fn row_at(w: int, i: int) -> int {
    i / w
}

/// The column of the `i`-th tile of the walk: even rows run to the right, odd rows back.
pub open spec fn col_at(w: int, i: int) -> int {
    if (i / w) % 2 == 0 {
        i % w
    } else {
        w - 1 - i % w
    }
}

/// `walk` visits a grid of `w` by `h` tiles as a snake.
pub open spec fn is_walk(walk: Seq<(usize, usize)>, w: int, h: int) -> bool {
    &&& walk.len() == w * h
    &&& forall|i: int|
        0 <= i < w * h ==> (#[trigger] walk[i]).0 == row_at(w, i) && walk[i].1 == col_at(w, i)
}

/// A position splits into row and place within the row.
pub proof fn lemma_position(w: int, row: int, place: int)
    requires
        0 <= place < w,
    ensures
        (row * w + place) / w == row,
        (row * w + place) % w == place,
{
    vstd::arithmetic::div_mod::lemma_fundamental_div_mod_converse(row * w + place, w, row, place);
}

/// The row and the place of a position.
pub proof fn lemma_split(w: int, h: int, i: int)
    requires
        w > 0,
        0 <= i < w * h,
    ensures
        0 <= i / w < h,
        0 <= i % w < w,
        i == (i / w) * w + i % w,
{
    vstd::arithmetic::div_mod::lemma_fundamental_div_mod(i, w);
    assert(0 <= i / w < h && 0 <= i % w < w && w * (i / w) == (i / w) * w) by (nonlinear_arith)
        requires
            w > 0,
            0 <= i < w * h,
            i == w * (i / w) + i % w,
    ;
}

/// The walk stays on the grid.
pub proof fn walk_stays_on_grid(w: int, h: int, i: int)
    requires
        w > 0,
        0 <= i < w * h,
    ensures
        0 <= row_at(w, i) < h,
        0 <= col_at(w, i) < w,
{
    lemma_split(w, h, i);
}

/// The walk comes by every tile.
pub proof fn walk_visits_every_tile(w: int, h: int, row: int, col: int)
    requires
        0 <= row < h,
        0 <= col < w,
    ensures
        exists|i: int| 0 <= i < w * h && #[trigger] row_at(w, i) == row && col_at(w, i) == col,
{
    let place = if row % 2 == 0 { col } else { w - 1 - col };
    let i = row * w + place;
    lemma_position(w, row, place);
    assert(0 <= i < w * h) by (nonlinear_arith)
        requires
            i == row * w + place,
            0 <= row < h,
            0 <= place < w,
    ;
    assert(row_at(w, i) == row && col_at(w, i) == col);
}

/// The walk comes by no tile twice.
pub proof fn walk_repeats_no_tile(w: int, h: int, i: int, j: int)
    requires
        w > 0,
        0 <= i < w * h,
        0 <= j < w * h,
        row_at(w, i) == row_at(w, j),
        col_at(w, i) == col_at(w, j),
    ensures
        i == j,
{
    lemma_split(w, h, i);
    lemma_split(w, h, j);
}

/// Each step of the walk leads to a tile that shares a side with the one before.
pub proof fn steps_are_short(w: int, h: int, i: int)
    requires
        w > 0,
        0 <= i,
        i + 1 < w * h,
    ensures
        (row_at(w, i + 1) == row_at(w, i) && (col_at(w, i + 1) == col_at(w, i) + 1 || col_at(w, i + 1) == col_at(
            w,
            i,
        ) - 1)) || (row_at(w, i + 1) == row_at(w, i) + 1 && col_at(w, i + 1) == col_at(w, i)),
{
    lemma_split(w, h, i);
    let row = i / w;
    let place = i % w;
    if place + 1 < w {
        lemma_position(w, row, place + 1);
    } else {
        assert((row + 1) * w == row * w + w) by (nonlinear_arith);
        lemma_position(w, row + 1, 0);
    }
}

/// Walks a grid as a snake.
pub fn walk_grid(w: usize, h: usize) -> (walk: Vec<(usize, usize)>)
    requires
        w * h <= usize::MAX,
    ensures
        is_walk(walk@, w as int, h as int),
{
    let mut walk: Vec<(usize, usize)> = Vec::new();
    let mut row: usize = 0;
    while row < h
        invariant
            row <= h,
            w * h <= usize::MAX,
            walk.len() == row * w,
            forall|i: int|
                0 <= i < row * w ==> (#[trigger] walk@[i]).0 == row_at(w as int, i) && walk@[i].1 == col_at(w as int, i),
        decreases h - row,
    {
        let mut place: usize = 0;
        while place < w
            invariant
                row < h,
                place <= w,
                walk.len() == row * w + place,
                forall|i: int|
                    0 <= i < row * w + place ==> (#[trigger] walk@[i]).0 == row_at(w as int, i) && walk@[i].1 == col_at(
                        w as int,
                        i,
                    ),
            decreases w - place,
        {
            proof {
                lemma_position(w as int, row as int, place as int);
            }
            let col: usize = if row % 2 == 0 {
                place
            } else {
                w - 1 - place
            };
            walk.push((row, col));
            place = place + 1;
        }
        assert((row + 1) * w == row * w + w) by (nonlinear_arith);
        row = row + 1;
    }
    assert(h * w == w * h) by (nonlinear_arith);
    walk
}

} // verus!
