use vstd::prelude::*;
use vstd::arithmetic::div_mod::{lemma_fundamental_div_mod, lemma_fundamental_div_mod_converse};

use crate::error::SortError;

verus! {

/// The direction of the walk over the image.
///
/// Right walks each row left to right, from the first row to the last; Left
/// is the reverse of Right. Down walks each column top to bottom, from the
/// first column to the last; Up is the reverse of Down.
#[derive(Clone, Copy, Debug, PartialEq, Eq)]
pub enum Direction {
    Up,
    Down,
    Left,
    Right,
}

/// The length of one line of the walk: a row for Left and Right, a column
/// for Up and Down.
pub open spec fn line_len(w: nat, h: nat, dir: Direction) -> nat {
    match dir {
        Direction::Left | Direction::Right => w,
        Direction::Up | Direction::Down => h,
    }
}

/// The id at step `k` of the column-major walk from the top-left corner.
pub open spec fn column_order(w: nat, h: nat, k: int) -> int {
    (k % (h as int)) * w + k / (h as int)
}

/// The step of the column-major walk at which `id` is visited.
pub open spec fn column_rank(w: nat, h: nat, id: int) -> int {
    (id % (w as int)) * h + id / (w as int)
}

/// The id visited at step `k` of the walk in direction `dir`.
pub open spec fn order(w: nat, h: nat, dir: Direction, k: int) -> int {
    match dir {
        Direction::Right => k,
        Direction::Left => w * h - 1 - k,
        Direction::Down => column_order(w, h, k),
        Direction::Up => w * h - 1 - column_order(w, h, k),
    }
}

/// The step of the walk in direction `dir` at which `id` is visited.
pub open spec fn rank(w: nat, h: nat, dir: Direction, id: int) -> int {
    match dir {
        Direction::Right => id,
        Direction::Left => w * h - 1 - id,
        Direction::Down => column_rank(w, h, id),
        Direction::Up => column_rank(w, h, w * h - 1 - id),
    }
}

/// The id at which the walk in direction `dir` starts.
pub open spec fn start_spec(w: nat, h: nat, dir: Direction) -> int {
    match dir {
        Direction::Right | Direction::Down => 0,
        Direction::Left | Direction::Up => w * h - 1,
    }
}

/// The successor of `id` in the walk, for `id < w * h`.
///
/// Right: `id + 1`, none after the last id. Left: `id - 1`, none before `0`.
/// Down: `id + w` while that stays in the image, else the top of the next
/// column, none after the last id. Up: `id - w` while that is not negative,
/// else the bottom of the previous column, none before `0`.
pub open spec fn next_spec(w: nat, h: nat, dir: Direction, id: int) -> Option<int> {
    let n = w * h;
    match dir {
        Direction::Right => if id + 1 < n {
            Some(id + 1)
        } else {
            None
        },
        Direction::Left => if id > 0 {
            Some(id - 1)
        } else {
            None
        },
        Direction::Down => if id + w < n {
            Some(id + w)
        } else if id == n - 1 {
            None
        } else {
            Some(id % (w as int) + 1)
        },
        Direction::Up => if id >= w {
            Some(id - w)
        } else if id == 0 {
            None
        } else {
            Some(n - w + id - 1)
        },
    }
}

/// The walk: the id reached after `k` successor steps from the start, or
/// none once the walk has ended.
pub open spec fn walk(w: nat, h: nat, dir: Direction, k: nat) -> Option<int>
    decreases k,
{
    if k == 0 {
        if w * h > 0 {
            Some(start_spec(w, h, dir))
        } else {
            None
        }
    } else {
        match walk(w, h, dir, (k - 1) as nat) {
            Some(id) => next_spec(w, h, dir, id),
            None => None,
        }
    }
}

pub open spec fn opt_int(o: Option<usize>) -> Option<int> {
    match o {
        Some(x) => Some(x as int),
        None => None,
    }
}

/// The id of the pixel at column `x` and row `y` of an image `width` wide.
pub fn position_to_id(x: usize, y: usize, width: usize, height: usize) -> (id: usize)
    requires
        x < width,
        y < height,
        width * height <= usize::MAX,
    ensures
        id == y * width + x,
{
    proof {
        lemma_coords(width as nat, height as nat, x as int, y as int);
    }
    y * width + x
}

/// The column and row of the pixel with id `id` in an image `width` wide.
pub fn id_to_position(id: usize, width: usize) -> (pos: (usize, usize))
    requires
        width > 0,
    ensures
        pos.0 == id % width,
        pos.1 == id / width,
        id == pos.1 * width + pos.0,
{
    proof {
        lemma_fundamental_div_mod(id as int, width as int);
    }
    (id % width, id / width)
}

/// The id at which the walk starts, none for an empty image.
pub fn start_id(width: usize, height: usize, direction: Direction) -> (r: Option<usize>)
    requires
        width * height <= usize::MAX,
    ensures
        opt_int(r) == walk(width as nat, height as nat, direction, 0),
{
    let n: usize = width * height;
    if n == 0 {
        None
    } else {
        match direction {
            Direction::Right | Direction::Down => Some(0),
            Direction::Left | Direction::Up => Some(n - 1),
        }
    }
}

/// The successor of a valid id in the walk.
pub(crate) fn successor(id: usize, width: usize, height: usize, direction: Direction) -> (r:
    Option<usize>)
    requires
        id < width * height,
        width * height <= usize::MAX,
    ensures
        opt_int(r) == next_spec(width as nat, height as nat, direction, id as int),
{
    let n: usize = width * height;
    proof {
        lemma_id_coords(width as nat, height as nat, id as int);
        assert(width <= n) by (nonlinear_arith)
            requires
                n == width * height,
                height > 0,
        ;
    }
    match direction {
        Direction::Right => if id + 1 < n {
            Some(id + 1)
        } else {
            None
        },
        Direction::Left => if id > 0 {
            Some(id - 1)
        } else {
            None
        },
        Direction::Down => if id < n - width {
            Some(id + width)
        } else if id == n - 1 {
            None
        } else {
            Some(id % width + 1)
        },
        Direction::Up => if id >= width {
            Some(id - width)
        } else if id == 0 {
            None
        } else {
            Some(n - width + id - 1)
        },
    }
}

/// The successor of `id` in the walk in direction `direction`; fails with
/// `OutOfRange` when `id` lies outside the image.
pub fn next_id(id: usize, width: usize, height: usize, direction: Direction) -> (r: Result<
    Option<usize>,
    SortError,
>)
    requires
        width * height <= usize::MAX,
    ensures
        id >= width * height ==> r == Err::<Option<usize>, SortError>(SortError::OutOfRange),
        id < width * height ==> (r matches Ok(o) && opt_int(o) == next_spec(
            width as nat,
            height as nat,
            direction,
            id as int,
        )),
{
    if id >= width * height {
        Err(SortError::OutOfRange)
    } else {
        Ok(successor(id, width, height, direction))
    }
}

/// The two ways of writing a position as one number agree with division.
pub proof fn lemma_coords(w: nat, h: nat, x: int, y: int)
    requires
        0 <= x < w,
        0 <= y < h,
    ensures
        0 <= x * h + y < w * h,
        (x * h + y) / (h as int) == x,
        (x * h + y) % (h as int) == y,
        0 <= y * w + x < w * h,
        (y * w + x) / (w as int) == y,
        (y * w + x) % (w as int) == x,
{
    assert(0 <= x * h + y < w * h) by (nonlinear_arith)
        requires
            0 <= x < w,
            0 <= y < h,
    ;
    assert(0 <= y * w + x < w * h) by (nonlinear_arith)
        requires
            0 <= x < w,
            0 <= y < h,
    ;
    lemma_fundamental_div_mod_converse(x * h + y, h as int, x, y);
    lemma_fundamental_div_mod_converse(y * w + x, w as int, y, x);
}

/// A step `k < w * h` of the column-major walk is `x * h + y` for a column
/// `x < w` and a row `y < h`.
proof fn lemma_step_coords(w: nat, h: nat, k: int)
    requires
        0 <= k < w * h,
    ensures
        h > 0,
        0 <= k / (h as int) < w,
        0 <= k % (h as int) < h,
        k == h * (k / (h as int)) + k % (h as int),
{
    assert(h > 0) by (nonlinear_arith)
        requires
            0 <= k < w * h,
    ;
    lemma_fundamental_div_mod(k, h as int);
    let q = k / (h as int);
    let r = k % (h as int);
    assert(0 <= q < w) by (nonlinear_arith)
        requires
            k == h * q + r,
            0 <= r < h,
            0 <= k < w * h,
    ;
}

/// An id `id < w * h` is `y * w + x` for a column `x < w` and a row `y < h`.
proof fn lemma_id_coords(w: nat, h: nat, id: int)
    requires
        0 <= id < w * h,
    ensures
        w > 0,
        0 <= id / (w as int) < h,
        0 <= id % (w as int) < w,
        id == w * (id / (w as int)) + id % (w as int),
{
    assert(w > 0) by (nonlinear_arith)
        requires
            0 <= id < w * h,
    ;
    lemma_fundamental_div_mod(id, w as int);
    let q = id / (w as int);
    let r = id % (w as int);
    assert(0 <= q < h) by (nonlinear_arith)
        requires
            id == w * q + r,
            0 <= r < w,
            0 <= id < w * h,
    ;
}

/// The column-major walk visits the ids `0..w * h` one to one, and
/// `column_rank` undoes it.
proof fn lemma_column_order(w: nat, h: nat, k: int)
    requires
        0 <= k < w * h,
    ensures
        0 <= column_order(w, h, k) < w * h,
        column_rank(w, h, column_order(w, h, k)) == k,
        column_order(w, h, k) == (k % (h as int)) * w + k / (h as int),
{
    lemma_step_coords(w, h, k);
    let x = k / (h as int);
    let y = k % (h as int);
    lemma_coords(w, h, x, y);
    assert(k == x * h + y) by (nonlinear_arith)
        requires
            k == h * x + y,
    ;
}

/// `column_order` undoes `column_rank`.
proof fn lemma_column_rank(w: nat, h: nat, id: int)
    requires
        0 <= id < w * h,
    ensures
        0 <= column_rank(w, h, id) < w * h,
        column_order(w, h, column_rank(w, h, id)) == id,
{
    lemma_id_coords(w, h, id);
    let x = id % (w as int);
    let y = id / (w as int);
    lemma_coords(w, h, x, y);
    assert(id == y * w + x) by (nonlinear_arith)
        requires
            id == w * y + x,
    ;
}

/// Each step of the walk visits an id of the image, and `rank` gives the
/// step back.
pub proof fn lemma_order_rank(w: nat, h: nat, dir: Direction, k: int)
    requires
        0 <= k < w * h,
    ensures
        0 <= order(w, h, dir, k) < w * h,
        rank(w, h, dir, order(w, h, dir, k)) == k,
{
    match dir {
        Direction::Right | Direction::Left => {},
        Direction::Down => lemma_column_order(w, h, k),
        Direction::Up => lemma_column_order(w, h, k),
    }
}

/// Each id of the image is visited at step `rank` of the walk.
pub proof fn lemma_rank_order(w: nat, h: nat, dir: Direction, id: int)
    requires
        0 <= id < w * h,
    ensures
        0 <= rank(w, h, dir, id) < w * h,
        order(w, h, dir, rank(w, h, dir, id)) == id,
{
    match dir {
        Direction::Right | Direction::Left => {},
        Direction::Down => lemma_column_rank(w, h, id),
        Direction::Up => lemma_column_rank(w, h, w * h - 1 - id),
    }
}

/// The successor of the id at step `k` is the id at step `k + 1`, and the
/// last step has none.
pub proof fn lemma_next_order(w: nat, h: nat, dir: Direction, k: int)
    requires
        0 <= k < w * h,
    ensures
        next_spec(w, h, dir, order(w, h, dir, k)) == (if k + 1 < w * h {
            Some(order(w, h, dir, k + 1))
        } else {
            None
        }),
{
    let n = w * h;
    match dir {
        Direction::Right | Direction::Left => {},
        Direction::Down | Direction::Up => {
            lemma_step_coords(w, h, k);
            let x = k / (h as int);
            let y = k % (h as int);
            lemma_coords(w, h, x, y);
            assert(k == x * h + y) by (nonlinear_arith)
                requires
                    k == h * x + y,
            ;
            if y + 1 < h {
                lemma_coords(w, h, x, y + 1);
                assert(k + 1 < n);
                assert((y + 1) * w + x == y * w + x + w) by (nonlinear_arith);
                assert(column_order(w, h, k + 1) == (y + 1) * w + x);
                if dir == Direction::Up {
                    assert(n - 1 - (y * w + x) >= w);
                }
            } else {
                assert(y * w + x + w >= n) by (nonlinear_arith)
                    requires
                        y + 1 == h,
                        x >= 0,
                        n == w * h,
                ;
                if x + 1 < w {
                    lemma_coords(w, h, x + 1, 0);
                    assert(k + 1 == (x + 1) * h + 0) by (nonlinear_arith)
                        requires
                            k == x * h + y,
                            y + 1 == h,
                    ;
                    assert(column_order(w, h, k + 1) == x + 1);
                    assert(y * w + x != n - 1) by (nonlinear_arith)
                        requires
                            y + 1 == h,
                            x + 1 < w,
                            n == w * h,
                    ;
                    assert(y * w == n - w) by (nonlinear_arith)
                        requires
                            y + 1 == h,
                            n == w * h,
                    ;
                } else {
                    assert(k + 1 == n) by (nonlinear_arith)
                        requires
                            k == x * h + y,
                            y + 1 == h,
                            x + 1 == w,
                            n == w * h,
                    ;
                    assert(y * w + x == n - 1) by (nonlinear_arith)
                        requires
                            y + 1 == h,
                            x + 1 == w,
                            n == w * h,
                    ;
                }
            }
        },
    }
}

/// The walk reaches the id of step `k` after `k` successor steps, and has
/// ended after `w * h` of them.
pub proof fn lemma_walk_order(w: nat, h: nat, dir: Direction, k: nat)
    requires
        k <= w * h,
    ensures
        walk(w, h, dir, k) == (if k < w * h {
            Some(order(w, h, dir, k as int))
        } else {
            None::<int>
        }),
    decreases k,
{
    if k == 0 {
        if w * h > 0 {
            lemma_step_coords(w, h, 0);
        }
    } else {
        lemma_walk_order(w, h, dir, (k - 1) as nat);
        lemma_next_order(w, h, dir, k - 1);
    }
}

/// From its start, the walk in any direction visits every id of the image
/// exactly once, then ends: every id `i < w * h` is reached after
/// `rank(i)` steps, no two of the first `w * h` steps reach the same id, and
/// after `w * h` steps the successor function has returned none.
pub proof fn lemma_walk_visits_every_id_once(w: nat, h: nat, dir: Direction)
    ensures
        forall|id: int|
            0 <= id < w * h ==> 0 <= #[trigger] rank(w, h, dir, id) < w * h && walk(
                w,
                h,
                dir,
                rank(w, h, dir, id) as nat,
            ) == Some(id),
        forall|j: nat, k: nat|
            j < k < w * h ==> (#[trigger] walk(w, h, dir, j)) is Some && #[trigger] walk(
                w,
                h,
                dir,
                k,
            ) != walk(w, h, dir, j),
        forall|k: nat| k < w * h ==> (#[trigger] walk(w, h, dir, k) matches Some(id) && 0 <= id
            < w * h),
        walk(w, h, dir, w * h) is None,
{
    assert forall|id: int| 0 <= id < w * h implies 0 <= #[trigger] rank(w, h, dir, id) < w * h
        && walk(w, h, dir, rank(w, h, dir, id) as nat) == Some(id) by {
        lemma_rank_order(w, h, dir, id);
        lemma_walk_order(w, h, dir, rank(w, h, dir, id) as nat);
    }
    assert forall|j: nat, k: nat| j < k < w * h implies (#[trigger] walk(w, h, dir, j)) is Some
        && #[trigger] walk(w, h, dir, k) != walk(w, h, dir, j) by {
        lemma_walk_order(w, h, dir, j);
        lemma_walk_order(w, h, dir, k);
        lemma_order_rank(w, h, dir, j as int);
        lemma_order_rank(w, h, dir, k as int);
    }
    assert forall|k: nat| k < w * h implies (#[trigger] walk(w, h, dir, k) matches Some(id) && 0
        <= id < w * h) by {
        lemma_walk_order(w, h, dir, k);
        lemma_order_rank(w, h, dir, k as int);
    }
    lemma_walk_order(w, h, dir, w * h);
}

} // verus!
