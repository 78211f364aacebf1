//! Structured missingness: rectangular blocks and blob-shaped regions.

use rand::rngs::StdRng;
use vstd::prelude::*;

use crate::errors::{Errors, MAX_AMOUNT_OF_WORK};
use crate::mask::{grid_count, lemma_marked_count, marked, remove, MissingMask};
use crate::mnar::{elig_count, law_column_keeps_eligible_rows};
use crate::random::{random_below, random_between};

verus! {

/// Cell `(r, c)` lies in the `h` by `w` rectangle whose top-left cell is `(y, x)`.
pub open spec fn in_rect(r: int, c: int, y: int, x: int, h: int, w: int) -> bool {
    y <= r < y + h && x <= c < x + w
}

/// The grid `g` with the rectangle marked missing.
pub open spec fn rect_marked(g: Seq<Seq<bool>>, y: int, x: int, h: int, w: int) -> Seq<Seq<bool>> {
    Seq::new(g.len(), |r: int| Seq::new(g[r].len(), |c: int| g[r][c] || in_rect(r, c, y, x, h, w)))
}

/// A rectangle that a block may cover: inside the grid, of at most `nmiss`
/// cells, containing no kept cell and no cell that is already missing.
pub open spec fn valid_block(
    g: Seq<Seq<bool>>,
    fix: Seq<usize>,
    rows: int,
    cols: int,
    nmiss: int,
    y: int,
    x: int,
    h: int,
    w: int,
) -> bool {
    &&& 0 <= y && 0 <= x
    &&& 1 <= h && 1 <= w
    &&& y + h <= rows && x + w <= cols
    &&& h * w <= nmiss
    &&& forall|r: int| y <= r < y + h ==> !(x <= #[trigger] fix[r] < x + w)
    &&& forall|r: int, c: int| in_rect(r, c, y, x, h, w) ==> !#[trigger] g[r][c]
}

/// Whether some row of the rectangle keeps a column inside it.
fn hits_fix(fix: &Vec<usize>, y: usize, x: usize, h: usize, w: usize) -> (b: bool)
    requires
        y + h <= fix@.len(),
        x + w <= usize::MAX,
    ensures
        b == exists|r: int| y <= r < y + h && x <= #[trigger] fix@[r] < x + w,
{
    let mut hit = false;
    for row in 0..fix.len()
        invariant
            y + h <= fix@.len(),
            x + w <= usize::MAX,
            hit == exists|r: int| y <= r < y + h && r < row && x <= #[trigger] fix@[r] < x + w,
    {
        let column = fix[row];
        if column >= x && column < x + w && row >= y && row < y + h {
            hit = true;
        }
    }
    hit
}

/// The cells of the rectangle, row by row, and whether any of them is missing.
fn rect_cells(arr: &MissingMask, y: usize, x: usize, h: usize, w: usize) -> (res: (Vec<(usize, usize)>, bool))
    requires
        arr.wf(),
        y + h <= arr.rows(),
        x + w <= arr.cols(),
    ensures
        res.0@.len() == h * w,
        res.0@.no_duplicates(),
        forall|r: int, c: int| #[trigger] res.0@.contains((r as usize, c as usize)) && 0 <= r && 0 <= c && r <= usize::MAX && c <= usize::MAX ==> in_rect(r, c, y as int, x as int, h as int, w as int),
        forall|r: int, c: int| in_rect(r, c, y as int, x as int, h as int, w as int) ==> #[trigger] res.0@.contains((r as usize, c as usize)),
        forall|k: int| 0 <= k < res.0@.len() ==> in_rect((#[trigger] res.0@[k]).0 as int, res.0@[k].1 as int, y as int, x as int, h as int, w as int),
        res.1 == exists|r: int, c: int| in_rect(r, c, y as int, x as int, h as int, w as int) && #[trigger] arr@[r][c],
{
    let mut ids: Vec<(usize, usize)> = Vec::new();
    let mut hit = false;
    let mut r = y;
    while r < y + h
        invariant
            arr.wf(),
            y + h <= arr.rows(),
            x + w <= arr.cols(),
            y <= r <= y + h,
            ids@.len() == (r - y) * w,
            ids@.no_duplicates(),
            forall|k: int| 0 <= k < ids@.len() ==> in_rect((#[trigger] ids@[k]).0 as int, ids@[k].1 as int, y as int, x as int, (r - y) as int, w as int),
            forall|a: int, b: int| in_rect(a, b, y as int, x as int, (r - y) as int, w as int) ==> #[trigger] ids@.contains((a as usize, b as usize)),
            hit == exists|a: int, b: int| in_rect(a, b, y as int, x as int, (r - y) as int, w as int) && #[trigger] arr@[a][b],
        decreases y + h - r,
    {
        let mut c = x;
        while c < x + w
            invariant
                arr.wf(),
                y + h <= arr.rows(),
                x + w <= arr.cols(),
                y <= r < y + h,
                x <= c <= x + w,
                ids@.len() == (r - y) * w + (c - x),
                ids@.no_duplicates(),
                forall|k: int| 0 <= k < ids@.len() ==> ({
                    let p = #[trigger] ids@[k];
                    in_rect(p.0 as int, p.1 as int, y as int, x as int, (r - y) as int, w as int)
                    || (p.0 == r && x <= p.1 < c)
                }),
                forall|a: int, b: int| in_rect(a, b, y as int, x as int, (r - y) as int, w as int) ==> #[trigger] ids@.contains((a as usize, b as usize)),
                forall|b: int| x <= b < c ==> #[trigger] ids@.contains((r, b as usize)),
                hit == ((exists|a: int, b: int| in_rect(a, b, y as int, x as int, (r - y) as int, w as int) && #[trigger] arr@[a][b])
                    || (exists|b: int| x <= b < c && #[trigger] arr@[r as int][b])),
            decreases x + w - c,
        {
            let ghost before = ids@;
            assert(!ids@.contains((r, c))) by {
                if ids@.contains((r, c)) {
                    let k = choose|k: int| 0 <= k < ids@.len() && ids@[k] == (r, c);
                    assert(ids@[k] == (r, c));
                }
            }
            ids.push((r, c));
            if arr.is_missing(r, c) {
                hit = true;
            }
            proof {
                assert forall|a: int, b: int| in_rect(a, b, y as int, x as int, (r - y) as int, w as int) implies #[trigger] ids@.contains((a as usize, b as usize)) by {
                    assert(before.contains((a as usize, b as usize)));
                    let k = choose|k: int| 0 <= k < before.len() && before[k] == (a as usize, b as usize);
                    assert(ids@[k] == (a as usize, b as usize));
                }
                assert forall|b: int| x <= b < c + 1 implies #[trigger] ids@.contains((r, b as usize)) by {
                    if b < c {
                        assert(before.contains((r, b as usize)));
                        let k = choose|k: int| 0 <= k < before.len() && before[k] == (r, b as usize);
                        assert(ids@[k] == (r, b as usize));
                    } else {
                        assert(ids@[before.len() as int] == (r, b as usize));
                    }
                }
                if arr@[r as int][c as int] {
                    assert(x <= c < c + 1 && arr@[r as int][c as int]);
                }
            }
            c = c + 1;
        }
        proof {
            assert((r - y) * w + w == (r + 1 - y) * w) by (nonlinear_arith);
            assert forall|a: int, b: int| in_rect(a, b, y as int, x as int, (r + 1 - y) as int, w as int) implies #[trigger] ids@.contains((a as usize, b as usize)) by {
                if a == r {
                    assert(ids@.contains((r, b as usize)));
                }
            }
            if exists|b: int| x <= b < x + w && #[trigger] arr@[r as int][b] {
                let b = choose|b: int| x <= b < x + w && #[trigger] arr@[r as int][b];
                assert(in_rect(r as int, b, y as int, x as int, (r + 1 - y) as int, w as int) && arr@[r as int][b]);
            }
            if exists|a: int, b: int| in_rect(a, b, y as int, x as int, (r + 1 - y) as int, w as int) && #[trigger] arr@[a][b] {
                let (a, b) = choose|a: int, b: int| in_rect(a, b, y as int, x as int, (r + 1 - y) as int, w as int) && #[trigger] arr@[a][b];
                if a < r {
                    assert(in_rect(a, b, y as int, x as int, (r - y) as int, w as int));
                } else {
                    assert(x <= b < x + w && arr@[r as int][b]);
                }
            }
        }
        r = r + 1;
    }
    proof {
        assert forall|a: int, b: int| #[trigger] ids@.contains((a as usize, b as usize)) && 0 <= a && 0 <= b && a <= usize::MAX && b <= usize::MAX implies in_rect(a, b, y as int, x as int, h as int, w as int) by {
            let k = choose|k: int| 0 <= k < ids@.len() && ids@[k] == (a as usize, b as usize);
        }
    }
    (ids, hit)
}

} // verus!

verus! {

/// `w * h` cells fit in the grid and in a `usize`.
proof fn lemma_rect_size(w: int, h: int, cols: int, rows: int)
    requires
        0 <= w <= cols,
        0 <= h <= rows,
        rows * cols <= usize::MAX,
    ensures
        w * h <= usize::MAX,
        w * h <= rows * cols,
{
    assert(w * h <= cols * h) by (nonlinear_arith)
        requires
            0 <= w <= cols,
            0 <= h,
    ;
    assert(cols * h <= cols * rows) by (nonlinear_arith)
        requires
            0 <= h <= rows,
            0 <= cols,
    ;
    assert(cols * rows == rows * cols) by (nonlinear_arith);
}

/// Marking the listed cells of a rectangle marks the rectangle.
proof fn lemma_marked_rect(g: Seq<Seq<bool>>, ids: Seq<(usize, usize)>, rows: nat, cols: nat, y: int, x: int, h: int, w: int)
    requires
        crate::mask::is_grid(g, rows, cols),
        rows <= usize::MAX,
        cols <= usize::MAX,
        forall|r: int, c: int| #[trigger] ids.contains((r as usize, c as usize)) && 0 <= r && 0 <= c && r <= usize::MAX && c <= usize::MAX ==> in_rect(r, c, y, x, h, w),
        forall|r: int, c: int| in_rect(r, c, y, x, h, w) ==> #[trigger] ids.contains((r as usize, c as usize)),
    ensures
        marked(g, ids) == rect_marked(g, y, x, h, w),
{
    let a = marked(g, ids);
    let b = rect_marked(g, y, x, h, w);
    assert forall|r: int| 0 <= r < g.len() implies #[trigger] a[r] == b[r] by {
        assert forall|c: int| 0 <= c < g[r].len() implies a[r][c] == b[r][c] by {
            if ids.contains((r as usize, c as usize)) {
                assert(in_rect(r, c, y, x, h, w));
            }
            if in_rect(r, c, y, x, h, w) {
                assert(ids.contains((r as usize, c as usize)));
            }
        }
        assert(a[r] =~= b[r]);
    }
    assert(a =~= b);
}

/// One below `n`, or zero.
fn saturating_dec(n: usize) -> (r: usize)
    ensures
        r == if n == 0 { 0 } else { n - 1 },
{
    if n == 0 {
        0
    } else {
        n - 1
    }
}

/// `max(1, n)`: a limit below one still admits a block one cell wide.
pub open spec fn at_least_one(n: int) -> int {
    if n >= 1 { n } else { 1 }
}

/// An `h` by `w` block respects the limits drawn from the block size:
/// `width_cells` columns and `height_cells` rows (at least one of each).
pub open spec fn block_fits(h: int, w: int, width_cells: int, height_cells: int) -> bool {
    &&& w <= at_least_one(width_cells)
    &&& h <= at_least_one(height_cells)
}

/// Cell `(r, c)` lies in some rectangle inside the grid that respects the
/// limits drawn from the block size.
pub open spec fn in_some_block(r: int, c: int, rows: int, cols: int, width_cells: int, height_cells: int) -> bool {
    exists|y: int, x: int, h: int, w: int|
        #[trigger] in_rect(r, c, y, x, h, w) && 0 <= y && 0 <= x && y + h <= rows && x + w <= cols
            && block_fits(h, w, width_cells, height_cells)
}

/// What became of a drawn block.
pub enum BlockOutcome {
    /// The block was removed; it had this many cells.
    Placed(usize),
    /// The block has more cells than are owed: draw again.
    TooLarge,
    /// The block covers a kept or a missing cell: draw again, smaller.
    Blocked,
}

/// The largest size a draw may take: the limit, cut to the room left in the
/// grid, and at least one.
pub fn block_room(limit: usize, room: usize) -> (r: usize)
    ensures
        r == at_least_one(if limit < room { limit as int } else { room as int }),
{
    let m = if limit < room { limit } else { room };
    if m > 1 { m } else { 1 }
}

/// The limits after a draw that hit a kept or missing cell: both one lower,
/// never below zero.
pub fn shrink_limits(max_width: usize, max_height: usize) -> (r: (usize, usize))
    ensures
        r.0 == if max_width == 0 { 0 } else { max_width - 1 },
        r.1 == if max_height == 0 { 0 } else { max_height - 1 },
{
    (saturating_dec(max_width), saturating_dec(max_height))
}

/// Tries the drawn block of `height` by `width` cells whose top-left cell is
/// `(y, x)`: too large when it has more than `nmiss` cells; otherwise
/// removed when it covers no kept and no missing cell, refused when it does.
pub fn try_block(
    arr: &mut MissingMask,
    fix: &Vec<usize>,
    nmiss: usize,
    y: usize,
    x: usize,
    height: usize,
    width: usize,
) -> (r: BlockOutcome)
    requires
        old(arr).wf(),
        fix@.len() == old(arr).rows(),
        y < old(arr).rows(),
        x < old(arr).cols(),
        1 <= height <= old(arr).rows() - y,
        1 <= width <= old(arr).cols() - x,
    ensures
        final(arr).wf(),
        final(arr).rows() == old(arr).rows(),
        final(arr).cols() == old(arr).cols(),
        r is TooLarge <==> height * width > nmiss,
        r is Placed <==> valid_block(
            old(arr)@,
            fix@,
            old(arr).rows() as int,
            old(arr).cols() as int,
            nmiss as int,
            y as int,
            x as int,
            height as int,
            width as int,
        ),
        r matches BlockOutcome::Placed(n) ==> n == height * width && final(arr)@ == rect_marked(
            old(arr)@,
            y as int,
            x as int,
            height as int,
            width as int,
        ) && grid_count(final(arr)@) == grid_count(old(arr)@) + n,
        !(r is Placed) ==> final(arr)@ == old(arr)@,
        forall|i: int|
            0 <= i < old(arr).rows() && fix@[i] < old(arr).cols() ==> #[trigger] final(arr)@[i][fix@[i] as int]
                == old(arr)@[i][fix@[i] as int],
{
    let nrows = arr.nrows();
    let ncols = arr.ncols();
    let intersect = hits_fix(fix, y, x, height, width);
    proof {
        lemma_rect_size(width as int, height as int, ncols as int, nrows as int);
        assert(width * height == height * width) by (nonlinear_arith);
    }
    if width * height > nmiss {
        return BlockOutcome::TooLarge;
    }
    let (ids, hits_missing) = rect_cells(arr, y, x, height, width);
    if intersect || hits_missing {
        proof {
            if intersect {
                let r = choose|r: int| y <= r < y + height && x <= #[trigger] fix@[r] < x + width;
                assert(y <= r < y + height && x <= fix@[r] < x + width);
            } else {
                let (a, b) = choose|a: int, b: int| in_rect(a, b, y as int, x as int, height as int, width as int) && #[trigger] arr@[a][b];
            }
        }
        return BlockOutcome::Blocked;
    }
    let ghost g0 = arr@;
    proof {
        assert forall|k: int| 0 <= k < ids@.len() implies (#[trigger] ids@[k]).0 < nrows && ids@[k].1 < ncols
            && !g0[ids@[k].0 as int][ids@[k].1 as int] by {
            let p = ids@[k];
            if g0[p.0 as int][p.1 as int] {
                assert(in_rect(p.0 as int, p.1 as int, y as int, x as int, height as int, width as int) && arr@[p.0 as int][p.1 as int]);
            }
        }
        lemma_marked_count(g0, ids@, arr.rows(), arr.cols());
        lemma_marked_rect(g0, ids@, arr.rows(), arr.cols(), y as int, x as int, height as int, width as int);
        assert(valid_block(g0, fix@, nrows as int, ncols as int, nmiss as int, y as int, x as int, height as int, width as int));
    }
    let n = remove(arr, &ids);
    proof {
        assert forall|i: int| 0 <= i < nrows && fix@[i] < ncols implies #[trigger] arr@[i][fix@[i] as int] == g0[i][fix@[i] as int] by {
            assert(g0[i].len() == ncols);
            if in_rect(i, fix@[i] as int, y as int, x as int, height as int, width as int) {
                assert(y <= i < y + height && x <= fix@[i] < x + width);
            }
        }
    }
    BlockOutcome::Placed(n)
}

/// No cell of the grid `g` (of `rows` by `cols`) can be part of a block:
/// every cell is missing or kept.
pub open spec fn no_free_cell(g: Seq<Seq<bool>>, fix: Seq<usize>, rows: int, cols: int) -> bool {
    forall|r: int, c: int| 0 <= r < rows && 0 <= c < cols ==> #[trigger] g[r][c] || fix[r] == c
}

/// The first cell, row by row, that is observed and not kept.
fn first_free_cell(arr: &MissingMask, fix: &Vec<usize>) -> (r: Option<(usize, usize)>)
    requires
        arr.wf(),
        fix@.len() == arr.rows(),
    ensures
        match r {
            Some((y, x)) => y < arr.rows() && x < arr.cols() && !arr@[y as int][x as int] && fix@[y as int] != x,
            None => no_free_cell(arr@, fix@, arr.rows() as int, arr.cols() as int),
        },
{
    let rows = arr.nrows();
    let cols = arr.ncols();
    for y in 0..rows
        invariant
            arr.wf(),
            fix@.len() == arr.rows(),
            rows == arr.rows(),
            cols == arr.cols(),
            forall|r: int, c: int| 0 <= r < y && 0 <= c < cols ==> #[trigger] arr@[r][c] || fix@[r] == c,
    {
        for x in 0..cols
            invariant
                arr.wf(),
                fix@.len() == arr.rows(),
                rows == arr.rows(),
                cols == arr.cols(),
                y < rows,
                forall|r: int, c: int| 0 <= r < y && 0 <= c < cols ==> #[trigger] arr@[r][c] || fix@[r] == c,
                forall|c: int| 0 <= c < x ==> #[trigger] arr@[y as int][c] || fix@[y as int] == c,
        {
            if !arr.is_missing(y, x) && fix[y] != x {
                return Some((y, x));
            }
        }
    }
    None
}

/// Removes one rectangular block of at most `nmiss` cells and returns its
/// number of cells. Blocks are drawn at random: a top-left cell, then a width
/// of at most `width_cells` (and at most what fits) and a height of at most
/// `height_cells` (each at least one). A block too large for `nmiss` is
/// drawn again; one that covers a kept or missing cell is drawn again with
/// both limits lowered by one (never below zero). After
/// [`MAX_AMOUNT_OF_WORK`] draws the search takes the first free cell, row by
/// row, as a block of one cell; only when no cell is free (or no cell is
/// owed) does it stop with [`Errors::MaxWorkExeeded`], the mask unchanged.
pub fn drop_block(
    arr: &mut MissingMask,
    rng: &mut StdRng,
    fix: &Vec<usize>,
    nmiss: usize,
    width_cells: usize,
    height_cells: usize,
) -> (res: Result<usize, Errors>)
    requires
        old(arr).wf(),
        old(arr).rows() > 0,
        old(arr).cols() > 0,
        fix@.len() == old(arr).rows(),
    ensures
        final(arr).wf(),
        final(arr).rows() == old(arr).rows(),
        final(arr).cols() == old(arr).cols(),
        match res {
            Ok(n) => exists|y: int, x: int, h: int, w: int|
                #[trigger] valid_block(old(arr)@, fix@, old(arr).rows() as int, old(arr).cols() as int, nmiss as int, y, x, h, w)
                && block_fits(h, w, width_cells as int, height_cells as int)
                && final(arr)@ == rect_marked(old(arr)@, y, x, h, w) && n == h * w,
            Err(e) => e == Errors::MaxWorkExeeded && final(arr)@ == old(arr)@ && (nmiss == 0 || no_free_cell(
                old(arr)@,
                fix@,
                old(arr).rows() as int,
                old(arr).cols() as int,
            )),
        },
        res matches Ok(n) ==> grid_count(final(arr)@) == grid_count(old(arr)@) + n,
        forall|i: int|
            0 <= i < old(arr).rows() && fix@[i] < old(arr).cols() ==> #[trigger] final(arr)@[i][fix@[i] as int]
                == old(arr)@[i][fix@[i] as int],
{
    let nrows = arr.nrows();
    let ncols = arr.ncols();
    let mut max_width = width_cells;
    let mut max_height = height_cells;
    let mut rounds: u64 = 0;
    loop
        invariant
            arr.wf(),
            arr@ == old(arr)@,
            arr.rows() == old(arr).rows(),
            arr.cols() == old(arr).cols(),
            nrows == arr.rows(),
            ncols == arr.cols(),
            nrows > 0,
            ncols > 0,
            fix@.len() == nrows,
            rounds <= MAX_AMOUNT_OF_WORK,
            at_least_one(max_width as int) <= at_least_one(width_cells as int),
            at_least_one(max_height as int) <= at_least_one(height_cells as int),
        decreases MAX_AMOUNT_OF_WORK - rounds,
    {
        if rounds == MAX_AMOUNT_OF_WORK {
            if nmiss == 0 {
                return Err(Errors::MaxWorkExeeded);
            }
            match first_free_cell(arr, fix) {
                None => {
                    return Err(Errors::MaxWorkExeeded);
                },
                Some((y, x)) => {
                    proof {
                        assert forall|r: int| y <= r < y + 1 implies !(x <= #[trigger] fix@[r] < x + 1) by {}
                        assert forall|r: int, c: int| in_rect(r, c, y as int, x as int, 1, 1) implies !#[trigger] arr@[r][c] by {}
                        assert(valid_block(arr@, fix@, nrows as int, ncols as int, nmiss as int, y as int, x as int, 1, 1));
                    }
                    match try_block(arr, fix, nmiss, y, x, 1, 1) {
                        BlockOutcome::Placed(n) => {
                            proof {
                                assert(block_fits(1, 1, width_cells as int, height_cells as int));
                            }
                            return Ok(n);
                        },
                        _ => {
                            return Err(Errors::MaxWorkExeeded);
                        },
                    }
                },
            }
        }
        rounds = rounds + 1;
        let x = random_below(rng, 0, ncols);
        let y = random_below(rng, 0, nrows);
        let width = random_between(rng, 1, block_room(max_width, ncols - x));
        let height = random_between(rng, 1, block_room(max_height, nrows - y));
        match try_block(arr, fix, nmiss, y, x, height, width) {
            BlockOutcome::Placed(n) => {
                proof {
                    assert(block_fits(height as int, width as int, width_cells as int, height_cells as int));
                }
                return Ok(n);
            },
            BlockOutcome::TooLarge => {},
            BlockOutcome::Blocked => {
                let (w2, h2) = shrink_limits(max_width, max_height);
                max_width = w2;
                max_height = h2;
            },
        }
    }
}

} // verus!

verus! {

/// Removes `n_missing` cells as rectangular blocks (the block mode): blocks
/// drawn with [`drop_block`] until as many cells as requested are missing.
/// Every block respects the limits drawn from the block size
/// ([`in_some_block`]); kept cells and cells already missing are never part
/// of a block. The removal fails only when no free cell is left, so it
/// succeeds whenever some column has more free cells than are owed.
pub fn drop_blocks(
    arr: &mut MissingMask,
    rng: &mut StdRng,
    fix: &Vec<usize>,
    n_missing: usize,
    width_cells: usize,
    height_cells: usize,
) -> (res: Result<usize, Errors>)
    requires
        old(arr).wf(),
        old(arr).rows() > 0,
        old(arr).cols() > 0,
        fix@.len() == old(arr).rows(),
    ensures
        final(arr).wf(),
        final(arr).rows() == old(arr).rows(),
        final(arr).cols() == old(arr).cols(),
        forall|i: int, c: int|
            0 <= i < old(arr).rows() && 0 <= c < old(arr).cols() && #[trigger] old(arr)@[i][c] ==> final(arr)@[i][c],
        forall|i: int|
            0 <= i < old(arr).rows() && fix@[i] < old(arr).cols() ==> #[trigger] final(arr)@[i][fix@[i] as int]
                == old(arr)@[i][fix@[i] as int],
        forall|i: int, c: int|
            0 <= i < old(arr).rows() && 0 <= c < old(arr).cols() && !old(arr)@[i][c] && #[trigger] final(arr)@[i][c]
                ==> in_some_block(i, c, old(arr).rows() as int, old(arr).cols() as int, width_cells as int, height_cells as int),
        grid_count(final(arr)@) <= grid_count(old(arr)@) + n_missing,
        res is Ok ==> res == Ok::<usize, Errors>(n_missing) && grid_count(final(arr)@) == grid_count(old(arr)@) + n_missing,
        res is Err ==> res == Err::<usize, Errors>(Errors::MaxWorkExeeded),
        n_missing == 0 ==> res == Ok::<usize, Errors>(0),
        res is Err ==> no_free_cell(final(arr)@, fix@, old(arr).rows() as int, old(arr).cols() as int),
        (exists|c: int| 0 <= c < old(arr).cols() && #[trigger] elig_count(old(arr)@, fix@, c) > n_missing) ==> res
            == Ok::<usize, Errors>(n_missing),
{
    let ghost g0 = arr@;
    let mut missing_count: usize = 0;
    while missing_count < n_missing
        invariant
            arr.wf(),
            arr.rows() == old(arr).rows(),
            arr.cols() == old(arr).cols(),
            arr.rows() > 0,
            arr.cols() > 0,
            g0 == old(arr)@,
            crate::mask::is_grid(g0, arr.rows(), arr.cols()),
            fix@.len() == arr.rows(),
            missing_count <= n_missing,
            grid_count(arr@) == grid_count(g0) + missing_count,
            forall|i: int, c: int| 0 <= i < arr.rows() && 0 <= c < arr.cols() && #[trigger] g0[i][c] ==> arr@[i][c],
            forall|i: int, c: int|
                0 <= i < arr.rows() && 0 <= c < arr.cols() && !g0[i][c] && #[trigger] arr@[i][c]
                    ==> in_some_block(i, c, arr.rows() as int, arr.cols() as int, width_cells as int, height_cells as int),
            forall|i: int|
                0 <= i < arr.rows() && fix@[i] < arr.cols() ==> #[trigger] arr@[i][fix@[i] as int] == g0[i][fix@[i] as int],
        decreases n_missing - missing_count,
    {
        let ghost g1 = arr@;
        match drop_block(arr, rng, fix, n_missing - missing_count, width_cells, height_cells) {
            Ok(n) => {
                proof {
                    let (y, x, h, w) = choose|y: int, x: int, h: int, w: int|
                        #[trigger] valid_block(g1, fix@, arr.rows() as int, arr.cols() as int, (n_missing - missing_count) as int, y, x, h, w)
                        && arr@ == rect_marked(g1, y, x, h, w) && n == h * w;
                    assert(1 <= h * w) by (nonlinear_arith)
                        requires
                            1 <= h,
                            1 <= w,
                    ;
                    assert forall|i: int, c: int| 0 <= i < arr.rows() && 0 <= c < arr.cols() && #[trigger] g0[i][c] implies arr@[i][c] by {
                        assert(g1[i][c]);
                        assert(g1[i].len() == arr.cols());
                    }
                    assert forall|i: int, c: int|
                        0 <= i < arr.rows() && 0 <= c < arr.cols() && !g0[i][c] && #[trigger] arr@[i][c]
                        implies in_some_block(i, c, arr.rows() as int, arr.cols() as int, width_cells as int, height_cells as int) by {
                        assert(g1[i].len() == arr.cols());
                        if !g1[i][c] {
                            assert(in_rect(i, c, y, x, h, w));
                        }
                    }
                }
                missing_count = missing_count + n;
            },
            Err(e) => {
                proof {
                    assert(arr@ == g1);
                    if exists|c: int| 0 <= c < arr.cols() && #[trigger] elig_count(g0, fix@, c) > n_missing {
                        let c = choose|c: int| 0 <= c < arr.cols() && #[trigger] elig_count(g0, fix@, c) > n_missing;
                        law_column_keeps_eligible_rows(g0, arr@, fix@, arr.rows(), arr.cols(), n_missing as int, c);
                        let i = choose|i: int| 0 <= i < arr@.len() && !(#[trigger] arr@[i][c] || fix@[i] == c);
                        assert(arr@[i][c] || fix@[i] == c);
                    }
                }
                return Err(e);
            },
        }
    }
    Ok(missing_count)
}

} // verus!

verus! {

/// What the blob mode draws before it places any point: for each blob a
/// center `(column, row)`, the number of points it gets, and the seed of the
/// generator that draws its points.
pub struct BlobPlan {
    pub centers: Vec<(usize, usize)>,
    pub counts: Vec<usize>,
    pub seeds: Vec<u64>,
}

/// `a - b`, or zero when `b` exceeds `a`.
pub open spec fn sat_sub(a: nat, b: nat) -> nat {
    if a >= b { (a - b) as nat } else { 0 }
}

/// The number of points still owed before blob `i` is given its count.
pub open spec fn blob_remaining(counts: Seq<usize>, nmiss: nat, i: nat) -> nat
    decreases i,
{
    if i == 0 {
        nmiss
    } else {
        sat_sub(blob_remaining(counts, nmiss, (i - 1) as nat), counts[i - 1] as nat)
    }
}

/// The sum of the first `i` counts.
pub open spec fn count_sum(counts: Seq<usize>, i: nat) -> nat
    decreases i,
{
    if i == 0 { 0 } else { count_sum(counts, (i - 1) as nat) + counts[i - 1] as nat }
}

/// Draws the plan of `n` blobs owing `nmiss` points: each center is drawn
/// uniformly, each blob but the last gets a count between zero and the
/// points still owed (at least one), and the last gets all that is still owed.
pub fn blob_plan(rng: &mut StdRng, n: usize, nrows: usize, ncols: usize, nmiss: usize) -> (p: BlobPlan)
    requires
        n > 0 ==> nrows > 0 && ncols > 0,
    ensures
        p.centers@.len() == n,
        p.counts@.len() == n,
        p.seeds@.len() == n,
        forall|i: int| 0 <= i < n ==> (#[trigger] p.centers@[i]).0 < ncols && p.centers@[i].1 < nrows,
        forall|i: int| 0 <= i < n - 1 ==> {
            let rem = blob_remaining(p.counts@, nmiss as nat, i as nat);
            #[trigger] p.counts@[i] <= if rem >= 1 { rem } else { 1 }
        },
        n > 0 ==> p.counts@[n - 1] == blob_remaining(p.counts@, nmiss as nat, (n - 1) as nat),
{
    let mut centers: Vec<(usize, usize)> = Vec::new();
    let mut counts: Vec<usize> = Vec::new();
    let mut seeds: Vec<u64> = Vec::new();
    let mut remaining = nmiss;
    for i in 0..n
        invariant
            n > 0 ==> nrows > 0 && ncols > 0,
            centers@.len() == i,
            counts@.len() == i,
            seeds@.len() == i,
            remaining == blob_remaining(counts@, nmiss as nat, i as nat),
            forall|j: int| 0 <= j < i ==> (#[trigger] centers@[j]).0 < ncols && centers@[j].1 < nrows,
            forall|j: int| 0 <= j < i && j < n - 1 ==> {
                let rem = blob_remaining(counts@, nmiss as nat, j as nat);
                #[trigger] counts@[j] <= if rem >= 1 { rem } else { 1 }
            },
            i == n ==> n > 0 ==> counts@[n - 1] == blob_remaining(counts@, nmiss as nat, (n - 1) as nat),
    {
        let ghost before = counts@;
        let cx = random_below(rng, 0, ncols);
        let cy = random_below(rng, 0, nrows);
        centers.push((cx, cy));
        let k = if i != n - 1 {
            random_between(rng, 0, if remaining > 1 { remaining } else { 1 })
        } else {
            remaining
        };
        counts.push(k);
        proof {
            assert forall|j: nat| j <= i implies #[trigger] blob_remaining(counts@, nmiss as nat, j) == blob_remaining(before, nmiss as nat, j) by {
                lemma_blob_remaining_prefix(counts@, before, nmiss as nat, j);
            }
        }
        remaining = if remaining >= k { remaining - k } else { 0 };
        proof {
            assert(blob_remaining(counts@, nmiss as nat, i as nat) == blob_remaining(before, nmiss as nat, i as nat));
            assert(blob_remaining(counts@, nmiss as nat, (i + 1) as nat) == sat_sub(
                blob_remaining(counts@, nmiss as nat, i as nat),
                counts@[i as int] as nat,
            ));
        }
        seeds.push(crate::random::random_u64(rng));
    }
    BlobPlan { centers, counts, seeds }
}

/// The owed count before blob `j` depends only on the counts before it.
proof fn lemma_blob_remaining_prefix(a: Seq<usize>, b: Seq<usize>, nmiss: nat, j: nat)
    requires
        j <= a.len(),
        j <= b.len(),
        forall|k: int| 0 <= k < j ==> a[k] == b[k],
    ensures
        blob_remaining(a, nmiss, j) == blob_remaining(b, nmiss, j),
    decreases j,
{
    if j > 0 {
        lemma_blob_remaining_prefix(a, b, nmiss, (j - 1) as nat);
    }
}

} // verus!

verus! {

/// The counts of a blob plan add up to at least the points owed: the blobs
/// together place at least `nmiss` points.
pub proof fn lemma_blob_counts_cover(counts: Seq<usize>, nmiss: nat)
    requires
        counts.len() > 0,
        counts[counts.len() - 1] == blob_remaining(counts, nmiss, (counts.len() - 1) as nat),
    ensures
        count_sum(counts, counts.len()) >= nmiss,
{
    lemma_blob_sum_rem(counts, nmiss, (counts.len() - 1) as nat);
}

/// The counts of a blob plan add up to at most `nmiss + (n - 2)` points
/// when at least one point is owed: once nothing is owed, each blob but the
/// last may still take one point, and the first blob never starts there.
pub proof fn lemma_blob_counts_bounded(counts: Seq<usize>, nmiss: nat)
    requires
        counts.len() > 0,
        nmiss >= 1,
        forall|i: int| 0 <= i < counts.len() - 1 ==> {
            let rem = blob_remaining(counts, nmiss, i as nat);
            #[trigger] counts[i] <= if rem >= 1 { rem } else { 1 }
        },
        counts[counts.len() - 1] == blob_remaining(counts, nmiss, (counts.len() - 1) as nat),
    ensures
        count_sum(counts, counts.len()) <= nmiss + sat_sub(counts.len(), 2),
{
    let n = counts.len();
    lemma_blob_sum_rem_upper(counts, nmiss, (n - 1) as nat);
}

proof fn lemma_blob_sum_rem_upper(counts: Seq<usize>, nmiss: nat, i: nat)
    requires
        i < counts.len(),
        nmiss >= 1,
        forall|j: int| 0 <= j < counts.len() - 1 ==> {
            let rem = blob_remaining(counts, nmiss, j as nat);
            #[trigger] counts[j] <= if rem >= 1 { rem } else { 1 }
        },
    ensures
        count_sum(counts, i) + blob_remaining(counts, nmiss, i) <= nmiss + sat_sub(i, 1),
    decreases i,
{
    if i > 0 {
        let p = (i - 1) as nat;
        lemma_blob_sum_rem_upper(counts, nmiss, p);
        let rem = blob_remaining(counts, nmiss, p);
        assert(counts[p as int] <= if rem >= 1 { rem } else { 1 });
    }
}

proof fn lemma_blob_sum_rem(counts: Seq<usize>, nmiss: nat, i: nat)
    requires
        i <= counts.len(),
    ensures
        count_sum(counts, i) + blob_remaining(counts, nmiss, i) >= nmiss,
    decreases i,
{
    if i > 0 {
        lemma_blob_sum_rem(counts, nmiss, (i - 1) as nat);
    }
}

/// `(r, c)` lies on the border of the square of the given radius around
/// `(b, a)`, clipped to a grid of `rows` by `cols`.
pub open spec fn on_ring(b: int, a: int, radius: int, r: int, c: int, rows: int, cols: int) -> bool {
    let rmin = if b >= radius { b - radius } else { 0 };
    let rmax = if b + radius <= rows - 1 { b + radius } else { rows - 1 };
    let cmin = if a >= radius { a - radius } else { 0 };
    let cmax = if a + radius <= cols - 1 { a + radius } else { cols - 1 };
    &&& rmin <= r <= rmax
    &&& cmin <= c <= cmax
    &&& !(rmin < r < rmax && cmin < c < cmax)
}

/// `(r, c)` is a cell on that border that is not kept and not yet a point.
pub open spec fn ring_candidate(
    points: Seq<(usize, usize)>,
    fix: Seq<usize>,
    b: int,
    a: int,
    radius: int,
    r: int,
    c: int,
    rows: int,
    cols: int,
) -> bool {
    &&& on_ring(b, a, radius, r, c, rows, cols)
    &&& fix[r] != c
    &&& !points.contains((r as usize, c as usize))
}

/// `(rad1, r1, c1)` comes before `(rad2, r2, c2)` in the order in which the
/// borders are searched: by radius, then row, then column.
pub open spec fn scans_before(rad1: int, r1: int, c1: int, rad2: int, r2: int, c2: int) -> bool {
    rad1 < rad2 || (rad1 == rad2 && (r1 < r2 || (r1 == r2 && c1 < c2)))
}

/// The draw `(col_draw, row_draw)` clipped to the grid.
pub open spec fn clip(v: int, n: int) -> int {
    if v <= n - 1 { v } else { n - 1 }
}

fn contains_cell(points: &Vec<(usize, usize)>, p: (usize, usize)) -> (b: bool)
    ensures
        b == points@.contains(p),
{
    for k in 0..points.len()
        invariant
            forall|j: int| 0 <= j < k ==> #[trigger] points@[j] != p,
    {
        let q = points[k];
        if q.0 == p.0 && q.1 == p.1 {
            return true;
        }
    }
    false
}

/// How [`place_point`] turns the points `old` of a blob into `new` for the
/// draw (`col_draw`, `row_draw`) on the grid `g` of `rows` by `cols`:
/// clipped to the grid, a kept or missing cell is refused; a cell that is not
/// yet a point is added; otherwise the first cell, in the search order of the
/// growing squares around it, that is neither kept nor a point is added, and
/// the draw is refused when there is none.
pub open spec fn placed_as(
    old: Seq<(usize, usize)>,
    new: Seq<(usize, usize)>,
    g: Seq<Seq<bool>>,
    fix: Seq<usize>,
    rows: int,
    cols: int,
    col_draw: int,
    row_draw: int,
    placed: bool,
) -> bool {
    let a = clip(col_draw, cols);
    let b = clip(row_draw, rows);
    if fix[b] == a || g[b][a] {
        !placed && new == old
    } else if !old.contains((b as usize, a as usize)) {
        placed && new == old.push((b as usize, a as usize))
    } else if placed {
        exists|radius: int, r: int, c: int|
            0 <= radius < cols && #[trigger] ring_candidate(old, fix, b, a, radius, r, c, rows, cols)
            && new == old.push((r as usize, c as usize))
            && forall|rad2: int, r2: int, c2: int|
                0 <= rad2 && scans_before(rad2, r2, c2, radius, r, c) ==> !#[trigger] ring_candidate(
                    old, fix, b, a, rad2, r2, c2, rows, cols)
    } else {
        new == old
        && forall|radius: int, r: int, c: int|
            0 <= radius < cols ==> !#[trigger] ring_candidate(old, fix, b, a, radius, r, c, rows, cols)
    }
}

/// The points of a blob are distinct cells of the grid, none of them kept.
pub open spec fn good_points(points: Seq<(usize, usize)>, fix: Seq<usize>, rows: int, cols: int) -> bool {
    &&& points.no_duplicates()
    &&& forall|k: int| 0 <= k < points.len() ==> {
        let p = #[trigger] points[k];
        &&& p.0 < rows
        &&& p.1 < cols
        &&& fix[p.0 as int] != p.1
    }
}

/// Places one point of a blob from a drawn cell (`col_draw`, `row_draw`,
/// clipped to the grid). A kept or missing cell is refused (`false`: draw
/// again). A cell that is not yet a point becomes one. Otherwise the borders
/// of growing squares around it (radius `0` to `ncols - 1`) are searched, row
/// by row, for the first cell that is neither kept nor a point; if none is
/// found the draw is refused. Returns whether a point was added.
pub fn place_point(
    points: &mut Vec<(usize, usize)>,
    arr: &MissingMask,
    fix: &Vec<usize>,
    col_draw: usize,
    row_draw: usize,
) -> (placed: bool)
    requires
        arr.wf(),
        arr.rows() > 0,
        arr.cols() > 0,
        fix@.len() == arr.rows(),
    ensures
        placed_as(
            old(points)@,
            final(points)@,
            arr@,
            fix@,
            arr.rows() as int,
            arr.cols() as int,
            col_draw as int,
            row_draw as int,
            placed,
        ),
        good_points(old(points)@, fix@, arr.rows() as int, arr.cols() as int) ==> good_points(
            final(points)@,
            fix@,
            arr.rows() as int,
            arr.cols() as int,
        ),
{
    let nrows = arr.nrows();
    let ncols = arr.ncols();
    let a = if col_draw <= ncols - 1 { col_draw } else { ncols - 1 };
    let b = if row_draw <= nrows - 1 { row_draw } else { nrows - 1 };
    if fix[b] == a || arr.is_missing(b, a) {
        return false;
    }
    if !contains_cell(points, (b, a)) {
        points.push((b, a));
        return true;
    }
    let ghost p0 = points@;
    assert(p0 == old(points)@);
    let ghost rows = nrows as int;
    let ghost cols = ncols as int;
    proof {
        assert(ncols <= isize::MAX);
        assert(nrows * ncols <= usize::MAX);
        assert((nrows - 1) + (ncols - 1) <= nrows * ncols) by (nonlinear_arith)
            requires
                nrows >= 1,
                ncols >= 1,
        ;
    }
    for radius in 0..ncols
        invariant
            points@ == p0,
            p0 == old(points)@,
            b == clip(row_draw as int, nrows as int),
            a == clip(col_draw as int, ncols as int),
            fix@[b as int] != a && !arr@[b as int][a as int],
            p0.contains((b, a)),
            arr.rows() == nrows,
            arr.cols() == ncols,
            nrows == rows,
            ncols == cols,
            nrows >= 1,
            ncols >= 1,
            (nrows - 1) + (ncols - 1) <= usize::MAX,
            ncols <= isize::MAX,
            b < nrows,
            a < ncols,
            fix@.len() == nrows,
            forall|rad2: int, r2: int, c2: int|
                0 <= rad2 < radius ==> !#[trigger] ring_candidate(p0, fix@, b as int, a as int, rad2, r2, c2, rows, cols),
    {
        let rmin = if b >= radius { b - radius } else { 0 };
        let rmax = if b + radius <= nrows - 1 { b + radius } else { nrows - 1 };
        let cmin = if a >= radius { a - radius } else { 0 };
        let cmax = if a + radius <= ncols - 1 { a + radius } else { ncols - 1 };
        let mut r = rmin;
        while r <= rmax
            invariant
                points@ == p0,
                p0 == old(points)@,
                b == clip(row_draw as int, nrows as int),
                a == clip(col_draw as int, ncols as int),
                fix@[b as int] != a && !arr@[b as int][a as int],
                p0.contains((b, a)),
                arr.rows() == nrows,
                arr.cols() == ncols,
                radius < ncols,
                nrows == rows,
                ncols == cols,
                b < nrows,
                a < ncols,
                fix@.len() == nrows,
                rmin <= r <= rmax + 1,
                rmax < nrows,
                cmax < ncols,
                rmin == (if b >= radius { b - radius } else { 0 }),
                rmax == (if b + radius <= nrows - 1 { b + radius } else { nrows - 1 }),
                cmin == (if a >= radius { a - radius } else { 0 }),
                cmax == (if a + radius <= ncols - 1 { a + radius } else { ncols - 1 }),
                forall|rad2: int, r2: int, c2: int|
                    0 <= rad2 < radius ==> !#[trigger] ring_candidate(p0, fix@, b as int, a as int, rad2, r2, c2, rows, cols),
                forall|r2: int, c2: int|
                    r2 < r ==> !#[trigger] ring_candidate(p0, fix@, b as int, a as int, radius as int, r2, c2, rows, cols),
            decreases rmax + 1 - r,
        {
            let mut c = cmin;
            while c <= cmax
                invariant
                    points@ == p0,
                    p0 == old(points)@,
                    b == clip(row_draw as int, nrows as int),
                    a == clip(col_draw as int, ncols as int),
                    fix@[b as int] != a && !arr@[b as int][a as int],
                    p0.contains((b, a)),
                    arr.rows() == nrows,
                    arr.cols() == ncols,
                    radius < ncols,
                    nrows == rows,
                    ncols == cols,
                    b < nrows,
                    a < ncols,
                    fix@.len() == nrows,
                    rmin <= r <= rmax,
                    cmin <= c <= cmax + 1,
                    rmax < nrows,
                    cmax < ncols,
                    rmin == (if b >= radius { b - radius } else { 0 }),
                    rmax == (if b + radius <= nrows - 1 { b + radius } else { nrows - 1 }),
                    cmin == (if a >= radius { a - radius } else { 0 }),
                    cmax == (if a + radius <= ncols - 1 { a + radius } else { ncols - 1 }),
                    forall|rad2: int, r2: int, c2: int|
                        0 <= rad2 < radius ==> !#[trigger] ring_candidate(p0, fix@, b as int, a as int, rad2, r2, c2, rows, cols),
                    forall|r2: int, c2: int|
                        r2 < r ==> !#[trigger] ring_candidate(p0, fix@, b as int, a as int, radius as int, r2, c2, rows, cols),
                    forall|c2: int|
                        c2 < c ==> !#[trigger] ring_candidate(p0, fix@, b as int, a as int, radius as int, r as int, c2, rows, cols),
                decreases cmax + 1 - c,
            {
                if !((r > rmin && r < rmax && c > cmin && c < cmax) || fix[r] == c) {
                    if !contains_cell(points, (r, c)) {
                        proof {
                            assert(ring_candidate(p0, fix@, b as int, a as int, radius as int, r as int, c as int, rows, cols));
                            assert forall|rad2: int, r2: int, c2: int|
                                0 <= rad2 && scans_before(rad2, r2, c2, radius as int, r as int, c as int) implies !#[trigger] ring_candidate(
                                    p0, fix@, b as int, a as int, rad2, r2, c2, rows, cols) by {
                                if rad2 < radius {
                                } else if r2 < r {
                                    assert(!ring_candidate(p0, fix@, b as int, a as int, radius as int, r2, c2, rows, cols));
                                } else {
                                    assert(!ring_candidate(p0, fix@, b as int, a as int, radius as int, r as int, c2, rows, cols));
                                }
                            }
                        }
                        points.push((r, c));
                        proof {
                            assert(ring_candidate(old(points)@, fix@, b as int, a as int, radius as int, r as int, c as int, rows, cols)
                                && points@ == old(points)@.push((r as usize, c as usize)));
                        }
                        return true;
                    }
                }
                c = c + 1;
            }
            proof {
                assert forall|r2: int, c2: int|
                    r2 < r + 1 implies !#[trigger] ring_candidate(p0, fix@, b as int, a as int, radius as int, r2, c2, rows, cols) by {
                    if r2 == r {
                        if c2 <= cmax {
                            assert(!ring_candidate(p0, fix@, b as int, a as int, radius as int, r as int, c2, rows, cols));
                        }
                    }
                }
            }
            r = r + 1;
        }
    }
    false
}

} // verus!

verus! {

/// The count of draws refused in a row after one more draw offered to a
/// blob: back to zero when it was placed, one more when it was refused, and
/// `None` (give up) once [`MAX_AMOUNT_OF_WORK`] draws in a row were refused.
pub fn next_draw(placed: bool, refused: u64) -> (r: Option<u64>)
    requires
        refused < MAX_AMOUNT_OF_WORK,
    ensures
        placed ==> r == Some(0u64),
        !placed && refused + 1 < MAX_AMOUNT_OF_WORK ==> r == Some((refused + 1) as u64),
        !placed && refused + 1 >= MAX_AMOUNT_OF_WORK ==> r is None,
{
    if placed {
        Some(0)
    } else if refused + 1 < MAX_AMOUNT_OF_WORK {
        Some(refused + 1)
    } else {
        None
    }
}

/// One round of the blob mode: the plan drawn by [`blob_plan`], the points
/// placed so far, and the blob that is owed the next point. Points are
/// offered one draw at a time ([`BlobRound::offer`]); once every blob has its
/// count, [`BlobRound::finish`] marks them missing.
pub struct BlobRound {
    centers: Vec<(usize, usize)>,
    counts: Vec<usize>,
    seeds: Vec<u64>,
    nrows: usize,
    ncols: usize,
    fix: Vec<usize>,
    owed: Ghost<nat>,
    blob: usize,
    current: Vec<(usize, usize)>,
    ids: Vec<(usize, usize)>,
}

/// The cells are inside a grid of `rows` by `cols` and none of them is kept.
pub open spec fn free_cells(cells: Seq<(usize, usize)>, fix: Seq<usize>, rows: int, cols: int) -> bool {
    forall|k: int| 0 <= k < cells.len() ==> {
        let p = #[trigger] cells[k];
        &&& p.0 < rows
        &&& p.1 < cols
        &&& fix[p.0 as int] != p.1
    }
}

/// The first blob from `b` on that is owed a point (the number of blobs
/// when there is none).
pub open spec fn next_owed(counts: Seq<usize>, b: nat) -> nat
    decreases counts.len() - b,
{
    if b >= counts.len() {
        counts.len()
    } else if counts[b as int] > 0 {
        b
    } else {
        next_owed(counts, b + 1)
    }
}

impl BlobRound {
    /// The number of points each blob gets.
    pub closed spec fn counts(self) -> Seq<usize> {
        self.counts@
    }

    /// The points owed when the plan was drawn.
    pub closed spec fn owed(self) -> nat {
        self.owed@
    }

    /// The kept column of each row.
    pub closed spec fn kept(self) -> Seq<usize> {
        self.fix@
    }

    /// Number of rows of the table the round works on.
    pub closed spec fn rows(self) -> nat {
        self.nrows as nat
    }

    /// Number of columns of the table the round works on.
    pub closed spec fn cols(self) -> nat {
        self.ncols as nat
    }

    /// The center `(column, row)` of each blob.
    pub closed spec fn centers(self) -> Seq<(usize, usize)> {
        self.centers@
    }

    /// The seed of the generator of each blob.
    pub closed spec fn seeds(self) -> Seq<u64> {
        self.seeds@
    }

    /// The blob owed the next point (the number of blobs once all are done).
    pub closed spec fn blob_index(self) -> nat {
        self.blob as nat
    }

    /// The points of the blobs that have their count.
    pub closed spec fn flushed(self) -> Seq<(usize, usize)> {
        self.ids@
    }

    /// The points of the blob owed the next point.
    pub closed spec fn blob_points(self) -> Seq<(usize, usize)> {
        self.current@
    }

    /// Every point placed so far, blob after blob.
    pub closed spec fn points(self) -> Seq<(usize, usize)> {
        self.ids@ + self.current@
    }

    /// Every blob has its count of points.
    pub closed spec fn done(self) -> bool {
        self.blob == self.counts@.len()
    }

    /// The number of points placed so far.
    pub closed spec fn placed(self) -> nat {
        count_sum(self.counts@, self.blob as nat) + self.current@.len()
    }

    /// The round's plan and points agree.
    pub closed spec fn wf(self) -> bool {
        &&& self.centers@.len() == self.counts@.len()
        &&& self.seeds@.len() == self.counts@.len()
        &&& self.nrows > 0
        &&& self.ncols > 0
        &&& self.fix@.len() == self.nrows
        &&& forall|i: int| 0 <= i < self.counts@.len() ==> (#[trigger] self.centers@[i]).0 < self.ncols && self.centers@[i].1 < self.nrows
        &&& self.blob <= self.counts@.len()
        &&& self.blob < self.counts@.len() ==> self.current@.len() < self.counts@[self.blob as int]
        &&& self.blob == self.counts@.len() ==> self.current@.len() == 0
        &&& self.ids@.len() == count_sum(self.counts@, self.blob as nat)
        &&& free_cells(self.ids@, self.fix@, self.nrows as int, self.ncols as int)
        &&& good_points(self.current@, self.fix@, self.nrows as int, self.ncols as int)
        &&& self.owed@ >= 1 && self.counts@.len() >= 1 ==> {
            &&& count_sum(self.counts@, self.counts@.len()) >= self.owed@
            &&& count_sum(self.counts@, self.counts@.len()) <= self.owed@ + sat_sub(self.counts@.len(), 2)
        }
    }

    /// Moves past the blobs that are owed no further point.
    fn skip_full(&mut self)
        requires
            old(self).blob <= old(self).counts@.len(),
            old(self).current@.len() == 0,
            old(self).ids@.len() == count_sum(old(self).counts@, old(self).blob as nat),
        ensures
            final(self).blob <= final(self).counts@.len(),
            final(self).blob == next_owed(old(self).counts@, old(self).blob as nat),
            final(self).blob < final(self).counts@.len() ==> final(self).counts@[final(self).blob as int] > 0,
            final(self).ids@.len() == count_sum(final(self).counts@, final(self).blob as nat),
            final(self).counts@ == old(self).counts@,
            final(self).centers@ == old(self).centers@,
            final(self).seeds@ == old(self).seeds@,
            final(self).fix@ == old(self).fix@,
            final(self).ids@ == old(self).ids@,
            final(self).current@ == old(self).current@,
            final(self).nrows == old(self).nrows,
            final(self).ncols == old(self).ncols,
            final(self).owed == old(self).owed,
    {
        while self.blob < self.counts.len() && self.counts[self.blob] == 0
            invariant
                self.blob <= self.counts@.len(),
                next_owed(self.counts@, self.blob as nat) == next_owed(old(self).counts@, old(self).blob as nat),
                self.ids@.len() == count_sum(self.counts@, self.blob as nat),
                self.counts@ == old(self).counts@,
                self.centers@ == old(self).centers@,
                self.seeds@ == old(self).seeds@,
                self.fix@ == old(self).fix@,
                self.ids@ == old(self).ids@,
                self.current@ == old(self).current@,
                self.nrows == old(self).nrows,
                self.ncols == old(self).ncols,
                self.owed == old(self).owed,
            decreases self.counts@.len() - self.blob,
        {
            self.blob = self.blob + 1;
        }
    }

    /// Draws the plan of a round of `n` blobs owing `nmiss` points on a table
    /// of `nrows` by `ncols` whose rows keep the columns `fix` (see
    /// [`blob_plan`]); no point is placed yet. The counts add up to at least
    /// `nmiss` and, when a point is owed, to at most `nmiss + (n - 2)`.
    pub fn new(rng: &mut StdRng, n: usize, fix: &Vec<usize>, nrows: usize, ncols: usize, nmiss: usize) -> (r: BlobRound)
        requires
            nrows > 0,
            ncols > 0,
            fix@.len() == nrows,
        ensures
            r.wf(),
            r.counts().len() == n,
            r.owed() == nmiss,
            r.kept() == fix@,
            r.rows() == nrows,
            r.cols() == ncols,
            r.placed() == 0,
            r.points() == Seq::<(usize, usize)>::empty(),
            r.blob_index() == next_owed(r.counts(), 0),
            r.centers().len() == n,
            r.seeds().len() == n,
            forall|i: int| 0 <= i < n ==> (#[trigger] r.centers()[i]).0 < ncols && r.centers()[i].1 < nrows,
            forall|i: int| 0 <= i < n - 1 ==> {
                let rem = blob_remaining(r.counts(), nmiss as nat, i as nat);
                #[trigger] r.counts()[i] <= if rem >= 1 { rem } else { 1 }
            },
            n > 0 ==> r.counts()[n - 1] == blob_remaining(r.counts(), nmiss as nat, (n - 1) as nat),
    {
        let plan = blob_plan(rng, n, nrows, ncols, nmiss);
        proof {
            if nmiss >= 1 && n >= 1 {
                lemma_blob_counts_cover(plan.counts@, nmiss as nat);
                lemma_blob_counts_bounded(plan.counts@, nmiss as nat);
            }
        }
        let mut r = BlobRound {
            centers: plan.centers,
            counts: plan.counts,
            seeds: plan.seeds,
            nrows,
            ncols,
            fix: fix.clone(),
            owed: Ghost(nmiss as nat),
            blob: 0,
            current: Vec::new(),
            ids: Vec::new(),
        };
        proof {
            assert(r.fix@ =~= fix@);
        }
        r.skip_full();
        proof {
            assert(r.ids@ + r.current@ =~= Seq::<(usize, usize)>::empty());
        }
        r
    }

    /// The blob owed the next point, or `None` once every blob has its count.
    pub fn current_blob(&self) -> (b: Option<usize>)
        requires
            self.wf(),
        ensures
            b == if self.done() { None::<usize> } else { Some(self.blob_index() as usize) },
            b matches Some(i) ==> i < self.counts().len(),
    {
        if self.blob < self.counts.len() {
            Some(self.blob)
        } else {
            None
        }
    }

    /// The center `(column, row)` of blob `i`.
    pub fn center(&self, i: usize) -> (c: (usize, usize))
        requires
            self.wf(),
            i < self.counts().len(),
        ensures
            c == self.centers()[i as int],
            c.0 < self.cols(),
            c.1 < self.rows(),
    {
        self.centers[i]
    }

    /// The seed of the generator that draws the points of blob `i`.
    pub fn seed(&self, i: usize) -> (s: u64)
        requires
            self.wf(),
            i < self.counts().len(),
        ensures
            s == self.seeds()[i as int],
    {
        self.seeds[i]
    }

    /// Number of rows of the table.
    pub fn nrows(&self) -> (n: usize)
        ensures
            n == self.rows(),
    {
        self.nrows
    }

    /// Number of columns of the table.
    pub fn ncols(&self) -> (n: usize)
        ensures
            n == self.cols(),
    {
        self.ncols
    }

    /// Offers the draw (`col_draw`, `row_draw`) to the blob owed the next
    /// point, as [`place_point`] places it; returns whether a point was added.
    /// When the blob has its count, the round moves on to the next blob
    /// owed a point.
    pub fn offer(&mut self, arr: &MissingMask, col_draw: usize, row_draw: usize) -> (placed: bool)
        requires
            old(self).wf(),
            !old(self).done(),
            arr.wf(),
            arr.rows() == old(self).rows(),
            arr.cols() == old(self).cols(),
        ensures
            final(self).wf(),
            final(self).counts() == old(self).counts(),
            final(self).owed() == old(self).owed(),
            final(self).kept() == old(self).kept(),
            final(self).rows() == old(self).rows(),
            final(self).cols() == old(self).cols(),
            final(self).centers() == old(self).centers(),
            final(self).seeds() == old(self).seeds(),
            final(self).placed() == old(self).placed() + if placed { 1nat } else { 0nat },
            final(self).points().len() >= old(self).flushed().len(),
            final(self).points().take(old(self).flushed().len() as int) == old(self).flushed(),
            placed_as(
                old(self).blob_points(),
                final(self).points().skip(old(self).flushed().len() as int),
                arr@,
                old(self).kept(),
                old(self).rows() as int,
                old(self).cols() as int,
                col_draw as int,
                row_draw as int,
                placed,
            ),
            if placed && old(self).blob_points().len() + 1 == old(self).counts()[old(self).blob_index() as int] {
                &&& final(self).blob_index() == next_owed(old(self).counts(), old(self).blob_index() + 1)
                &&& final(self).blob_points().len() == 0
            } else {
                &&& final(self).blob_index() == old(self).blob_index()
                &&& final(self).flushed() == old(self).flushed()
            },
    {
        let placed = place_point(&mut self.current, arr, &self.fix, col_draw, row_draw);
        let ghost cur_new = self.current@;
        let ghost ids_old = self.ids@;
        if placed && self.current.len() == self.counts[self.blob] {
            let ghost before = self.ids@;
            let ghost b = self.blob;
            let ghost counts0 = self.counts@;
            let ghost centers0 = self.centers@;
            let ghost seeds0 = self.seeds@;
            let ghost cur0 = self.current@;
            let ghost owed0 = self.owed@;
            let mut k: usize = 0;
            while k < self.current.len()
                invariant
                    self.blob == b,
                    b < counts0.len(),
                    self.counts@ == counts0,
                    self.centers@ == centers0,
                    self.seeds@ == seeds0,
                    self.current@ == cur0,
                    self.owed@ == owed0,
                    self.nrows == old(self).nrows,
                    self.ncols == old(self).ncols,
                    self.fix@ == old(self).fix@,
                    k <= self.current@.len(),
                    self.ids@ == before + self.current@.take(k as int),
                    free_cells(before, self.fix@, self.nrows as int, self.ncols as int),
                    good_points(self.current@, self.fix@, self.nrows as int, self.ncols as int),
                    self.fix@.len() == self.nrows,
                decreases self.current@.len() - k,
            {
                let p = self.current[k];
                self.ids.push(p);
                assert(self.current@.take(k + 1) =~= self.current@.take(k as int).push(p));
                k = k + 1;
            }
            proof {
                assert(self.current@.take(self.current@.len() as int) =~= self.current@);
                assert(count_sum(self.counts@, (b + 1) as nat) == count_sum(self.counts@, b as nat) + self.counts@[b as int]);
                assert forall|q: int| 0 <= q < self.ids@.len() implies {
                    let p = #[trigger] self.ids@[q];
                    &&& p.0 < self.nrows
                    &&& p.1 < self.ncols
                    &&& self.fix@[p.0 as int] != p.1
                } by {
                    if q < before.len() {
                        assert(self.ids@[q] == before[q]);
                    } else {
                        assert(self.ids@[q] == self.current@[q - before.len()]);
                    }
                }
            }
            self.current = Vec::new();
            let nblobs = self.counts.len();
            assert(self.blob < nblobs);
            self.blob = self.blob + 1;
            self.skip_full();
            proof {
                assert(self.ids@ == ids_old + cur_new);
                assert(self.ids@ + self.current@ =~= ids_old + cur_new);
            }
        }
        proof {
            assert((ids_old + cur_new).skip(ids_old.len() as int) =~= cur_new);
            assert((ids_old + cur_new).take(ids_old.len() as int) =~= ids_old);
        }
        placed
    }

    /// Marks every placed point missing and returns how many points the round
    /// placed: the sum of the counts, at least `nmiss` and, when a point was
    /// owed and there is a blob, at most `nmiss + (n - 2)`. Kept cells are not
    /// touched.
    pub fn finish(&self, arr: &mut MissingMask) -> (n: usize)
        requires
            self.wf(),
            self.done(),
            old(arr).wf(),
            old(arr).rows() == self.rows(),
            old(arr).cols() == self.cols(),
        ensures
            final(arr).wf(),
            final(arr).rows() == old(arr).rows(),
            final(arr).cols() == old(arr).cols(),
            n == count_sum(self.counts(), self.counts().len()),
            n == self.points().len(),
            self.owed() >= 1 && self.counts().len() >= 1 ==> self.owed() <= n <= self.owed() + sat_sub(self.counts().len(), 2),
            free_cells(self.points(), self.kept(), self.rows() as int, self.cols() as int),
            final(arr)@ == marked(old(arr)@, self.points()),
            forall|i: int|
                0 <= i < old(arr).rows() && self.kept()[i] < old(arr).cols() ==> #[trigger] final(arr)@[i][self.kept()[i] as int]
                    == old(arr)@[i][self.kept()[i] as int],
    {
        let ghost g0 = arr@;
        let ghost ids = self.ids@;
        let n = remove(arr, &self.ids);
        proof {
            assert(self.ids@ + self.current@ =~= self.ids@);
            assert(ids.len() == n);
            assert forall|i: int|
                0 <= i < g0.len() && self.fix@[i] < self.ncols implies #[trigger] arr@[i][self.fix@[i] as int]
                    == g0[i][self.fix@[i] as int] by {
                assert(g0[i].len() == self.ncols);
                if ids.contains((i as usize, self.fix@[i])) {
                    let q = choose|q: int| 0 <= q < ids.len() && ids[q] == (i as usize, self.fix@[i]);
                    assert(free_cells(ids, self.fix@, self.nrows as int, self.ncols as int));
                    assert(self.fix@[ids[q].0 as int] != ids[q].1);
                }
            }
        }
        n
    }
}

} // verus!
