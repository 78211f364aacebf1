//! Missing not at random: the cells removed depend on the values of the
//! columns they are removed from.

use rand::rngs::StdRng;
use vstd::prelude::*;

use crate::errors::{Errors, MAX_AMOUNT_OF_WORK};
use crate::mask::{col_count, grid_count, lemma_col_count_add_one, lemma_col_count_same, lemma_marked_count, marked, remove, MissingMask};
use crate::random::sample_indices;
use crate::rank::{first_min, is_first_min, lemma_first_min_exists, lemma_first_min_ranked_before, pick_row, ranked_before};

verus! {

/// The rank keys of each column, as sequences.
pub open spec fn key_rows(keys: Seq<Vec<u64>>) -> Seq<Seq<u64>> {
    keys.map_values(|v: Vec<u64>| v@)
}

/// The rows of column `c` from which a value may be removed: those still
/// observed whose kept column is not `c`, as long as the column has fewer
/// than `maxc` missing cells.
pub open spec fn mnar_eligible(g: Seq<Seq<bool>>, fix: Seq<usize>, c: usize, maxc: nat) -> Seq<bool> {
    Seq::new(g.len(), |i: int| !g[i][c as int] && fix[i] != c && col_count(g, c as int) < maxc)
}

/// The cells chosen for the first `k` columns of `cols`: in each column, the
/// first eligible row with the least key, if the column has an eligible row.
pub open spec fn mnar_picks(
    g: Seq<Seq<bool>>,
    keys: Seq<Seq<u64>>,
    cols: Seq<usize>,
    fix: Seq<usize>,
    maxc: nat,
    k: nat,
) -> Seq<(usize, usize)>
    decreases k,
{
    if k == 0 {
        Seq::empty()
    } else {
        let prev = mnar_picks(g, keys, cols, fix, maxc, (k - 1) as nat);
        let c = cols[k - 1];
        match first_min(keys[k - 1], mnar_eligible(g, fix, c, maxc)) {
            Some(i) => prev.push((i as usize, c)),
            None => prev,
        }
    }
}

/// Every chosen cell lies in the grid, was observed, is not the kept cell of
/// its row, and lies in one of the first `k` columns of `cols`.
pub proof fn lemma_mnar_picks_valid(
    g: Seq<Seq<bool>>,
    keys: Seq<Seq<u64>>,
    cols: Seq<usize>,
    fix: Seq<usize>,
    maxc: nat,
    k: nat,
)
    requires
        k <= cols.len(),
        k <= keys.len(),
        g.len() <= usize::MAX,
        fix.len() == g.len(),
        forall|j: int| 0 <= j < k ==> (#[trigger] keys[j]).len() == g.len(),
    ensures
        mnar_picks(g, keys, cols, fix, maxc, k).len() <= k,
        forall|p: int|
            #![trigger mnar_picks(g, keys, cols, fix, maxc, k)[p]]
            0 <= p < mnar_picks(g, keys, cols, fix, maxc, k).len() ==> {
                let (i, c) = mnar_picks(g, keys, cols, fix, maxc, k)[p];
                &&& i < g.len()
                &&& !g[i as int][c as int]
                &&& fix[i as int] != c
                &&& exists|j: int| 0 <= j < k && cols[j] == c
            },
    decreases k,
{
    if k > 0 {
        lemma_mnar_picks_valid(g, keys, cols, fix, maxc, (k - 1) as nat);
        let prev = mnar_picks(g, keys, cols, fix, maxc, (k - 1) as nat);
        let c = cols[k - 1];
        let e = mnar_eligible(g, fix, c, maxc);
        let cur = mnar_picks(g, keys, cols, fix, maxc, k);
        match first_min(keys[k - 1], e) {
            Some(i) => {
                assert(is_first_min(keys[k - 1], e, i));
                assert forall|p: int| #![trigger cur[p]] 0 <= p < cur.len() implies {
                    let (i, c) = cur[p];
                    &&& i < g.len()
                    &&& !g[i as int][c as int]
                    &&& fix[i as int] != c
                    &&& exists|j: int| 0 <= j < k && cols[j] == c
                } by {
                    if p < prev.len() {
                        assert(cur[p] == prev[p]);
                        let (i, c) = prev[p];
                        let j = choose|j: int| 0 <= j < k - 1 && cols[j] == c;
                        assert(0 <= j < k && cols[j] == c);
                    } else {
                        assert(cols[k - 1] == c);
                    }
                }
            },
            None => {},
        }
    }
}

/// The cells chosen for distinct columns are distinct.
pub proof fn lemma_mnar_picks_distinct(
    g: Seq<Seq<bool>>,
    keys: Seq<Seq<u64>>,
    cols: Seq<usize>,
    fix: Seq<usize>,
    maxc: nat,
    k: nat,
)
    requires
        k <= cols.len(),
        cols.no_duplicates(),
    ensures
        mnar_picks(g, keys, cols, fix, maxc, k).no_duplicates(),
        forall|p: int|
            #![trigger mnar_picks(g, keys, cols, fix, maxc, k)[p]]
            0 <= p < mnar_picks(g, keys, cols, fix, maxc, k).len() ==> exists|j: int|
                0 <= j < k && cols[j] == mnar_picks(g, keys, cols, fix, maxc, k)[p].1,
    decreases k,
{
    if k > 0 {
        lemma_mnar_picks_distinct(g, keys, cols, fix, maxc, (k - 1) as nat);
        let prev = mnar_picks(g, keys, cols, fix, maxc, (k - 1) as nat);
        let cur = mnar_picks(g, keys, cols, fix, maxc, k);
        let c = cols[k - 1];
        match first_min(keys[k - 1], mnar_eligible(g, fix, c, maxc)) {
            Some(i) => {
                assert forall|p: int| 0 <= p < prev.len() implies #[trigger] prev[p].1 != c by {
                    let j = choose|j: int| 0 <= j < k - 1 && cols[j] == prev[p].1;
                }
                assert forall|p: int| #![trigger cur[p]] 0 <= p < cur.len() implies exists|j: int|
                    0 <= j < k && cols[j] == cur[p].1 by {
                    if p < prev.len() {
                        assert(cur[p] == prev[p]);
                        let j = choose|j: int| 0 <= j < k - 1 && cols[j] == prev[p].1;
                        assert(cols[j] == cur[p].1);
                    } else {
                        assert(cols[k - 1] == cur[p].1);
                    }
                }
            },
            None => {},
        }
    }
}

/// The columns to remove from next: every column when at least as many
/// values are still owed as there are columns, otherwise as many distinct
/// random columns as values are owed.
pub fn select_cols(rng: &mut StdRng, arr: &MissingMask, count: usize, n_missing: usize) -> (r: Vec<usize>)
    requires
        count <= n_missing,
    ensures
        n_missing - count >= arr.cols() ==> r@ == Seq::new(arr.cols(), |i: int| i as usize),
        n_missing - count < arr.cols() ==> {
            &&& r@.len() == n_missing - count
            &&& r@.no_duplicates()
            &&& forall|i: int| 0 <= i < r@.len() ==> #[trigger] r@[i] < arr.cols()
        },
{
    let ncols = arr.ncols();
    if n_missing - count >= ncols {
        let mut r: Vec<usize> = Vec::new();
        for i in 0..ncols
            invariant
                r@ == Seq::new(i as nat, |k: int| k as usize),
        {
            r.push(i);
            assert(r@ =~= Seq::new((i + 1) as nat, |k: int| k as usize));
        }
        return r;
    }
    sample_indices(rng, ncols, n_missing - count)
}

/// The rows of column `c` from which a value may be removed.
fn eligible_rows(arr: &MissingMask, fix: &Vec<usize>, c: usize, max_per_col: usize) -> (e: Vec<bool>)
    requires
        arr.wf(),
        fix@.len() == arr.rows(),
        c < arr.cols(),
    ensures
        e@ == mnar_eligible(arr@, fix@, c, max_per_col as nat),
{
    let open = arr.missing_in_col(c) < max_per_col;
    let mut e: Vec<bool> = Vec::new();
    let rows = arr.nrows();
    for i in 0..rows
        invariant
            rows == arr.rows(),
            arr.wf(),
            fix@.len() == arr.rows(),
            c < arr.cols(),
            open == (col_count(arr@, c as int) < max_per_col),
            e@ == mnar_eligible(arr@, fix@, c, max_per_col as nat).take(i as int),
    {
        let b = !arr.is_missing(i, c) && fix[i] != c && open;
        e.push(b);
        assert(e@ =~= mnar_eligible(arr@, fix@, c, max_per_col as nat).take(i + 1));
    }
    assert(e@ =~= mnar_eligible(arr@, fix@, c, max_per_col as nat));
    e
}

/// The cell chosen in each of the first `min(cols.len(), keys.len())` columns
/// of `cols`.
fn pick_cells(arr: &MissingMask, keys: &Vec<Vec<u64>>, cols: &Vec<usize>, fix: &Vec<usize>, max_per_col: usize) -> (ids: Vec<(usize, usize)>)
    requires
        arr.wf(),
        fix@.len() == arr.rows(),
        forall|j: int| 0 <= j < cols@.len() ==> #[trigger] cols@[j] < arr.cols(),
        forall|j: int| 0 <= j < keys@.len() ==> (#[trigger] keys@[j])@.len() == arr.rows(),
    ensures
        ids@ == mnar_picks(
            arr@,
            key_rows(keys@),
            cols@,
            fix@,
            max_per_col as nat,
            if cols@.len() <= keys@.len() { cols@.len() } else { keys@.len() },
        ),
{
    let n = if cols.len() <= keys.len() { cols.len() } else { keys.len() };
    let mut ids: Vec<(usize, usize)> = Vec::new();
    for j in 0..n
        invariant
            arr.wf(),
            fix@.len() == arr.rows(),
            n <= cols@.len(),
            n <= keys@.len(),
            forall|j: int| 0 <= j < cols@.len() ==> #[trigger] cols@[j] < arr.cols(),
            forall|j: int| 0 <= j < keys@.len() ==> (#[trigger] keys@[j])@.len() == arr.rows(),
            ids@ == mnar_picks(arr@, key_rows(keys@), cols@, fix@, max_per_col as nat, j as nat),
    {
        let c = cols[j];
        let e = eligible_rows(arr, fix, c, max_per_col);
        assert(key_rows(keys@)[j as int] == keys@[j as int]@);
        let p = pick_row(&keys[j], &e);
        match p {
            Some(i) => {
                ids.push((i, c));
            },
            None => {},
        }
    }
    ids
}

/// Removes, from each of the first `min(cols.len(), keys.len())` columns of
/// `cols` that has fewer than `max_per_col` missing cells, the first eligible
/// row with the least key (`keys[j]` ranks the rows for `cols[j]`), and
/// returns how many cells were removed.
pub fn drop_cols(arr: &mut MissingMask, keys: &Vec<Vec<u64>>, cols: &Vec<usize>, fix: &Vec<usize>, max_per_col: usize) -> (n: usize)
    requires
        old(arr).wf(),
        fix@.len() == old(arr).rows(),
        forall|j: int| 0 <= j < cols@.len() ==> #[trigger] cols@[j] < old(arr).cols(),
        forall|j: int| 0 <= j < keys@.len() ==> (#[trigger] keys@[j])@.len() == old(arr).rows(),
    ensures
        final(arr).wf(),
        final(arr).rows() == old(arr).rows(),
        final(arr).cols() == old(arr).cols(),
        ({
            let ids = mnar_picks(
                old(arr)@,
                key_rows(keys@),
                cols@,
                fix@,
                max_per_col as nat,
                if cols@.len() <= keys@.len() { cols@.len() } else { keys@.len() },
            );
            &&& final(arr)@ == marked(old(arr)@, ids)
            &&& n == ids.len()
        }),
        forall|i: int|
            0 <= i < old(arr).rows() && fix@[i] < old(arr).cols() ==> #[trigger] final(arr)@[i][fix@[i] as int]
                == old(arr)@[i][fix@[i] as int],
{
    let ids = pick_cells(arr, keys, cols, fix, max_per_col);
    let ghost k = if cols@.len() <= keys@.len() { cols@.len() } else { keys@.len() };
    proof {
        assert forall|j: int| 0 <= j < k implies (#[trigger] key_rows(keys@)[j]).len() == arr@.len() by {
            assert(key_rows(keys@)[j] == keys@[j]@);
        }
        lemma_mnar_picks_valid(arr@, key_rows(keys@), cols@, fix@, max_per_col as nat, k);
        assert forall|p: int| 0 <= p < ids@.len() implies (#[trigger] ids@[p]).0 < arr.rows() && ids@[p].1 < arr.cols() by {
            let (i, c) = ids@[p];
            let j = choose|j: int| 0 <= j < k && cols@[j] == c;
        }
    }
    let ghost g0 = arr@;
    let n = remove(arr, &ids);
    proof {
        assert forall|i: int| 0 <= i < g0.len() && fix@[i] < old(arr).cols() implies #[trigger] arr@[i][fix@[i] as int] == g0[i][fix@[i] as int] by {
            let cell = (i as usize, fix@[i]);
            assert(g0[i].len() == old(arr).cols());
            if ids@.contains(cell) {
                let p = choose|p: int| 0 <= p < ids@.len() && #[trigger] ids@[p] == cell;
                assert(ids@[p] == cell);
            }
        }
    }
    n
}

} // verus!

verus! {

/// The rank keys of the given columns, in the order of `cols`.
fn keys_of_cols(keys_by_col: &Vec<Vec<u64>>, cols: &Vec<usize>) -> (k: Vec<Vec<u64>>)
    requires
        forall|j: int| 0 <= j < cols@.len() ==> #[trigger] cols@[j] < keys_by_col@.len(),
    ensures
        k@.len() == cols@.len(),
        forall|j: int| 0 <= j < cols@.len() ==> (#[trigger] k@[j])@ == keys_by_col@[cols@[j] as int]@,
{
    let mut k: Vec<Vec<u64>> = Vec::new();
    for j in 0..cols.len()
        invariant
            forall|j: int| 0 <= j < cols@.len() ==> #[trigger] cols@[j] < keys_by_col@.len(),
            k@.len() == j,
            forall|i: int| 0 <= i < j ==> (#[trigger] k@[i])@ == keys_by_col@[cols@[i] as int]@,
    {
        let v = keys_by_col[cols[j]].clone();
        assert(v@ =~= keys_by_col@[cols@[j as int] as int]@);
        k.push(v);
    }
    k
}

/// Column `c` has no row from which a value may still be removed.
pub open spec fn no_eligible(g: Seq<Seq<bool>>, fix: Seq<usize>, c: int) -> bool {
    forall|i: int| 0 <= i < g.len() ==> #[trigger] g[i][c] || fix[i] == c
}

/// Column `c` can lose no further value: it has no eligible row, or it
/// already has `maxc` missing cells.
pub open spec fn col_closed(g: Seq<Seq<bool>>, fix: Seq<usize>, c: int, maxc: nat) -> bool {
    no_eligible(g, fix, c) || col_count(g, c) >= maxc
}

/// In every column, every value removed comes before every value that could
/// still be removed, in the order that the column's keys give the rows: the
/// removed rows are the ones the column ranks first.
pub open spec fn mnar_ranked(g0: Seq<Seq<bool>>, g: Seq<Seq<bool>>, fix: Seq<usize>, keys_by_col: Seq<Seq<u64>>) -> bool {
    forall|c: int, r1: int, r2: int|
        0 <= c < keys_by_col.len() && 0 <= r1 < g.len() && 0 <= r2 < g.len() && !g0[r1][c] && #[trigger] g[r1][c]
            && !#[trigger] g[r2][c] && fix[r2] != c ==> ranked_before(keys_by_col[c], r1, r2)
}

/// A cell chosen for column `cols[j]` is the first eligible row of that
/// column with the least key.
proof fn lemma_mnar_picks_first_min(
    g: Seq<Seq<bool>>,
    keys: Seq<Seq<u64>>,
    cols: Seq<usize>,
    fix: Seq<usize>,
    maxc: nat,
    k: nat,
    j: int,
    r: usize,
)
    requires
        k <= cols.len(),
        k <= keys.len(),
        g.len() <= usize::MAX,
        fix.len() == g.len(),
        forall|i: int| 0 <= i < k ==> (#[trigger] keys[i]).len() == g.len(),
        cols.no_duplicates(),
        0 <= j < cols.len(),
        mnar_picks(g, keys, cols, fix, maxc, k).contains((r, cols[j])),
    ensures
        j < k,
        is_first_min(keys[j], mnar_eligible(g, fix, cols[j], maxc), r as int),
    decreases k,
{
    lemma_mnar_picks_valid(g, keys, cols, fix, maxc, k);
    let cur = mnar_picks(g, keys, cols, fix, maxc, k);
    let p = choose|p: int| 0 <= p < cur.len() && cur[p] == (r, cols[j]);
    assert(cur[p] == (r, cols[j]));
    let jj = choose|jj: int| 0 <= jj < k && cols[jj] == cur[p].1;
    if jj != j {
        assert(cols[jj] != cols[j]);
    }
    let prev = mnar_picks(g, keys, cols, fix, maxc, (k - 1) as nat);
    let c = cols[k - 1];
    match first_min(keys[k - 1], mnar_eligible(g, fix, c, maxc)) {
        Some(i) => {
            if p == prev.len() {
                assert(cur[p] == (i as usize, c));
                assert(is_first_min(keys[k - 1], mnar_eligible(g, fix, c, maxc), i));
                if j != k - 1 {
                    assert(cols[k - 1] != cols[j]);
                }
            } else {
                assert(prev[p] == cur[p]);
                assert(prev.contains((r, cols[j])));
                lemma_mnar_picks_first_min(g, keys, cols, fix, maxc, (k - 1) as nat, j, r);
            }
        },
        None => {
            assert(prev.contains((r, cols[j])));
            lemma_mnar_picks_first_min(g, keys, cols, fix, maxc, (k - 1) as nat, j, r);
        },
    }
}

/// Fewer cells than columns are chosen only when one of the columns is
/// closed; none at all only when all of them are.
proof fn lemma_mnar_picks_short(g: Seq<Seq<bool>>, keys: Seq<Seq<u64>>, cols: Seq<usize>, fix: Seq<usize>, maxc: nat, k: nat)
    requires
        k <= cols.len(),
        k <= keys.len(),
        fix.len() == g.len(),
        forall|i: int| 0 <= i < k ==> (#[trigger] keys[i]).len() == g.len(),
    ensures
        mnar_picks(g, keys, cols, fix, maxc, k).len() <= k,
        mnar_picks(g, keys, cols, fix, maxc, k).len() < k ==> exists|j: int| 0 <= j < k && col_closed(g, fix, #[trigger] cols[j] as int, maxc),
        mnar_picks(g, keys, cols, fix, maxc, k).len() == 0 ==> forall|j: int| 0 <= j < k ==> col_closed(g, fix, #[trigger] cols[j] as int, maxc),
    decreases k,
{
    if k > 0 {
        lemma_mnar_picks_short(g, keys, cols, fix, maxc, (k - 1) as nat);
        let c = cols[k - 1];
        let e = mnar_eligible(g, fix, c, maxc);
        if first_min(keys[k - 1], e) is None && col_count(g, c as int) < maxc {
            assert forall|i: int| 0 <= i < g.len() implies #[trigger] g[i][c as int] || fix[i] == c by {
                if !g[i][c as int] && fix[i] != c {
                    assert(e[i]);
                    lemma_first_min_exists(keys[k - 1], e, i);
                }
            }
            assert(no_eligible(g, fix, cols[k - 1] as int));
        }
    }
}

/// Number of rows of column `c` from which a value may still be removed.
pub open spec fn elig_count(g: Seq<Seq<bool>>, fix: Seq<usize>, c: int) -> nat
    decreases g.len(),
{
    if g.len() == 0 {
        0
    } else {
        elig_count(g.drop_last(), fix, c) + if !g.last()[c] && fix[g.len() - 1] != c { 1nat } else { 0nat }
    }
}

/// A column that counts an eligible row has one.
pub proof fn lemma_elig_count_pos(g: Seq<Seq<bool>>, fix: Seq<usize>, c: int)
    requires
        elig_count(g, fix, c) >= 1,
    ensures
        !no_eligible(g, fix, c),
    decreases g.len(),
{
    let l = g.len() - 1;
    if !g.last()[c] && fix[l] != c {
        assert(g[l] == g.last());
        assert(!(g[l][c] || fix[l] == c));
    } else {
        lemma_elig_count_pos(g.drop_last(), fix, c);
        let i = choose|i: int| 0 <= i < g.drop_last().len() && !(#[trigger] g.drop_last()[i][c] || fix[i] == c);
        assert(g.drop_last()[i] == g[i]);
        assert(!(g[i][c] || fix[i] == c));
    }
}

/// A grid that only gains missing cells loses an eligible row of column `c`
/// only where the cell became missing.
proof fn lemma_elig_plus_missing(g0: Seq<Seq<bool>>, g1: Seq<Seq<bool>>, fix: Seq<usize>, rows: nat, cols: nat, c: int)
    requires
        crate::mask::is_grid(g0, rows, cols),
        crate::mask::is_grid(g1, rows, cols),
        0 <= c < cols,
        forall|i: int, k: int| 0 <= i < rows && 0 <= k < cols && #[trigger] g0[i][k] ==> g1[i][k],
    ensures
        elig_count(g1, fix, c) + col_count(g1, c) >= elig_count(g0, fix, c) + col_count(g0, c),
    decreases rows,
{
    if rows > 0 {
        let a = g0.drop_last();
        let b = g1.drop_last();
        assert forall|r: int| 0 <= r < rows - 1 implies #[trigger] a[r].len() == cols by {
            assert(a[r] == g0[r]);
        }
        assert forall|r: int| 0 <= r < rows - 1 implies #[trigger] b[r].len() == cols by {
            assert(b[r] == g1[r]);
        }
        assert forall|i: int, k: int| 0 <= i < rows - 1 && 0 <= k < cols && #[trigger] a[i][k] implies b[i][k] by {
            assert(a[i] == g0[i]);
            assert(b[i] == g1[i]);
        }
        lemma_elig_plus_missing(a, b, fix, (rows - 1) as nat, cols, c);
        let l = rows - 1;
        assert(g0.last() == g0[l as int]);
        assert(g1.last() == g1[l as int]);
        assert(g0[l as int][c] ==> g1[l as int][c]);
    }
}

/// Law: removing at most `n` cells from a grid (cells only become missing)
/// cannot take away all eligible rows of a column that had more than `n`.
pub proof fn law_column_keeps_eligible_rows(
    g0: Seq<Seq<bool>>,
    g1: Seq<Seq<bool>>,
    fix: Seq<usize>,
    rows: nat,
    cols: nat,
    n: int,
    c: int,
)
    requires
        crate::mask::is_grid(g0, rows, cols),
        crate::mask::is_grid(g1, rows, cols),
        0 <= c < cols,
        forall|i: int, k: int| 0 <= i < rows && 0 <= k < cols && #[trigger] g0[i][k] ==> g1[i][k],
        grid_count(g1) <= grid_count(g0) + n,
        elig_count(g0, fix, c) > n,
    ensures
        !no_eligible(g1, fix, c),
        col_count(g1, c) <= col_count(g0, c) + n,
{
    lemma_elig_plus_missing(g0, g1, fix, rows, cols, c);
    crate::mask::lemma_col_gain(g0, g1, rows, cols, c);
    if no_eligible(g1, fix, c) {
        lemma_elig_count_zero(g1, fix, c);
    }
}

/// A column with no eligible row counts none.
proof fn lemma_elig_count_zero(g: Seq<Seq<bool>>, fix: Seq<usize>, c: int)
    requires
        no_eligible(g, fix, c),
    ensures
        elig_count(g, fix, c) == 0,
{
    if elig_count(g, fix, c) >= 1 {
        lemma_elig_count_pos(g, fix, c);
    }
}

/// Every column has more than `n` eligible rows and room for `n` more
/// missing cells under `maxc`.
pub open spec fn ample(g: Seq<Seq<bool>>, fix: Seq<usize>, cols: nat, n: int, maxc: nat) -> bool {
    forall|c: int| 0 <= c < cols ==> #[trigger] elig_count(g, fix, c) > n && col_count(g, c) + n < maxc
}

/// Law: removing at most `n` cells from a grid where every column is
/// [`ample`] for `n` leaves every column open: each still has an eligible
/// row and fewer than `maxc` missing cells.
pub proof fn law_ample_columns_stay_open(
    g0: Seq<Seq<bool>>,
    g1: Seq<Seq<bool>>,
    fix: Seq<usize>,
    rows: nat,
    cols: nat,
    n: int,
    maxc: nat,
)
    requires
        crate::mask::is_grid(g0, rows, cols),
        crate::mask::is_grid(g1, rows, cols),
        forall|i: int, k: int| 0 <= i < rows && 0 <= k < cols && #[trigger] g0[i][k] ==> g1[i][k],
        grid_count(g1) <= grid_count(g0) + n,
        ample(g0, fix, cols, n, maxc),
    ensures
        forall|c: int| 0 <= c < cols ==> !#[trigger] col_closed(g1, fix, c, maxc),
{
    assert forall|c: int| 0 <= c < cols implies !#[trigger] col_closed(g1, fix, c, maxc) by {
        assert(elig_count(g0, fix, c) > n);
        law_column_keeps_eligible_rows(g0, g1, fix, rows, cols, n, c);
    }
}

/// Removing one eligible row of column `c`, and nothing else from it,
/// lowers its count by one.
proof fn lemma_elig_count_remove_one(g1: Seq<Seq<bool>>, g2: Seq<Seq<bool>>, fix: Seq<usize>, c: int, r: int)
    requires
        g1.len() == g2.len(),
        0 <= r < g1.len(),
        forall|i: int| 0 <= i < g1.len() && i != r ==> #[trigger] g2[i][c] == g1[i][c],
        !g1[r][c],
        fix[r] != c,
        g2[r][c],
    ensures
        elig_count(g2, fix, c) + 1 == elig_count(g1, fix, c),
    decreases g1.len(),
{
    let l = g1.len() - 1;
    let a = g1.drop_last();
    let b = g2.drop_last();
    assert(g1.last() == g1[l]);
    assert(g2.last() == g2[l]);
    if r == l {
        lemma_elig_count_same(a, b, fix, c);
    } else {
        assert forall|i: int| 0 <= i < a.len() && i != r implies #[trigger] b[i][c] == a[i][c] by {
            assert(a[i] == g1[i]);
            assert(b[i] == g2[i]);
        }
        assert(a[r] == g1[r]);
        assert(b[r] == g2[r]);
        lemma_elig_count_remove_one(a, b, fix, c, r);
    }
}

/// Two grids that agree on column `c` count it alike.
proof fn lemma_elig_count_same(g1: Seq<Seq<bool>>, g2: Seq<Seq<bool>>, fix: Seq<usize>, c: int)
    requires
        g1.len() == g2.len(),
        forall|i: int| 0 <= i < g1.len() ==> #[trigger] g2[i][c] == g1[i][c],
    ensures
        elig_count(g2, fix, c) == elig_count(g1, fix, c),
    decreases g1.len(),
{
    if g1.len() > 0 {
        let a = g1.drop_last();
        let b = g2.drop_last();
        assert forall|i: int| 0 <= i < a.len() implies #[trigger] b[i][c] == a[i][c] by {
            assert(a[i] == g1[i]);
            assert(b[i] == g2[i]);
        }
        lemma_elig_count_same(a, b, fix, c);
        assert(g1.last() == g1[g1.len() - 1]);
        assert(g2.last() == g2[g1.len() - 1]);
    }
}

/// When every chosen column is open, each gets exactly one cell:
/// cell `j` lies in column `cols[j]`, in its first eligible row with the
/// least key.
proof fn lemma_mnar_picks_full(g: Seq<Seq<bool>>, keys: Seq<Seq<u64>>, cols: Seq<usize>, fix: Seq<usize>, maxc: nat, k: nat)
    requires
        k <= cols.len(),
        k <= keys.len(),
        g.len() <= usize::MAX,
        fix.len() == g.len(),
        forall|i: int| 0 <= i < k ==> (#[trigger] keys[i]).len() == g.len(),
        forall|j: int| 0 <= j < k ==> !col_closed(g, fix, #[trigger] cols[j] as int, maxc),
    ensures
        mnar_picks(g, keys, cols, fix, maxc, k).len() == k,
        forall|j: int| 0 <= j < k ==> {
            let p = #[trigger] mnar_picks(g, keys, cols, fix, maxc, k)[j];
            &&& p.1 == cols[j]
            &&& is_first_min(keys[j], mnar_eligible(g, fix, cols[j], maxc), p.0 as int)
        },
    decreases k,
{
    if k > 0 {
        lemma_mnar_picks_full(g, keys, cols, fix, maxc, (k - 1) as nat);
        let c = cols[k - 1];
        let e = mnar_eligible(g, fix, c, maxc);
        assert(!col_closed(g, fix, c as int, maxc));
        let i = choose|i: int| 0 <= i < g.len() && !(#[trigger] g[i][c as int] || fix[i] == c);
        assert(e[i]);
        lemma_first_min_exists(keys[k - 1], e, i);
        let m = first_min(keys[k - 1], e)->0;
        assert(is_first_min(keys[k - 1], e, m));
        let prev = mnar_picks(g, keys, cols, fix, maxc, (k - 1) as nat);
        let cur = mnar_picks(g, keys, cols, fix, maxc, k);
        assert(cur == prev.push((m as usize, c)));
        assert forall|j: int| 0 <= j < k implies {
            let p = #[trigger] cur[j];
            &&& p.1 == cols[j]
            &&& is_first_min(keys[j], mnar_eligible(g, fix, cols[j], maxc), p.0 as int)
        } by {
            if j < k - 1 {
                assert(cur[j] == prev[j]);
            }
        }
    }
}

/// `owed` values can be removed by whole rounds alone: it is a multiple of
/// the number of columns, and each column has an eligible row, and room
/// under `maxc`, for each round.
pub open spec fn full_rounds_suffice(g: Seq<Seq<bool>>, fix: Seq<usize>, cols: nat, owed: int, maxc: nat) -> bool {
    &&& cols > 0
    &&& owed % (cols as int) == 0
    &&& forall|c: int| 0 <= c < cols ==> #[trigger] elig_count(g, fix, c) * cols >= owed
    &&& forall|c: int| 0 <= c < cols ==> (maxc - #[trigger] col_count(g, c)) * cols >= owed
}

/// Whether some column may still lose a value.
fn any_open(arr: &MissingMask, fix: &Vec<usize>, max_per_col: usize) -> (b: bool)
    requires
        arr.wf(),
        fix@.len() == arr.rows(),
    ensures
        b == exists|c: int| 0 <= c < arr.cols() && !col_closed(arr@, fix@, c, max_per_col as nat),
{
    let rows = arr.nrows();
    let cols = arr.ncols();
    for c in 0..cols
        invariant
            arr.wf(),
            fix@.len() == arr.rows(),
            rows == arr.rows(),
            cols == arr.cols(),
            forall|c2: int| 0 <= c2 < c ==> col_closed(arr@, fix@, c2, max_per_col as nat),
    {
        if arr.missing_in_col(c) < max_per_col {
            for i in 0..rows
                invariant
                    arr.wf(),
                    fix@.len() == arr.rows(),
                    rows == arr.rows(),
                    cols == arr.cols(),
                    c < cols,
                    col_count(arr@, c as int) < max_per_col,
                    forall|i2: int| 0 <= i2 < i ==> #[trigger] arr@[i2][c as int] || fix@[i2] == c,
            {
                if !arr.is_missing(i, c) && fix[i] != c {
                    assert(!col_closed(arr@, fix@, c as int, max_per_col as nat));
                    return true;
                }
            }
            assert(no_eligible(arr@, fix@, c as int));
        }
        assert(col_closed(arr@, fix@, c as int, max_per_col as nat));
    }
    false
}

/// What follows a round of the ranked removal.
pub enum NextRound {
    /// Go on, with this many fruitless rounds so far.
    Go(u64),
    /// Give up: no column can lose a value, or too many rounds were fruitless.
    Stop,
}

/// Decides, after a round that removed `removed` cells with `idle` fruitless
/// rounds before it, whether the removal goes on: a round that removed a
/// cell always does; a fruitless one stops when no column can lose a value
/// or when [`MAX_AMOUNT_OF_WORK`] fruitless rounds came before it, and
/// otherwise counts one more fruitless round.
pub fn next_round(arr: &MissingMask, fix: &Vec<usize>, removed: usize, idle: u64, max_per_col: usize) -> (r: NextRound)
    requires
        arr.wf(),
        fix@.len() == arr.rows(),
    ensures
        removed > 0 ==> r == NextRound::Go(idle),
        removed == 0 ==> (r is Stop <==> (idle >= MAX_AMOUNT_OF_WORK || !exists|c: int|
            0 <= c < arr.cols() && !#[trigger] col_closed(arr@, fix@, c, max_per_col as nat))),
        removed == 0 && idle < MAX_AMOUNT_OF_WORK ==> (r is Go ==> r == NextRound::Go((idle + 1) as u64)),
{
    if removed > 0 {
        return NextRound::Go(idle);
    }
    if idle >= MAX_AMOUNT_OF_WORK || !any_open(arr, fix, max_per_col) {
        NextRound::Stop
    } else {
        NextRound::Go(idle + 1)
    }
}

/// Removes `n_missing` values ranked by fixed keys (the minimum and maximum
/// modes): round after round, random columns are chosen with [`select_cols`]
/// and [`drop_cols`] removes the first eligible row with the least key from
/// each, until `n_missing` cells have been removed. `keys_by_col[c]` ranks
/// the rows of column `c`, and in every column the removed rows are those it
/// ranks first ([`mnar_ranked`]). A column with `max_per_col` missing cells
/// loses no further value, so no column goes above that limit. Kept cells
/// (`fix`) and cells already missing are never touched. When no column can
/// lose a value the removal stops with [`Errors::MaxWorkExeeded`]; so it does
/// after [`MAX_AMOUNT_OF_WORK`] rounds that removed nothing (a round removes
/// nothing only when every column it chose is closed). It therefore fails
/// only when some column is closed at the end, and succeeds whenever every
/// column is [`ample`] for `n_missing`. While as many
/// values are owed as there are columns every column is chosen and no draw
/// decides: if every column has an eligible row and room for each of those
/// rounds ([`full_rounds_suffice`]), the removal succeeds.
pub fn drop_ranked(
    arr: &mut MissingMask,
    rng: &mut StdRng,
    fix: &Vec<usize>,
    keys_by_col: &Vec<Vec<u64>>,
    n_missing: usize,
    max_per_col: usize,
) -> (r: Result<usize, Errors>)
    requires
        old(arr).wf(),
        fix@.len() == old(arr).rows(),
        keys_by_col@.len() == old(arr).cols(),
        forall|c: int| 0 <= c < keys_by_col@.len() ==> (#[trigger] keys_by_col@[c])@.len() == old(arr).rows(),
    ensures
        final(arr).wf(),
        final(arr).rows() == old(arr).rows(),
        final(arr).cols() == old(arr).cols(),
        forall|i: int, c: int|
            0 <= i < old(arr).rows() && 0 <= c < old(arr).cols() && #[trigger] old(arr)@[i][c] ==> final(arr)@[i][c],
        forall|i: int|
            0 <= i < old(arr).rows() && fix@[i] < old(arr).cols() ==> #[trigger] final(arr)@[i][fix@[i] as int]
                == old(arr)@[i][fix@[i] as int],
        mnar_ranked(old(arr)@, final(arr)@, fix@, key_rows(keys_by_col@)),
        forall|c: int|
            0 <= c < old(arr).cols() ==> #[trigger] col_count(final(arr)@, c) == col_count(old(arr)@, c) || col_count(
                final(arr)@,
                c,
            ) <= max_per_col,
        grid_count(final(arr)@) <= grid_count(old(arr)@) + n_missing,
        r is Ok ==> r == Ok::<usize, Errors>(n_missing) && grid_count(final(arr)@) == grid_count(old(arr)@) + n_missing,
        full_rounds_suffice(old(arr)@, fix@, old(arr).cols(), n_missing as int, max_per_col as nat) ==> r is Ok,
        n_missing == 0 ==> r == Ok::<usize, Errors>(0),
        old(arr).cols() > 0 && ample(old(arr)@, fix@, old(arr).cols(), n_missing as int, max_per_col as nat) ==> r
            == Ok::<usize, Errors>(n_missing),
        r is Err ==> r == Err::<usize, Errors>(Errors::MaxWorkExeeded) && (old(arr).cols() == 0 || exists|c: int|
            0 <= c < old(arr).cols() && #[trigger] col_closed(final(arr)@, fix@, c, max_per_col as nat)),
{
    let ghost g0 = arr@;
    let ghost kb = key_rows(keys_by_col@);
    let ghost maxc = max_per_col as nat;
    let mut missing_count: usize = 0;
    let mut idle: u64 = 0;
    while missing_count < n_missing
        invariant
            arr.wf(),
            arr.rows() == old(arr).rows(),
            arr.cols() == old(arr).cols(),
            g0 == old(arr)@,
            crate::mask::is_grid(g0, arr.rows(), arr.cols()),
            kb == key_rows(keys_by_col@),
            maxc == max_per_col as nat,
            fix@.len() == arr.rows(),
            keys_by_col@.len() == arr.cols(),
            forall|c: int| 0 <= c < keys_by_col@.len() ==> (#[trigger] keys_by_col@[c])@.len() == arr.rows(),
            missing_count <= n_missing,
            idle <= MAX_AMOUNT_OF_WORK,
            grid_count(arr@) == grid_count(g0) + missing_count,
            forall|i: int, c: int| 0 <= i < arr.rows() && 0 <= c < arr.cols() && #[trigger] g0[i][c] ==> arr@[i][c],
            forall|i: int|
                0 <= i < arr.rows() && fix@[i] < arr.cols() ==> #[trigger] arr@[i][fix@[i] as int] == g0[i][fix@[i] as int],
            mnar_ranked(g0, arr@, fix@, kb),
            forall|c: int| 0 <= c < arr.cols() ==> #[trigger] col_count(arr@, c) == col_count(g0, c) || col_count(arr@, c) <= maxc,
            full_rounds_suffice(g0, fix@, arr.cols(), n_missing as int, maxc) ==> full_rounds_suffice(
                arr@,
                fix@,
                arr.cols(),
                n_missing - missing_count,
                maxc,
            ),
            arr.cols() > 0 && (n_missing - missing_count) % (arr.cols() as int) != 0 ==> (n_missing as int) % (arr.cols() as int) != 0
                || exists|c: int| 0 <= c < arr.cols() && #[trigger] col_closed(arr@, fix@, c, maxc),
        decreases MAX_AMOUNT_OF_WORK - idle, n_missing - missing_count,
    {
        let cols = select_cols(rng, arr, missing_count, n_missing);
        proof {
            if n_missing - missing_count >= arr.cols() {
                assert forall|a: int, b: int| 0 <= a < cols@.len() && 0 <= b < cols@.len() && a != b implies cols@[a] != cols@[b] by {}
            }
        }
        let keys = keys_of_cols(keys_by_col, &cols);
        let ghost g1 = arr@;
        let ghost k = cols@.len();
        let ghost kr = key_rows(keys@);
        proof {
            assert(kr.len() == k);
            assert forall|j: int| 0 <= j < k implies (#[trigger] kr[j]).len() == g1.len() by {
                assert(kr[j] == keys@[j]@);
            }
            lemma_mnar_picks_valid(g1, kr, cols@, fix@, maxc, k as nat);
            lemma_mnar_picks_distinct(g1, kr, cols@, fix@, maxc, k as nat);
            lemma_mnar_picks_short(g1, kr, cols@, fix@, maxc, k as nat);
            let ids = mnar_picks(g1, kr, cols@, fix@, maxc, k as nat);
            assert forall|p: int| 0 <= p < ids.len() implies (#[trigger] ids[p]).0 < arr.rows() && ids[p].1 < arr.cols()
                && !g1[ids[p].0 as int][ids[p].1 as int] by {
                let j = choose|j: int| 0 <= j < k && cols@[j] == ids[p].1;
            }
            lemma_marked_count(g1, ids, arr.rows(), arr.cols());
        }
        let n = drop_cols(arr, &keys, &cols, fix, max_per_col);
        proof {
            let ids = mnar_picks(g1, kr, cols@, fix@, maxc, k as nat);
            assert forall|i: int, c: int| 0 <= i < arr.rows() && 0 <= c < arr.cols() && #[trigger] g0[i][c] implies arr@[i][c] by {
                assert(g1[i][c]);
                assert(g1[i].len() == arr.cols());
            }
            assert forall|c: int| 0 <= c < arr.cols() && #[trigger] no_eligible(g1, fix@, c) implies no_eligible(arr@, fix@, c) by {
                assert forall|i: int| 0 <= i < arr@.len() implies #[trigger] arr@[i][c] || fix@[i] == c by {
                    assert(g1[i].len() == arr.cols());
                    assert(g1[i][c] || fix@[i] == c);
                }
            }
            // Each column gains at most one cell, and only while under the limit.
            assert forall|c: int| 0 <= c < arr.cols() implies #[trigger] col_count(arr@, c) == col_count(g1, c) || (col_count(
                arr@,
                c,
            ) == col_count(g1, c) + 1 && col_count(g1, c) < maxc) by {
                if exists|i: int| 0 <= i < g1.len() && #[trigger] ids.contains((i as usize, c as usize)) {
                    let r = choose|i: int| 0 <= i < g1.len() && #[trigger] ids.contains((i as usize, c as usize));
                    let p = choose|p: int| 0 <= p < ids.len() && ids[p] == (r as usize, c as usize);
                    let j = choose|j: int| 0 <= j < k && cols@[j] == ids[p].1;
                    assert(cols@[j] == c as usize);
                    assert(ids.contains((r as usize, cols@[j])));
                    lemma_mnar_picks_first_min(g1, kr, cols@, fix@, maxc, k as nat, j, r as usize);
                    let e = mnar_eligible(g1, fix@, cols@[j], maxc);
                    assert(e[r]);
                    assert(g1[r].len() == arr.cols());
                    assert forall|i: int| 0 <= i < g1.len() && i != r implies #[trigger] arr@[i][c] == g1[i][c] by {
                        assert(g1[i].len() == arr.cols());
                        if ids.contains((i as usize, c as usize)) {
                            assert(ids.contains((i as usize, cols@[j])));
                            lemma_mnar_picks_first_min(g1, kr, cols@, fix@, maxc, k as nat, j, i as usize);
                            crate::rank::lemma_first_min_unique(kr[j], e, i, r);
                        }
                    }
                    lemma_col_count_add_one(g1, arr@, c, r);
                } else {
                    assert forall|i: int| 0 <= i < g1.len() implies #[trigger] arr@[i][c] == g1[i][c] by {
                        assert(g1[i].len() == arr.cols());
                    }
                    lemma_col_count_same(g1, arr@, c);
                }
            }
            assert forall|c: int, r1: int, r2: int|
                0 <= c < kb.len() && 0 <= r1 < arr@.len() && 0 <= r2 < arr@.len() && !g0[r1][c] && #[trigger] arr@[r1][c]
                    && !#[trigger] arr@[r2][c] && fix@[r2] != c
                implies ranked_before(kb[c], r1, r2) by {
                assert(g1[r1].len() == arr.cols());
                assert(g1[r2].len() == arr.cols());
                assert(!g1[r2][c]);
                if !g1[r1][c] {
                    assert(ids.contains((r1 as usize, c as usize)));
                    let p = choose|p: int| 0 <= p < ids.len() && ids[p] == (r1 as usize, c as usize);
                    let j = choose|j: int| 0 <= j < k && cols@[j] == ids[p].1;
                    assert(cols@[j] == c as usize);
                    lemma_mnar_picks_first_min(g1, kr, cols@, fix@, maxc, k as nat, j, r1 as usize);
                    assert(kr[j] == keys@[j]@);
                    assert(mnar_eligible(g1, fix@, cols@[j], maxc)[r1]);
                    assert(mnar_eligible(g1, fix@, cols@[j], maxc)[r2]);
                    lemma_first_min_ranked_before(kr[j], mnar_eligible(g1, fix@, cols@[j], maxc), r1, r2);
                }
            }
            assert forall|c: int| 0 <= c < arr.cols() && #[trigger] col_closed(g1, fix@, c, maxc) implies col_closed(arr@, fix@, c, maxc) by {
                assert(col_count(arr@, c) >= col_count(g1, c));
                if no_eligible(g1, fix@, c) {
                    assert(no_eligible(arr@, fix@, c));
                }
            }
            assert forall|c: int| 0 <= c < arr.cols() implies #[trigger] col_count(arr@, c) == col_count(g0, c) || col_count(arr@, c) <= maxc by {
                assert(col_count(arr@, c) == col_count(g1, c) || (col_count(arr@, c) == col_count(g1, c) + 1 && col_count(g1, c) < maxc));
            }
            if full_rounds_suffice(g0, fix@, arr.cols(), n_missing as int, maxc) {
                let owed = n_missing - missing_count;
                let nc = arr.cols() as int;
                assert(owed >= nc) by (nonlinear_arith)
                    requires
                        owed % nc == 0,
                        owed > 0,
                        nc > 0,
                ;
                assert(k == nc);
                assert forall|c: int| 0 <= c < nc implies !#[trigger] col_closed(g1, fix@, c, maxc) by {
                    let e = elig_count(g1, fix@, c);
                    let room = maxc - col_count(g1, c);
                    assert(e * nc >= owed);
                    assert(room * nc >= owed);
                    assert(e >= 1 && room >= 1) by (nonlinear_arith)
                        requires
                            e * nc >= owed,
                            room * nc >= owed,
                            owed >= nc,
                            nc > 0,
                    ;
                    lemma_elig_count_pos(g1, fix@, c);
                }
                assert forall|j: int| 0 <= j < k implies !col_closed(g1, fix@, #[trigger] cols@[j] as int, maxc) by {
                    assert(cols@[j] == j as usize);
                    assert(!col_closed(g1, fix@, j, maxc));
                }
                lemma_mnar_picks_full(g1, kr, cols@, fix@, maxc, k as nat);
                assert(n == nc);
                assert forall|c: int| 0 <= c < nc implies #[trigger] elig_count(arr@, fix@, c) + 1 == elig_count(g1, fix@, c)
                    && col_count(arr@, c) == col_count(g1, c) + 1 by {
                    let q = ids[c];
                    assert(q.1 == cols@[c]);
                    assert(cols@[c] == c as usize);
                    let r = q.0 as int;
                    assert(is_first_min(kr[c], mnar_eligible(g1, fix@, cols@[c], maxc), r));
                    assert(mnar_eligible(g1, fix@, cols@[c], maxc)[r]);
                    assert(ids.contains((r as usize, c as usize)));
                    assert(g1[r].len() == nc);
                    assert forall|i: int| 0 <= i < g1.len() && i != r implies #[trigger] arr@[i][c] == g1[i][c] by {
                        assert(g1[i].len() == nc);
                        if ids.contains((i as usize, c as usize)) {
                            let p = choose|p: int| 0 <= p < ids.len() && ids[p] == (i as usize, c as usize);
                            assert(ids[p].1 == cols@[p]);
                            assert(cols@[p] == p as usize);
                        }
                    }
                    lemma_elig_count_remove_one(g1, arr@, fix@, c, r);
                    lemma_col_count_add_one(g1, arr@, c, r);
                }
                assert((owed - nc) % nc == 0) by (nonlinear_arith)
                    requires
                        owed % nc == 0,
                        nc > 0,
                ;
                assert forall|c: int| 0 <= c < nc implies #[trigger] elig_count(arr@, fix@, c) * (arr.cols() as nat) >= owed - nc by {
                    let e1 = elig_count(g1, fix@, c);
                    let e2 = elig_count(arr@, fix@, c);
                    assert(e1 * nc >= owed);
                    assert(e2 * nc >= owed - nc) by (nonlinear_arith)
                        requires
                            e2 + 1 == e1,
                            e1 * nc >= owed,
                    ;
                }
                assert forall|c: int| 0 <= c < nc implies (maxc - #[trigger] col_count(arr@, c)) * (arr.cols() as nat) >= owed - nc by {
                    let r1 = maxc - col_count(g1, c);
                    let r2 = maxc - col_count(arr@, c);
                    assert(r1 * nc >= owed);
                    assert(elig_count(arr@, fix@, c) + 1 == elig_count(g1, fix@, c));
                    assert(col_count(arr@, c) == col_count(g1, c) + 1);
                    assert(r2 * nc >= owed - nc) by (nonlinear_arith)
                        requires
                            r2 + 1 == r1,
                            r1 * nc >= owed,
                    ;
                }
                assert(full_rounds_suffice(arr@, fix@, arr.cols(), owed - n, maxc));
            }
        }
        if n == 0 {
            let step = next_round(arr, fix, n, idle, max_per_col);
            let ghost more = exists|c: int| 0 <= c < arr.cols() && !#[trigger] col_closed(arr@, fix@, c, maxc);
            if let NextRound::Go(i) = step {
                idle = i;
            } else {
                proof {
                    if arr.cols() > 0 {
                        if !more {
                            assert(col_closed(arr@, fix@, 0, maxc));
                        } else if (n_missing - missing_count) >= arr.cols() {
                            let c = choose|c: int| 0 <= c < arr.cols() && !col_closed(arr@, fix@, c, maxc);
                            assert(cols@[c] == c as usize);
                            assert(col_closed(g1, fix@, cols@[c] as int, maxc));
                            assert(col_closed(arr@, fix@, c, maxc));
                        } else {
                            assert(k >= 1);
                            assert(col_closed(g1, fix@, cols@[0] as int, maxc));
                            assert(col_closed(arr@, fix@, cols@[0] as int, maxc));
                        }
                        if ample(g0, fix@, arr.cols(), n_missing as int, maxc) {
                            law_ample_columns_stay_open(g0, arr@, fix@, arr.rows(), arr.cols(), n_missing as int, maxc);
                        }
                    }
                }
                return Err(Errors::MaxWorkExeeded);
            }
        } else {
            proof {
                if arr.cols() > 0 && (n_missing - missing_count - n) % (arr.cols() as int) != 0 {
                    if (n_missing - missing_count) % (arr.cols() as int) == 0 {
                        let owed = n_missing - missing_count;
                        let nc = arr.cols() as int;
                        assert(owed >= nc) by (nonlinear_arith)
                            requires
                                owed % nc == 0,
                                owed > 0,
                                nc > 0,
                        ;
                        assert(k == nc);
                        if n == nc {
                            assert((owed - n) % nc == 0) by (nonlinear_arith)
                                requires
                                    owed % nc == 0,
                                    n == nc,
                                    nc > 0,
                            ;
                        }
                        assert(n < k);
                        let j = choose|j: int| 0 <= j < k && col_closed(g1, fix@, #[trigger] cols@[j] as int, maxc);
                        assert(col_closed(arr@, fix@, cols@[j] as int, maxc));
                    }
                }
            }
            missing_count = missing_count + n;
        }
    }
    Ok(missing_count)
}

} // verus!
