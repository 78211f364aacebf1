use vstd::prelude::*;

verus! {

/// The grid `g` with every cell listed in `ids` marked missing.
pub open spec fn marked(g: Seq<Seq<bool>>, ids: Seq<(usize, usize)>) -> Seq<Seq<bool>> {
    Seq::new(
        g.len(),
        |r: int| Seq::new(g[r].len(), |c: int| g[r][c] || ids.contains((r as usize, c as usize))),
    )
}

/// Marking no cell leaves a grid unchanged.
pub proof fn lemma_marked_nothing(g: Seq<Seq<bool>>, rows: nat, cols: nat)
    requires
        is_grid(g, rows, cols),
    ensures
        marked(g, Seq::empty()) == g,
{
    let m = marked(g, Seq::empty());
    assert forall|r: int| 0 <= r < g.len() implies #[trigger] m[r] == g[r] by {
        assert(m[r] =~= g[r]);
    }
    assert(m =~= g);
}

/// Marking one more cell updates exactly that cell.
pub proof fn lemma_marked_push(
    g: Seq<Seq<bool>>,
    ids: Seq<(usize, usize)>,
    x: (usize, usize),
    rows: nat,
    cols: nat,
)
    requires
        is_grid(g, rows, cols),
        rows <= usize::MAX,
        cols <= usize::MAX,
        x.0 < rows,
        x.1 < cols,
    ensures
        marked(g, ids.push(x)) == marked(g, ids).update(
            x.0 as int,
            marked(g, ids)[x.0 as int].update(x.1 as int, true),
        ),
{
    let a = marked(g, ids.push(x));
    let b = marked(g, ids).update(x.0 as int, marked(g, ids)[x.0 as int].update(x.1 as int, true));
    assert forall|r: int| 0 <= r < g.len() implies #[trigger] a[r] == b[r] by {
        assert forall|c: int| 0 <= c < g[r].len() implies a[r][c] == b[r][c] by {
            let p = (r as usize, c as usize);
            if ids.contains(p) {
                let w = choose|w: int| 0 <= w < ids.len() && #[trigger] ids[w] == p;
                assert(ids.push(x)[w] == p);
            }
            if ids.push(x).contains(p) {
                let w = choose|w: int| 0 <= w < ids.len() + 1 && #[trigger] ids.push(x)[w] == p;
                if w < ids.len() {
                    assert(ids[w] == p);
                }
            }
            if r == x.0 && c == x.1 {
                assert(ids.push(x)[ids.len() as int] == p);
            }
        }
        assert(a[r] =~= b[r]);
    }
    assert(a =~= b);
}

/// Number of missing cells in a row.
pub open spec fn row_count(row: Seq<bool>) -> nat
    decreases row.len(),
{
    if row.len() == 0 {
        0
    } else {
        row_count(row.drop_last()) + if row.last() { 1nat } else { 0nat }
    }
}

/// Number of missing cells in a grid.
pub open spec fn grid_count(g: Seq<Seq<bool>>) -> nat
    decreases g.len(),
{
    if g.len() == 0 {
        0
    } else {
        grid_count(g.drop_last()) + row_count(g.last())
    }
}

/// A row with an observed cell has fewer missing cells than cells.
pub proof fn lemma_row_count_bound(row: Seq<bool>, c: int)
    requires
        0 <= c < row.len(),
        !row[c],
    ensures
        row_count(row) < row.len(),
    decreases row.len(),
{
    if c < row.len() - 1 {
        lemma_row_count_bound(row.drop_last(), c);
    } else {
        lemma_row_count_le(row.drop_last());
    }
}

/// A row has at most as many missing cells as cells.
pub proof fn lemma_row_count_le(row: Seq<bool>)
    ensures
        row_count(row) <= row.len(),
    decreases row.len(),
{
    if row.len() > 0 {
        lemma_row_count_le(row.drop_last());
    }
}

/// Marking an observed cell of a row adds one to its count.
pub proof fn lemma_row_count_set(row: Seq<bool>, c: int)
    requires
        0 <= c < row.len(),
        !row[c],
    ensures
        row_count(row.update(c, true)) == row_count(row) + 1,
    decreases row.len(),
{
    let r2 = row.update(c, true);
    if c == row.len() - 1 {
        assert(r2.drop_last() =~= row.drop_last());
    } else {
        lemma_row_count_set(row.drop_last(), c);
        assert(r2.drop_last() =~= row.drop_last().update(c, true));
    }
}

/// Replacing one row of a grid changes its count by the change in that row.
pub proof fn lemma_grid_count_update(g: Seq<Seq<bool>>, r: int, row: Seq<bool>)
    requires
        0 <= r < g.len(),
    ensures
        grid_count(g.update(r, row)) + row_count(g[r]) == grid_count(g) + row_count(row),
    decreases g.len(),
{
    let g2 = g.update(r, row);
    if r == g.len() - 1 {
        assert(g2.drop_last() =~= g.drop_last());
    } else {
        lemma_grid_count_update(g.drop_last(), r, row);
        assert(g2.drop_last() =~= g.drop_last().update(r, row));
    }
}

/// Marking distinct, observed cells adds their number to the count.
pub proof fn lemma_marked_count(g: Seq<Seq<bool>>, ids: Seq<(usize, usize)>, rows: nat, cols: nat)
    requires
        is_grid(g, rows, cols),
        rows <= usize::MAX,
        cols <= usize::MAX,
        ids.no_duplicates(),
        forall|k: int|
            0 <= k < ids.len() ==> (#[trigger] ids[k]).0 < rows && ids[k].1 < cols && !g[ids[k].0 as int][ids[k].1 as int],
    ensures
        grid_count(marked(g, ids)) == grid_count(g) + ids.len(),
        is_grid(marked(g, ids), rows, cols),
    decreases ids.len(),
{
    if ids.len() == 0 {
        lemma_marked_nothing(g, rows, cols);
        assert(ids =~= Seq::<(usize, usize)>::empty());
    } else {
        let prev = ids.drop_last();
        let x = ids.last();
        lemma_marked_count(g, prev, rows, cols);
        lemma_marked_push(g, prev, x, rows, cols);
        assert(prev.push(x) =~= ids);
        let m = marked(g, prev);
        assert(!prev.contains(x));
        assert(!m[x.0 as int][x.1 as int]);
        lemma_row_count_set(m[x.0 as int], x.1 as int);
        lemma_grid_count_update(m, x.0 as int, m[x.0 as int].update(x.1 as int, true));
    }
}

/// `g` is a grid of `rows` rows of `cols` cells each.
pub open spec fn is_grid(g: Seq<Seq<bool>>, rows: nat, cols: nat) -> bool {
    &&& g.len() == rows
    &&& forall|r: int| 0 <= r < rows ==> #[trigger] g[r].len() == cols
}

/// Which cells of a table are missing (`true`) and which are observed.
pub struct MissingMask {
    nrows: usize,
    ncols: usize,
    cells: Vec<Vec<bool>>,
}

impl View for MissingMask {
    type V = Seq<Seq<bool>>;

    closed spec fn view(&self) -> Seq<Seq<bool>> {
        self.cells@.map_values(|row: Vec<bool>| row@)
    }
}

impl MissingMask {
    /// Number of rows of the table.
    pub closed spec fn rows(self) -> nat {
        self.nrows as nat
    }

    /// Number of columns of the table.
    pub closed spec fn cols(self) -> nat {
        self.ncols as nat
    }

    /// The mask is a rectangle whose number of cells fits in a `usize`.
    pub open spec fn wf(self) -> bool {
        &&& is_grid(self@, self.rows(), self.cols())
        &&& self.rows() <= isize::MAX
        &&& self.cols() <= isize::MAX
        &&& self.rows() * self.cols() <= usize::MAX
    }

    /// A mask with every cell observed.
    pub fn observed(nrows: usize, ncols: usize) -> (m: MissingMask)
        requires
            nrows <= isize::MAX,
            ncols <= isize::MAX,
            nrows * ncols <= usize::MAX,
        ensures
            m.wf(),
            m.rows() == nrows,
            m.cols() == ncols,
            forall|r: int, c: int| 0 <= r < nrows && 0 <= c < ncols ==> !#[trigger] m@[r][c],
    {
        let mut cells: Vec<Vec<bool>> = Vec::new();
        for r in 0..nrows
            invariant
                cells@.len() == r,
                forall|i: int| 0 <= i < r ==> #[trigger] cells@[i]@ == Seq::new(ncols as nat, |c: int| false),
        {
            let mut row: Vec<bool> = Vec::new();
            for c in 0..ncols
                invariant
                    row@ == Seq::new(c as nat, |c: int| false),
            {
                row.push(false);
                assert(row@ =~= Seq::new((c + 1) as nat, |c: int| false));
            }
            cells.push(row);
        }
        let m = MissingMask { nrows, ncols, cells };
        assert forall|r: int| 0 <= r < nrows implies #[trigger] m@[r].len() == ncols by {
            assert(m@[r] == m.cells@[r]@);
        }
        m
    }

    /// Builds a mask from its rows; `None` when the rows differ in length or
    /// the grid is too large to index with a `usize`.
    pub fn from_rows(ncols: usize, rows: Vec<Vec<bool>>) -> (m: Option<MissingMask>)
        ensures
            match m {
                Some(m) => m.wf() && m.cols() == ncols && m@ == rows@.map_values(|row: Vec<bool>| row@),
                None => !(is_grid(rows@.map_values(|row: Vec<bool>| row@), rows@.len(), ncols as nat)
                    && rows@.len() <= isize::MAX && ncols <= isize::MAX && rows@.len() * ncols <= usize::MAX),
            },
    {
        let nrows = rows.len();
        let ghost g = rows@.map_values(|row: Vec<bool>| row@);
        for r in 0..nrows
            invariant
                nrows == rows@.len(),
                g == rows@.map_values(|row: Vec<bool>| row@),
                forall|i: int| 0 <= i < r ==> #[trigger] g[i].len() == ncols,
        {
            if rows[r].len() != ncols {
                assert(g[r as int].len() != ncols);
                return None;
            }
        }
        if nrows > isize::MAX as usize || ncols > isize::MAX as usize {
            return None;
        }
        match nrows.checked_mul(ncols) {
            None => None,
            Some(_) => Some(MissingMask { nrows, ncols, cells: rows }),
        }
    }

    /// Number of rows.
    pub fn nrows(&self) -> (n: usize)
        ensures
            n == self.rows(),
    {
        self.nrows
    }

    /// Number of columns.
    pub fn ncols(&self) -> (n: usize)
        ensures
            n == self.cols(),
    {
        self.ncols
    }

    /// Whether the cell in row `r` and column `c` is missing.
    pub fn is_missing(&self, r: usize, c: usize) -> (b: bool)
        requires
            self.wf(),
            r < self.rows(),
            c < self.cols(),
        ensures
            b == self@[r as int][c as int],
    {
        proof {
            assert(self@[r as int] == self.cells@[r as int]@);
        }
        self.cells[r][c]
    }

    /// Number of missing cells in column `c`.
    pub fn missing_in_col(&self, c: usize) -> (n: usize)
        requires
            self.wf(),
            c < self.cols(),
        ensures
            n == col_count(self@, c as int),
    {
        let mut n: usize = 0;
        for i in 0..self.nrows
            invariant
                self.wf(),
                c < self.cols(),
                n <= i,
                n == col_count(self@.take(i as int), c as int),
        {
            proof {
                let t = self@.take(i + 1);
                assert(t.drop_last() =~= self@.take(i as int));
                assert(t.last() == self@[i as int]);
            }
            if self.is_missing(i, c) {
                n = n + 1;
            }
        }
        proof {
            assert(self@.take(self.nrows as int) =~= self@);
        }
        n
    }

    /// Marks one cell missing.
    fn mark(&mut self, r: usize, c: usize)
        requires
            old(self).wf(),
            r < old(self).rows(),
            c < old(self).cols(),
        ensures
            final(self).wf(),
            final(self).rows() == old(self).rows(),
            final(self).cols() == old(self).cols(),
            final(self)@ == old(self)@.update(r as int, old(self)@[r as int].update(c as int, true)),
    {
        proof {
            assert(old(self)@[r as int] == self.cells@[r as int]@);
        }
        let mut row: Vec<bool> = Vec::new();
        std::mem::swap(&mut row, &mut self.cells[r]);
        row.set(c, true);
        std::mem::swap(&mut row, &mut self.cells[r]);
        proof {
            assert(self@ =~= old(self)@.update(r as int, old(self)@[r as int].update(c as int, true)));
        }
    }
}

/// Marks every cell of `ids` missing and returns how many cells were listed.
pub fn remove(arr: &mut MissingMask, ids: &Vec<(usize, usize)>) -> (n: usize)
    requires
        old(arr).wf(),
        forall|k: int|
            0 <= k < ids.len() ==> (#[trigger] ids@[k]).0 < old(arr).rows() && ids@[k].1 < old(
                arr,
            ).cols(),
    ensures
        final(arr).wf(),
        final(arr).rows() == old(arr).rows(),
        final(arr).cols() == old(arr).cols(),
        final(arr)@ == marked(old(arr)@, ids@),
        n == ids.len(),
{
    let ghost g0 = arr@;
    proof {
        lemma_marked_nothing(g0, old(arr).rows(), old(arr).cols());
        assert(ids@.take(0) =~= Seq::<(usize, usize)>::empty());
    }
    for k in 0..ids.len()
        invariant
            arr.wf(),
            arr.rows() == old(arr).rows(),
            arr.cols() == old(arr).cols(),
            g0 == old(arr)@,
            is_grid(g0, old(arr).rows(), old(arr).cols()),
            forall|j: int|
                0 <= j < ids.len() ==> (#[trigger] ids@[j]).0 < old(arr).rows() && ids@[j].1 < old(
                    arr,
                ).cols(),
            arr@ == marked(g0, ids@.take(k as int)),
    {
        let (r, c) = ids[k];
        proof {
            lemma_marked_push(g0, ids@.take(k as int), ids@[k as int], old(arr).rows(), old(arr).cols());
            assert(ids@.take(k + 1) =~= ids@.take(k as int).push(ids@[k as int]));
        }
        arr.mark(r, c);
    }
    assert(ids@.take(ids.len() as int) =~= ids@);
    ids.len()
}

} // verus!

verus! {

/// If every row's kept cell was observed and no operation touched kept
/// cells, every row still has an observed value: fewer missing cells than
/// cells.
pub proof fn lemma_rows_keep_a_value(g0: Seq<Seq<bool>>, g1: Seq<Seq<bool>>, fix: Seq<usize>, rows: nat, cols: nat)
    requires
        is_grid(g0, rows, cols),
        is_grid(g1, rows, cols),
        fix.len() == rows,
        forall|i: int| 0 <= i < rows ==> #[trigger] fix[i] < cols && !g0[i][fix[i] as int],
        forall|i: int| 0 <= i < rows && fix[i] < cols ==> #[trigger] g1[i][fix[i] as int] == g0[i][fix[i] as int],
    ensures
        forall|i: int| 0 <= i < rows ==> #[trigger] row_count(g1[i]) < cols,
{
    assert forall|i: int| 0 <= i < rows implies #[trigger] row_count(g1[i]) < cols by {
        lemma_row_count_bound(g1[i], fix[i] as int);
        assert(fix[i] < cols);
        assert(!g1[i][fix[i] as int]);
    }
}

} // verus!

verus! {

/// Number of rows of `g` whose cell in column `c` is missing.
pub open spec fn col_count(g: Seq<Seq<bool>>, c: int) -> nat
    decreases g.len(),
{
    if g.len() == 0 {
        0
    } else {
        col_count(g.drop_last(), c) + if g.last()[c] { 1nat } else { 0nat }
    }
}

/// A row that only gains missing cells gains at least the one in column `c`.
proof fn lemma_row_gain(r0: Seq<bool>, r1: Seq<bool>, c: int)
    requires
        r0.len() == r1.len(),
        0 <= c < r0.len(),
        forall|k: int| 0 <= k < r0.len() && #[trigger] r0[k] ==> r1[k],
    ensures
        row_count(r1) >= row_count(r0) + if r1[c] && !r0[c] { 1nat } else { 0nat },
    decreases r0.len(),
{
    if c < r0.len() - 1 {
        lemma_row_gain(r0.drop_last(), r1.drop_last(), c);
    } else {
        lemma_row_monotone(r0.drop_last(), r1.drop_last());
    }
}

/// A row that only gains missing cells does not lose count.
proof fn lemma_row_monotone(r0: Seq<bool>, r1: Seq<bool>)
    requires
        r0.len() == r1.len(),
        forall|k: int| 0 <= k < r0.len() && #[trigger] r0[k] ==> r1[k],
    ensures
        row_count(r1) >= row_count(r0),
    decreases r0.len(),
{
    if r0.len() > 0 {
        lemma_row_monotone(r0.drop_last(), r1.drop_last());
    }
}

/// A grid that only gains missing cells gains at least as many in all as in
/// column `c`.
pub proof fn lemma_col_gain(g0: Seq<Seq<bool>>, g1: Seq<Seq<bool>>, rows: nat, cols: nat, c: int)
    requires
        is_grid(g0, rows, cols),
        is_grid(g1, rows, cols),
        0 <= c < cols,
        forall|i: int, k: int| 0 <= i < rows && 0 <= k < cols && #[trigger] g0[i][k] ==> g1[i][k],
    ensures
        grid_count(g1) - grid_count(g0) >= col_count(g1, c) - col_count(g0, c),
    decreases rows,
{
    if rows > 0 {
        let a = g0.drop_last();
        let b = g1.drop_last();
        assert forall|r: int| 0 <= r < rows - 1 implies #[trigger] a[r].len() == cols by {
            assert(a[r] == g0[r]);
        }
        assert forall|r: int| 0 <= r < rows - 1 implies #[trigger] b[r].len() == cols by {
            assert(b[r] == g1[r]);
        }
        assert forall|i: int, k: int| 0 <= i < rows - 1 && 0 <= k < cols && #[trigger] a[i][k] implies b[i][k] by {
            assert(a[i] == g0[i]);
            assert(b[i] == g1[i]);
        }
        lemma_col_gain(a, b, (rows - 1) as nat, cols, c);
        let l = rows - 1;
        assert(g0.last() == g0[l as int]);
        assert(g1.last() == g1[l as int]);
        assert forall|k: int| 0 <= k < g0[l as int].len() && #[trigger] g0[l as int][k] implies g1[l as int][k] by {}
        lemma_row_gain(g0[l as int], g1[l as int], c);
    }
}

/// A column missing in every row counts every row.
pub proof fn lemma_col_full(g: Seq<Seq<bool>>, c: int)
    requires
        forall|i: int| 0 <= i < g.len() ==> #[trigger] g[i][c],
    ensures
        col_count(g, c) == g.len(),
    decreases g.len(),
{
    if g.len() > 0 {
        let a = g.drop_last();
        assert forall|i: int| 0 <= i < a.len() implies #[trigger] a[i][c] by {
            assert(a[i] == g[i]);
        }
        lemma_col_full(a, c);
        assert(g.last() == g[g.len() - 1]);
    }
}

/// A column never counts more rows than the grid has.
pub proof fn lemma_col_count_le(g: Seq<Seq<bool>>, c: int)
    ensures
        col_count(g, c) <= g.len(),
    decreases g.len(),
{
    if g.len() > 0 {
        lemma_col_count_le(g.drop_last(), c);
    }
}


/// Two grids that agree on column `c` count it alike.
pub proof fn lemma_col_count_same(g1: Seq<Seq<bool>>, g2: Seq<Seq<bool>>, c: int)
    requires
        g1.len() == g2.len(),
        forall|i: int| 0 <= i < g1.len() ==> #[trigger] g2[i][c] == g1[i][c],
    ensures
        col_count(g2, c) == col_count(g1, c),
    decreases g1.len(),
{
    if g1.len() > 0 {
        let a = g1.drop_last();
        let b = g2.drop_last();
        assert forall|i: int| 0 <= i < a.len() implies #[trigger] b[i][c] == a[i][c] by {
            assert(a[i] == g1[i]);
            assert(b[i] == g2[i]);
        }
        lemma_col_count_same(a, b, c);
        assert(g1.last() == g1[g1.len() - 1]);
        assert(g2.last() == g2[g1.len() - 1]);
    }
}

/// Marking one observed cell of column `c`, and nothing else in it, adds one
/// to its count.
pub proof fn lemma_col_count_add_one(g1: Seq<Seq<bool>>, g2: Seq<Seq<bool>>, c: int, r: int)
    requires
        g1.len() == g2.len(),
        0 <= r < g1.len(),
        forall|i: int| 0 <= i < g1.len() && i != r ==> #[trigger] g2[i][c] == g1[i][c],
        !g1[r][c],
        g2[r][c],
    ensures
        col_count(g2, c) == col_count(g1, c) + 1,
    decreases g1.len(),
{
    let l = g1.len() - 1;
    let a = g1.drop_last();
    let b = g2.drop_last();
    assert(g1.last() == g1[l]);
    assert(g2.last() == g2[l]);
    if r == l {
        lemma_col_count_same(a, b, c);
    } else {
        assert forall|i: int| 0 <= i < a.len() && i != r implies #[trigger] b[i][c] == a[i][c] by {
            assert(a[i] == g1[i]);
            assert(b[i] == g2[i]);
        }
        assert(a[r] == g1[r]);
        assert(b[r] == g2[r]);
        lemma_col_count_add_one(a, b, c, r);
    }
}

/// A column that does not count every row has an observed row.
pub proof fn lemma_col_not_full(g: Seq<Seq<bool>>, c: int) -> (i: int)
    requires
        col_count(g, c) < g.len(),
    ensures
        0 <= i < g.len(),
        !g[i][c],
    decreases g.len(),
{
    let l = g.len() - 1;
    assert(g.last() == g[l]);
    if !g[l][c] {
        l
    } else {
        let a = g.drop_last();
        let i = lemma_col_not_full(a, c);
        assert(a[i] == g[i]);
        i
    }
}

} // verus!
