//! Missing at random: the cells removed from a column depend on the values
//! of another, observed column that is paired with it.

use rand::rngs::StdRng;
use vstd::prelude::*;

use crate::errors::Errors;
use crate::mask::{
    col_count, grid_count, lemma_col_count_add_one, lemma_col_count_le, lemma_col_count_same, lemma_col_full, lemma_col_gain,
    lemma_col_not_full, lemma_marked_count, marked, remove, MissingMask,
};
use crate::mnar::key_rows;
use crate::random::{sample_items, shuffle};
use crate::rank::{first_min, is_first_min, lemma_first_min_exists, lemma_first_min_ranked_before, pick_row, ranked_before};

verus! {

/// `0, 1, ..., n - 1`.
pub open spec fn indices(n: nat) -> Seq<usize> {
    Seq::new(n, |i: int| i as usize)
}

/// `p` orders the columns `0..n`: each column once.
pub open spec fn is_permutation(p: Seq<usize>, n: nat) -> bool {
    &&& p.len() == n
    &&& p.no_duplicates()
    &&& forall|i: int| 0 <= i < p.len() ==> #[trigger] p[i] < n
}

/// A sequence with the multiset of `0..n` orders the columns `0..n`.
pub proof fn lemma_shuffled_indices(p: Seq<usize>, n: nat)
    requires
        n <= usize::MAX + 1,
        p.to_multiset() == indices(n).to_multiset(),
    ensures
        is_permutation(p, n),
{
    broadcast use vstd::seq_lib::group_to_multiset_ensures;

    let s = indices(n);
    assert(s.no_duplicates());
    s.lemma_multiset_has_no_duplicates();
    p.lemma_multiset_has_no_duplicates_conv();
    assert(p.to_multiset().len() == s.to_multiset().len());
    assert forall|i: int| 0 <= i < p.len() implies #[trigger] p[i] < n by {
        assert(p.contains(p[i]));
        assert(s.to_multiset().count(p[i]) > 0);
        assert(s.contains(p[i]));
    }
}

/// The rows of column `c` from which a value may be removed: those where `c`
/// is still observed.
pub open spec fn mar_eligible(g: Seq<Seq<bool>>, c: usize) -> Seq<bool> {
    Seq::new(g.len(), |i: int| !g[i][c as int])
}

/// The cells chosen for the first `k` pairs `(target, observed)`: in the
/// target column, the first row where it is observed with the least key.
pub open spec fn mar_picks(g: Seq<Seq<bool>>, keys: Seq<Seq<u64>>, pairs: Seq<(usize, usize)>, k: nat) -> Seq<(usize, usize)>
    decreases k,
{
    if k == 0 {
        Seq::empty()
    } else {
        let prev = mar_picks(g, keys, pairs, (k - 1) as nat);
        let c = pairs[k - 1].0;
        match first_min(keys[k - 1], mar_eligible(g, c)) {
            Some(i) => prev.push((i as usize, c)),
            None => prev,
        }
    }
}

/// The target columns of the pairs are distinct.
pub open spec fn distinct_targets(pairs: Seq<(usize, usize)>) -> bool {
    forall|a: int, b: int| 0 <= a < pairs.len() && 0 <= b < pairs.len() && a != b ==> #[trigger] pairs[a].0 != #[trigger] pairs[b].0
}

/// Every chosen cell lies in the grid, was observed, and lies in the target
/// column of one of the first `k` pairs; with distinct targets the cells are
/// distinct.
pub proof fn lemma_mar_picks_valid(g: Seq<Seq<bool>>, keys: Seq<Seq<u64>>, pairs: Seq<(usize, usize)>, k: nat)
    requires
        k <= pairs.len(),
        k <= keys.len(),
        g.len() <= usize::MAX,
        forall|j: int| 0 <= j < k ==> (#[trigger] keys[j]).len() == g.len(),
    ensures
        mar_picks(g, keys, pairs, k).len() <= k,
        forall|p: int|
            #![trigger mar_picks(g, keys, pairs, k)[p]]
            0 <= p < mar_picks(g, keys, pairs, k).len() ==> {
                let (i, c) = mar_picks(g, keys, pairs, k)[p];
                &&& i < g.len()
                &&& !g[i as int][c as int]
                &&& exists|j: int| 0 <= j < k && pairs[j].0 == c
            },
        distinct_targets(pairs) ==> mar_picks(g, keys, pairs, k).no_duplicates(),
    decreases k,
{
    if k > 0 {
        lemma_mar_picks_valid(g, keys, pairs, (k - 1) as nat);
        let prev = mar_picks(g, keys, pairs, (k - 1) as nat);
        let cur = mar_picks(g, keys, pairs, k);
        let c = pairs[k - 1].0;
        match first_min(keys[k - 1], mar_eligible(g, c)) {
            Some(i) => {
                assert(is_first_min(keys[k - 1], mar_eligible(g, c), i));
                assert forall|p: int| #![trigger cur[p]] 0 <= p < cur.len() implies {
                    let (i, c) = cur[p];
                    &&& i < g.len()
                    &&& !g[i as int][c as int]
                    &&& exists|j: int| 0 <= j < k && pairs[j].0 == c
                } by {
                    if p < prev.len() {
                        assert(cur[p] == prev[p]);
                        let j = choose|j: int| 0 <= j < k - 1 && pairs[j].0 == prev[p].1;
                        assert(0 <= j < k && pairs[j].0 == cur[p].1);
                    } else {
                        assert(pairs[k - 1].0 == cur[p].1);
                    }
                }
                if distinct_targets(pairs) {
                    assert forall|p: int| 0 <= p < prev.len() implies #[trigger] prev[p].1 != c by {
                        let j = choose|j: int| 0 <= j < k - 1 && pairs[j].0 == prev[p].1;
                        assert(pairs[j].0 != pairs[k - 1].0);
                    }
                }
            },
            None => {},
        }
    }
}

/// The cell chosen for each of the first `min(pairs.len(), keys.len())` pairs.
fn pick_cells(arr: &MissingMask, keys: &Vec<Vec<u64>>, pairs: &Vec<(usize, usize)>) -> (ids: Vec<(usize, usize)>)
    requires
        arr.wf(),
        forall|j: int| 0 <= j < pairs@.len() ==> (#[trigger] pairs@[j]).0 < arr.cols(),
        forall|j: int| 0 <= j < keys@.len() ==> (#[trigger] keys@[j])@.len() == arr.rows(),
    ensures
        ids@ == mar_picks(arr@, key_rows(keys@), pairs@, if pairs@.len() <= keys@.len() { pairs@.len() } else { keys@.len() }),
{
    let n = if pairs.len() <= keys.len() { pairs.len() } else { keys.len() };
    let mut ids: Vec<(usize, usize)> = Vec::new();
    for j in 0..n
        invariant
            arr.wf(),
            n <= pairs@.len(),
            n <= keys@.len(),
            forall|j: int| 0 <= j < pairs@.len() ==> (#[trigger] pairs@[j]).0 < arr.cols(),
            forall|j: int| 0 <= j < keys@.len() ==> (#[trigger] keys@[j])@.len() == arr.rows(),
            ids@ == mar_picks(arr@, key_rows(keys@), pairs@, j as nat),
    {
        let c = pairs[j].0;
        let mut e: Vec<bool> = Vec::new();
        let rows = arr.nrows();
        for i in 0..rows
            invariant
                rows == arr.rows(),
                arr.wf(),
                c < arr.cols(),
                e@ == mar_eligible(arr@, c).take(i as int),
        {
            e.push(!arr.is_missing(i, c));
            assert(e@ =~= mar_eligible(arr@, c).take(i + 1));
        }
        assert(e@ =~= mar_eligible(arr@, c));
        assert(key_rows(keys@)[j as int] == keys@[j as int]@);
        match pick_row(&keys[j], &e) {
            Some(i) => {
                ids.push((i, c));
            },
            None => {},
        }
    }
    ids
}

/// Removes, for each of the first `min(pairs.len(), keys.len())` pairs
/// `(target, observed)`, the first row with the least key (`keys[j]` ranks
/// the rows by the observed column of pair `j`) among the rows where the
/// target column is still observed, and returns how many cells were removed.
pub fn drop_cols(arr: &mut MissingMask, keys: &Vec<Vec<u64>>, pairs: &Vec<(usize, usize)>) -> (n: usize)
    requires
        old(arr).wf(),
        forall|j: int| 0 <= j < pairs@.len() ==> (#[trigger] pairs@[j]).0 < old(arr).cols(),
        forall|j: int| 0 <= j < keys@.len() ==> (#[trigger] keys@[j])@.len() == old(arr).rows(),
    ensures
        final(arr).wf(),
        final(arr).rows() == old(arr).rows(),
        final(arr).cols() == old(arr).cols(),
        ({
            let ids = mar_picks(
                old(arr)@,
                key_rows(keys@),
                pairs@,
                if pairs@.len() <= keys@.len() { pairs@.len() } else { keys@.len() },
            );
            &&& final(arr)@ == marked(old(arr)@, ids)
            &&& n == ids.len()
        }),
{
    let ids = pick_cells(arr, keys, pairs);
    let ghost k = if pairs@.len() <= keys@.len() { pairs@.len() } else { keys@.len() };
    proof {
        assert forall|j: int| 0 <= j < k implies (#[trigger] key_rows(keys@)[j]).len() == arr@.len() by {
            assert(key_rows(keys@)[j] == keys@[j]@);
        }
        lemma_mar_picks_valid(arr@, key_rows(keys@), pairs@, k);
        assert forall|p: int| 0 <= p < ids@.len() implies (#[trigger] ids@[p]).0 < arr.rows() && ids@[p].1 < arr.cols() by {
            let j = choose|j: int| 0 <= j < k && pairs@[j].0 == ids@[p].1;
        }
    }
    remove(arr, &ids)
}

} // verus!

verus! {

/// The keys of the columns `obs` in `row`.
pub open spec fn partner_keys(row: Seq<u64>, obs: Seq<usize>) -> Seq<u64> {
    Seq::new(obs.len(), |j: int| row[obs[j] as int])
}

/// Position `j` holds the first largest value, and that value is positive.
pub open spec fn is_first_max(vals: Seq<u64>, j: int) -> bool {
    &&& 0 <= j < vals.len()
    &&& vals[j] > 0
    &&& forall|k: int| 0 <= k < vals.len() ==> #[trigger] vals[k] <= vals[j]
    &&& forall|k: int| 0 <= k < j ==> #[trigger] vals[k] < vals[j]
}

/// The observed column paired with a target whose correlation keys are
/// `row`: the first column of `obs` with the largest positive key, or the
/// first column of `obs` when no key is positive (column `0` when there is no
/// observed column at all).
pub open spec fn best_partner(row: Seq<u64>, obs: Seq<usize>) -> usize {
    let vals = partner_keys(row, obs);
    if exists|j: int| is_first_max(vals, j) {
        obs[choose|j: int| is_first_max(vals, j)]
    } else if obs.len() > 0 {
        obs[0]
    } else {
        0
    }
}

/// A target with at least one observed column is paired with one of them.
pub proof fn lemma_best_partner_observed(row: Seq<u64>, obs: Seq<usize>)
    requires
        obs.len() > 0,
    ensures
        obs.contains(best_partner(row, obs)),
{
    let vals = partner_keys(row, obs);
    if exists|j: int| is_first_max(vals, j) {
        let j = choose|j: int| is_first_max(vals, j);
        assert(obs[j] == best_partner(row, obs));
    } else {
        assert(obs[0] == best_partner(row, obs));
    }
}

proof fn lemma_first_max_unique(vals: Seq<u64>, i: int, j: int)
    requires
        is_first_max(vals, i),
        is_first_max(vals, j),
    ensures
        i == j,
{
    if i < j {
        assert(vals[i] < vals[j]);
        assert(vals[j] <= vals[i]);
    } else if j < i {
        assert(vals[j] < vals[i]);
        assert(vals[i] <= vals[j]);
    }
}

/// The column of `obs` that `row` ranks highest, as [`best_partner`] states.
fn partner(row: &Vec<u64>, obs: &Vec<usize>) -> (p: usize)
    requires
        forall|j: int| 0 <= j < obs@.len() ==> #[trigger] obs@[j] < row@.len(),
    ensures
        p == best_partner(row@, obs@),
{
    let ghost vals = partner_keys(row@, obs@);
    let mut best: Option<usize> = None;
    for j in 0..obs.len()
        invariant
            forall|j: int| 0 <= j < obs@.len() ==> #[trigger] obs@[j] < row@.len(),
            vals == partner_keys(row@, obs@),
            vals.len() == obs@.len(),
            match best {
                None => forall|k: int| 0 <= k < j ==> #[trigger] vals[k] == 0,
                Some(b) => {
                    &&& b < j
                    &&& vals[b as int] > 0
                    &&& forall|k: int| 0 <= k < j ==> #[trigger] vals[k] <= vals[b as int]
                    &&& forall|k: int| 0 <= k < b ==> #[trigger] vals[k] < vals[b as int]
                },
            },
    {
        let key = row[obs[j]];
        assert(vals[j as int] == key);
        let best_key: u64 = match best {
            None => 0,
            Some(b) => row[obs[b]],
        };
        if key > best_key {
            best = Some(j);
        }
    }
    match best {
        None => {
            proof {
                assert(!exists|c: int| is_first_max(vals, c));
            }
            if obs.len() > 0 {
                obs[0]
            } else {
                0
            }
        },
        Some(b) => {
            proof {
                assert(is_first_max(vals, b as int));
                let c = choose|c: int| is_first_max(vals, c);
                lemma_first_max_unique(vals, b as int, c);
            }
            obs[b]
        },
    }
}

/// Chooses the target columns and pairs each with an observed column: the
/// columns `0..ncols` are shuffled, the first `n_miss` become the targets (in
/// the shuffled order) and the rest the observed columns, and each target is
/// paired with [`best_partner`] under its row of `corr_keys`
/// (`corr_keys[a][b]` ranks the absolute correlation of columns `a` and `b`;
/// an undefined correlation ranks as zero).
pub fn pairs(rng: &mut StdRng, ncols: usize, n_miss: usize, corr_keys: &Vec<Vec<u64>>) -> (r: (Vec<usize>, Vec<(usize, usize)>))
    requires
        n_miss <= ncols,
        corr_keys@.len() == ncols,
        forall|a: int| 0 <= a < ncols ==> (#[trigger] corr_keys@[a])@.len() == ncols,
    ensures
        exists|perm: Seq<usize>|
            #[trigger] is_permutation(perm, ncols as nat) && r.0@ == perm.take(n_miss as int) && r.1@.len() == n_miss
            && forall|id: int| 0 <= id < n_miss ==> #[trigger] r.1@[id] == (perm[id], best_partner(
                corr_keys@[perm[id] as int]@,
                perm.skip(n_miss as int),
            )),
        distinct_targets(r.1@),
        forall|j: int| 0 <= j < r.1@.len() ==> (#[trigger] r.1@[j]).0 < ncols && r.1@[j].1 < ncols,
        n_miss < ncols ==> forall|j: int| 0 <= j < r.1@.len() ==> !r.0@.contains(#[trigger] r.1@[j].1),
{
    let mut cols: Vec<usize> = Vec::new();
    for i in 0..ncols
        invariant
            cols@ == indices(i as nat),
    {
        cols.push(i);
        assert(cols@ =~= indices((i + 1) as nat));
    }
    shuffle(rng, &mut cols);
    let ghost perm = cols@;
    proof {
        lemma_shuffled_indices(perm, ncols as nat);
    }
    let mut miss_cols: Vec<usize> = Vec::new();
    let mut obs_cols: Vec<usize> = Vec::new();
    for i in 0..ncols
        invariant
            cols@ == perm,
            is_permutation(perm, ncols as nat),
            n_miss <= ncols,
            i <= n_miss ==> miss_cols@ == perm.take(i as int) && obs_cols@.len() == 0,
            i > n_miss ==> miss_cols@ == perm.take(n_miss as int) && obs_cols@ == perm.subrange(n_miss as int, i as int),
    {
        if i < n_miss {
            miss_cols.push(cols[i]);
            assert(miss_cols@ =~= perm.take(i + 1));
        } else {
            obs_cols.push(cols[i]);
            assert(obs_cols@ =~= perm.subrange(n_miss as int, i + 1));
        }
    }
    assert(obs_cols@ =~= perm.skip(n_miss as int));
    let mut pairs: Vec<(usize, usize)> = Vec::new();
    for id in 0..n_miss
        invariant
            is_permutation(perm, ncols as nat),
            n_miss <= ncols,
            miss_cols@ == perm.take(n_miss as int),
            obs_cols@ == perm.skip(n_miss as int),
            corr_keys@.len() == ncols,
            forall|a: int| 0 <= a < ncols ==> (#[trigger] corr_keys@[a])@.len() == ncols,
            pairs@.len() == id,
            forall|k: int| 0 <= k < id ==> #[trigger] pairs@[k] == (perm[k], best_partner(
                corr_keys@[perm[k] as int]@,
                perm.skip(n_miss as int),
            )),
            forall|k: int| 0 <= k < id ==> (#[trigger] pairs@[k]).1 < ncols,
    {
        let mc = miss_cols[id];
        assert(mc == perm[id as int]);
        assert forall|j: int| 0 <= j < obs_cols@.len() implies #[trigger] obs_cols@[j] < corr_keys@[mc as int]@.len() by {
            assert(obs_cols@[j] == perm[n_miss + j]);
        }
        let b = partner(&corr_keys[mc], &obs_cols);
        proof {
            let vals = partner_keys(corr_keys@[mc as int]@, obs_cols@);
            if exists|j: int| is_first_max(vals, j) {
                let j = choose|j: int| is_first_max(vals, j);
                assert(obs_cols@[j] == perm[n_miss + j]);
            }
        }
        pairs.push((mc, b));
    }
    proof {
        if n_miss < ncols {
            assert forall|j: int| 0 <= j < pairs@.len() implies !miss_cols@.contains(#[trigger] pairs@[j].1) by {
                let obs = perm.skip(n_miss as int);
                lemma_best_partner_observed(corr_keys@[perm[j] as int]@, obs);
                let q = choose|q: int| 0 <= q < obs.len() && obs[q] == pairs@[j].1;
                assert(obs[q] == perm[n_miss + q]);
                if miss_cols@.contains(pairs@[j].1) {
                    let t = choose|t: int| 0 <= t < miss_cols@.len() && miss_cols@[t] == pairs@[j].1;
                    assert(miss_cols@[t] == perm[t]);
                    assert(perm[t] == perm[n_miss + q]);
                }
            }
        }
        assert forall|a: int, b: int| 0 <= a < pairs@.len() && 0 <= b < pairs@.len() && a != b implies #[trigger] pairs@[a].0 != #[trigger] pairs@[b].0 by {
            assert(pairs@[a].0 == perm[a]);
            assert(pairs@[b].0 == perm[b]);
        }
    }
    (miss_cols, pairs)
}

} // verus!

verus! {

/// Column `c` is the target of one of the pairs.
pub open spec fn is_target(pairs: Seq<(usize, usize)>, c: int) -> bool {
    exists|j: int| 0 <= j < pairs.len() && #[trigger] pairs[j].0 == c
}

/// The rank keys of the observed columns of the first `n` pairs.
fn observed_keys(keys_by_col: &Vec<Vec<u64>>, pairs: &Vec<(usize, usize)>, n: usize) -> (k: Vec<Vec<u64>>)
    requires
        n <= pairs@.len(),
        forall|j: int| 0 <= j < pairs@.len() ==> (#[trigger] pairs@[j]).1 < keys_by_col@.len(),
    ensures
        k@.len() == n,
        forall|j: int| 0 <= j < n ==> (#[trigger] k@[j])@ == keys_by_col@[pairs@[j].1 as int]@,
{
    let mut k: Vec<Vec<u64>> = Vec::new();
    for j in 0..n
        invariant
            n <= pairs@.len(),
            forall|j: int| 0 <= j < pairs@.len() ==> (#[trigger] pairs@[j]).1 < keys_by_col@.len(),
            k@.len() == j,
            forall|i: int| 0 <= i < j ==> (#[trigger] k@[i])@ == keys_by_col@[pairs@[i].1 as int]@,
    {
        let v = keys_by_col[pairs[j].1].clone();
        assert(v@ =~= keys_by_col@[pairs@[j as int].1 as int]@);
        k.push(v);
    }
    k
}

/// The number of pairs a round reaches: one per value still owed, at most
/// all of them.
pub fn round_size(n_missing: usize, missing_count: usize, npairs: usize) -> (k: usize)
    requires
        missing_count <= n_missing,
    ensures
        k == if n_missing - missing_count < npairs { (n_missing - missing_count) as usize } else { npairs },
{
    let owed = n_missing - missing_count;
    if owed < npairs { owed } else { npairs }
}

/// One round of the MAR removal: [`drop_cols`] with the keys of the pairs the
/// round reaches. A round removes nothing only when the targets it reaches,
/// the first among them, have no observed value left, and every later round
/// would remove nothing as well: it ends the removal with
/// [`Errors::MaxWorkExeeded`].
pub fn mar_round(arr: &mut MissingMask, keys: &Vec<Vec<u64>>, pairs: &Vec<(usize, usize)>) -> (r: Result<usize, Errors>)
    requires
        old(arr).wf(),
        forall|j: int| 0 <= j < pairs@.len() ==> (#[trigger] pairs@[j]).0 < old(arr).cols(),
        forall|j: int| 0 <= j < keys@.len() ==> (#[trigger] keys@[j])@.len() == old(arr).rows(),
    ensures
        final(arr).wf(),
        final(arr).rows() == old(arr).rows(),
        final(arr).cols() == old(arr).cols(),
        ({
            let ids = mar_picks(
                old(arr)@,
                key_rows(keys@),
                pairs@,
                if pairs@.len() <= keys@.len() { pairs@.len() } else { keys@.len() },
            );
            &&& final(arr)@ == marked(old(arr)@, ids)
            &&& (ids.len() == 0 <==> r is Err)
            &&& (r is Err ==> r == Err::<usize, Errors>(Errors::MaxWorkExeeded))
            &&& (r matches Ok(n) ==> n == ids.len())
        }),
{
    let n = drop_cols(arr, keys, pairs);
    if n == 0 {
        Err(Errors::MaxWorkExeeded)
    } else {
        Ok(n)
    }
}

/// Every value removed from a target column comes before every value still
/// observed in it, in the order that the keys of its observed partner give
/// the rows: the removed rows are the ones the partner ranks first.
pub open spec fn mar_ranked(g0: Seq<Seq<bool>>, g: Seq<Seq<bool>>, pairs: Seq<(usize, usize)>, keys_by_col: Seq<Seq<u64>>) -> bool {
    forall|j: int, r1: int, r2: int|
        0 <= j < pairs.len() && 0 <= r1 < g.len() && 0 <= r2 < g.len() && !g0[r1][pairs[j].0 as int]
            && #[trigger] g[r1][pairs[j].0 as int] && !#[trigger] g[r2][pairs[j].0 as int]
            ==> ranked_before(keys_by_col[pairs[j].1 as int], r1, r2)
}

/// A cell chosen for pair `j` is the first row with the least key among the
/// rows where that pair's target is observed.
proof fn lemma_mar_picks_first_min(
    g: Seq<Seq<bool>>,
    keys: Seq<Seq<u64>>,
    pairs: Seq<(usize, usize)>,
    k: nat,
    j: int,
    r: usize,
)
    requires
        k <= pairs.len(),
        k <= keys.len(),
        g.len() <= usize::MAX,
        forall|i: int| 0 <= i < k ==> (#[trigger] keys[i]).len() == g.len(),
        distinct_targets(pairs),
        0 <= j < pairs.len(),
        mar_picks(g, keys, pairs, k).contains((r, pairs[j].0)),
    ensures
        j < k,
        is_first_min(keys[j], mar_eligible(g, pairs[j].0), r as int),
    decreases k,
{
    lemma_mar_picks_valid(g, keys, pairs, k);
    let cur = mar_picks(g, keys, pairs, k);
    let p = choose|p: int| 0 <= p < cur.len() && cur[p] == (r, pairs[j].0);
    assert(cur[p] == (r, pairs[j].0));
    let jj = choose|jj: int| 0 <= jj < k && pairs[jj].0 == cur[p].1;
    if jj != j {
        assert(pairs[jj].0 != pairs[j].0);
    }
    let prev = mar_picks(g, keys, pairs, (k - 1) as nat);
    let c = pairs[k - 1].0;
    match first_min(keys[k - 1], mar_eligible(g, c)) {
        Some(i) => {
            if p == prev.len() {
                assert(cur[p] == (i as usize, c));
                assert(is_first_min(keys[k - 1], mar_eligible(g, c), i));
                if j != k - 1 {
                    assert(pairs[k - 1].0 != pairs[j].0);
                }
            } else {
                assert(prev[p] == cur[p]);
                assert(prev.contains((r, pairs[j].0)));
                lemma_mar_picks_first_min(g, keys, pairs, (k - 1) as nat, j, r);
            }
        },
        None => {
            assert(prev.contains((r, pairs[j].0)));
            lemma_mar_picks_first_min(g, keys, pairs, (k - 1) as nat, j, r);
        },
    }
}

/// With at least one pair chosen and an observed row in the first target,
/// at least one cell is chosen.
proof fn lemma_mar_picks_some(g: Seq<Seq<bool>>, keys: Seq<Seq<u64>>, pairs: Seq<(usize, usize)>, k: nat, r: int)
    requires
        1 <= k <= pairs.len(),
        k <= keys.len(),
        forall|i: int| 0 <= i < k ==> (#[trigger] keys[i]).len() == g.len(),
        0 <= r < g.len(),
        !g[r][pairs[0].0 as int],
    ensures
        mar_picks(g, keys, pairs, k).len() >= 1,
    decreases k,
{
    if k == 1 {
        let e = mar_eligible(g, pairs[0].0);
        assert(e[r]);
        lemma_first_min_exists(keys[0], e, r);
    } else {
        lemma_mar_picks_some(g, keys, pairs, (k - 1) as nat, r);
    }
}

/// The number of cells target `j` of `p` targets gets when `n` cells are
/// spread one per target per round, the first targets taking the rest.
pub open spec fn mar_share(n: int, p: int, j: int) -> int {
    n / p + if j < n % p { 1int } else { 0int }
}

/// There is at least one pair, and every target has an observed row for each
/// of the `ceil(n / pairs.len())` rounds that spreading `n` cells takes.
pub open spec fn targets_have_room(g: Seq<Seq<bool>>, pairs: Seq<(usize, usize)>, n: int) -> bool {
    &&& pairs.len() > 0
    &&& forall|j: int| 0 <= j < pairs.len() ==> (g.len() - #[trigger] col_count(g, pairs[j].0 as int)) * pairs.len() >= n
}

/// One more round of `k` cells after `m` cells spread evenly over `p`
/// targets: a full round adds one to every share, a last round of `k < p`
/// cells ends with the rest `k`.
proof fn lemma_share_step(m: int, k: int, p: int)
    requires
        p > 0,
        m >= 0,
        m % p == 0,
        0 < k <= p,
    ensures
        k == p ==> (m + k) % p == 0 && (m + k) / p == m / p + 1,
        k < p ==> (m + k) % p == k && (m + k) / p == m / p,
{
    vstd::arithmetic::div_mod::lemma_fundamental_div_mod(m, p);
    let q = m / p;
    assert(m == q * p) by (nonlinear_arith)
        requires
            m == p * q + 0,
    ;
    if k == p {
        assert(m + k == (q + 1) * p + 0) by (nonlinear_arith)
            requires
                m == q * p,
                k == p,
        ;
        vstd::arithmetic::div_mod::lemma_fundamental_div_mod_converse(m + k, p, q + 1, 0);
    } else {
        vstd::arithmetic::div_mod::lemma_fundamental_div_mod_converse(m + k, p, q, k);
    }
}

/// Column `c` of `g` has an observed row.
pub open spec fn has_observed(g: Seq<Seq<bool>>, c: int) -> bool {
    exists|i: int| 0 <= i < g.len() && !#[trigger] g[i][c]
}

/// When each of the first `k` targets has an observed row, pair `j` gets
/// cell `j`: its target's first observed row with the least key.
proof fn lemma_mar_picks_full(g: Seq<Seq<bool>>, keys: Seq<Seq<u64>>, pairs: Seq<(usize, usize)>, k: nat)
    requires
        k <= pairs.len(),
        k <= keys.len(),
        g.len() <= usize::MAX,
        forall|i: int| 0 <= i < k ==> (#[trigger] keys[i]).len() == g.len(),
        forall|j: int| 0 <= j < k ==> #[trigger] has_observed(g, pairs[j].0 as int),
    ensures
        mar_picks(g, keys, pairs, k).len() == k,
        forall|j: int| 0 <= j < k ==> {
            let p = #[trigger] mar_picks(g, keys, pairs, k)[j];
            &&& p.1 == pairs[j].0
            &&& is_first_min(keys[j], mar_eligible(g, pairs[j].0), p.0 as int)
        },
    decreases k,
{
    if k > 0 {
        lemma_mar_picks_full(g, keys, pairs, (k - 1) as nat);
        let c = pairs[k - 1].0;
        let e = mar_eligible(g, c);
        assert(has_observed(g, pairs[k - 1].0 as int));
        let i = choose|i: int| 0 <= i < g.len() && !#[trigger] g[i][pairs[k - 1].0 as int];
        assert(e[i]);
        lemma_first_min_exists(keys[k - 1], e, i);
        let m = first_min(keys[k - 1], e)->0;
        assert(is_first_min(keys[k - 1], e, m));
        let prev = mar_picks(g, keys, pairs, (k - 1) as nat);
        let cur = mar_picks(g, keys, pairs, k);
        assert(cur == prev.push((m as usize, c)));
        assert forall|j: int| 0 <= j < k implies {
            let p = #[trigger] cur[j];
            &&& p.1 == pairs[j].0
            &&& is_first_min(keys[j], mar_eligible(g, pairs[j].0), p.0 as int)
        } by {
            if j < k - 1 {
                assert(cur[j] == prev[j]);
            }
        }
    }
}

/// Removes `n_missing` values ranked by fixed keys (the minimum and maximum
/// modes of MAR): round after round, for as many pairs as values are still
/// owed (at most all of them), [`drop_cols`] removes from the target column
/// the first row with the least key of the observed column, until
/// `n_missing` cells are missing. `keys_by_col[c]` ranks the rows of column
/// `c`. Only target columns lose values, and in each target the removed rows
/// are those its partner ranks first ([`mar_ranked`]). A round that removes
/// nothing would be repeated unchanged forever, since no draw is involved:
/// there the removal stops with [`Errors::MaxWorkExeeded`]; this happens
/// only when there is no pair or the first target has no observed value
/// left. Each round gives one cell to each target it reaches, so when every
/// target has room for its share ([`targets_have_room`]) the removal
/// succeeds and target `j` gets exactly [`mar_share`] cells.
pub fn drop_ranked(
    arr: &mut MissingMask,
    pairs: &Vec<(usize, usize)>,
    keys_by_col: &Vec<Vec<u64>>,
    n_missing: usize,
) -> (r: Result<usize, Errors>)
    requires
        old(arr).wf(),
        distinct_targets(pairs@),
        forall|j: int| 0 <= j < pairs@.len() ==> (#[trigger] pairs@[j]).0 < old(arr).cols() && pairs@[j].1 < old(arr).cols(),
        keys_by_col@.len() == old(arr).cols(),
        forall|c: int| 0 <= c < keys_by_col@.len() ==> (#[trigger] keys_by_col@[c])@.len() == old(arr).rows(),
    ensures
        final(arr).wf(),
        final(arr).rows() == old(arr).rows(),
        final(arr).cols() == old(arr).cols(),
        forall|i: int, c: int|
            0 <= i < old(arr).rows() && 0 <= c < old(arr).cols() && #[trigger] old(arr)@[i][c] ==> final(arr)@[i][c],
        forall|i: int, c: int|
            0 <= i < old(arr).rows() && 0 <= c < old(arr).cols() && !is_target(pairs@, c) ==> #[trigger] final(arr)@[i][c]
                == old(arr)@[i][c],
        mar_ranked(old(arr)@, final(arr)@, pairs@, key_rows(keys_by_col@)),
        grid_count(final(arr)@) <= grid_count(old(arr)@) + n_missing,
        r is Ok ==> r == Ok::<usize, Errors>(n_missing) && grid_count(final(arr)@) == grid_count(old(arr)@) + n_missing,
        r is Err ==> r == Err::<usize, Errors>(Errors::MaxWorkExeeded) && (pairs@.len() == 0 || forall|i: int|
            0 <= i < old(arr).rows() ==> #[trigger] final(arr)@[i][pairs@[0].0 as int]),
        pairs@.len() > 0 && n_missing + col_count(old(arr)@, pairs@[0].0 as int) <= old(arr).rows() ==> r is Ok,
        targets_have_room(old(arr)@, pairs@, n_missing as int) ==> r is Ok && forall|j: int|
            0 <= j < pairs@.len() ==> #[trigger] col_count(final(arr)@, pairs@[j].0 as int) == col_count(
                old(arr)@,
                pairs@[j].0 as int,
            ) + mar_share(n_missing as int, pairs@.len() as int, j),
{
    let ghost g0 = arr@;
    let mut missing_count: usize = 0;
    while missing_count < n_missing
        invariant
            arr.wf(),
            arr.rows() == old(arr).rows(),
            arr.cols() == old(arr).cols(),
            g0 == old(arr)@,
            crate::mask::is_grid(g0, arr.rows(), arr.cols()),
            distinct_targets(pairs@),
            forall|j: int| 0 <= j < pairs@.len() ==> (#[trigger] pairs@[j]).0 < arr.cols() && pairs@[j].1 < arr.cols(),
            keys_by_col@.len() == arr.cols(),
            forall|c: int| 0 <= c < keys_by_col@.len() ==> (#[trigger] keys_by_col@[c])@.len() == arr.rows(),
            missing_count <= n_missing,
            grid_count(arr@) == grid_count(g0) + missing_count,
            forall|i: int, c: int| 0 <= i < arr.rows() && 0 <= c < arr.cols() && #[trigger] g0[i][c] ==> arr@[i][c],
            forall|i: int, c: int|
                0 <= i < arr.rows() && 0 <= c < arr.cols() && !is_target(pairs@, c) ==> #[trigger] arr@[i][c] == g0[i][c],
            mar_ranked(g0, arr@, pairs@, key_rows(keys_by_col@)),
            targets_have_room(g0, pairs@, n_missing as int) ==> {
                &&& (missing_count as int) % (pairs@.len() as int) == 0 || missing_count == n_missing
                &&& forall|j: int|
                    0 <= j < pairs@.len() ==> #[trigger] col_count(arr@, pairs@[j].0 as int) == col_count(g0, pairs@[j].0 as int)
                        + mar_share(missing_count as int, pairs@.len() as int, j)
            },
        decreases n_missing - missing_count,
    {
        let max_miss = round_size(n_missing, missing_count, pairs.len());
        let keys = observed_keys(keys_by_col, pairs, max_miss);
        let ghost g1 = arr@;
        let ghost k = max_miss as nat;
        let ghost kr = key_rows(keys@);
        proof {
            assert forall|j: int| 0 <= j < k implies (#[trigger] kr[j]).len() == g1.len() by {
                assert(kr[j] == keys@[j]@);
            }
            lemma_mar_picks_valid(g1, kr, pairs@, k);
            let ids = mar_picks(g1, kr, pairs@, k);
            assert forall|p: int| 0 <= p < ids.len() implies (#[trigger] ids[p]).0 < arr.rows() && ids[p].1 < arr.cols()
                && !g1[ids[p].0 as int][ids[p].1 as int] by {
                let j = choose|j: int| 0 <= j < k && pairs@[j].0 == ids[p].1;
            }
            lemma_marked_count(g1, ids, arr.rows(), arr.cols());
        }
        let n = match mar_round(arr, &keys, pairs) {
            Ok(n) => n,
            Err(_) => 0,
        };
        proof {
            if targets_have_room(g0, pairs@, n_missing as int) {
                let ids = mar_picks(g1, kr, pairs@, k);
                let pl = pairs@.len() as int;
                let m = missing_count as int;
                let q = m / pl;
                assert(m % pl == 0);
                vstd::arithmetic::div_mod::lemma_fundamental_div_mod(m, pl);
                assert(m == q * pl) by (nonlinear_arith)
                    requires
                        m == pl * q + m % pl,
                        m % pl == 0,
                ;
                assert forall|j: int| 0 <= j < pl implies #[trigger] col_count(g1, pairs@[j].0 as int) == col_count(g0, pairs@[j].0 as int) + q by {
                    assert(mar_share(m, pl, j) == q);
                }
                assert forall|j: int| 0 <= j < k implies #[trigger] has_observed(g1, pairs@[j].0 as int) by {
                    let t = pairs@[j].0 as int;
                    let o = g0.len() - col_count(g0, t);
                    assert(o * pl >= n_missing);
                    assert(o > q) by (nonlinear_arith)
                        requires
                            o * pl >= n_missing,
                            n_missing > m,
                            m == q * pl,
                            pl > 0,
                    ;
                    assert(col_count(g1, t) == col_count(g0, t) + q);
                    let i = lemma_col_not_full(g1, t);
                }
                lemma_mar_picks_full(g1, kr, pairs@, k);
                assert(n == k);
                assert forall|j: int| 0 <= j < pl implies #[trigger] col_count(arr@, pairs@[j].0 as int) == col_count(g1, pairs@[j].0 as int)
                    + if j < k { 1int } else { 0int } by {
                    let t = pairs@[j].0 as int;
                    assert(g1.len() == arr@.len());
                    if j < k {
                        let r = ids[j].0 as int;
                        assert(ids[j].1 == pairs@[j].0);
                        assert(is_first_min(kr[j], mar_eligible(g1, pairs@[j].0), r));
                        assert(mar_eligible(g1, pairs@[j].0)[r]);
                        assert(ids.contains((r as usize, t as usize)));
                        assert(g1[r].len() == arr.cols());
                        assert forall|i: int| 0 <= i < g1.len() && i != r implies #[trigger] arr@[i][t] == g1[i][t] by {
                            assert(g1[i].len() == arr.cols());
                            if ids.contains((i as usize, t as usize)) {
                                let p = choose|p: int| 0 <= p < ids.len() && ids[p] == (i as usize, t as usize);
                                assert(ids[p].1 == pairs@[p].0);
                            }
                        }
                        lemma_col_count_add_one(g1, arr@, t, r);
                    } else {
                        assert forall|i: int| 0 <= i < g1.len() implies #[trigger] arr@[i][t] == g1[i][t] by {
                            assert(g1[i].len() == arr.cols());
                            if ids.contains((i as usize, t as usize)) {
                                let p = choose|p: int| 0 <= p < ids.len() && ids[p] == (i as usize, t as usize);
                                assert(ids[p].1 == pairs@[p].0);
                            }
                        }
                        lemma_col_count_same(g1, arr@, t);
                    }
                }
                lemma_share_step(m, k as int, pl);
                assert forall|j: int| 0 <= j < pl implies #[trigger] col_count(arr@, pairs@[j].0 as int) == col_count(g0, pairs@[j].0 as int)
                    + mar_share(m + n, pl, j) by {
                    assert(col_count(arr@, pairs@[j].0 as int) == col_count(g1, pairs@[j].0 as int) + if j < k { 1int } else { 0int });
                }
            }
        }
        proof {
            let ids = mar_picks(g1, kr, pairs@, k);
            assert forall|i: int, c: int| 0 <= i < arr.rows() && 0 <= c < arr.cols() && #[trigger] g0[i][c] implies arr@[i][c] by {
                assert(g1[i][c]);
                assert(g1[i].len() == arr.cols());
            }
            assert forall|i: int, c: int|
                0 <= i < arr.rows() && 0 <= c < arr.cols() && !is_target(pairs@, c) implies #[trigger] arr@[i][c] == g0[i][c] by {
                assert(g1[i].len() == arr.cols());
                if ids.contains((i as usize, c as usize)) {
                    let p = choose|p: int| 0 <= p < ids.len() && #[trigger] ids[p] == (i as usize, c as usize);
                    let j = choose|j: int| 0 <= j < k && pairs@[j].0 == ids[p].1;
                    assert(pairs@[j].0 == c);
                }
            }
            let kb = key_rows(keys_by_col@);
            assert forall|j: int, r1: int, r2: int|
                0 <= j < pairs@.len() && 0 <= r1 < arr@.len() && 0 <= r2 < arr@.len() && !g0[r1][pairs@[j].0 as int]
                    && #[trigger] arr@[r1][pairs@[j].0 as int] && !#[trigger] arr@[r2][pairs@[j].0 as int]
                implies ranked_before(kb[pairs@[j].1 as int], r1, r2) by {
                let t = pairs@[j].0;
                assert(g1[r1].len() == arr.cols());
                assert(g1[r2].len() == arr.cols());
                assert(!g1[r2][t as int]);
                if !g1[r1][t as int] {
                    assert(ids.contains((r1 as usize, t)));
                    lemma_mar_picks_first_min(g1, kr, pairs@, k, j, r1 as usize);
                    assert(kr[j] == keys@[j]@);
                    assert(mar_eligible(g1, t)[r2]);
                    lemma_first_min_ranked_before(kr[j], mar_eligible(g1, t), r1, r2);
                }
            }
        }
        if n == 0 {
            proof {
                let ids = mar_picks(g1, kr, pairs@, k);
                assert forall|i: int| 0 <= i < arr.rows() && pairs@.len() > 0 implies #[trigger] arr@[i][pairs@[0].0 as int] by {
                    assert(g1[i].len() == arr.cols());
                    if !g1[i][pairs@[0].0 as int] {
                        lemma_mar_picks_some(g1, kr, pairs@, k, i);
                    }
                }
                if pairs@.len() > 0 {
                    let t0 = pairs@[0].0 as int;
                    lemma_col_full(arr@, t0);
                    lemma_col_gain(g0, arr@, arr.rows(), arr.cols(), t0);
                    lemma_col_count_le(g0, t0);
                }
            }
            return Err(Errors::MaxWorkExeeded);
        }
        missing_count = missing_count + n;
    }
    Ok(missing_count)
}

/// The columns to remove from next, drawn from `available`: all of
/// `available` when at least as many values are still owed as the table has
/// columns, otherwise the elements at as many distinct random positions of
/// `available` as values are owed (all of them if there are fewer).
pub fn _select_cols(
    rng: &mut StdRng,
    arr: &MissingMask,
    count: usize,
    n_missing: usize,
    available: &[usize],
) -> (r: Vec<usize>)
    requires
        count <= n_missing,
    ensures
        n_missing - count >= arr.cols() ==> r@ == available@,
        n_missing - count < arr.cols() ==> {
            &&& r@.len() == if n_missing - count <= available@.len() { (n_missing - count) as int } else { available@.len() as int }
            &&& exists|pos: Seq<int>|
                #![trigger pos.len()]
                pos.len() == r@.len() && pos.no_duplicates() && forall|i: int|
                    0 <= i < pos.len() ==> 0 <= #[trigger] pos[i] < available@.len() && r@[i] == available@[pos[i]]
        },
{
    let ncols = arr.ncols();
    if n_missing - count >= ncols {
        let mut r: Vec<usize> = Vec::new();
        for i in 0..available.len()
            invariant
                r@ == available@.take(i as int),
        {
            r.push(available[i]);
            assert(r@ =~= available@.take(i + 1));
        }
        assert(r@ =~= available@);
        return r;
    }
    sample_items(rng, available, n_missing - count)
}

} // verus!

verus! {

/// The minimum and maximum modes of MAR from start to end: [`pairs`] draws
/// the targets and pairs each with its most correlated observed column, then
/// [`drop_ranked`] removes `n_missing` values from the targets.
pub fn drop_with_pairs(
    arr: &mut MissingMask,
    rng: &mut StdRng,
    n_miss: usize,
    corr_keys: &Vec<Vec<u64>>,
    keys_by_col: &Vec<Vec<u64>>,
    n_missing: usize,
) -> (r: Result<usize, Errors>)
    requires
        old(arr).wf(),
        n_miss <= old(arr).cols(),
        corr_keys@.len() == old(arr).cols(),
        forall|a: int| 0 <= a < corr_keys@.len() ==> (#[trigger] corr_keys@[a])@.len() == old(arr).cols(),
        keys_by_col@.len() == old(arr).cols(),
        forall|c: int| 0 <= c < keys_by_col@.len() ==> (#[trigger] keys_by_col@[c])@.len() == old(arr).rows(),
    ensures
        final(arr).wf(),
        final(arr).rows() == old(arr).rows(),
        final(arr).cols() == old(arr).cols(),
        forall|i: int, c: int|
            0 <= i < old(arr).rows() && 0 <= c < old(arr).cols() && #[trigger] old(arr)@[i][c] ==> final(arr)@[i][c],
        exists|prs: Seq<(usize, usize)>|
            #![trigger prs.len()]
            prs.len() == n_miss && distinct_targets(prs)
            && (exists|perm: Seq<usize>|
                #[trigger] is_permutation(perm, old(arr).cols()) && forall|id: int|
                    0 <= id < n_miss ==> #[trigger] prs[id] == (perm[id], best_partner(
                        corr_keys@[perm[id] as int]@,
                        perm.skip(n_miss as int),
                    )))
            && (forall|j: int| 0 <= j < prs.len() ==> (#[trigger] prs[j]).0 < old(arr).cols() && prs[j].1 < old(arr).cols())
            && (n_miss < old(arr).cols() ==> forall|j: int, jj: int|
                0 <= j < prs.len() && 0 <= jj < prs.len() ==> #[trigger] prs[j].1 != #[trigger] prs[jj].0)
            && (forall|i: int, c: int|
                0 <= i < old(arr).rows() && 0 <= c < old(arr).cols() && !is_target(prs, c) ==> #[trigger] final(arr)@[i][c] == old(arr)@[i][c])
            && mar_ranked(old(arr)@, final(arr)@, prs, key_rows(keys_by_col@))
            && (r is Err ==> n_miss == 0 || forall|i: int| 0 <= i < old(arr).rows() ==> #[trigger] final(arr)@[i][prs[0].0 as int])
            && (targets_have_room(old(arr)@, prs, n_missing as int) ==> forall|j: int|
                0 <= j < prs.len() ==> #[trigger] col_count(final(arr)@, prs[j].0 as int) == col_count(old(arr)@, prs[j].0 as int)
                    + mar_share(n_missing as int, n_miss as int, j)),
        grid_count(final(arr)@) <= grid_count(old(arr)@) + n_missing,
        r is Ok ==> r == Ok::<usize, Errors>(n_missing) && grid_count(final(arr)@) == grid_count(old(arr)@) + n_missing,
        r is Err ==> r == Err::<usize, Errors>(Errors::MaxWorkExeeded),
        n_miss > 0 && (forall|c: int| 0 <= c < old(arr).cols() ==> n_missing + #[trigger] col_count(old(arr)@, c) <= old(arr).rows())
            ==> r is Ok,
        n_miss > 0 && (forall|c: int|
            0 <= c < old(arr).cols() ==> (old(arr).rows() - #[trigger] col_count(old(arr)@, c)) * n_miss >= n_missing) ==> r is Ok,
{
    let ncols = arr.ncols();
    let (_miss_cols, pairs) = pairs(rng, ncols, n_miss, corr_keys);
    let r = drop_ranked(arr, &pairs, keys_by_col, n_missing);
    proof {
        if n_miss < ncols {
            assert forall|j: int, jj: int| 0 <= j < pairs@.len() && 0 <= jj < pairs@.len() implies #[trigger] pairs@[j].1
                != #[trigger] pairs@[jj].0 by {
                assert(_miss_cols@[jj] == pairs@[jj].0);
                assert(_miss_cols@.contains(pairs@[jj].0));
            }
        }
        assert(pairs@.len() == n_miss);
    }
    r
}

} // verus!
