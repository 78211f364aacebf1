//! Choosing a row by rank: the generators order the candidate rows of a
//! column by an integer key (a rank that preserves the order of the table's
//! values) and take the first row with the least key.

use vstd::prelude::*;

verus! {

/// Row `i` is eligible, no eligible row has a smaller key, and every eligible
/// row before it has a larger key: `i` is the first row with the least key.
pub open spec fn is_first_min(keys: Seq<u64>, eligible: Seq<bool>, i: int) -> bool {
    &&& 0 <= i < keys.len()
    &&& i < eligible.len()
    &&& eligible[i]
    &&& forall|j: int|
        0 <= j < keys.len() && j < eligible.len() && #[trigger] eligible[j] ==> keys[i] <= keys[j]
    &&& forall|j: int| 0 <= j < i && #[trigger] eligible[j] ==> keys[i] < keys[j]
}

/// Row `r1` comes before row `r2` in the order that `keys` gives the rows: a
/// smaller key, or the same key and an earlier row.
pub open spec fn ranked_before(keys: Seq<u64>, r1: int, r2: int) -> bool {
    keys[r1] < keys[r2] || (keys[r1] == keys[r2] && r1 < r2)
}

/// The first row with the least key comes before every other eligible row.
pub proof fn lemma_first_min_ranked_before(keys: Seq<u64>, eligible: Seq<bool>, i: int, j: int)
    requires
        is_first_min(keys, eligible, i),
        0 <= j < keys.len(),
        j < eligible.len(),
        eligible[j],
        j != i,
    ensures
        ranked_before(keys, i, j),
{
    if j < i {
        assert(keys[i] < keys[j]);
    } else {
        assert(keys[i] <= keys[j]);
    }
}

/// Among the first `n` rows, some eligible row is the first with the least
/// key among them, as soon as one of them is eligible.
proof fn lemma_prefix_min(keys: Seq<u64>, eligible: Seq<bool>, n: int) -> (i: int)
    requires
        0 <= n <= keys.len(),
        keys.len() == eligible.len(),
        exists|j: int| 0 <= j < n && eligible[j],
    ensures
        0 <= i < n,
        eligible[i],
        forall|j: int| 0 <= j < n && #[trigger] eligible[j] ==> keys[i] <= keys[j],
        forall|j: int| 0 <= j < i && #[trigger] eligible[j] ==> keys[i] < keys[j],
    decreases n,
{
    if exists|j: int| 0 <= j < n - 1 && eligible[j] {
        let i0 = lemma_prefix_min(keys, eligible, n - 1);
        if eligible[n - 1] && keys[n - 1] < keys[i0] {
            n - 1
        } else {
            i0
        }
    } else {
        n - 1
    }
}

/// When some row is eligible, a first row with the least key exists.
pub proof fn lemma_first_min_exists(keys: Seq<u64>, eligible: Seq<bool>, j: int)
    requires
        keys.len() == eligible.len(),
        0 <= j < eligible.len(),
        eligible[j],
    ensures
        first_min(keys, eligible) is Some,
{
    let i = lemma_prefix_min(keys, eligible, keys.len() as int);
    assert(is_first_min(keys, eligible, i));
}

/// The first eligible row with the least key, if any row is eligible.
pub open spec fn first_min(keys: Seq<u64>, eligible: Seq<bool>) -> Option<int> {
    if exists|i: int| is_first_min(keys, eligible, i) {
        Some(choose|i: int| is_first_min(keys, eligible, i))
    } else {
        None
    }
}

/// At most one row is the first with the least key.
pub proof fn lemma_first_min_unique(keys: Seq<u64>, eligible: Seq<bool>, i: int, j: int)
    requires
        is_first_min(keys, eligible, i),
        is_first_min(keys, eligible, j),
    ensures
        i == j,
{
    if i < j {
        assert(eligible[i]);
    } else if j < i {
        assert(eligible[j]);
    }
}

/// The first row, among those marked eligible, with the least key; `None`
/// when no row is eligible.
pub fn pick_row(keys: &Vec<u64>, eligible: &Vec<bool>) -> (r: Option<usize>)
    requires
        keys@.len() == eligible@.len(),
    ensures
        match r {
            Some(i) => is_first_min(keys@, eligible@, i as int),
            None => forall|j: int| 0 <= j < eligible@.len() ==> !#[trigger] eligible@[j],
        },
        r == match first_min(keys@, eligible@) {
            Some(i) => Some(i as usize),
            None => None::<usize>,
        },
{
    let mut best: Option<usize> = None;
    for i in 0..keys.len()
        invariant
            keys@.len() == eligible@.len(),
            match best {
                Some(b) => {
                    &&& b < i
                    &&& eligible@[b as int]
                    &&& forall|j: int| 0 <= j < i && #[trigger] eligible@[j] ==> keys@[b as int] <= keys@[j]
                    &&& forall|j: int| 0 <= j < b && #[trigger] eligible@[j] ==> keys@[b as int] < keys@[j]
                },
                None => forall|j: int| 0 <= j < i ==> !#[trigger] eligible@[j],
            },
    {
        if eligible[i] {
            match best {
                None => {
                    best = Some(i);
                },
                Some(b) => {
                    if keys[i] < keys[b] {
                        best = Some(i);
                    }
                },
            }
        }
    }
    proof {
        match best {
            Some(b) => {
                assert(is_first_min(keys@, eligible@, b as int));
                let c = choose|c: int| is_first_min(keys@, eligible@, c);
                lemma_first_min_unique(keys@, eligible@, b as int, c);
            },
            None => {
                assert(!exists|c: int| is_first_min(keys@, eligible@, c));
            },
        }
    }
    best
}

} // verus!
