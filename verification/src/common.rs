use rand::rngs::StdRng;
use vstd::prelude::*;

use crate::mode::Mode;
use crate::random::{fresh_seed, random_below, seeded_generator, seeded_rng};

verus! {

/// The generator behind every random choice: seeded from `seed` when one is
/// given (so that results can be reproduced), from fresh entropy otherwise.
pub fn build_rng(seed: Option<u64>) -> (r: StdRng)
    ensures
        seed matches Some(s) ==> r == seeded_generator(s),
        seed is None ==> exists|s: u64| r == #[trigger] seeded_generator(s),
{
    let seed = match seed {
        Some(s) => s,
        None => fresh_seed(),
    };
    seeded_rng(seed)
}

/// For each of `shape[0]` rows, a column (below `shape[1]`) whose cell the
/// generators never remove, so that every row keeps an observed value. In the
/// block mode every row keeps the same column.
pub fn fix<F>(shape: &[usize], rng: &mut StdRng, mode: &Mode<F>) -> (r: Vec<usize>)
    requires
        shape@.len() >= 2,
        (*mode is BLOCK || shape@[0] > 0) ==> shape@[1] > 0,
    ensures
        r@.len() == shape@[0],
        forall|i: int| 0 <= i < r@.len() ==> #[trigger] r@[i] < shape@[1],
        *mode is BLOCK ==> forall|i: int, j: int|
            0 <= i < r@.len() && 0 <= j < r@.len() ==> #[trigger] r@[i] == #[trigger] r@[j],
{
    let rows = shape[0];
    let cols = shape[1];
    let mut r: Vec<usize> = Vec::new();
    match mode {
        Mode::BLOCK(_) => {
            let col = random_below(rng, 0, cols);
            for i in 0..rows
                invariant
                    r@.len() == i,
                    forall|k: int| 0 <= k < i ==> #[trigger] r@[k] == col,
            {
                r.push(col);
            }
        },
        _ => {
            for i in 0..rows
                invariant
                    rows == shape@[0],
                    cols == shape@[1],
                    rows > 0 ==> cols > 0,
                    r@.len() == i,
                    forall|k: int| 0 <= k < i ==> #[trigger] r@[k] < cols,
            {
                let c = random_below(rng, 0, cols);
                r.push(c);
            }
        },
    }
    r
}

} // verus!
