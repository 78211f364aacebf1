use vstd::prelude::*;
use vstd::string::StrSliceExecFns;

use crate::errors::Errors;

verus! {

/// How a generator chooses the cells it removes. `F` is the type of the
/// real-valued parameters (the Python bindings use `f64`).
#[derive(Debug)]
pub enum Mode<F> {
    /// Sample from a Gaussian with the given mean and variance and remove
    /// nearby values.
    GM(F, F),
    /// Prefer the largest values.
    MAX,
    /// Prefer the smallest values.
    MIN,
    /// Remove rectangular regions whose relative width and height are bounded
    /// by the pair.
    BLOCK((F, F)),
    /// Remove the given number of blob-shaped regions.
    BLOB(usize),
}

/// A mode name that none of the modes answers to.
#[derive(Debug)]
pub enum Error {
    /// The message shown to the user.
    UnknownMode(String),
}

/// The values a parameter takes when the caller leaves it out.
#[derive(Debug)]
pub struct ModeDefaults<F> {
    pub mean: F,
    pub variance: F,
    pub block_size: (F, F),
    pub n_blobs: usize,
}

/// A parameter was passed to a mode that does not use it.
#[derive(Debug, Clone, Copy, PartialEq, Eq, Structural)]
pub enum ParamWarning {
    /// `mean` or `variance` without the Gaussian mode.
    MeanVariance,
    /// `block_size` without the block mode.
    BlockSize,
    /// `n_blobs` without the blob mode.
    NBlobs,
}

/// `c` lower-cases to the single lower-case ASCII letter (or other character)
/// `t`: it is `t` itself, its upper-case ASCII form, or, for `k`, the Kelvin
/// sign, which Unicode lower-cases to `k`.
pub open spec fn folds_to(c: char, t: char) -> bool {
    ||| c == t
    ||| ('a' as u32 <= t as u32 <= 'z' as u32 && c as u32 + 32 == t as u32)
    ||| (t == 'k' && c == '\u{212A}')
}

/// `s` lower-cases to the lower-case ASCII word `word`.
pub open spec fn names(s: Seq<char>, word: Seq<char>) -> bool {
    &&& s.len() == word.len()
    &&& forall|i: int| 0 <= i < s.len() ==> #[trigger] folds_to(s[i], word[i])
}

/// The value in `o`, or `d` when there is none.
pub open spec fn or_default<T>(o: Option<T>, d: T) -> T {
    match o {
        Some(v) => v,
        None => d,
    }
}

/// The mode that the name `s` selects, with the given parameters and the
/// defaults for those left out; `None` for an unknown name.
pub open spec fn mode_of<F>(
    s: Seq<char>,
    mean: Option<F>,
    variance: Option<F>,
    block_size: Option<(F, F)>,
    n_blobs: Option<usize>,
    d: ModeDefaults<F>,
) -> Option<Mode<F>> {
    if names(s, seq!['g', 'm']) {
        Some(Mode::GM(or_default(mean, d.mean), or_default(variance, d.variance)))
    } else if names(s, seq!['m', 'a', 'x']) {
        Some(Mode::MAX)
    } else if names(s, seq!['m', 'i', 'n']) {
        Some(Mode::MIN)
    } else if names(s, seq!['b', 'l', 'o', 'c', 'k']) {
        Some(Mode::BLOCK(or_default(block_size, d.block_size)))
    } else if names(s, seq!['b', 'l', 'o', 'b']) {
        Some(Mode::BLOB(or_default(n_blobs, d.n_blobs)))
    } else {
        None
    }
}

/// The message of [`Error::UnknownMode`] for the name `s`.
pub open spec fn unknown_mode_message(s: Seq<char>) -> Seq<char> {
    "Unknown mode parameter: "@ + s + " (Alloed: [\"GM\", \"MAX\", \"MIN\", \"BLOCK\", \"BLOB\"])"@
}

/// The upper-case name of a mode.
pub open spec fn mode_name<F>(m: Mode<F>) -> Seq<char> {
    match m {
        Mode::GM(_, _) => "GM"@,
        Mode::MAX => "MAX"@,
        Mode::MIN => "MIN"@,
        Mode::BLOCK(_) => "BLOCK"@,
        Mode::BLOB(_) => "BLOB"@,
    }
}

/// The warnings owed when the given parameters are passed to `m`, in the order
/// in which they are reported.
pub open spec fn param_warnings<F>(
    m: Mode<F>,
    has_mean: bool,
    has_variance: bool,
    has_block_size: bool,
    has_n_blobs: bool,
) -> Seq<ParamWarning> {
    (if !(m is GM) && (has_mean || has_variance) {
        seq![ParamWarning::MeanVariance]
    } else {
        Seq::empty()
    }) + (if !(m is BLOCK) && has_block_size {
        seq![ParamWarning::BlockSize]
    } else {
        Seq::empty()
    }) + (if !(m is BLOB) && has_n_blobs {
        seq![ParamWarning::NBlobs]
    } else {
        Seq::empty()
    })
}

/// The message of the error for a mode that the MAR generator does not support.
pub open spec fn mar_unsupported_message(name: Seq<char>) -> Seq<char> {
    "Mode "@ + name + " not supported for MAR yet."@
}

fn folds(c: char, t: char) -> (b: bool)
    ensures
        b == folds_to(c, t),
{
    if c == t {
        true
    } else if ('a' as u32) <= (t as u32) && (t as u32) <= ('z' as u32) && (c as u32) < (t as u32) && (t as u32) - (c as u32) == 32 {
        true
    } else {
        t == 'k' && c == '\u{212A}'
    }
}

/// Whether the characters `s` lower-case to `word`.
fn matches_word(s: &Vec<char>, word: &[char]) -> (b: bool)
    ensures
        b == names(s@, word@),
{
    if s.len() != word.len() {
        return false;
    }
    for i in 0..s.len()
        invariant
            s@.len() == word@.len(),
            forall|j: int| 0 <= j < i ==> #[trigger] folds_to(s@[j], word@[j]),
    {
        if !folds(s[i], word[i]) {
            return false;
        }
    }
    true
}

/// The characters of `s`.
pub fn chars_of(s: &str) -> (v: Vec<char>)
    ensures
        v@ == s@,
{
    let n = s.unicode_len();
    let mut v: Vec<char> = Vec::new();
    for i in 0..n
        invariant
            n == s@.len(),
            v@ == s@.take(i as int),
    {
        v.push(s.get_char(i));
        assert(v@ =~= s@.take(i + 1));
    }
    assert(v@ =~= s@);
    v
}

impl<F: Copy> Mode<F> {
    /// Selects a mode by its case-insensitive name (`"gm"`, `"max"`, `"min"`,
    /// `"block"` or `"blob"`), filling in the defaults for parameters left out.
    pub fn new(
        value: &str,
        mean: Option<F>,
        variance: Option<F>,
        block_size: Option<(F, F)>,
        n_blobs: Option<usize>,
        defaults: &ModeDefaults<F>,
    ) -> (r: Result<Self, Error>)
        ensures
            match mode_of(value@, mean, variance, block_size, n_blobs, *defaults) {
                Some(m) => r == Ok::<Self, Error>(m),
                None => r matches Err(Error::UnknownMode(msg)) && msg@ == unknown_mode_message(value@),
            },
    {
        let s = chars_of(value);
        let gm = ['g', 'm'];
        let max = ['m', 'a', 'x'];
        let min = ['m', 'i', 'n'];
        let block = ['b', 'l', 'o', 'c', 'k'];
        let blob = ['b', 'l', 'o', 'b'];
        assert(gm@ =~= seq!['g', 'm']);
        assert(max@ =~= seq!['m', 'a', 'x']);
        assert(min@ =~= seq!['m', 'i', 'n']);
        assert(block@ =~= seq!['b', 'l', 'o', 'c', 'k']);
        assert(blob@ =~= seq!['b', 'l', 'o', 'b']);
        if matches_word(&s, &gm) {
            let m = match mean {
                Some(x) => x,
                None => defaults.mean,
            };
            let v = match variance {
                Some(x) => x,
                None => defaults.variance,
            };
            Ok(Mode::GM(m, v))
        } else if matches_word(&s, &max) {
            Ok(Mode::MAX)
        } else if matches_word(&s, &min) {
            Ok(Mode::MIN)
        } else if matches_word(&s, &block) {
            let b = match block_size {
                Some(x) => x,
                None => defaults.block_size,
            };
            Ok(Mode::BLOCK(b))
        } else if matches_word(&s, &blob) {
            let n = match n_blobs {
                Some(x) => x,
                None => defaults.n_blobs,
            };
            Ok(Mode::BLOB(n))
        } else {
            let mut msg = String::from_str("Unknown mode parameter: ");
            msg.append(value);
            msg.append(" (Alloed: [\"GM\", \"MAX\", \"MIN\", \"BLOCK\", \"BLOB\"])");
            Err(Error::UnknownMode(msg))
        }
    }

    /// The warnings owed for parameters that this mode does not use, in the
    /// order in which they are reported.
    pub fn check_params(
        &self,
        mean: &Option<F>,
        variance: &Option<F>,
        block_size: &Option<(F, F)>,
        n_blobs: &Option<usize>,
    ) -> (w: Vec<ParamWarning>)
        ensures
            w@ == param_warnings(
                *self,
                mean is Some,
                variance is Some,
                block_size is Some,
                n_blobs is Some,
            ),
    {
        let mut w: Vec<ParamWarning> = Vec::new();
        let is_gm = match self {
            Mode::GM(_, _) => true,
            _ => false,
        };
        let is_block = match self {
            Mode::BLOCK(_) => true,
            _ => false,
        };
        let is_blob = match self {
            Mode::BLOB(_) => true,
            _ => false,
        };
        if !is_gm && (mean.is_some() || variance.is_some()) {
            w.push(ParamWarning::MeanVariance);
        }
        let ghost w1 = w@;
        if !is_block && block_size.is_some() {
            w.push(ParamWarning::BlockSize);
        }
        let ghost w2 = w@;
        if !is_blob && n_blobs.is_some() {
            w.push(ParamWarning::NBlobs);
        }
        assert(w@ =~= param_warnings(
            *self,
            mean is Some,
            variance is Some,
            block_size is Some,
            n_blobs is Some,
        ));
        w
    }

    /// The upper-case name of the mode.
    pub fn as_str(&self) -> (s: &'static str)
        ensures
            s@ == mode_name(*self),
    {
        match self {
            Mode::GM(_, _) => "GM",
            Mode::MAX => "MAX",
            Mode::MIN => "MIN",
            Mode::BLOCK(_) => "BLOCK",
            Mode::BLOB(_) => "BLOB",
        }
    }

    /// The MAR generator ranks rows and supports the Gaussian, minimum and
    /// maximum modes only; the others are refused with a `ValueError`.
    pub fn check_mar(&self) -> (r: Result<(), Errors>)
        ensures
            (*self is BLOCK || *self is BLOB) ==> (r matches Err(Errors::ValueError(msg))
                && msg@ == mar_unsupported_message(mode_name(*self))),
            !(*self is BLOCK || *self is BLOB) ==> r is Ok,
    {
        match self {
            Mode::BLOCK(_) | Mode::BLOB(_) => {
                let mut msg = String::from_str("Mode ");
                msg.append(self.as_str());
                msg.append(" not supported for MAR yet.");
                Err(Errors::ValueError(msg))
            },
            _ => Ok(()),
        }
    }
}

impl ParamWarning {
    /// The text of the warning.
    pub fn message(&self) -> (s: &'static str)
        ensures
            s@ == match self {
                ParamWarning::MeanVariance => "Mean/variance passed without passing a mode that supports it!"@,
                ParamWarning::BlockSize => "Block size passed without passing a mode that supports it!"@,
                ParamWarning::NBlobs => "Number of Blobs passed without passing a mode that supports it!"@,
            },
    {
        match self {
            ParamWarning::MeanVariance => "Mean/variance passed without passing a mode that supports it!",
            ParamWarning::BlockSize => "Block size passed without passing a mode that supports it!",
            ParamWarning::NBlobs => "Number of Blobs passed without passing a mode that supports it!",
        }
    }
}

} // verus!

verus! {

/// The two modes are of the same kind, whatever their parameters.
pub open spec fn same_kind<F>(a: Mode<F>, b: Mode<F>) -> bool {
    ||| (a is GM && b is GM)
    ||| (a is MAX && b is MAX)
    ||| (a is MIN && b is MIN)
    ||| (a is BLOCK && b is BLOCK)
    ||| (a is BLOB && b is BLOB)
}

/// A mode's upper-case name selects a mode of the same kind again.
pub proof fn lemma_name_selects_kind<F>(
    m: Mode<F>,
    mean: Option<F>,
    variance: Option<F>,
    block_size: Option<(F, F)>,
    n_blobs: Option<usize>,
    d: ModeDefaults<F>,
)
    ensures
        mode_of(mode_name(m), mean, variance, block_size, n_blobs, d) matches Some(m2) && same_kind(m, m2),
{
    reveal_strlit("GM");
    reveal_strlit("MAX");
    reveal_strlit("MIN");
    reveal_strlit("BLOCK");
    reveal_strlit("BLOB");
    let s = mode_name(m);
    match m {
        Mode::GM(_, _) => {
            assert(folds_to(s[0], 'g') && folds_to(s[1], 'm'));
            assert(names(s, seq!['g', 'm']));
        },
        Mode::MAX => {
            assert(folds_to(s[0], 'm') && folds_to(s[1], 'a') && folds_to(s[2], 'x'));
            assert(names(s, seq!['m', 'a', 'x']));
        },
        Mode::MIN => {
            assert(!folds_to(s[1], 'a'));
            assert(!names(s, seq!['m', 'a', 'x']));
            assert(folds_to(s[0], 'm') && folds_to(s[1], 'i') && folds_to(s[2], 'n'));
            assert(names(s, seq!['m', 'i', 'n']));
        },
        Mode::BLOCK(_) => {
            assert(folds_to(s[0], 'b') && folds_to(s[1], 'l') && folds_to(s[2], 'o') && folds_to(s[3], 'c') && folds_to(s[4], 'k'));
            assert(names(s, seq!['b', 'l', 'o', 'c', 'k']));
        },
        Mode::BLOB(_) => {
            assert(folds_to(s[0], 'b') && folds_to(s[1], 'l') && folds_to(s[2], 'o') && folds_to(s[3], 'b'));
            assert(names(s, seq!['b', 'l', 'o', 'b']));
        },
    }
}

} // verus!
