use vstd::prelude::*;

verus! {

/// Upper bound on the number of fruitless random draws (rounds that removed
/// nothing, blocks that did not fit) a search may make before giving up with
/// [`Errors::MaxWorkExeeded`].
pub const MAX_AMOUNT_OF_WORK: u64 = 500_000;

/// Errors reported by the generators.
#[derive(Debug)]
pub enum Errors {
    /// An argument was rejected; the string is the message shown to the user.
    ValueError(String),
    /// A search could not reach the requested amount of missing values: no
    /// cell could be removed any more, or [`MAX_AMOUNT_OF_WORK`] draws were
    /// fruitless.
    MaxWorkExeeded,
}

/// The message shown for [`Errors::MaxWorkExeeded`].
pub open spec fn max_work_message() -> Seq<char> {
    seq!['A', 'f', 't', 'e', 'r', ' '] + seq!['5', '0', '0', '0', '0', '0'] + seq![
        ' ', 'i', 't', 'e', 'r', 'a', 't', 'i', 'o', 'n', 's', ' ', 't', 'h', 'e', ' ', 'd', 'e',
        's', 'i', 'r', 'e', 'd', ' ', 'a', 'm', 'o', 'u', 'n', 't', ' ', 'o', 'f', ' ', 'm', 'i',
        's', 's', 'i', 'n', 'g', '_', 'r', 'a', 't', 'e', ' ', 'h', 'a', 's', ' ', 'n', 'o', 't',
        ' ', 'b', 'e', 'e', 'n', ' ', 'r', 'e', 'a', 'c', 'h', 'e', 'd', ' ', 's', 't', 'o', 'p',
        'p', 'i', 'n', 'g', ' ', 'n', 'o', 'w', '!',
    ]
}

impl Errors {
    /// The text a user sees for this error.
    pub fn message(&self) -> (s: String)
        ensures
            match self {
                Errors::ValueError(msg) => s@ == msg@,
                Errors::MaxWorkExeeded => s@ == max_work_message(),
            },
    {
        match self {
            Errors::ValueError(msg) => msg.clone(),
            Errors::MaxWorkExeeded => {
                let mut s = String::from_str("After ");
                s.append("500000");
                s.append(
                    " iterations the desired amount of missing_rate has not been reached stopping now!",
                );
                proof {
                    reveal_strlit("After ");
                    reveal_strlit("500000");
                    reveal_strlit(
                        " iterations the desired amount of missing_rate has not been reached stopping now!",
                    );
                    assert(s@ =~= max_work_message());
                }
                s
            },
        }
    }
}

} // verus!
