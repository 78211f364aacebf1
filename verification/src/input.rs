//! Which tables the generators accept.

use vstd::prelude::*;

use crate::mode::chars_of;

verus! {

/// The kinds of table the generators accept.
#[derive(Debug, Clone, Copy, PartialEq, Eq, Structural)]
pub enum InputKind {
    /// A NumPy `ndarray`.
    Numpy,
    /// A pandas `DataFrame`.
    DataFrame,
}

/// The message for a table of an unsupported type named `name`.
pub open spec fn unsupported_message(name: Seq<char>) -> Seq<char> {
    "Unsupported type: '"@ + name + "'. Supported types are: numpy.ndarray, pandas.DataFrame"@
}

/// The kind of table whose Python type is named `kind_name`: `ndarray` or
/// `DataFrame`; any other name is refused with its message.
pub fn input_kind(kind_name: &str) -> (r: Result<InputKind, String>)
    ensures
        kind_name@ == seq!['n', 'd', 'a', 'r', 'r', 'a', 'y'] ==> r == Ok::<InputKind, String>(InputKind::Numpy),
        kind_name@ == seq!['D', 'a', 't', 'a', 'F', 'r', 'a', 'm', 'e'] ==> r == Ok::<InputKind, String>(InputKind::DataFrame),
        kind_name@ != seq!['n', 'd', 'a', 'r', 'r', 'a', 'y'] && kind_name@ != seq!['D', 'a', 't', 'a', 'F', 'r', 'a', 'm', 'e']
            ==> (r matches Err(msg) && msg@ == unsupported_message(kind_name@)),
{
    let s = chars_of(kind_name);
    let nd = ['n', 'd', 'a', 'r', 'r', 'a', 'y'];
    let df = ['D', 'a', 't', 'a', 'F', 'r', 'a', 'm', 'e'];
    assert(nd@ =~= seq!['n', 'd', 'a', 'r', 'r', 'a', 'y']);
    assert(df@ =~= seq!['D', 'a', 't', 'a', 'F', 'r', 'a', 'm', 'e']);
    if same_chars(&s, &nd) {
        Ok(InputKind::Numpy)
    } else if same_chars(&s, &df) {
        Ok(InputKind::DataFrame)
    } else {
        let mut msg = String::from_str("Unsupported type: '");
        msg.append(kind_name);
        msg.append("'. Supported types are: numpy.ndarray, pandas.DataFrame");
        Err(msg)
    }
}

fn same_chars(s: &Vec<char>, word: &[char]) -> (b: bool)
    ensures
        b == (s@ == word@),
{
    if s.len() != word.len() {
        return false;
    }
    for i in 0..s.len()
        invariant
            s@.len() == word@.len(),
            forall|j: int| 0 <= j < i ==> s@[j] == word@[j],
    {
        if s[i] != word[i] {
            return false;
        }
    }
    assert(s@ =~= word@);
    true
}

} // verus!
