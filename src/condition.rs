use vstd::prelude::*;
use vstd::string::StrSliceExecFns;

verus! {

/// `i` is the position of the first `.` of `s`.
pub open spec fn first_dot(s: Seq<char>, i: int) -> bool {
    0 <= i < s.len() && s[i] == '.' && forall|j: int| 0 <= j < i ==> #[trigger] s[j] != '.'
}

/// Splits a filter condition written `table.column` at its first `.`: the
/// table is what comes before it, the column what follows. `None` where
/// there is no `.`.
pub fn parse_condition(condition: &str) -> (r: Option<(String, String)>)
    ensures
        match r {
            Some((table, column)) => exists|i: int|
                #[trigger] first_dot(condition@, i) && table@ == condition@.subrange(0, i) && column@
                    == condition@.subrange(i + 1, condition@.len() as int),
            None => !condition@.contains('.'),
        },
{
    let n = condition.unicode_len();
    let mut i: usize = 0;
    while i < n
        invariant
            n == condition@.len(),
            i <= n,
            forall|j: int| 0 <= j < i ==> #[trigger] condition@[j] != '.',
        decreases n - i,
    {
        if condition.get_char(i) == '.' {
            let table = condition.substring_char(0, i).to_owned();
            let column = condition.substring_char(i + 1, n).to_owned();
            assert(first_dot(condition@, i as int));
            return Some((table, column));
        }
        i = i + 1;
    }
    None
}

} // verus!
