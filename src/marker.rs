//! Finding the first run of distinct characters in a signal.

use vstd::prelude::*;
use crate::Solution;
use crate::text::to_chars;

verus! {

/// How many distinct characters in a row mark the start of a message.
pub const MIN_UNIQUE_CHARS_REQUIRED: usize = 14;

/// The `n` characters that end at position `p` are pairwise different.
pub open spec fn distinct_before(s: Seq<char>, p: int, n: int) -> bool {
    forall|i: int, j: int| p - n <= i < j < p ==> s[i] != s[j]
}

/// `p` ends the first run of `n` pairwise different characters.
pub open spec fn first_marker(s: Seq<char>, p: int, n: int) -> bool {
    &&& n <= p <= s.len()
    &&& distinct_before(s, p, n)
    &&& forall|q: int| n <= q < p ==> !#[trigger] distinct_before(s, q, n)
}

/// Whether the `n` characters of `s` that end at `p` are pairwise different.
fn window_is_distinct(s: &Vec<char>, p: usize, n: usize) -> (r: bool)
    requires
        n <= p <= s.len(),
    ensures
        r == distinct_before(s@, p as int, n as int),
{
    let mut i: usize = p - n;
    while i < p
        invariant
            n <= p,
            p - n <= i <= p,
            p <= s.len(),
            forall|a: int, b: int| p - n <= a < b < p && a < i ==> s@[a] != s@[b],
        decreases p - i,
    {
        let mut j: usize = i + 1;
        while j < p
            invariant
                n <= p,
                p - n <= i < p,
                i + 1 <= j <= p,
                p <= s.len(),
                forall|a: int, b: int| p - n <= a < b < p && a < i ==> s@[a] != s@[b],
                forall|b: int| i < b < j ==> s@[i as int] != s@[b],
            decreases p - j,
        {
            if s[i] == s[j] {
                assert(s@[i as int] == s@[j as int]);
                assert(!distinct_before(s@, p as int, n as int));
                return false;
            }
            j = j + 1;
        }
        i = i + 1;
    }
    true
}

/// The number of characters read up to and including the end of the first
/// run of `MIN_UNIQUE_CHARS_REQUIRED` pairwise different characters; `None`
/// when the input has no such run.
pub fn find_solution(input: &str) -> (r: Option<Solution>)
    ensures
        match r {
            Some(sol) => first_marker(input@, sol.value as int, MIN_UNIQUE_CHARS_REQUIRED as int),
            None => forall|p: int|
                MIN_UNIQUE_CHARS_REQUIRED <= p <= input@.len() ==> !#[trigger] distinct_before(
                    input@,
                    p,
                    MIN_UNIQUE_CHARS_REQUIRED as int,
                ),
        },
{
    let s = to_chars(input);
    let n = MIN_UNIQUE_CHARS_REQUIRED;
    if s.len() < n {
        return None;
    }
    let mut p: usize = n;
    loop
        invariant
            n == MIN_UNIQUE_CHARS_REQUIRED,
            s@ == input@,
            n <= p <= s.len(),
            forall|q: int| n <= q < p ==> !#[trigger] distinct_before(s@, q, n as int),
        decreases s.len() - p,
    {
        if window_is_distinct(&s, p, n) {
            return Some(Solution::new(p));
        }
        if p == s.len() {
            return None;
        }
        p = p + 1;
    }
}

} // verus!
