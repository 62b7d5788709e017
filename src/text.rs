//! Characters, lines and decimal numbers of input text.

use vstd::prelude::*;

verus! {

/// The lines of a text: the pieces between newline characters, in order. A
/// text without a newline is one line; a trailing newline ends in an empty
/// line.
pub open spec fn split_lines(s: Seq<char>) -> Seq<Seq<char>>
    decreases s.len(),
{
    if s.len() == 0 {
        seq![Seq::<char>::empty()]
    } else {
        let before = split_lines(s.drop_last());
        if s.last() == '\n' {
            before.push(Seq::<char>::empty())
        } else {
            before.update(before.len() - 1, before.last().push(s.last()))
        }
    }
}

proof fn lemma_split_lines_nonempty(s: Seq<char>)
    ensures
        split_lines(s).len() >= 1,
    decreases s.len(),
{
    if s.len() > 0 {
        lemma_split_lines_nonempty(s.drop_last());
    }
}

pub open spec fn is_digit(c: char) -> bool {
    '0' <= c && c <= '9'
}

pub open spec fn digit_value(c: char) -> nat {
    (c as u32 - '0' as u32) as nat
}

/// The first position at or after `i` that does not hold a digit.
pub open spec fn digits_end(s: Seq<char>, i: int) -> int
    decreases s.len() - i,
{
    if 0 <= i < s.len() && is_digit(s[i]) {
        digits_end(s, i + 1)
    } else {
        i
    }
}

/// The decimal number written by the characters from `i` up to `j`.
pub open spec fn digits_value(s: Seq<char>, i: int, j: int) -> nat
    decreases j - i,
{
    if j <= i {
        0
    } else {
        digits_value(s, i, j - 1) * 10 + digit_value(s[j - 1])
    }
}

pub proof fn lemma_digits_monotone(s: Seq<char>, i: int, j: int, k: int)
    requires
        i <= j <= k,
    ensures
        digits_value(s, i, j) <= digits_value(s, i, k),
    decreases k - j,
{
    if j < k {
        lemma_digits_monotone(s, i, j, k - 1);
    }
}

pub proof fn lemma_digits_end_after(s: Seq<char>, i: int)
    ensures
        digits_end(s, i) >= i,
    decreases s.len() - i,
{
    if 0 <= i < s.len() && is_digit(s[i]) {
        lemma_digits_end_after(s, i + 1);
    }
}

pub proof fn lemma_digits_end_within(s: Seq<char>, i: int)
    requires
        i <= s.len(),
    ensures
        digits_end(s, i) <= s.len(),
    decreases s.len() - i,
{
    if 0 <= i < s.len() && is_digit(s[i]) {
        lemma_digits_end_within(s, i + 1);
    }
}

/// The characters of `lit` stand at position `i` of `s`.
pub open spec fn literal_at(s: Seq<char>, i: int, lit: Seq<char>) -> bool {
    0 <= i && i + lit.len() <= s.len() && s.subrange(i, i + lit.len()) == lit
}

/// A number that starts at `i` and fits in a `usize`, and the position after
/// it.
pub open spec fn usize_at(s: Seq<char>, i: int) -> Option<(usize, int)> {
    let e = digits_end(s, i);
    if 0 <= i && e > i && digits_value(s, i, e) <= usize::MAX {
        Some((digits_value(s, i, e) as usize, e))
    } else {
        None
    }
}

/// Whether the characters of `lit` stand at position `i` of `s`.
pub fn match_literal(s: &Vec<char>, i: usize, lit: &Vec<char>) -> (r: bool)
    ensures
        r == literal_at(s@, i as int, lit@),
{
    if i > s.len() || lit.len() > s.len() - i {
        return false;
    }
    assert(s@.len() <= usize::MAX);
    let mut k: usize = 0;
    while k < lit.len()
        invariant
            s@.len() <= usize::MAX,
            i + lit@.len() <= s@.len(),
            k <= lit@.len(),
            s@.subrange(i as int, i + k) == lit@.take(k as int),
        decreases lit.len() - k,
    {
        if s[i + k] != lit[k] {
            assert(s@.subrange(i as int, i + lit@.len())[k as int] != lit@[k as int]);
            return false;
        }
        assert(s@.subrange(i as int, i + k + 1) =~= lit@.take(k + 1));
        k = k + 1;
    }
    assert(lit@.take(lit@.len() as int) =~= lit@);
    true
}

/// Reads the number that starts at position `at`.
pub fn parse_usize(s: &Vec<char>, at: usize) -> (r: Option<(usize, usize)>)
    ensures
        match r {
            Some((v, e)) => usize_at(s@, at as int) == Some((v, e as int)) && e <= s@.len(),
            None => usize_at(s@, at as int) is None,
        },
{
    let mut v: usize = 0;
    let mut j: usize = at;
    if at > s.len() {
        return None;
    }
    while j < s.len() && '0' <= s[j] && s[j] <= '9'
        invariant
            at <= j <= s@.len(),
            v == digits_value(s@, at as int, j as int),
            digits_end(s@, at as int) == digits_end(s@, j as int),
        decreases s.len() - j,
    {
        let d = (s[j] as u32 - '0' as u32) as usize;
        if v > (usize::MAX - d) / 10 {
            proof {
                assert(v * 10 + d > usize::MAX) by (nonlinear_arith)
                    requires
                        v > (usize::MAX - d) / 10,
                        d <= 9,
                ;
                assert(digits_value(s@, at as int, j + 1) == v * 10 + d);
                lemma_digits_end_after(s@, j + 1);
                lemma_digits_monotone(s@, at as int, j + 1, digits_end(s@, at as int));
            }
            return None;
        }
        proof {
            assert(v * 10 + d <= usize::MAX) by (nonlinear_arith)
                requires
                    v <= (usize::MAX - d) / 10,
                    d <= 9,
            ;
        }
        v = v * 10 + d;
        j = j + 1;
    }
    assert(digits_end(s@, j as int) == j);
    if j == at {
        return None;
    }
    Some((v, j))
}

/// The characters of a string, one by one.
pub fn to_chars(s: &str) -> (r: Vec<char>)
    ensures
        r@ == s@,
{
    let n = s.unicode_len();
    let mut r: Vec<char> = Vec::new();
    let mut i: usize = 0;
    while i < n
        invariant
            n == s@.len(),
            i <= n,
            r@ == s@.subrange(0, i as int),
        decreases n - i,
    {
        let c = s.get_char(i);
        r.push(c);
        i = i + 1;
        assert(r@ =~= s@.subrange(0, i as int));
    }
    assert(r@ =~= s@);
    r
}

/// Splits a text into its lines.
pub fn lines(s: &Vec<char>) -> (r: Vec<Vec<char>>)
    ensures
        r@.len() == split_lines(s@).len(),
        forall|k: int| 0 <= k < r@.len() ==> #[trigger] r@[k]@ == split_lines(s@)[k],
{
    let mut done: Vec<Vec<char>> = Vec::new();
    let mut current: Vec<char> = Vec::new();
    let mut i: usize = 0;
    while i < s.len()
        invariant
            i <= s.len(),
            done@.len() + 1 == split_lines(s@.subrange(0, i as int)).len(),
            forall|k: int|
                0 <= k < done@.len() ==> #[trigger] done@[k]@ == split_lines(
                    s@.subrange(0, i as int),
                )[k],
            current@ == split_lines(s@.subrange(0, i as int)).last(),
        decreases s.len() - i,
    {
        let ghost prefix = s@.subrange(0, i as int);
        let ghost next = s@.subrange(0, i + 1);
        proof {
            assert(next.drop_last() =~= prefix);
            assert(next.last() == s@[i as int]);
            lemma_split_lines_nonempty(prefix);
        }
        let c = s[i];
        if c == '\n' {
            done.push(current);
            current = Vec::new();
            proof {
                assert(current@ =~= Seq::<char>::empty());
            }
        } else {
            current.push(c);
        }
        i = i + 1;
    }
    done.push(current);
    proof {
        assert(s@.subrange(0, s@.len() as int) =~= s@);
        lemma_split_lines_nonempty(s@);
    }
    done
}

} // verus!
