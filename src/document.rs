//! Reading packet documents: the bracketed grammar, the loaders for
//! blank-line separated documents and pairs, and the round-trip law.

use vstd::prelude::*;
use crate::packet::{
    Item, Value, views, lemma_list_view, size, total_size, text_of, joined, decimal,
    digit_chars, lemma_element_size,
};
use crate::text::{
    split_lines, to_chars, lines, is_digit, digit_value, digits_end, digits_value,
    lemma_digits_monotone, lemma_digits_end_after,
};

verus! {

/// Why a document could not be read.
#[derive(Debug, Clone, Copy, PartialEq, Eq, Structural)]
pub enum Malformation {
    /// The text ended inside a value.
    UnexpectedEnd,
    /// A character that cannot stand where it was found.
    UnexpectedCharacter,
    /// An integer that does not fit in a `usize`.
    NumberTooLarge,
    /// The document does not begin with `[`.
    NotAList,
    /// Text follows the bracket that closes the document.
    TrailingCharacters,
}

/// The ways in which loading documents fails.
#[derive(Debug, Clone, Copy, PartialEq, Eq, Structural)]
pub enum ParseError {
    /// A line is not a well-formed document; `position` counts characters
    /// from the start of that line.
    MalformedDocument { position: usize, reason: Malformation },
    /// In pairing mode, a group of lines holds an odd number of documents.
    UnpairedDocument,
}

pub open spec fn malformed<T>(position: int, reason: Malformation) -> Result<T, ParseError> {
    Err(ParseError::MalformedDocument { position: position as usize, reason })
}

/// Reads one value that starts at position `i`: its model and the position
/// just after it.
pub open spec fn parse_value(s: Seq<char>, i: int) -> Result<(Value, int), ParseError>
    decreases s.len() - i, 0nat,
{
    if !(0 <= i < s.len()) {
        malformed(i, Malformation::UnexpectedEnd)
    } else if s[i] == '[' {
        parse_open(s, i + 1)
    } else if is_digit(s[i]) {
        let e = digits_end(s, i);
        let n = digits_value(s, i, e);
        if n > usize::MAX {
            malformed(i, Malformation::NumberTooLarge)
        } else {
            Ok((Value::Digit(n), e))
        }
    } else {
        malformed(i, Malformation::UnexpectedCharacter)
    }
}

/// Reads the rest of a list whose `[` stands just before position `i`.
pub open spec fn parse_open(s: Seq<char>, i: int) -> Result<(Value, int), ParseError>
    decreases s.len() - i, 2nat,
{
    if 0 <= i < s.len() && s[i] == ']' {
        Ok((Value::List(seq![]), i + 1))
    } else {
        parse_elements(s, i, seq![])
    }
}

/// Reads the elements of a list from position `i` on, after the elements
/// `done` that were read already, through the closing `]`.
pub open spec fn parse_elements(s: Seq<char>, i: int, done: Seq<Value>) -> Result<
    (Value, int),
    ParseError,
>
    decreases s.len() - i, 1nat,
{
    if !(0 <= i <= s.len()) {
        malformed(i, Malformation::UnexpectedEnd)
    } else {
        match parse_value(s, i) {
            Err(e) => Err(e),
            Ok((v, j)) => {
                if i < j < s.len() && s[j] == ',' {
                    parse_elements(s, j + 1, done.push(v))
                } else if 0 <= j < s.len() && s[j] == ']' {
                    Ok((Value::List(done.push(v)), j + 1))
                } else if 0 <= j < s.len() {
                    malformed(j, Malformation::UnexpectedCharacter)
                } else {
                    malformed(j, Malformation::UnexpectedEnd)
                }
            },
        }
    }
}

/// Reads a whole document: one list that spans the text.
pub open spec fn parse_document(s: Seq<char>) -> Result<Value, ParseError> {
    if s.len() == 0 {
        malformed(0, Malformation::UnexpectedEnd)
    } else if s[0] != '[' {
        malformed(0, Malformation::NotAList)
    } else {
        match parse_value(s, 0) {
            Err(e) => Err(e),
            Ok((v, j)) => if j == s.len() {
                Ok(v)
            } else {
                malformed(j, Malformation::TrailingCharacters)
            },
        }
    }
}

/// An executable outcome that matches its model.
pub open spec fn agrees(r: Result<(Item, usize), ParseError>, p: Result<(Value, int), ParseError>) -> bool {
    match r {
        Ok((it, j)) => p is Ok && p->Ok_0 == (it@, j as int),
        Err(e) => p == Err::<(Value, int), ParseError>(e),
    }
}

pub open spec fn document_agrees(r: Result<Item, ParseError>, p: Result<Value, ParseError>) -> bool {
    match r {
        Ok(it) => p == Ok::<Value, ParseError>(it@),
        Err(e) => p == Err::<Value, ParseError>(e),
    }
}

fn is_digit_char(c: char) -> (r: bool)
    ensures
        r == is_digit(c),
{
    '0' <= c && c <= '9'
}

/// Reads the number that starts at `i`, which holds a digit.
fn parse_number(s: &Vec<char>, i: usize) -> (r: Result<(Item, usize), ParseError>)
    requires
        i < s.len(),
        is_digit(s@[i as int]),
    ensures
        agrees(r, parse_value(s@, i as int)),
        r is Ok ==> i < r->Ok_0.1 <= s.len(),
{
    let mut n: usize = 0;
    let mut j: usize = i;
    while j < s.len() && is_digit_char(s[j])
        invariant
            i <= j <= s.len(),
            i < s.len(),
            is_digit(s@[i as int]),
            n == digits_value(s@, i as int, j as int),
            digits_end(s@, i as int) == digits_end(s@, j as int),
        decreases s.len() - j,
    {
        let d = (s[j] as u32 - '0' as u32) as usize;
        if n > (usize::MAX - d) / 10 {
            proof {
                assert(n * 10 + d > usize::MAX) by (nonlinear_arith)
                    requires
                        n > (usize::MAX - d) / 10,
                        d <= 9,
                ;
                assert(digits_value(s@, i as int, j + 1) == n * 10 + d);
                lemma_digits_end_after(s@, j + 1);
                lemma_digits_monotone(s@, i as int, j + 1, digits_end(s@, i as int));
            }
            return Err(ParseError::MalformedDocument { position: i, reason: Malformation::NumberTooLarge });
        }
        proof {
            assert(n * 10 + d <= usize::MAX) by (nonlinear_arith)
                requires
                    n <= (usize::MAX - d) / 10,
                    d <= 9,
            ;
        }
        n = n * 10 + d;
        j = j + 1;
    }
    proof {
        assert(digits_end(s@, j as int) == j);
    }
    Ok((Item::Digit(n), j))
}

/// Reads one value that starts at position `i`.
fn parse_value_at(s: &Vec<char>, i: usize) -> (r: Result<(Item, usize), ParseError>)
    requires
        i <= s.len(),
    ensures
        agrees(r, parse_value(s@, i as int)),
        r is Ok ==> i < r->Ok_0.1 <= s.len(),
    decreases s.len() - i, 0nat,
{
    if i >= s.len() {
        Err(ParseError::MalformedDocument { position: i, reason: Malformation::UnexpectedEnd })
    } else if s[i] == '[' {
        parse_list_rest(s, i + 1)
    } else if is_digit_char(s[i]) {
        parse_number(s, i)
    } else {
        Err(ParseError::MalformedDocument { position: i, reason: Malformation::UnexpectedCharacter })
    }
}

/// Reads the rest of a list whose `[` stands just before `start`.
fn parse_list_rest(s: &Vec<char>, start: usize) -> (r: Result<(Item, usize), ParseError>)
    requires
        start <= s.len(),
    ensures
        agrees(r, parse_open(s@, start as int)),
        r is Ok ==> start < r->Ok_0.1 <= s.len(),
    decreases s.len() - start, 2nat,
{
    if start < s.len() && s[start] == ']' {
        let empty: Vec<Item> = Vec::new();
        proof {
            lemma_list_view(Item::List(empty));
            assert(views(empty@) =~= seq![]);
        }
        return Ok((Item::List(empty), start + 1));
    }
    let mut done: Vec<Item> = Vec::new();
    let mut i: usize = start;
    assert(views(done@) =~= seq![]);
    loop
        invariant
            start <= i <= s.len(),
            parse_open(s@, start as int) == parse_elements(s@, i as int, views(done@)),
        decreases s.len() - i,
    {
        let ghost before = views(done@);
        let (v, j) = match parse_value_at(s, i) {
            Err(e) => {
                return Err(e);
            },
            Ok(p) => p,
        };
        proof {
            assert(views(done@.push(v)) =~= before.push(v@));
        }
        if j < s.len() && s[j] == ',' {
            done.push(v);
            i = j + 1;
        } else if j < s.len() && s[j] == ']' {
            done.push(v);
            proof {
                lemma_list_view(Item::List(done));
            }
            return Ok((Item::List(done), j + 1));
        } else if j < s.len() {
            return Err(ParseError::MalformedDocument { position: j, reason: Malformation::UnexpectedCharacter });
        } else {
            return Err(ParseError::MalformedDocument { position: j, reason: Malformation::UnexpectedEnd });
        }
    }
}

/// Reads a document from its characters.
pub fn parse_chars(s: &Vec<char>) -> (r: Result<Item, ParseError>)
    ensures
        document_agrees(r, parse_document(s@)),
{
    if s.len() == 0 {
        Err(ParseError::MalformedDocument { position: 0, reason: Malformation::UnexpectedEnd })
    } else if s[0] != '[' {
        Err(ParseError::MalformedDocument { position: 0, reason: Malformation::NotAList })
    } else {
        match parse_value_at(s, 0) {
            Err(e) => Err(e),
            Ok((v, j)) => {
                if j == s.len() {
                    Ok(v)
                } else {
                    Err(ParseError::MalformedDocument { position: j, reason: Malformation::TrailingCharacters })
                }
            },
        }
    }
}

/// The documents of a sequence of lines, blank lines skipped; the first line
/// that does not read stops the load.
pub open spec fn parse_lines(ls: Seq<Seq<char>>) -> Result<Seq<Value>, ParseError>
    decreases ls.len(),
{
    if ls.len() == 0 {
        Ok(seq![])
    } else {
        match parse_lines(ls.drop_last()) {
            Err(e) => Err(e),
            Ok(vs) => if ls.last().len() == 0 {
                Ok(vs)
            } else {
                match parse_document(ls.last()) {
                    Err(e) => Err(e),
                    Ok(v) => Ok(vs.push(v)),
                }
            },
        }
    }
}

/// Pairs the documents of a sequence of lines: two documents in a row make a
/// pair, and a blank line may only come between pairs. The result holds the
/// pairs so far and the first document of an open pair.
pub open spec fn pair_lines(ls: Seq<Seq<char>>) -> Result<(Seq<(Value, Value)>, Option<Value>), ParseError>
    decreases ls.len(),
{
    if ls.len() == 0 {
        Ok((seq![], None))
    } else {
        match pair_lines(ls.drop_last()) {
            Err(e) => Err(e),
            Ok((ps, pending)) => if ls.last().len() == 0 {
                if pending is Some {
                    Err(ParseError::UnpairedDocument)
                } else {
                    Ok((ps, None))
                }
            } else {
                match parse_document(ls.last()) {
                    Err(e) => Err(e),
                    Ok(v) => match pending {
                        None => Ok((ps, Some(v))),
                        Some(first) => Ok((ps.push((first, v)), None)),
                    },
                }
            },
        }
    }
}

/// The documents of a text, one per non-blank line.
pub open spec fn documents_of(s: Seq<char>) -> Result<Seq<Value>, ParseError> {
    parse_lines(split_lines(s))
}

/// The pairs of documents of a text.
pub open spec fn pairs_of(s: Seq<char>) -> Result<Seq<(Value, Value)>, ParseError> {
    match pair_lines(split_lines(s)) {
        Err(e) => Err(e),
        Ok((ps, pending)) => if pending is Some {
            Err(ParseError::UnpairedDocument)
        } else {
            Ok(ps)
        },
    }
}

pub open spec fn pair_views(ps: Seq<(Item, Item)>) -> Seq<(Value, Value)> {
    Seq::new(ps.len(), |k: int| (ps[k].0@, ps[k].1@))
}

impl Item {
    /// Reads one document, such as `[1,[2,3],4]`.
    pub fn parse(text: &str) -> (r: Result<Item, ParseError>)
        ensures
            document_agrees(r, parse_document(text@)),
    {
        let chars = to_chars(text);
        parse_chars(&chars)
    }
}

/// Reads every document of a text, one per line; blank lines are skipped.
pub fn parse_packets(input: &str) -> (r: Result<Vec<Item>, ParseError>)
    ensures
        match r {
            Ok(items) => documents_of(input@) == Ok::<Seq<Value>, ParseError>(views(items@)),
            Err(e) => documents_of(input@) == Err::<Seq<Value>, ParseError>(e),
        },
{
    let chars = to_chars(input);
    let ls = lines(&chars);
    let ghost all = split_lines(input@);
    let mut packets: Vec<Item> = Vec::new();
    let mut k: usize = 0;
    assert(all.subrange(0, 0).len() == 0);
    assert(views(packets@) =~= seq![]);
    while k < ls.len()
        invariant
            k <= ls@.len(),
            ls@.len() == all.len(),
            all == split_lines(input@),
            forall|m: int| 0 <= m < ls@.len() ==> #[trigger] ls@[m]@ == all[m],
            parse_lines(all.subrange(0, k as int)) == Ok::<Seq<Value>, ParseError>(views(packets@)),
        decreases ls.len() - k,
    {
        let ghost before = views(packets@);
        proof {
            assert(all.subrange(0, k + 1).drop_last() =~= all.subrange(0, k as int));
            assert(all.subrange(0, k + 1).last() == all[k as int]);
        }
        let line = &ls[k];
        assert(line@ == all[k as int]);
        if line.len() > 0 {
            match parse_chars(line) {
                Err(e) => {
                    proof {
                        assert(parse_lines(all.subrange(0, k + 1)) == Err::<Seq<Value>, ParseError>(e));
                        lemma_parse_lines_stops(all, k as int + 1);
                    }
                    return Err(e);
                },
                Ok(v) => {
                    packets.push(v);
                    proof {
                        assert(views(packets@) =~= before.push(v@));
                    }
                },
            }
        }
        k = k + 1;
    }
    proof {
        assert(all.subrange(0, all.len() as int) =~= all);
    }
    Ok(packets)
}

proof fn lemma_parse_lines_stops(all: Seq<Seq<char>>, k: int)
    requires
        0 <= k <= all.len(),
        parse_lines(all.subrange(0, k)) is Err,
    ensures
        parse_lines(all) == parse_lines(all.subrange(0, k)),
    decreases all.len() - k,
{
    if k < all.len() {
        assert(all.subrange(0, k + 1).drop_last() =~= all.subrange(0, k));
        lemma_parse_lines_stops(all, k + 1);
    } else {
        assert(all.subrange(0, k) =~= all);
    }
}

proof fn lemma_pair_lines_stops(all: Seq<Seq<char>>, k: int)
    requires
        0 <= k <= all.len(),
        pair_lines(all.subrange(0, k)) is Err,
    ensures
        pair_lines(all) == pair_lines(all.subrange(0, k)),
    decreases all.len() - k,
{
    if k < all.len() {
        assert(all.subrange(0, k + 1).drop_last() =~= all.subrange(0, k));
        lemma_pair_lines_stops(all, k + 1);
    } else {
        assert(all.subrange(0, k) =~= all);
    }
}

/// Reads the documents of a text in pairs: each pair is two documents on
/// consecutive lines, and pairs are set apart by blank lines.
pub fn parse_pairs(input: &str) -> (r: Result<Vec<(Item, Item)>, ParseError>)
    ensures
        match r {
            Ok(ps) => pairs_of(input@) == Ok::<Seq<(Value, Value)>, ParseError>(pair_views(ps@)),
            Err(e) => pairs_of(input@) == Err::<Seq<(Value, Value)>, ParseError>(e),
        },
{
    let chars = to_chars(input);
    let ls = lines(&chars);
    let ghost all = split_lines(input@);
    let mut pairs: Vec<(Item, Item)> = Vec::new();
    let mut pending: Option<Item> = None;
    let mut k: usize = 0;
    assert(all.subrange(0, 0).len() == 0);
    assert(pair_views(pairs@) =~= seq![]);
    while k < ls.len()
        invariant
            k <= ls@.len(),
            ls@.len() == all.len(),
            all == split_lines(input@),
            forall|m: int| 0 <= m < ls@.len() ==> #[trigger] ls@[m]@ == all[m],
            pair_lines(all.subrange(0, k as int)) == Ok::<(Seq<(Value, Value)>, Option<Value>), ParseError>(
                (
                    pair_views(pairs@),
                    match pending {
                        Some(f) => Some(f@),
                        None => None,
                    },
                ),
            ),
        decreases ls.len() - k,
    {
        let ghost before = pair_views(pairs@);
        proof {
            assert(all.subrange(0, k + 1).drop_last() =~= all.subrange(0, k as int));
            assert(all.subrange(0, k + 1).last() == all[k as int]);
        }
        let line = &ls[k];
        assert(line@ == all[k as int]);
        if line.len() == 0 {
            if pending.is_some() {
                proof {
                    assert(pair_lines(all.subrange(0, k + 1)) is Err);
                    lemma_pair_lines_stops(all, k as int + 1);
                }
                return Err(ParseError::UnpairedDocument);
            }
        } else {
            match parse_chars(line) {
                Err(e) => {
                    proof {
                        assert(pair_lines(all.subrange(0, k + 1)) == Err::<
                            (Seq<(Value, Value)>, Option<Value>),
                            ParseError,
                        >(e));
                        lemma_pair_lines_stops(all, k as int + 1);
                    }
                    return Err(e);
                },
                Ok(v) => {
                    match pending {
                        None => {
                            pending = Some(v);
                        },
                        Some(first) => {
                            pairs.push((first, v));
                            pending = None;
                            proof {
                                assert(pair_views(pairs@) =~= before.push((first@, v@)));
                            }
                        },
                    }
                },
            }
        }
        k = k + 1;
    }
    proof {
        assert(all.subrange(0, all.len() as int) =~= all);
    }
    if pending.is_some() {
        return Err(ParseError::UnpairedDocument);
    }
    Ok(pairs)
}

/// Every integer in the value fits in a `usize`.
pub open spec fn fits(v: Value) -> bool
    decreases size(v), 0nat,
{
    match v {
        Value::Digit(n) => n <= usize::MAX,
        Value::List(vs) => all_fit(vs),
    }
}

/// Every integer in the values fits in a `usize`.
pub open spec fn all_fit(vs: Seq<Value>) -> bool
    decreases total_size(vs), 1nat
    via all_fit_decreases
{
    if vs.len() == 0 {
        true
    } else {
        fits(vs[0]) && all_fit(vs.drop_first())
    }
}

#[via_fn]
proof fn all_fit_decreases(vs: Seq<Value>) {
    if vs.len() > 0 {
        crate::packet::lemma_size_positive(vs[0]);
    }
}

/// The characters of `t` stand in `s` from position `i` on.
pub open spec fn occurs_at(s: Seq<char>, t: Seq<char>, i: int) -> bool {
    &&& 0 <= i
    &&& i + t.len() <= s.len()
    &&& forall|k: int| 0 <= k < t.len() ==> s[i + k] == #[trigger] t[k]
}

/// Position `j` ends a number: the text stops there or holds a non-digit.
pub open spec fn ends_number(s: Seq<char>, j: int) -> bool {
    j == s.len() || (0 <= j < s.len() && !is_digit(s[j]))
}

proof fn lemma_digit_chars()
    ensures
        forall|d: int|
            0 <= d < 10 ==> is_digit(#[trigger] digit_chars()[d]) && digit_value(digit_chars()[d])
                == d,
{
    assert forall|d: int| 0 <= d < 10 implies is_digit(#[trigger] digit_chars()[d]) && digit_value(
        digit_chars()[d],
    ) == d by {
        if d == 0 {
        } else if d == 1 {
        } else if d == 2 {
        } else if d == 3 {
        } else if d == 4 {
        } else if d == 5 {
        } else if d == 6 {
        } else if d == 7 {
        } else if d == 8 {
        } else {
        }
    }
}

proof fn lemma_decimal_digits(n: nat)
    ensures
        decimal(n).len() >= 1,
        forall|k: int| 0 <= k < decimal(n).len() ==> is_digit(#[trigger] decimal(n)[k]),
    decreases n,
{
    lemma_digit_chars();
    if n >= 10 {
        lemma_decimal_digits(n / 10);
    }
}

proof fn lemma_digits_end_at(s: Seq<char>, i: int, e: int)
    requires
        0 <= i <= e <= s.len(),
        forall|k: int| i <= k < e ==> is_digit(#[trigger] s[k]),
        ends_number(s, e),
    ensures
        digits_end(s, i) == e,
    decreases e - i,
{
    if i < e {
        lemma_digits_end_at(s, i + 1, e);
    }
}

proof fn lemma_decimal_value(n: nat, s: Seq<char>, i: int)
    requires
        occurs_at(s, decimal(n), i),
    ensures
        digits_value(s, i, i + decimal(n).len()) == n,
    decreases n,
{
    lemma_digit_chars();
    if n < 10 {
        assert(s[i + 0] == decimal(n)[0]);
        assert(digits_value(s, i, i) == 0);
    } else {
        let d = decimal(n / 10);
        assert(occurs_at(s, d, i)) by {
            assert forall|k: int| 0 <= k < d.len() implies s[i + k] == #[trigger] d[k] by {
                assert(decimal(n)[k] == d[k]);
            }
        }
        lemma_decimal_value(n / 10, s, i);
        let last = d.len() as int;
        assert(s[i + last] == decimal(n)[last]);
        assert(n == (n / 10) * 10 + n % 10);
    }
}

/// The text of a value is read back as that value, wherever it stands.
proof fn lemma_parse_text(v: Value, s: Seq<char>, i: int)
    requires
        fits(v),
        occurs_at(s, text_of(v), i),
        ends_number(s, i + text_of(v).len()),
    ensures
        parse_value(s, i) == Ok::<(Value, int), ParseError>((v, i + text_of(v).len())),
    decreases size(v), 0nat,
{
    match v {
        Value::Digit(n) => {
            let t = decimal(n);
            lemma_decimal_digits(n);
            assert(s[i + 0] == t[0]);
            assert forall|k: int| i <= k < i + t.len() implies is_digit(#[trigger] s[k]) by {
                assert(s[i + (k - i)] == t[k - i]);
            }
            lemma_digits_end_at(s, i, i + t.len());
            lemma_decimal_value(n, s, i);
        },
        Value::List(vs) => {
            let t = text_of(v);
            let j = joined(vs);
            assert(t == seq!['['] + j + seq![']']);
            assert(s[i + 0] == t[0]);
            assert(occurs_at(s, j, i + 1)) by {
                assert forall|k: int| 0 <= k < j.len() implies s[i + 1 + k] == #[trigger] j[k] by {
                    assert(t[1 + k] == j[k]);
                    assert(s[i + (1 + k)] == t[1 + k]);
                }
            }
            let close = i + 1 + j.len();
            assert(s[i + (1 + j.len())] == t[1 + j.len() as int]);
            assert(s[close] == ']');
            if vs.len() == 0 {
                assert(j.len() == 0);
                assert(vs =~= seq![]);
            } else {
                lemma_joined_first(vs);
                assert(s[i + 1 + 0] == j[0]);
                lemma_parse_joined(vs, s, i + 1, seq![]);
                assert(seq![] + vs =~= vs);
            }
        },
    }
}

proof fn lemma_text_first(v: Value)
    ensures
        text_of(v).len() >= 1,
        text_of(v)[0] == '[' || is_digit(text_of(v)[0]),
{
    match v {
        Value::Digit(n) => {
            lemma_decimal_digits(n);
        },
        Value::List(_) => {},
    }
}

proof fn lemma_joined_first(vs: Seq<Value>)
    requires
        vs.len() > 0,
    ensures
        joined(vs).len() >= 1,
        joined(vs)[0] == '[' || is_digit(joined(vs)[0]),
{
    lemma_text_first(vs[0]);
    if vs.len() > 1 {
        assert(joined(vs)[0] == text_of(vs[0])[0]);
    }
}

/// The joined texts of values followed by `]` are read back as the rest of a
/// list.
proof fn lemma_parse_joined(vs: Seq<Value>, s: Seq<char>, i: int, done: Seq<Value>)
    requires
        vs.len() > 0,
        all_fit(vs),
        occurs_at(s, joined(vs), i),
        i + joined(vs).len() < s.len(),
        s[i + joined(vs).len()] == ']',
    ensures
        parse_elements(s, i, done) == Ok::<(Value, int), ParseError>(
            (Value::List(done + vs), i + joined(vs).len() + 1),
        ),
    decreases total_size(vs), 1nat,
{
    let t0 = text_of(vs[0]);
    let j = joined(vs);
    lemma_element_size(vs, 0);
    lemma_text_first(vs[0]);
    if vs.len() == 1 {
        assert(j == t0);
        lemma_parse_text(vs[0], s, i);
        assert(done.push(vs[0]) =~= done + vs);
    } else {
        let rest = vs.drop_first();
        let jr = joined(rest);
        assert(j == t0 + seq![','] + jr);
        assert(occurs_at(s, t0, i)) by {
            assert forall|k: int| 0 <= k < t0.len() implies s[i + k] == #[trigger] t0[k] by {
                assert(j[k] == t0[k]);
            }
        }
        assert(s[i + t0.len()] == j[t0.len() as int]);
        lemma_parse_text(vs[0], s, i);
        let next = i + t0.len() + 1;
        assert(occurs_at(s, jr, next)) by {
            assert forall|k: int| 0 <= k < jr.len() implies s[next + k] == #[trigger] jr[k] by {
                assert(j[t0.len() + 1 + k] == jr[k]);
                assert(s[i + (t0.len() + 1 + k)] == j[t0.len() + 1 + k]);
            }
        }
        lemma_size_positive_all(vs);
        lemma_parse_joined(rest, s, next, done.push(vs[0]));
        assert(done.push(vs[0]) + rest =~= done + vs);
    }
}

proof fn lemma_item_fits(it: Item)
    ensures
        fits(it@),
    decreases size(it@), 0nat,
{
    if let Item::List(items) = it {
        lemma_list_view(it);
        lemma_views_fit(items@);
    }
}

proof fn lemma_views_fit(items: Seq<Item>)
    ensures
        all_fit(views(items)),
    decreases total_size(views(items)), 1nat,
{
    let vs = views(items);
    if items.len() > 0 {
        lemma_element_size(vs, 0);
        lemma_size_positive_all(vs);
        lemma_item_fits(items[0]);
        assert(vs.drop_first() =~= views(items.drop_first()));
        lemma_views_fit(items.drop_first());
    }
}

/// Writing a list packet as text and reading that text back gives the same
/// packet.
pub proof fn lemma_round_trip(it: Item)
    requires
        it is List,
    ensures
        parse_document(text_of(it@)) == Ok::<Value, ParseError>(it@),
{
    lemma_list_view(it);
    lemma_item_fits(it);
    let s = text_of(it@);
    assert(occurs_at(s, s, 0)) by {
        assert forall|k: int| 0 <= k < s.len() implies s[0 + k] == #[trigger] s[k] by {}
    }
    lemma_parse_text(it@, s, 0);
}

proof fn lemma_size_positive_all(vs: Seq<Value>)
    requires
        vs.len() > 0,
    ensures
        total_size(vs.drop_first()) < total_size(vs),
{
    crate::packet::lemma_size_positive(vs[0]);
}

} // verus!
