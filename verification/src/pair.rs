//! Parsing a delimited pair such as `640x480` or `-1.5,0.75`.

use vstd::prelude::*;
use vstd::std_specs::convert::FromSpecImpl;

verus! {

/// Why a string could not be read as a pair.
#[derive(Debug, PartialEq, Eq)]
pub enum ParsePairError<T> {
    /// One of the two elements was malformed; holds the element parser's error.
    ParseElementError(T),
    /// The separator does not occur in the string.
    NoDelimiter,
}

impl<T: Clone> Clone for ParsePairError<T> {
    fn clone(&self) -> (copy: Self)
        ensures
            copy is NoDelimiter <==> self is NoDelimiter,
    {
        match self {
            ParsePairError::ParseElementError(e) => ParsePairError::ParseElementError(e.clone()),
            ParsePairError::NoDelimiter => ParsePairError::NoDelimiter,
        }
    }
}

impl<T> From<T> for ParsePairError<T> {
    fn from(x: T) -> (e: Self) {
        ParsePairError::ParseElementError(x)
    }
}

impl<T> FromSpecImpl<T> for ParsePairError<T> {
    open spec fn obeys_from_spec() -> bool {
        true
    }

    open spec fn from_spec(x: T) -> Self {
        ParsePairError::ParseElementError(x)
    }
}

/// `i` is the position of the first `separator` in `s`.
pub open spec fn first_at(s: Seq<char>, separator: char, i: int) -> bool {
    &&& 0 <= i < s.len()
    &&& s[i] == separator
    &&& forall|j: int| 0 <= j < i ==> s[j] != separator
}

/// The two sides of `s` around its first `separator`, the separator itself
/// left out; `None` where `s` holds no separator.
pub open spec fn split_of(s: Seq<char>, separator: char) -> Option<(Seq<char>, Seq<char>)> {
    if s.contains(separator) {
        let i = choose|i: int| first_at(s, separator, i);
        Some((s.subrange(0, i), s.subrange(i + 1, s.len() as int)))
    } else {
        None
    }
}

/// A string splits at the first separator and nowhere else.
pub proof fn lemma_split_at(s: Seq<char>, separator: char, i: int)
    requires
        first_at(s, separator, i),
    ensures
        split_of(s, separator) == Some((s.subrange(0, i), s.subrange(i + 1, s.len() as int))),
{
    let k = choose|k: int| first_at(s, separator, k);
    assert(s.contains(separator));
    assert(first_at(s, separator, k));
    assert(k == i) by {
        if k < i {
            assert(s[k] != separator);
        } else if i < k {
            assert(s[i] != separator);
        }
    }
}

/// What `split_of` gives is the one way to write `s` as a left side free of
/// separators, the separator, and a right side; it gives nothing exactly
/// when `s` holds no separator.
pub proof fn lemma_split_joins(s: Seq<char>, separator: char)
    ensures
        match split_of(s, separator) {
            None => !s.contains(separator),
            Some((left, right)) => s == left + seq![separator] + right && !left.contains(
                separator,
            ),
        },
{
    if s.contains(separator) {
        let at = s.index_of(separator);
        let i = first_from(s, separator, at);
        lemma_split_at(s, separator, i);
        let left = s.subrange(0, i);
        let right = s.subrange(i + 1, s.len() as int);
        assert(s =~= left + seq![separator] + right);
        if left.contains(separator) {
            let j = left.index_of(separator);
            assert(s[j] == separator);
        }
    }
}

/// A string written as a left side free of separators, the separator, and a
/// right side splits into those two sides.
pub proof fn lemma_join_splits(left: Seq<char>, separator: char, right: Seq<char>)
    requires
        !left.contains(separator),
    ensures
        split_of(left + seq![separator] + right, separator) == Some((left, right)),
{
    let s = left + seq![separator] + right;
    let i = left.len() as int;
    assert(s[i] == separator);
    assert forall|j: int| 0 <= j < i implies s[j] != separator by {
        assert(s[j] == left[j]);
    }
    lemma_split_at(s, separator, i);
    assert(s.subrange(0, i) =~= left);
    assert(s.subrange(i + 1, s.len() as int) =~= right);
}

/// The position of the first `separator` in `s`, found by walking down from
/// a position `at` that holds one.
proof fn first_from(s: Seq<char>, separator: char, at: int) -> (i: int)
    requires
        0 <= at < s.len(),
        s[at] == separator,
    ensures
        first_at(s, separator, i),
    decreases at,
{
    if exists|j: int| 0 <= j < at && s[j] == separator {
        let j = choose|j: int| 0 <= j < at && s[j] == separator;
        first_from(s, separator, j)
    } else {
        at
    }
}

/// Splits `s` around the first occurrence of `separator`.
pub fn split_pair<'a>(s: &'a str, separator: char) -> (parts: Option<(&'a str, &'a str)>)
    ensures
        match parts {
            None => split_of(s@, separator) is None,
            Some((left, right)) => split_of(s@, separator) == Some((left@, right@)),
        },
{
    let n = s.unicode_len();
    let mut i: usize = 0;
    for c in it: s.chars()
        invariant
            n == s@.len(),
            it.seq() == s@,
            i == it.index(),
            forall|j: int| 0 <= j < i ==> s@[j] != separator,
    {
        if c == separator {
            proof {
                lemma_split_at(s@, separator, i as int);
            }
            return Some((s.substring_char(0, i), s.substring_char(i + 1, n)));
        }
        i += 1;
    }
    None
}

/// `parse` may answer `out` when it is given the text `text`.
pub open spec fn parses_to<T, E, F: Fn(&str) -> Result<T, E>>(
    parse: F,
    text: Seq<char>,
    out: Result<T, E>,
) -> bool {
    exists|piece: &str| piece@ == text && call_ensures(parse, (piece,), out)
}

/// The pair made of two element results: both values where both elements
/// were read, else the error of the first element that was not.
pub open spec fn pair_of<T, E>(first: Result<T, E>, second: Result<T, E>) -> Result<
    (T, T),
    ParsePairError<E>,
> {
    match (first, second) {
        (Ok(a), Ok(b)) => Ok((a, b)),
        (Ok(_), Err(e)) => Err(ParsePairError::ParseElementError(e)),
        (Err(e), _) => Err(ParsePairError::ParseElementError(e)),
    }
}

/// `pair` is a result that reading `left` and `right` through `parse` may
/// give: the left side is read first, the right side only once the left one
/// was accepted.
pub open spec fn parsed_sides<T, E, F: Fn(&str) -> Result<T, E>>(
    left: Seq<char>,
    right: Seq<char>,
    parse: F,
    pair: Result<(T, T), ParsePairError<E>>,
) -> bool {
    exists|first: Result<T, E>, second: Result<T, E>|
        {
            &&& parses_to(parse, left, first)
            &&& first is Ok ==> parses_to(parse, right, second)
            &&& pair == #[trigger] pair_of(first, second)
        }
}

/// `pair` is a result that reading `s` as two elements around `separator`
/// may give, the elements read by `parse`.
pub open spec fn parsed_pair<T, E, F: Fn(&str) -> Result<T, E>>(
    s: Seq<char>,
    separator: char,
    parse: F,
    pair: Result<(T, T), ParsePairError<E>>,
) -> bool {
    match split_of(s, separator) {
        None => pair == Err::<(T, T), ParsePairError<E>>(ParsePairError::NoDelimiter),
        Some(sides) => parsed_sides(sides.0, sides.1, parse, pair),
    }
}

/// Reads `s` as `<left><separator><right>`, each side through `parse`.
///
/// Fails with `NoDelimiter` exactly when the separator does not occur in
/// `s`; otherwise with the error of the first side that `parse` rejects.
pub fn parse_pair<T, E, F>(s: &str, separator: char, parse: F) -> (pair: Result<
    (T, T),
    ParsePairError<E>,
>) where F: Fn(&str) -> Result<T, E>
    requires
        split_of(s@, separator) matches Some(sides) ==> forall|piece: &str|
            piece@ == sides.0 || piece@ == sides.1 ==> call_requires(parse, (piece,)),
    ensures
        parsed_pair(s@, separator, parse, pair),
        (pair matches Err(e) && e is NoDelimiter) <==> !s@.contains(separator),
{
    match split_pair(s, separator) {
        None => Err(ParsePairError::NoDelimiter),
        Some((left, right)) => {
            let first = parse(left);
            assert(parses_to(parse, left@, first));
            match first {
                Err(e) => {
                    let pair = Err(ParsePairError::from(e));
                    assert(pair == pair_of(first, first));
                    pair
                },
                Ok(a) => {
                    let second = parse(right);
                    assert(parses_to(parse, right@, second));
                    let pair = match second {
                        Err(e) => Err(ParsePairError::from(e)),
                        Ok(b) => Ok((a, b)),
                    };
                    assert(pair == pair_of(first, second));
                    pair
                },
            }
        },
    }
}

} // verus!
