use crate::simplex::facets_of;
use vstd::prelude::*;
use vstd::string::StringSliceAdditionalSpecFns;

verus! {

/// Why a text was not read as a complex.
#[derive(Debug, Clone, Copy, PartialEq, Eq, Structural)]
pub enum ParseError {
    /// The text ends before the complex does: more input is needed.
    Incomplete,
    /// The text breaks the grammar, or holds a vertex too large to index.
    Malformed,
}

/// What reading a part of the text at a position comes to.
pub enum Outcome<T> {
    /// The part was read: its value, and the position after it.
    Done { value: T, next: int },
    /// The text ends before the part does.
    Incomplete,
    /// The text breaks the grammar.
    Malformed,
}

/// Space, tab, carriage return and line feed.
pub open spec fn is_space(b: u8) -> bool {
    b == 32 || b == 9 || b == 13 || b == 10
}

/// The decimal digits `0` to `9`.
pub open spec fn is_digit(b: u8) -> bool {
    48 <= b <= 57
}

/// The position of the first byte from `pos` on that is not white space;
/// `None` where the text ends before one is found.
pub open spec fn skip_spaces(s: Seq<u8>, pos: int) -> Option<int>
    decreases s.len() - pos,
{
    if pos >= s.len() {
        None
    } else if is_space(s[pos]) {
        skip_spaces(s, pos + 1)
    } else {
        Some(pos)
    }
}

/// The byte `c` at `pos`.
pub open spec fn expect_byte(s: Seq<u8>, pos: int, c: u8) -> Outcome<()> {
    if pos >= s.len() {
        Outcome::Incomplete
    } else if s[pos] == c {
        Outcome::Done { value: (), next: pos + 1 }
    } else {
        Outcome::Malformed
    }
}

/// The byte `c` with white space before and after it.
pub open spec fn spaced_byte(s: Seq<u8>, pos: int, c: u8) -> Outcome<()> {
    match skip_spaces(s, pos) {
        None => Outcome::Incomplete,
        Some(p) => match expect_byte(s, p, c) {
            Outcome::Done { value, next } => match skip_spaces(s, next) {
                None => Outcome::Incomplete,
                Some(q) => Outcome::Done { value: (), next: q },
            },
            Outcome::Incomplete => Outcome::Incomplete,
            Outcome::Malformed => Outcome::Malformed,
        },
    }
}

/// The rest of a numeral from `pos` on, after digits of value `acc`: it
/// ends at the first byte that is no digit, and the text must hold such a
/// byte. A value that is too large to index with is malformed.
pub open spec fn digits_from(s: Seq<u8>, pos: int, acc: nat) -> Outcome<usize>
    decreases s.len() - pos,
{
    if pos >= s.len() {
        Outcome::Incomplete
    } else if !is_digit(s[pos]) {
        Outcome::Done { value: acc as usize, next: pos }
    } else {
        let v = acc * 10 + (s[pos] - 48);
        if v > usize::MAX {
            Outcome::Malformed
        } else {
            digits_from(s, pos + 1, v as nat)
        }
    }
}

/// A numeral at `pos`: one or more digits.
pub open spec fn number(s: Seq<u8>, pos: int) -> Outcome<usize> {
    if pos >= s.len() {
        Outcome::Incomplete
    } else if !is_digit(s[pos]) {
        Outcome::Malformed
    } else {
        digits_from(s, pos, 0)
    }
}

/// A numeral with white space before and after it.
pub open spec fn spaced_number(s: Seq<u8>, pos: int) -> Outcome<usize> {
    match skip_spaces(s, pos) {
        None => Outcome::Incomplete,
        Some(p) => match number(s, p) {
            Outcome::Done { value, next } => match skip_spaces(s, next) {
                None => Outcome::Incomplete,
                Some(q) => Outcome::Done { value, next: q },
            },
            Outcome::Incomplete => Outcome::Incomplete,
            Outcome::Malformed => Outcome::Malformed,
        },
    }
}

/// The rest of a list of numerals after the items `acc`: as long as a
/// comma and a numeral follow, the numeral joins the list. Where what
/// follows is no comma, or the comma is followed by no numeral, the list
/// ends before it.
pub open spec fn number_tail(s: Seq<u8>, pos: int, acc: Seq<usize>) -> Outcome<Seq<usize>>
    decreases s.len() - pos,
{
    match spaced_byte(s, pos, 44) {
        Outcome::Incomplete => Outcome::Incomplete,
        Outcome::Malformed => Outcome::Done { value: acc, next: pos },
        Outcome::Done { value, next } => match spaced_number(s, next) {
            Outcome::Incomplete => Outcome::Incomplete,
            Outcome::Malformed => Outcome::Done { value: acc, next: pos },
            Outcome::Done { value, next } => if pos < next <= s.len() {
                number_tail(s, next, acc.push(value))
            } else {
                Outcome::Malformed
            },
        },
    }
}

/// A simplex: `[`, one or more numerals separated by commas, and `]`,
/// with white space allowed around the opening bracket, the numerals and
/// the commas.
pub open spec fn simplex_at(s: Seq<u8>, pos: int) -> Outcome<Seq<usize>> {
    match spaced_byte(s, pos, 91) {
        Outcome::Incomplete => Outcome::Incomplete,
        Outcome::Malformed => Outcome::Malformed,
        Outcome::Done { value, next } => match spaced_number(s, next) {
            Outcome::Incomplete => Outcome::Incomplete,
            Outcome::Malformed => Outcome::Malformed,
            Outcome::Done { value, next } => match number_tail(s, next, seq![value]) {
                Outcome::Incomplete => Outcome::Incomplete,
                Outcome::Malformed => Outcome::Malformed,
                Outcome::Done { value, next } => match expect_byte(s, next, 93) {
                    Outcome::Incomplete => Outcome::Incomplete,
                    Outcome::Malformed => Outcome::Malformed,
                    Outcome::Done { value: unit, next } => Outcome::Done { value, next },
                },
            },
        },
    }
}

/// A simplex with white space before and after it.
pub open spec fn spaced_simplex(s: Seq<u8>, pos: int) -> Outcome<Seq<usize>> {
    match skip_spaces(s, pos) {
        None => Outcome::Incomplete,
        Some(p) => match simplex_at(s, p) {
            Outcome::Done { value, next } => match skip_spaces(s, next) {
                None => Outcome::Incomplete,
                Some(q) => Outcome::Done { value, next: q },
            },
            Outcome::Incomplete => Outcome::Incomplete,
            Outcome::Malformed => Outcome::Malformed,
        },
    }
}

/// The rest of a list of simplices after the items `acc`.
pub open spec fn simplex_tail(s: Seq<u8>, pos: int, acc: Seq<Seq<usize>>) -> Outcome<
    Seq<Seq<usize>>,
>
    decreases s.len() - pos,
{
    match spaced_byte(s, pos, 44) {
        Outcome::Incomplete => Outcome::Incomplete,
        Outcome::Malformed => Outcome::Done { value: acc, next: pos },
        Outcome::Done { value, next } => match spaced_simplex(s, next) {
            Outcome::Incomplete => Outcome::Incomplete,
            Outcome::Malformed => Outcome::Done { value: acc, next: pos },
            Outcome::Done { value, next } => if pos < next <= s.len() {
                simplex_tail(s, next, acc.push(value))
            } else {
                Outcome::Malformed
            },
        },
    }
}

/// A complex: `[`, one or more simplices separated by commas, and `]`,
/// with white space allowed before the complex and around the opening
/// bracket, the simplices and the commas. Nothing is read after the
/// closing bracket.
pub open spec fn complex_at(s: Seq<u8>, pos: int) -> Outcome<Seq<Seq<usize>>> {
    match spaced_byte(s, pos, 91) {
        Outcome::Incomplete => Outcome::Incomplete,
        Outcome::Malformed => Outcome::Malformed,
        Outcome::Done { value, next } => match spaced_simplex(s, next) {
            Outcome::Incomplete => Outcome::Incomplete,
            Outcome::Malformed => Outcome::Malformed,
            Outcome::Done { value, next } => match simplex_tail(s, next, seq![value]) {
                Outcome::Incomplete => Outcome::Incomplete,
                Outcome::Malformed => Outcome::Malformed,
                Outcome::Done { value, next } => match expect_byte(s, next, 93) {
                    Outcome::Incomplete => Outcome::Incomplete,
                    Outcome::Malformed => Outcome::Malformed,
                    Outcome::Done { value: unit, next } => Outcome::Done { value, next },
                },
            },
        },
    }
}

/// Skips white space from `pos` on.
fn skip(input: &[u8], pos: usize) -> (r: Option<usize>)
    requires
        pos <= input@.len(),
    ensures
        match r {
            Some(p) => skip_spaces(input@, pos as int) == Some(p as int) && pos <= p < input@.len(),
            None => skip_spaces(input@, pos as int) is None,
        },
{
    let mut p = pos;
    while p < input.len()
        invariant
            pos <= p <= input@.len(),
            skip_spaces(input@, p as int) == skip_spaces(input@, pos as int),
        decreases input.len() - p,
    {
        let b = input[p];
        if !(b == 32 || b == 9 || b == 13 || b == 10) {
            return Some(p);
        }
        p += 1;
    }
    None
}

/// Reads the byte `c` at `pos`.
fn expect(input: &[u8], pos: usize, c: u8) -> (r: Result<usize, ParseError>)
    requires
        pos <= input@.len(),
    ensures
        match r {
            Ok(p) => expect_byte(input@, pos as int, c) == (Outcome::Done { value: (), next: p as int })
                && p == pos + 1 && p <= input@.len(),
            Err(ParseError::Incomplete) => expect_byte(input@, pos as int, c) == Outcome::<
                (),
            >::Incomplete,
            Err(ParseError::Malformed) => expect_byte(input@, pos as int, c) == Outcome::<
                (),
            >::Malformed,
        },
{
    if pos >= input.len() {
        Err(ParseError::Incomplete)
    } else if input[pos] == c {
        Ok(pos + 1)
    } else {
        Err(ParseError::Malformed)
    }
}

/// Reads the byte `c` with white space around it.
fn spaced(input: &[u8], pos: usize, c: u8) -> (r: Result<usize, ParseError>)
    requires
        pos <= input@.len(),
    ensures
        match r {
            Ok(p) => spaced_byte(input@, pos as int, c) == (Outcome::Done { value: (), next: p as int })
                && pos < p < input@.len(),
            Err(ParseError::Incomplete) => spaced_byte(input@, pos as int, c) == Outcome::<
                (),
            >::Incomplete,
            Err(ParseError::Malformed) => spaced_byte(input@, pos as int, c) == Outcome::<
                (),
            >::Malformed,
        },
{
    let p = match skip(input, pos) {
        Some(p) => p,
        None => {
            return Err(ParseError::Incomplete);
        },
    };
    let q = match expect(input, p, c) {
        Ok(q) => q,
        Err(e) => {
            return Err(e);
        },
    };
    match skip(input, q) {
        Some(r) => Ok(r),
        None => Err(ParseError::Incomplete),
    }
}

/// Reads a numeral at `pos`.
fn read_number(input: &[u8], pos: usize) -> (r: Result<(usize, usize), ParseError>)
    requires
        pos <= input@.len(),
    ensures
        match r {
            Ok((v, p)) => number(input@, pos as int) == (Outcome::Done { value: v, next: p as int })
                && pos < p < input@.len(),
            Err(ParseError::Incomplete) => number(input@, pos as int) == Outcome::<
                usize,
            >::Incomplete,
            Err(ParseError::Malformed) => number(input@, pos as int) == Outcome::<usize>::Malformed,
        },
{
    if pos >= input.len() {
        return Err(ParseError::Incomplete);
    }
    if !(48 <= input[pos] && input[pos] <= 57) {
        return Err(ParseError::Malformed);
    }
    let mut value: usize = 0;
    let mut p = pos;
    while p < input.len()
        invariant
            pos <= p <= input@.len(),
            pos < input@.len(),
            is_digit(input@[pos as int]),
            p == pos || pos < p,
            digits_from(input@, p as int, value as nat) == digits_from(input@, pos as int, 0),
        decreases input.len() - p,
    {
        let b = input[p];
        if !(48 <= b && b <= 57) {
            return Ok((value, p));
        }
        let d = (b - 48) as usize;
        value = match value.checked_mul(10) {
            None => {
                return Err(ParseError::Malformed);
            },
            Some(t) => match t.checked_add(d) {
                None => {
                    return Err(ParseError::Malformed);
                },
                Some(v) => v,
            },
        };
        p += 1;
    }
    Err(ParseError::Incomplete)
}

/// Reads a numeral with white space around it.
fn read_spaced_number(input: &[u8], pos: usize) -> (r: Result<(usize, usize), ParseError>)
    requires
        pos <= input@.len(),
    ensures
        match r {
            Ok((v, p)) => spaced_number(input@, pos as int) == (Outcome::Done {
                value: v,
                next: p as int,
            }) && pos < p < input@.len(),
            Err(ParseError::Incomplete) => spaced_number(input@, pos as int) == Outcome::<
                usize,
            >::Incomplete,
            Err(ParseError::Malformed) => spaced_number(input@, pos as int) == Outcome::<
                usize,
            >::Malformed,
        },
{
    let p = match skip(input, pos) {
        Some(p) => p,
        None => {
            return Err(ParseError::Incomplete);
        },
    };
    let (v, q) = match read_number(input, p) {
        Ok(x) => x,
        Err(e) => {
            return Err(e);
        },
    };
    match skip(input, q) {
        Some(r) => Ok((v, r)),
        None => Err(ParseError::Incomplete),
    }
}

/// Reads a simplex at `pos`.
fn parse_simplex(input: &[u8], pos: usize) -> (r: Result<(Vec<usize>, usize), ParseError>)
    requires
        pos <= input@.len(),
    ensures
        match r {
            Ok((v, p)) => simplex_at(input@, pos as int) == (Outcome::Done { value: v@, next: p as int })
                && pos < p <= input@.len(),
            Err(ParseError::Incomplete) => simplex_at(input@, pos as int) == Outcome::<
                Seq<usize>,
            >::Incomplete,
            Err(ParseError::Malformed) => simplex_at(input@, pos as int) == Outcome::<
                Seq<usize>,
            >::Malformed,
        },
{
    let start = match spaced(input, pos, 91) {
        Ok(p) => p,
        Err(e) => {
            return Err(e);
        },
    };
    let (first, after) = match read_spaced_number(input, start) {
        Ok(x) => x,
        Err(e) => {
            return Err(e);
        },
    };
    let mut list: Vec<usize> = Vec::new();
    list.push(first);
    assert(list@ =~= seq![first]);
    let mut at = after;
    let mut open = true;
    while open
        invariant
            pos < at < input@.len(),
            spaced_byte(input@, pos as int, 91) == (Outcome::Done { value: (), next: start as int }),
            spaced_number(input@, start as int) == (Outcome::Done {
                value: first,
                next: after as int,
            }),
            number_tail(input@, at as int, list@) == number_tail(input@, after as int, seq![first]),
            !open ==> number_tail(input@, at as int, list@) == (Outcome::Done {
                value: list@,
                next: at as int,
            }),
        decreases input@.len() - at, (if open { 1int } else { 0int }),
    {
        match spaced(input, at, 44) {
            Err(ParseError::Incomplete) => {
                return Err(ParseError::Incomplete);
            },
            Err(ParseError::Malformed) => {
                open = false;
            },
            Ok(p) => match read_spaced_number(input, p) {
                Err(ParseError::Incomplete) => {
                    return Err(ParseError::Incomplete);
                },
                Err(ParseError::Malformed) => {
                    open = false;
                },
                Ok((v, q)) => {
                    list.push(v);
                    at = q;
                },
            },
        }
    }
    match expect(input, at, 93) {
        Ok(p) => Ok((list, p)),
        Err(e) => Err(e),
    }
}

/// Reads a simplex with white space around it.
fn parse_spaced_simplex(input: &[u8], pos: usize) -> (r: Result<(Vec<usize>, usize), ParseError>)
    requires
        pos <= input@.len(),
    ensures
        match r {
            Ok((v, p)) => spaced_simplex(input@, pos as int) == (Outcome::Done {
                value: v@,
                next: p as int,
            }) && pos < p < input@.len(),
            Err(ParseError::Incomplete) => spaced_simplex(input@, pos as int) == Outcome::<
                Seq<usize>,
            >::Incomplete,
            Err(ParseError::Malformed) => spaced_simplex(input@, pos as int) == Outcome::<
                Seq<usize>,
            >::Malformed,
        },
{
    let p = match skip(input, pos) {
        Some(p) => p,
        None => {
            return Err(ParseError::Incomplete);
        },
    };
    let (v, q) = match parse_simplex(input, p) {
        Ok(x) => x,
        Err(e) => {
            return Err(e);
        },
    };
    match skip(input, q) {
        Some(r) => Ok((v, r)),
        None => Err(ParseError::Incomplete),
    }
}

/// Reads a complex from the start of `input`: a list of simplices, each a
/// list of vertices. Returns the number of bytes read and the simplices.
///
/// Fails with `ParseError::Incomplete` when the input ends before the
/// complex does, and with `ParseError::Malformed` when it breaks the
/// grammar.
pub fn parse_complex_bytes(input: &[u8]) -> (r: Result<(usize, Vec<Vec<usize>>), ParseError>)
    ensures
        match r {
            Ok((p, v)) => complex_at(input@, 0) == (Outcome::Done {
                value: facets_of(v@),
                next: p as int,
            }) && p <= input@.len(),
            Err(ParseError::Incomplete) => complex_at(input@, 0) == Outcome::<
                Seq<Seq<usize>>,
            >::Incomplete,
            Err(ParseError::Malformed) => complex_at(input@, 0) == Outcome::<
                Seq<Seq<usize>>,
            >::Malformed,
        },
{
    let start = match spaced(input, 0, 91) {
        Ok(p) => p,
        Err(e) => {
            return Err(e);
        },
    };
    let (first, after) = match parse_spaced_simplex(input, start) {
        Ok(x) => x,
        Err(e) => {
            return Err(e);
        },
    };
    let ghost head = first@;
    let mut list: Vec<Vec<usize>> = Vec::new();
    list.push(first);
    assert(facets_of(list@) =~= seq![head]);
    let mut at = after;
    let mut open = true;
    while open
        invariant
            0 < at < input@.len(),
            spaced_byte(input@, 0, 91) == (Outcome::Done { value: (), next: start as int }),
            spaced_simplex(input@, start as int) == (Outcome::Done {
                value: head,
                next: after as int,
            }),
            simplex_tail(input@, at as int, facets_of(list@)) == simplex_tail(
                input@,
                after as int,
                seq![head],
            ),
            !open ==> simplex_tail(input@, at as int, facets_of(list@)) == (Outcome::Done {
                value: facets_of(list@),
                next: at as int,
            }),
        decreases input@.len() - at, (if open { 1int } else { 0int }),
    {
        match spaced(input, at, 44) {
            Err(ParseError::Incomplete) => {
                return Err(ParseError::Incomplete);
            },
            Err(ParseError::Malformed) => {
                open = false;
            },
            Ok(p) => match parse_spaced_simplex(input, p) {
                Err(ParseError::Incomplete) => {
                    return Err(ParseError::Incomplete);
                },
                Err(ParseError::Malformed) => {
                    open = false;
                },
                Ok((v, q)) => {
                    let ghost before = facets_of(list@);
                    let ghost item = v@;
                    list.push(v);
                    assert(facets_of(list@) =~= before.push(item));
                    at = q;
                },
            },
        }
    }
    match expect(input, at, 93) {
        Ok(p) => Ok((p, list)),
        Err(e) => Err(e),
    }
}

/// Reads a complex from the start of `input`, as `parse_complex_bytes`
/// does from its bytes.
pub fn parse_complex(input: &str) -> (r: Result<(usize, Vec<Vec<usize>>), ParseError>)
    ensures
        match r {
            Ok((p, v)) => complex_at(input.spec_bytes(), 0) == (Outcome::Done {
                value: facets_of(v@),
                next: p as int,
            }) && p <= input.spec_bytes().len(),
            Err(ParseError::Incomplete) => complex_at(input.spec_bytes(), 0) == Outcome::<
                Seq<Seq<usize>>,
            >::Incomplete,
            Err(ParseError::Malformed) => complex_at(input.spec_bytes(), 0) == Outcome::<
                Seq<Seq<usize>>,
            >::Malformed,
        },
{
    parse_complex_bytes(input.as_bytes())
}

} // verus!
