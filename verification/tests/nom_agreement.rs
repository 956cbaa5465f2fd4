use nom::character::streaming::{char, multispace0, u64};
use nom::multi::separated_list1;
use nom::sequence::delimited;
use nom::IResult;
use simplicial_homology::parser::{parse_complex, ParseError};

fn spaced_char<'a>(c: char) -> impl FnMut(&'a str) -> IResult<&'a str, char> {
    delimited(multispace0, char(c), multispace0)
}

fn number(input: &str) -> IResult<&str, usize> {
    nom::combinator::map(delimited(multispace0, u64, multispace0), |x| x as usize)(input)
}

fn simplex(input: &str) -> IResult<&str, Vec<usize>> {
    delimited(spaced_char('['), separated_list1(spaced_char(','), number), char(']'))(input)
}

fn spaced_simplex(input: &str) -> IResult<&str, Vec<usize>> {
    delimited(multispace0, simplex, multispace0)(input)
}

fn complex(input: &str) -> IResult<&str, Vec<Vec<usize>>> {
    delimited(
        spaced_char('['),
        separated_list1(spaced_char(','), spaced_simplex),
        char(']'),
    )(input)
}

fn by_combinators(input: &str) -> Result<(usize, Vec<Vec<usize>>), ParseError> {
    match complex(input) {
        Ok((rest, list)) => Ok((input.len() - rest.len(), list)),
        Err(nom::Err::Incomplete(_)) => Err(ParseError::Incomplete),
        Err(_) => Err(ParseError::Malformed),
    }
}

fn agree(input: &str) {
    assert_eq!(parse_complex(input), by_combinators(input), "{:?}", input);
}

#[test]
fn agrees_with_combinators_on_complete_input() {
    for text in [
        "[[1, 2], [3, 4]]",
        "[ [3, 5, 7], [9]\n        ]",
        "[[0]]",
        "  [[1,2]] rest",
        "[[0]]]",
        "\t[\r\n[ 10 ,\t20 ] , [ 007 ] ]",
        "[[1],[2],[3]]x",
        "[[18446744073709551615]]",
        "[[1 , 2 ,3 ]   ,[4]]",
    ] {
        agree(text);
        assert!(parse_complex(text).is_ok(), "{:?}", text);
    }
}

#[test]
fn agrees_with_combinators_on_every_prefix() {
    let text = " [ [1, 4, 6],\n [12 ,2] ,[7]\t]  ";
    for end in 0..=text.len() {
        agree(&text[..end]);
    }
}

#[test]
fn agrees_with_combinators_on_broken_input() {
    for text in [
        "x", "[]", "[[]]", "[1]", "[[1,]]", "[[1,,2]]", "[[1 2]]", "[[1],]", "[[-1]]", "[[a]]",
        "[[1]x", "(1)", "[[1];", "[[18446744073709551616]]", "[[1],[]]", "[[1.5]]", "[[\u{e9}]]",
        "[[1], [2,]]", "[[1], 2]", "[[1]\u{a0}]", "[[99999999999999999999999]]", "[ , [1]]",
        "[[1] [2]]", "[[1]],", "]", ",", "[[1,\u{2003}2]]",
    ] {
        agree(text);
    }
}

#[test]
fn agrees_with_combinators_on_short_texts() {
    let alphabet = ['[', ']', ',', ' ', '1', '0', 'x'];
    let mut texts = vec![String::new()];
    for _ in 0..5 {
        let mut next = Vec::new();
        for t in texts.iter() {
            for c in alphabet.iter() {
                let mut u = t.clone();
                u.push(*c);
                next.push(u);
            }
        }
        for t in next.iter() {
            agree(t);
        }
        texts = next;
    }
    for tail in ["", "]", "]]", ",", ",1", ",1]", ",1]]", " ", "1]]", "],[1]]", "] , [ 0 ] ]"] {
        agree(&format!("[[1{}", tail));
    }
}
