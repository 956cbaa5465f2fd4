use simplicial_homology::parser::{parse_complex, parse_complex_bytes, ParseError};

#[test]
fn test_parser() {
    let test_cases = vec![
        ("[[1, 2], [3, 4]]", vec![vec![1, 2], vec![3, 4]]),
        (
            "[ [3, 5, 7], [9]
        ]",
            vec![vec![3, 5, 7], vec![9]],
        ),
    ];
    for (str, res) in test_cases.iter() {
        assert_eq!(&parse_complex(str).unwrap().1, res);
    }
}

#[test]
fn parser_reports_what_it_read() {
    assert_eq!(parse_complex("[[1,2]]"), Ok((7, vec![vec![1, 2]])));
    assert_eq!(parse_complex("  [[1,2]] rest"), Ok((9, vec![vec![1, 2]])));
    assert_eq!(parse_complex("[[0]]]"), Ok((5, vec![vec![0]])));
    assert_eq!(
        parse_complex("\t[\r\n[ 10 ,\t20 ] , [ 007 ] ]"),
        Ok((27, vec![vec![10, 20], vec![7]]))
    );
    assert_eq!(parse_complex_bytes(b"[[1,2]]"), Ok((7, vec![vec![1, 2]])));
}

#[test]
fn parser_asks_for_more() {
    for text in ["", "  ", "[", "[[", "[[1", "[[1 ", "[[1,", "[[1, 2", "[[1, 2]", "[[1, 2] ", "[[1, 2],", "[[1],[2"] {
        assert_eq!(parse_complex(text), Err(ParseError::Incomplete), "{:?}", text);
    }
}

#[test]
fn parser_rejects() {
    for text in [
        "x", "[]", "[[]]", "[1]", "[[1,]]", "[[1,,2]]", "[[1 2]]", "[[1],]", "[[-1]]", "[[a]]",
        "[[1]x", "(1)", "[[1];", "[[18446744073709551616]]", "[[1],[]]", "[[1.5]]", "[[\u{e9}]]",
    ] {
        assert_eq!(parse_complex(text), Err(ParseError::Malformed), "{:?}", text);
    }
}

#[test]
fn parser_takes_the_largest_index() {
    let text = format!("[[{}]]", usize::MAX);
    assert_eq!(parse_complex(&text), Ok((text.len(), vec![vec![usize::MAX]])));
}

#[test]
fn printed_complex_is_read_back() {
    let lists = vec![
        vec![vec![0]],
        vec![vec![1, 2], vec![3, 4]],
        vec![vec![3, 5, 7], vec![9]],
        vec![vec![0, 10, 200, 3000], vec![usize::MAX], vec![5, 5]],
    ];
    for list in lists {
        let text = format!("{:?}", list);
        assert_eq!(parse_complex(&text), Ok((text.len(), list)));
    }
}
