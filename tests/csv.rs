use csvparser::{Csv, Lexer, LineEnd, ParseError, Token};

fn parse(s: &str, header: bool) -> Csv {
    match Csv::parse(s, header) {
        Ok(c) => c,
        Err(e) => panic!("{:?}", e),
    }
}

fn row(c: &Csv, r: usize) -> Vec<String> {
    c.vals(r).into_iter().map(|s| s.to_string()).collect()
}

#[test]
fn header_and_one_data_row() {
    let c = parse("a,b\r\n1,2\r\n", true);
    assert_eq!(c.header(0), Some("a"));
    assert_eq!(c.header(1), Some("b"));
    assert_eq!(c.header(2), None);
    assert_eq!(c.rows(), 1);
    assert_eq!(row(&c, 0), vec!["1", "2"]);
    assert_eq!(c.to_string(), "a,b\r\n1,2\r\n");
}

#[test]
fn quoted_cell_with_comma() {
    let c = parse("\"x,y\",z", false);
    assert_eq!(c.rows(), 1);
    assert_eq!(row(&c, 0), vec!["x,y", "z"]);
    assert_eq!(c.to_string(), "\"x,y\",z");
}

#[test]
fn doubled_quote_inside_quotes() {
    let c = parse("a,\"b\"\"c\"", false);
    assert_eq!(row(&c, 0), vec!["a", "b\"c"]);
    assert_eq!(c.to_string(), "a,\"b\"\"c\"");
}

#[test]
fn set_val_quotes_a_value_with_a_comma() {
    let mut c = parse("a,b\n", false);
    assert!(c.set_val(0, 0, "has,comma"));
    assert_eq!(row(&c, 0), vec!["has,comma", "b"]);
    assert_eq!(c.to_string(), "\"has,comma\",b\n");
}

#[test]
fn unterminated_quote_fails_at_the_open_quote() {
    match Csv::parse("a,\"b", false) {
        Err(ParseError::UnclosedQuote { start }) => assert_eq!(start, 2),
        other => panic!("{:?}", other.map(|c| c.to_string())),
    }
}

#[test]
fn column_past_the_last_is_empty() {
    let c = parse("a,b\n1,2\n", false);
    assert!(c.cols(5).is_empty());
    assert_eq!(c.cols(1), vec!["b", "2"]);
}

#[test]
fn round_trips() {
    let inputs = [
        "",
        "a",
        "a\n",
        "a\r",
        "a\r\n",
        "a\rb\n",
        "a\r\rb",
        "\n\n",
        "\r\n\r\n",
        ",,\n,",
        "\"\"",
        "\"a\nb\",\"c\r\nd\"\r\n",
        "\"q\"\"\"\"\",x",
        "é,ü\nñ,\"ö\"",
        "1,2,3\n4\n5,6\n",
    ];
    for s in inputs.iter() {
        for header in [false, true] {
            if let Ok(c) = Csv::parse(s, header) {
                assert_eq!(c.to_string(), *s);
            } else {
                assert!(header);
            }
        }
    }
}

#[test]
fn rendering_twice_is_stable() {
    let s = "h1,\"h,2\"\r\nx,\"y\"\"z\"\r\n";
    let once = parse(s, true).to_string();
    let twice = parse(&once, true).to_string();
    assert_eq!(once, twice);
    assert_eq!(once, s);
}

#[test]
fn quoted_cell_stays_quoted() {
    let mut c = parse("\"a\",b", false);
    assert!(c.set_val(0, 0, "plain"));
    assert_eq!(c.to_string(), "\"plain\",b");
    assert!(c.set_val(0, 1, "q\"r"));
    assert_eq!(c.to_string(), "\"plain\",\"q\"\"r\"");
    assert!(c.set_val(0, 1, "s"));
    assert_eq!(c.to_string(), "\"plain\",\"s\"");
}

#[test]
fn set_val_with_line_breaks_quotes() {
    let mut c = parse("a,b", false);
    assert!(c.set_val(0, 1, "x\ry"));
    assert!(c.set_val(0, 0, "p\nq"));
    assert_eq!(c.to_string(), "\"p\nq\",\"x\ry\"");
    let back = parse(&c.to_string(), false);
    assert_eq!(row(&back, 0), vec!["p\nq", "x\ry"]);
}

#[test]
fn set_val_out_of_range() {
    let mut c = parse("a,b\nc\n", false);
    assert!(!c.set_val(1, 1, "x"));
    assert!(!c.set_val(2, 0, "x"));
    assert_eq!(c.to_string(), "a,b\nc\n");
}

#[test]
fn ragged_rows() {
    let c = parse("1,2,3\n4\n5,6\n", false);
    assert_eq!(c.rows(), 3);
    assert_eq!(c.max_cols(), 3);
    assert_eq!(c.cols(0), vec!["1", "4", "5"]);
    assert_eq!(c.cols(1), vec!["2", "6"]);
    assert_eq!(c.cols(2), vec!["3"]);
    for col in 0..10 {
        assert!(c.cols(col).len() <= c.rows());
    }
    assert!(c.vals(7).is_empty());
}

#[test]
fn final_row_without_line_end() {
    let c = parse("a,b\nc,d", false);
    assert_eq!(c.rows(), 2);
    assert_eq!(row(&c, 1), vec!["c", "d"]);
    let out = c.to_string();
    assert_eq!(out, "a,b\nc,d");
    assert!(!out.ends_with('\n'));
}

#[test]
fn final_line_end_belongs_to_last_row() {
    let c = parse("a\nb\n", false);
    assert_eq!(c.rows(), 2);
    let c = parse("a\r", false);
    assert_eq!(c.rows(), 2);
    assert_eq!(row(&c, 1), vec![""]);
    let c = parse("", false);
    assert_eq!(c.rows(), 1);
    assert_eq!(c.max_cols(), 1);
}

#[test]
fn stray_quote_in_unquoted_field() {
    match Csv::parse("ab\"c", false) {
        Err(ParseError::UnexpectedToken { start, token, end }) => {
            assert_eq!((start, end), (2, 3));
            assert!(matches!(token, Token::DQUOTE));
        }
        other => panic!("{:?}", other.map(|c| c.to_string())),
    }
}

#[test]
fn text_after_closing_quote() {
    match Csv::parse("x\n\"a\"bc,d", false) {
        Err(ParseError::UnexpectedToken { start, token, end }) => {
            assert_eq!((start, end), (5, 7));
            assert_eq!(token.to_string(), "TEXTDATA(\"bc\")");
        }
        other => panic!("{:?}", other.map(|c| c.to_string())),
    }
}

#[test]
fn error_offsets_count_bytes() {
    match Csv::parse("é\"", false) {
        Err(ParseError::UnexpectedToken { start, end, .. }) => assert_eq!((start, end), (2, 3)),
        other => panic!("{:?}", other.map(|c| c.to_string())),
    }
    match Csv::parse("ü,\"é", false) {
        Err(ParseError::UnclosedQuote { start }) => assert_eq!(start, 3),
        other => panic!("{:?}", other.map(|c| c.to_string())),
    }
}

#[test]
fn header_needs_a_line_end() {
    match Csv::parse("a,b", true) {
        Err(ParseError::UnexpectedEof { location }) => assert_eq!(location, 3),
        other => panic!("{:?}", other.map(|c| c.to_string())),
    }
    let c = parse("a,b\n", true);
    assert_eq!(c.header(1), Some("b"));
    assert_eq!(c.rows(), 1);
    assert_eq!(c.to_string(), "a,b\n");
}

#[test]
fn without_header_first_row_is_data() {
    let c = parse("a,b\r\n1,2\r\n", false);
    assert_eq!(c.header(0), None);
    assert_eq!(c.rows(), 2);
}

#[test]
fn parse_variants_agree() {
    let s = "a,b\n1,2";
    assert_eq!(Csv::parse_with_header(s).unwrap().to_string(), s);
    assert_eq!(Csv::parse_without_header(s).unwrap().rows(), 2);
}

#[test]
fn insert_row_uses_prevailing_line_end() {
    let mut c = parse("a\r\nb\r\n", false);
    assert!(c.insert_row(1));
    assert_eq!(c.to_string(), "a\r\n\r\nb\r\n");
    assert!(c.insert_row(3));
    assert_eq!(c.to_string(), "a\r\n\r\nb\r\n\r\n");
    assert!(!c.insert_row(9));
    assert_eq!(c.rows(), 4);
}

#[test]
fn insert_after_unterminated_last_row() {
    let mut c = parse("h\na", true);
    assert!(c.insert_row(1));
    assert_eq!(c.to_string(), "h\na\n\n");
    assert!(c.set_val(1, 0, "b"));
    assert_eq!(c.to_string(), "h\na\nb\n");
}

#[test]
fn remove_rows() {
    let mut c = parse("a\nb\nc", false);
    assert!(!c.remove_row(3));
    assert!(c.remove_row(2));
    assert_eq!(c.to_string(), "a\nb");
    assert!(c.remove_row(0));
    assert_eq!(c.to_string(), "b");
    assert!(c.remove_row(0));
    assert_eq!(c.rows(), 0);
    assert_eq!(c.max_cols(), 0);
    assert_eq!(c.to_string(), "");
}

#[test]
fn remove_keeps_terminated_last_row() {
    let mut c = parse("a\nb\n", false);
    assert!(c.remove_row(1));
    assert_eq!(c.to_string(), "a\n");
}

#[test]
fn lexer_tokens() {
    let mut lx = Lexer::new("a,\"b\"\r\nc\r\rd\n");
    let mut got = Vec::new();
    while let Some((s, t, e)) = lx.next() {
        got.push((s, t.to_owned().to_string(), e));
    }
    let want = vec![
        (0, "TEXTDATA(\"a\")", 1),
        (1, "COMMA", 2),
        (2, "DQUOTE", 3),
        (3, "TEXTDATA(\"b\")", 4),
        (4, "DQUOTE", 5),
        (5, "CRLF", 7),
        (7, "TEXTDATA(\"c\")", 8),
        (8, "CR", 9),
        (9, "CR", 10),
        (10, "TEXTDATA(\"d\")", 11),
        (11, "LF_BEFORE_EOF", 12),
    ];
    let got: Vec<(usize, &str, usize)> = got.iter().map(|(s, t, e)| (*s, t.as_str(), *e)).collect();
    assert_eq!(got, want);
}

#[test]
fn lexer_line_ends_at_the_end() {
    let mut lx = Lexer::new("x\r\n");
    assert!(matches!(lx.next(), Some((0, Token::TEXTDATA("x"), 1))));
    assert!(matches!(lx.next(), Some((1, Token::CRLF_BEFORE_EOF, 3))));
    assert!(lx.next().is_none());
    let mut lx = Lexer::new("\n,");
    assert!(matches!(lx.next(), Some((0, Token::LF, 1))));
}

#[test]
fn token_names() {
    assert_eq!(Token::<String>::COMMA.to_string(), "COMMA");
    assert_eq!(Token::<String>::CRLF_BEFORE_EOF.to_string(), "CRLF_BEFORE_EOF");
    assert_eq!(Token::TEXTDATA("a\tb".to_string()).to_string(), "TEXTDATA(\"a\\tb\")");
    assert_eq!(Token::TEXTDATA("é".to_string()).to_string(), "TEXTDATA(\"é\")");
    assert_eq!(csvparser::lex::text_token_name("\"q\""), "TEXTDATA(\"q\")");
}

#[test]
fn cell_and_row_rendering() {
    let c = parse("\"a\"\"b\",c", false);
    assert_eq!(LineEnd::CrLf.as_str(), "\r\n");
    assert_eq!(c.vals(0), vec!["a\"b", "c"]);
    assert_eq!(c.to_string(), "\"a\"\"b\",c");
}

#[test]
fn insert_into_emptied_table() {
    let mut c = parse("a\nb", false);
    assert!(c.remove_row(0));
    assert!(c.remove_row(0));
    assert!(c.insert_row(0));
    assert_eq!(c.rows(), 1);
    assert_eq!(c.to_string(), "\r\n");
    let mut h = parse("x\ry", true);
    assert!(h.remove_row(0));
    assert!(h.insert_row(0));
    assert_eq!(h.to_string(), "x\r\r");
}
