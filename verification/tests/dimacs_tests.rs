use dimacs::model::{Literal, Model, Sign};
use dimacs::{parse_digits, ParseError, Parser, Token};
use dimacs::render::push_dec;

fn parse_ok(text: &[u8]) -> Model {
    let mut parser = Parser::new(text.to_vec());
    let mut m = Model::new();
    let r = parser.parse_into(&mut m);
    assert!(r.is_ok(), "expected a successful parse, got {:?}", r);
    m
}

fn parse_err(text: &[u8]) -> (Model, ParseError) {
    let mut parser = Parser::new(text.to_vec());
    let mut m = Model::new();
    let r = parser.parse_into(&mut m);
    match r {
        Ok(()) => panic!("expected the parse to fail"),
        Err(e) => (m, e),
    }
}

fn lit(var: i64, sign: Sign) -> Literal {
    Literal { var, sign }
}

fn clause_of(m: &Model, i: usize) -> Vec<Literal> {
    let mut v = Vec::new();
    for j in 0..m.clause_len(i) {
        v.push(m.clause_lit(i, j));
    }
    v
}

#[test]
fn parses_simple_clause_in_order() {
    let m = parse_ok(b"1 -2 3 0\n");
    assert_eq!(m.num_clauses(), 1);
    assert_eq!(
        clause_of(&m, 0),
        vec![lit(1, Sign::Positive), lit(2, Sign::Negative), lit(3, Sign::Positive)]
    );
    assert_eq!(m.num_literals(), 3);
    assert_eq!(m.num_variables(), 3);
}

#[test]
fn comment_with_space_is_stripped() {
    let m = parse_ok(b"c hello\n");
    assert_eq!(m.num_comments(), 1);
    assert_eq!(m.comment_at(0), &b"hello".to_vec());
}

#[test]
fn comment_without_space_is_kept_whole() {
    let m = parse_ok(b"chello\n");
    assert_eq!(m.num_comments(), 1);
    assert_eq!(m.comment_at(0), &b"hello".to_vec());
}

#[test]
fn comment_extra_spaces_keep_all_but_one() {
    let m = parse_ok(b"c  two\n");
    assert_eq!(m.comment_at(0), &b" two".to_vec());
}

#[test]
fn marker_only_comment_is_empty() {
    let m = parse_ok(b"c\n");
    assert_eq!(m.num_comments(), 1);
    assert_eq!(m.comment_at(0), &Vec::new());
}

#[test]
fn marker_only_header_is_a_format_error() {
    let (_, e) = parse_err(b"p\n");
    assert_eq!(e, ParseError::FormatError);
}

#[test]
fn malformed_header_is_a_format_error() {
    let (_, e) = parse_err(b"p xyz 3 1\n");
    assert_eq!(e, ParseError::FormatError);
    let (_, e) = parse_err(b"pcnf 3 1\n");
    assert_eq!(e, ParseError::FormatError);
    let (_, e) = parse_err(b"p cnf\n");
    assert_eq!(e, ParseError::FormatError);
}

#[test]
fn header_counts_are_ignored_and_recomputed() {
    let m = parse_ok(b"p cnf 3 1\n1 0\n");
    assert_eq!(m.num_variables(), 1);
    assert_eq!(m.num_clauses(), 1);
    let out = m.render();
    assert_eq!(out, b"p cnf 1 1\n1 0\n".to_vec());
}

#[test]
fn render_then_reparse_reproduces_the_model() {
    let m = parse_ok(b"c a comment\np cnf 2 2\n1 -2 0\n2 0\n");
    let out = m.render();
    let m2 = parse_ok(&out);
    assert_eq!(m2.num_variables(), m.num_variables());
    assert_eq!(m2.num_literals(), m.num_literals());
    assert!(m2.contains_literal(lit(1, Sign::Positive)));
    assert!(m2.contains_literal(lit(2, Sign::Negative)));
    assert!(m2.contains_literal(lit(2, Sign::Positive)));
    assert_eq!(m2.num_clauses(), m.num_clauses());
    for i in 0..m.num_clauses() {
        assert_eq!(clause_of(&m2, i), clause_of(&m, i));
    }
    assert_eq!(m2.num_comments(), 1);
    assert_eq!(m2.comment_at(0), &b"a comment".to_vec());
    // Rendering once more gives the same bytes.
    assert_eq!(m2.render(), out);
}

#[test]
fn shared_literal_is_registered_once() {
    let m = parse_ok(b"1 0\n1 0\n");
    assert_eq!(m.num_literals(), 1);
    assert_eq!(m.num_variables(), 1);
    assert_eq!(m.num_clauses(), 2);
    assert_eq!(clause_of(&m, 0), vec![lit(1, Sign::Positive)]);
    assert_eq!(clause_of(&m, 1), vec![lit(1, Sign::Positive)]);
}

#[test]
fn unterminated_clause_is_discarded_not_merged() {
    let m = parse_ok(b"1 2\n3 0\n");
    assert_eq!(m.num_clauses(), 1);
    assert_eq!(clause_of(&m, 0), vec![lit(3, Sign::Positive)]);
    // The literal completed by a space on the dropped line was still
    // registered while scanning; the one cut off by the line end was not.
    assert!(m.contains_literal(lit(1, Sign::Positive)));
    assert!(!m.contains_literal(lit(2, Sign::Positive)));
    assert_eq!(m.num_literals(), 2);
}

#[test]
fn empty_line_is_an_error() {
    let (_, e) = parse_err(b"\n");
    assert_eq!(e, ParseError::EmptyLine);
    let (m, e) = parse_err(b"1 0\n\n");
    assert_eq!(e, ParseError::EmptyLine);
    assert_eq!(m.num_clauses(), 1);
}

#[test]
fn byte_outside_the_token_set_is_invalid() {
    let (_, e) = parse_err(b"x 0\n");
    assert_eq!(e, ParseError::InvalidToken);
    let (_, e) = parse_err(b"1 x 0\n");
    assert_eq!(e, ParseError::InvalidToken);
}

#[test]
fn marker_byte_inside_a_clause_line_is_invalid() {
    let (_, e) = parse_err(b"1 c 0\n");
    assert_eq!(e, ParseError::InvalidClause);
    let (_, e) = parse_err(b"1 p 0\n");
    assert_eq!(e, ParseError::InvalidClause);
}

#[test]
fn empty_digit_buffer_at_a_space_is_a_number_error() {
    let (_, e) = parse_err(b" 0\n");
    assert_eq!(e, ParseError::NumberFormatError);
    let (_, e) = parse_err(b"1  2 0\n");
    assert_eq!(e, ParseError::NumberFormatError);
}

#[test]
fn too_large_a_variable_is_a_number_error() {
    // Twenty nines exceed an i64; a zero digit cannot be used here, since a
    // zero byte would end the clause instead of joining the number.
    let (_, e) = parse_err(b"99999999999999999999 0\n");
    assert_eq!(e, ParseError::NumberFormatError);
}

#[test]
fn large_variable_still_parses() {
    let m = parse_ok(b"9123456789123456789 0\n");
    assert!(m.contains_literal(lit(9123456789123456789, Sign::Positive)));
    assert_eq!(clause_of(&m, 0), vec![lit(9123456789123456789, Sign::Positive)]);
}

#[test]
fn repeated_minus_saturates_to_negative() {
    let m = parse_ok(b"--1 0\n");
    assert_eq!(clause_of(&m, 0), vec![lit(1, Sign::Negative)]);
    let mut l = Literal::new();
    l.negate();
    assert_eq!(l.sign, Sign::Negative);
    l.negate();
    assert_eq!(l.sign, Sign::Negative);
}

#[test]
fn any_zero_byte_ends_the_clause() {
    // The zero inside "10" already terminates the (empty) pending clause;
    // the leading digit is then read as the variable one.
    let m = parse_ok(b"10 0\n");
    assert_eq!(m.num_clauses(), 2);
    assert_eq!(clause_of(&m, 0), vec![]);
    assert_eq!(clause_of(&m, 1), vec![lit(1, Sign::Positive)]);
}

#[test]
fn carriage_return_before_line_feed_is_stripped() {
    let m = parse_ok(b"c hi\r\n1 0\r\n");
    assert_eq!(m.comment_at(0), &b"hi".to_vec());
    assert_eq!(m.num_clauses(), 1);
    assert_eq!(clause_of(&m, 0), vec![lit(1, Sign::Positive)]);
}

#[test]
fn last_line_without_line_feed_still_counts() {
    let m = parse_ok(b"p cnf 0 0");
    assert_eq!(m.num_clauses(), 0);
    let m = parse_ok(b"1 0");
    assert_eq!(m.num_clauses(), 1);
}

#[test]
fn empty_input_parses_to_an_empty_model() {
    let m = parse_ok(b"");
    assert_eq!(m.num_comments(), 0);
    assert_eq!(m.num_variables(), 0);
    assert_eq!(m.num_clauses(), 0);
}

#[test]
fn failure_keeps_everything_parsed_before_it() {
    let (m, e) = parse_err(b"2 0\n1 x 0\n3 0\n");
    assert_eq!(e, ParseError::InvalidToken);
    // The first line's clause stays; the third line was never reached.
    assert_eq!(m.num_clauses(), 1);
    assert_eq!(clause_of(&m, 0), vec![lit(2, Sign::Positive)]);
    // The literal read before the bad byte of the failing line stays too.
    assert!(m.contains_literal(lit(1, Sign::Positive)));
}

#[test]
fn render_of_an_empty_model() {
    let m = Model::new();
    assert_eq!(m.render(), b"p cnf 0 0\n".to_vec());
}

#[test]
fn render_of_a_hand_built_model() {
    let mut m = Model::new();
    m.add_comment(b"built by hand".to_vec());
    let a = lit(1, Sign::Positive);
    let b = lit(2, Sign::Negative);
    m.add_literal(a);
    m.add_literal(b);
    let mut c = dimacs::model::Clause::new();
    c.push(a);
    c.push(b);
    m.add_clause(c);
    assert_eq!(m.render(), b"c built by hand\np cnf 2 1\n1 -2 0\n".to_vec());
}

#[test]
fn adding_a_literal_twice_registers_it_once() {
    let mut m = Model::new();
    let a = lit(7, Sign::Positive);
    m.add_literal(a);
    m.add_literal(a);
    assert_eq!(m.num_literals(), 1);
    assert_eq!(m.num_variables(), 1);
    // The same variable with the other sign is a distinct literal.
    m.add_literal(lit(7, Sign::Negative));
    assert_eq!(m.num_literals(), 2);
    assert_eq!(m.num_variables(), 1);
}

#[test]
fn token_bytes_and_chars() {
    assert_eq!(Token::Space.to_u8(), 32);
    assert_eq!(Token::Minus.to_u8(), 45);
    assert_eq!(Token::Digit0.to_u8(), 48);
    assert_eq!(Token::Digit9.to_u8(), 57);
    assert_eq!(Token::SmallC.to_u8(), 99);
    assert_eq!(Token::SmallP.to_u8(), 112);
    assert_eq!(Token::SmallC.to_char(), 'c');
    assert_eq!(Token::SmallP.to_char(), 'p');
    assert_eq!(Token::Digit5.to_char(), '5');
}

#[test]
fn token_classification_covers_exactly_the_set() {
    for b in 0u8..=255 {
        let r = Token::try_from_u8(b);
        let expected = b == 32 || b == 45 || (48..=57).contains(&b) || b == 99 || b == 112;
        assert_eq!(r.is_ok(), expected, "byte {}", b);
        if let Ok(t) = r {
            assert_eq!(t.to_u8(), b);
        } else {
            assert_eq!(r, Err(ParseError::InvalidToken));
        }
    }
}

#[test]
fn digit_buffers_parse_exactly() {
    assert_eq!(parse_digits(&b"123".to_vec()), Ok(123));
    assert_eq!(parse_digits(&b"9".to_vec()), Ok(9));
    assert_eq!(parse_digits(&Vec::new()), Err(ParseError::NumberFormatError));
    assert_eq!(parse_digits(&b"9223372036854775807".to_vec()), Ok(i64::MAX));
    assert_eq!(
        parse_digits(&b"9223372036854775808".to_vec()),
        Err(ParseError::NumberFormatError)
    );
}

#[test]
fn decimal_rendering_is_exact() {
    let mut v = Vec::new();
    push_dec(&mut v, 0);
    assert_eq!(v, b"0".to_vec());
    let mut v = Vec::new();
    push_dec(&mut v, 1234567890);
    assert_eq!(v, b"1234567890".to_vec());
    let mut v = b"x".to_vec();
    push_dec(&mut v, 42);
    assert_eq!(v, b"x42".to_vec());
}
