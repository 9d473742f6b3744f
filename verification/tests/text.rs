use matmul::grid::ShapeError;
use matmul::matrix::Matrix;
use matmul::text::{format_matrix, parse_i32, parse_matrix, parse_row, parse_token, ParseError};

#[test]
fn parse_i32_accepts_decimal_numbers() {
    assert_eq!(parse_i32(b"0"), Some(0));
    assert_eq!(parse_i32(b"42"), Some(42));
    assert_eq!(parse_i32(b"-17"), Some(-17));
    assert_eq!(parse_i32(b"+8"), Some(8));
    assert_eq!(parse_i32(b"007"), Some(7));
    assert_eq!(parse_i32(b"-0"), Some(0));
    assert_eq!(parse_i32(b"2147483647"), Some(i32::MAX));
    assert_eq!(parse_i32(b"-2147483648"), Some(i32::MIN));
    assert_eq!(parse_i32(b"0000000000000000000001"), Some(1));
}

#[test]
fn parse_i32_rejects_everything_else() {
    assert_eq!(parse_i32(b""), None);
    assert_eq!(parse_i32(b"-"), None);
    assert_eq!(parse_i32(b"+"), None);
    assert_eq!(parse_i32(b"1.5"), None);
    assert_eq!(parse_i32(b"12a"), None);
    assert_eq!(parse_i32(b"--1"), None);
    assert_eq!(parse_i32(b"1 "), None);
    assert_eq!(parse_i32(b"2147483648"), None);
    assert_eq!(parse_i32(b"-2147483649"), None);
    assert_eq!(parse_i32(b"99999999999999999999999999"), None);
}

#[test]
fn parse_i32_agrees_with_the_standard_parser() {
    let tokens = [
        "0", "1", "-1", "+1", "10", "-10", "2147483647", "2147483648", "-2147483648",
        "-2147483649", "", "-", "+", "+-1", "1e3", "0x10", "12_3", "٣", "00", "-00012",
    ];
    for token in tokens {
        assert_eq!(parse_i32(token.as_bytes()), token.parse::<i32>().ok(), "{:?}", token);
    }
}

#[test]
fn parse_token_reads_a_range() {
    assert_eq!(parse_token(b"ab-12cd", 2, 5), Some(-12));
    assert_eq!(parse_token(b"ab-12cd", 2, 6), None);
    assert_eq!(parse_token(b"ab-12cd", 3, 3), None);
}

#[test]
fn parse_row_splits_at_white_space() {
    assert_eq!(parse_row(b"1 2 3", 0, 5), Some(vec![1, 2, 3]));
    assert_eq!(parse_row(b"  1\t-2 \r", 0, 8), Some(vec![1, -2]));
    assert_eq!(parse_row(b"1 2 3", 2, 5), Some(vec![2, 3]));
    assert_eq!(parse_row(b"", 0, 0), Some(vec![]));
    assert_eq!(parse_row(b"   ", 0, 3), Some(vec![]));
    assert_eq!(parse_row(b"1 x 3", 0, 5), None);
}

#[test]
fn parse_matrix_reads_rows() {
    let m = parse_matrix(b"1 2 3\n4 5 6\n").unwrap();
    assert_eq!(m.rows(), 2);
    assert_eq!(m.cols(), 3);
    assert_eq!(m.into_vec(), vec![1, 2, 3, 4, 5, 6]);
}

#[test]
fn parse_matrix_accepts_both_spellings() {
    let expected = Matrix::from_vec(2, 2, vec![1, -2, 3, 4]).unwrap();
    assert_eq!(parse_matrix(b"1 -2\n3 4\n"), Ok(expected.clone()));
    assert_eq!(parse_matrix(b"1 -2 \n3 4 \n"), Ok(expected.clone()));
    assert_eq!(parse_matrix(b"1 -2\n3 4"), Ok(expected.clone()));
    assert_eq!(parse_matrix(b"1 -2\r\n3 4\r\n"), Ok(expected.clone()));
    assert_eq!(parse_matrix(b"  1\t-2\n3   4\n"), Ok(expected));
}

#[test]
fn parse_matrix_rejects_malformed_fields() {
    assert_eq!(parse_matrix(b"1 2\n3 x\n"), Err(ParseError::Malformed));
    assert_eq!(parse_matrix(b"1.0 2.0\n"), Err(ParseError::Malformed));
    assert_eq!(parse_matrix(b"1 2\n3 99999999999\n"), Err(ParseError::Malformed));
    assert_eq!(parse_matrix(b"x\n\n"), Err(ParseError::Malformed));
}

#[test]
fn parse_matrix_rejects_bad_shapes() {
    assert_eq!(parse_matrix(b""), Err(ParseError::Shape(ShapeError::Empty)));
    assert_eq!(parse_matrix(b"\n"), Err(ParseError::Shape(ShapeError::Empty)));
    assert_eq!(parse_matrix(b"\n1 2\n"), Err(ParseError::Shape(ShapeError::Empty)));
    assert_eq!(parse_matrix(b"1 2\n3\n"), Err(ParseError::Shape(ShapeError::Ragged)));
    assert_eq!(parse_matrix(b"1 2\n3 4 5\n"), Err(ParseError::Shape(ShapeError::Ragged)));
    assert_eq!(parse_matrix(b"1 2\n\n3 4\n"), Err(ParseError::Shape(ShapeError::Ragged)));
    assert_eq!(parse_matrix(b"1 2\n3 4\n\n"), Err(ParseError::Shape(ShapeError::Ragged)));
}

#[test]
fn format_matrix_joined() {
    let m = Matrix::from_vec(2, 3, vec![1, -2, 30, 0, 5, i32::MIN]).unwrap();
    assert_eq!(format_matrix(&m, false), b"1 -2 30\n0 5 -2147483648\n".to_vec());
}

#[test]
fn format_matrix_trailing() {
    let m = Matrix::from_vec(2, 2, vec![19, 22, 43, i32::MAX]).unwrap();
    assert_eq!(format_matrix(&m, true), b"19 22 \n43 2147483647 \n".to_vec());
}

#[test]
fn format_matrix_without_entries() {
    assert_eq!(format_matrix(&Matrix::new(0, 3), false), Vec::<u8>::new());
    assert_eq!(format_matrix(&Matrix::new(2, 0), true), b"\n\n".to_vec());
}

#[test]
fn text_round_trip() {
    let m = Matrix::from_vec(3, 2, vec![0, -1, i32::MAX, i32::MIN, 1000, -999]).unwrap();
    assert_eq!(parse_matrix(&format_matrix(&m, false)), Ok(m.clone()));
    assert_eq!(parse_matrix(&format_matrix(&m, true)), Ok(m));
}
