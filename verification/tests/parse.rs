use tsp_solver::model::INF;
use tsp_solver::parse::{parse_input, ParseError};
use tsp_solver::solver::TSPSolver;

fn parse(text: &str) -> Result<Vec<Vec<i32>>, ParseError> {
    parse_input(&text.as_bytes().to_vec())
}

#[test]
fn parses_matrix_format() {
    let text = "4\n0 10 15 20\n10 0 35 25\n15 35 0 30\n20 25 30 0\n";
    let matrix = parse(text).expect("well-formed matrix input");
    assert_eq!(matrix.len(), 4);
    assert_eq!(matrix[0], vec![0, 10, 15, 20]);
    assert_eq!(matrix[3], vec![20, 25, 30, 0]);
}

#[test]
fn parses_inf_tokens() {
    let text = "2\n0 INF\ninf 0\n";
    let matrix = parse(text).expect("INF tokens are accepted");
    assert_eq!(matrix[0][1], INF);
    assert_eq!(matrix[1][0], INF);
    let text2 = "2\n0 \u{221e}\n\u{221e} 0\n";
    let matrix2 = parse(text2).expect("the infinity sign is accepted");
    assert_eq!(matrix2[0][1], INF);
    assert_eq!(matrix2[1][0], INF);
}

#[test]
fn parses_edge_format() {
    let text = "3\n0 1 5\n1 2 7\n";
    let matrix = parse(text).expect("well-formed edge input");
    assert_eq!(matrix.len(), 3);
    // Undirected edges, zero diagonal, sentinel elsewhere.
    assert_eq!(matrix[0][1], 5);
    assert_eq!(matrix[1][0], 5);
    assert_eq!(matrix[1][2], 7);
    assert_eq!(matrix[2][1], 7);
    assert_eq!(matrix[0][0], 0);
    assert_eq!(matrix[0][2], INF);
    assert_eq!(matrix[2][0], INF);
}

#[test]
fn parse_then_solve_round_trip() {
    let text = "4\n0 10 15 20\n10 0 35 25\n15 35 0 30\n20 25 30 0\n";
    let matrix = parse(text).expect("well-formed matrix input");
    let mut solver = TSPSolver::new(matrix).expect("parsed matrix is valid");
    let (cost, path) = solver.solve();
    assert_eq!(cost, 80);
    assert_eq!(path, vec![0, 1, 3, 2, 0]);
}

#[test]
fn rejects_empty_input() {
    assert_eq!(parse("").err(), Some(ParseError::EmptyInput));
    assert_eq!(parse("  \n \t \n").err(), Some(ParseError::EmptyInput));
}

#[test]
fn rejects_bad_city_count() {
    assert_eq!(parse("abc\n0\n").err(), Some(ParseError::InvalidCityCount));
    assert_eq!(parse("2 3\n").err(), Some(ParseError::InvalidCityCount));
}

#[test]
fn rejects_zero_cities() {
    assert_eq!(parse("0\n").err(), Some(ParseError::ZeroCities));
}

#[test]
fn rejects_wrong_row_length() {
    let text = "2\n0 1\n1 0 2\n";
    assert_eq!(
        parse(text).err(),
        Some(ParseError::WrongRowLength { row: 1, found: 3, expected: 2 })
    );
}

#[test]
fn rejects_invalid_matrix_number() {
    let text = "2\n0 x\n1 0\n";
    assert_eq!(parse(text).err(), Some(ParseError::InvalidNumber { row: 0 }));
}

#[test]
fn rejects_malformed_edge() {
    let text = "3\n0 1\n";
    assert_eq!(parse(text).err(), Some(ParseError::MalformedEdge { line: 0 }));
}

#[test]
fn rejects_invalid_edge_number() {
    let text = "3\n0 1 x\n";
    assert_eq!(parse(text).err(), Some(ParseError::InvalidEdgeNumber { line: 0, field: 2 }));
    let text2 = "3\ny 1 5\n";
    assert_eq!(parse(text2).err(), Some(ParseError::InvalidEdgeNumber { line: 0, field: 0 }));
    let text3 = "3\n0 y 5\n";
    assert_eq!(parse(text3).err(), Some(ParseError::InvalidEdgeNumber { line: 0, field: 1 }));
}

#[test]
fn rejects_out_of_range_city() {
    let text = "3\n0 3 5\n";
    assert_eq!(parse(text).err(), Some(ParseError::CityIndexOutOfRange { line: 0 }));
}

#[test]
fn negative_weights_parse_but_solver_rejects() {
    let text = "2\n0 -5\n-5 0\n";
    let matrix = parse(text).expect("negative numbers are numbers");
    assert_eq!(matrix[0][1], -5);
    assert!(TSPSolver::new(matrix).is_err());
}

#[test]
fn matrix_entries_equal_tokens() {
    let matrix = parse("2\n0 INF\n3 0").expect("asymmetric matrix input is accepted");
    assert_eq!(matrix, vec![vec![0, 1073741823], vec![3, 0]]);
}

#[test]
fn edge_format_exact_matrix() {
    let matrix = parse("3\n0 1 4\n1 2 5").expect("well-formed edge input");
    assert_eq!(
        matrix,
        vec![
            vec![0, 4, 1073741823],
            vec![4, 0, 5],
            vec![1073741823, 5, 0],
        ]
    );
}

#[test]
fn later_edge_lines_overwrite_earlier() {
    let matrix = parse("2\n0 1 5\n0 1 7\n1 0 9").expect("repeated edges are accepted");
    assert_eq!(matrix[0][1], 9);
    assert_eq!(matrix[1][0], 9);
}

#[test]
fn signed_and_padded_numbers() {
    let matrix = parse("2\n0 +007\n-3 0").expect("signs and leading zeros are numbers");
    assert_eq!(matrix, vec![vec![0, 7], vec![-3, 0]]);
}
