use pumpkin_core::dimacs::{parse_cnf, parse_wcnf, DimacsParseError};

fn parse_cnf_source(source: &str) -> Vec<Vec<i32>> {
    parse_cnf(source.as_bytes()).expect("valid dimacs").hard
}

fn get_cnf_parse_error(source: &str) -> DimacsParseError {
    parse_cnf(source.as_bytes()).expect_err("invalid dimacs")
}

fn parse_wcnf_source(source: &str) -> (Vec<(u32, i32)>, Vec<Vec<i32>>) {
    let formula = parse_wcnf(source.as_bytes()).expect("valid dimacs");
    let objective = formula
        .soft
        .iter()
        .map(|(weight, clause)| {
            assert_eq!(1, clause.len(), "in test instances use unit soft clauses");
            (*weight, clause[0])
        })
        .collect();
    (objective, formula.hard)
}

#[test]
fn basic_instance_is_read() {
    let source = "p cnf 2 2\n1 -2 0\n-1 2 0";
    let formula = parse_cnf_source(source);

    assert_eq!(vec![vec![1, -2], vec![-1, 2]], formula);
}

#[test]
fn instance_with_two_character_codes_is_accepted() {
    let source = "p cnf 11 2\n1 -2 10 0\n-1 2 -11 0";
    let formula = parse_cnf_source(source);

    assert_eq!(vec![vec![1, -2, 10], vec![-1, 2, -11]], formula);
}

#[test]
fn trailing_whitespace_is_ignored() {
    let source = "p cnf 2 2\n1 -2 0\n-1 2 0\n";
    let formula = parse_cnf_source(source);

    assert_eq!(vec![vec![1, -2], vec![-1, 2]], formula);
}

#[test]
fn comments_are_ignored() {
    let source = "c this is\nc a comment\np cnf 2 2\n1 -2 0\nc within the file\n-1 2 0\n";
    let formula = parse_cnf_source(source);

    assert_eq!(vec![vec![1, -2], vec![-1, 2]], formula);
}

#[test]
fn whitespace_is_ignored() {
    let source = r#"
            p cnf 2 2
             1 -2 0
            -1  2 0
        "#;

    let formula = parse_cnf_source(source);

    assert_eq!(vec![vec![1, -2], vec![-1, 2]], formula);
}

#[test]
fn empty_lines_are_ignored() {
    let source = r#"

            p cnf 2 2


             1 -2 0

            -1  2 0
        "#;

    let formula = parse_cnf_source(source);

    assert_eq!(vec![vec![1, -2], vec![-1, 2]], formula);
}

#[test]
fn clauses_on_same_line_are_separated() {
    let source = "p cnf 2 2\n1 -2 0 -1 2 0";
    let formula = parse_cnf_source(source);

    assert_eq!(vec![vec![1, -2], vec![-1, 2]], formula);
}

#[test]
fn new_lines_do_not_terminate_clause() {
    let source = "p cnf 2 2\n1\n-2 0 -1 2\n 0";
    let formula = parse_cnf_source(source);

    assert_eq!(vec![vec![1, -2], vec![-1, 2]], formula);
}

#[test]
fn weighted_maxsat_is_parsed_correctly() {
    let source = r#"
            p wcnf 2 4 3
            3  1 -2 0
            3 -1  2 0
            2 1 0
            1 2 0
        "#;

    let (objective, formula) = parse_wcnf_source(source);

    assert_eq!(vec![vec![1, -2], vec![-1, 2]], formula);
    assert_eq!(vec![(2, 1), (1, 2)], objective);
}

#[test]
fn negative_zero_is_an_unexpected_sequence() {
    let source = "p cnf 2 1\n1 -2 -0";
    let err = get_cnf_parse_error(source);

    assert!(matches!(err, DimacsParseError::UnexpectedCharacter('0')));
}

#[test]
fn incomplete_clause_causes_error() {
    let source = "p cnf 2 1\n1 -2";
    let err = get_cnf_parse_error(source);

    assert!(matches!(err, DimacsParseError::UnterminatedClause));
}

#[test]
fn incorrect_reported_clause_count() {
    let source = "p cnf 2 2\n1 -2 0";
    let err = get_cnf_parse_error(source);

    assert!(matches!(
        err,
        DimacsParseError::IncorrectClauseCount {
            expected: 2,
            parsed: 1
        }
    ));
}
