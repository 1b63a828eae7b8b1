use simplex_lp::rat::Rat;
use simplex_lp::slack::{InitializationResult, Leaving, SimplexRound, SlackFormLP};

fn r(n: i64, d: i64) -> Rat {
    Rat::new(n, d)
}

fn ri(n: i64) -> Rat {
    Rat::from_int(n)
}

#[test]
fn forms_slack_slackformlp_empty_matrix_a() {
    let a = Vec::new();
    let b = vec![r(38, 10)];
    let c = vec![r(12, 10)];

    let err = SlackFormLP::new(a, b, c).unwrap_err();

    assert_eq!(err, "Matrix 'A' should not be empty".to_string());
}

#[test]
fn forms_slack_slackformlp_empty_vector_b() {
    let a = vec![vec![r(1, 10)]];
    let b = Vec::new();
    let c = vec![r(12, 10)];

    let err = SlackFormLP::new(a, b, c).unwrap_err();

    assert_eq!(err, "Vector 'b' should not be empty".to_string());
}

#[test]
fn forms_slack_slackformlp_empty_vector_c() {
    let a = vec![vec![r(1, 10)]];
    let b = vec![r(12, 10)];
    let c = Vec::new();

    let err = SlackFormLP::new(a, b, c).unwrap_err();

    assert_eq!(err, "Vector 'c' should not be empty".to_string());
}

#[test]
fn forms_slack_slackformlp_mismatch_matrix_a_vector_c() {
    let a = vec![Vec::new()];
    let b = vec![r(12, 10)];
    let c = vec![r(129, 10), r(101, 10)];

    let err = SlackFormLP::new(a, b, c).unwrap_err();

    assert_eq!(
        err,
        "Matrix 'A' rows count does not match with vector 'c' size (0 != 2)".to_string()
    );
}

#[test]
fn forms_slack_slackformlp_mismatch_matrix_a() {
    let a = vec![vec![r(1239, 100), r(101, 10)], vec![r(11, 10)]];
    let b = vec![r(12, 10)];
    let c = vec![r(129, 10), r(101, 10)];

    let err = SlackFormLP::new(a, b, c).unwrap_err();

    assert_eq!(
        err,
        "Each and every row in the matrix 'A' should have the same size".to_string()
    );
}

#[test]
fn forms_slack_slackformlp_mismatch_matrix_a_vector_b() {
    let a = vec![vec![r(1239, 100), r(101, 10)], vec![r(11, 10), r(9, 10)]];
    let b = vec![r(12, 10)];
    let c = vec![r(129, 10), r(101, 10)];

    let err = SlackFormLP::new(a, b, c).unwrap_err();

    assert_eq!(
        err,
        "Matrix 'A' columns count does not match with vector 'b' size (2 != 1)".to_string()
    );
}

#[test]
fn forms_slack_slackformlp_should_be_created() {
    let a = vec![vec![r(1239, 100), r(101, 10)], vec![r(11, 10), r(9, 10)]];
    let b = vec![r(12, 10), r(88, 10)];
    let c = vec![r(129, 10), r(101, 10)];

    let slack_form = SlackFormLP::new(a, b, c);

    assert!(slack_form.is_ok());
}

fn leaving_fixture() -> SlackFormLP {
    SlackFormLP::from_parts(
        vec![2, 1, 0, 3, 4],
        vec![6, 7, 5],
        vec![
            vec![r(-1, 10), r(2, 10), r(5, 10), r(4, 10), r(-15, 10)],
            vec![ri(-1), ri(-2), r(-5, 10), ri(4), r(-25, 10)],
            vec![ri(-10), ri(20), r(-1, 10), ri(40), ri(-2)],
        ],
        vec![r(15, 10), r(25, 10), r(-35, 10)],
        vec![ri(3), ri(-2), ri(5), ri(-6)],
        ri(0),
        5,
    )
}

#[test]
fn non_public_forms_slack_slackformlp_find_leaving() {
    let lp_slack = leaving_fixture();

    assert_eq!(lp_slack.find_leaving(0), Ok(Leaving::Info(r(25, 10), 1, 7)));
    assert_eq!(lp_slack.find_leaving(1), Ok(Leaving::Info(r(125, 100), 1, 7)));
    assert_eq!(lp_slack.find_leaving(2), Ok(Leaving::Info(ri(5), 1, 7)));
    assert_eq!(lp_slack.find_leaving(3), Ok(Leaving::Unbounded));
    assert_eq!(lp_slack.find_leaving(4), Ok(Leaving::Info(ri(1), 0, 6)));
    assert_eq!(
        lp_slack.find_leaving(5),
        Err("Out of bound error while finding leaving variable.".to_string())
    );
}

#[test]
fn non_public_forms_slack_slackformlp_find_entering_and_leaving() {
    let lp_slack = leaving_fixture();

    let simplex_round = lp_slack.find_entering_and_leaving().unwrap();

    assert_eq!(simplex_round, SimplexRound::Switch(2, 1));
}

#[test]
fn non_public_forms_slack_slackformlp_pivot_case_1() {
    let mut lp_slack = SlackFormLP::from_parts(
        vec![0, 1, 2],
        vec![3, 4, 5],
        vec![
            vec![ri(-1), ri(-1), ri(-3)],
            vec![ri(-2), ri(-2), ri(-5)],
            vec![ri(-4), ri(-1), ri(-2)],
        ],
        vec![ri(30), ri(24), ri(36)],
        vec![ri(3), ri(1), ri(2)],
        ri(0),
        3,
    );

    lp_slack.pivot(0, 2).unwrap();

    let expected = SlackFormLP::from_parts(
        vec![5, 1, 2],
        vec![3, 4, 0],
        vec![
            vec![r(1, 4), r(-3, 4), r(-5, 2)],
            vec![r(1, 2), r(-3, 2), ri(-4)],
            vec![r(-1, 4), r(-1, 4), r(-1, 2)],
        ],
        vec![ri(21), ri(6), ri(9)],
        vec![r(-3, 4), r(1, 4), r(1, 2)],
        ri(27),
        3,
    );

    assert_eq!(lp_slack, expected);

    // This should undo the previous pivot.
    lp_slack.pivot(0, 2).unwrap();

    let expected2 = SlackFormLP::from_parts(
        vec![0, 1, 2],
        vec![3, 4, 5],
        vec![
            vec![ri(-1), ri(-1), ri(-3)],
            vec![ri(-2), ri(-2), ri(-5)],
            vec![ri(-4), ri(-1), ri(-2)],
        ],
        vec![ri(30), ri(24), ri(36)],
        vec![ri(3), ri(1), ri(2)],
        ri(0),
        3,
    );

    assert_eq!(lp_slack, expected2);
}

#[test]
fn non_public_forms_slack_slackformlp_pivot_case_2() {
    let mut lp_slack = SlackFormLP::from_parts(
        vec![5, 1, 2],
        vec![3, 4, 0],
        vec![
            vec![r(1, 4), r(-3, 4), r(-5, 2)],
            vec![r(1, 2), r(-3, 2), ri(-4)],
            vec![r(-1, 4), r(-1, 4), r(-1, 2)],
        ],
        vec![ri(21), ri(6), ri(9)],
        vec![r(-3, 4), r(1, 4), r(1, 2)],
        ri(27),
        3,
    );

    lp_slack.pivot(2, 1).unwrap();

    let expected = SlackFormLP::from_parts(
        vec![5, 1, 4],
        vec![3, 2, 0],
        vec![
            vec![r(-1, 16), r(3, 16), r(5, 8)],
            vec![r(1, 8), r(-3, 8), r(-1, 4)],
            vec![r(-5, 16), r(-1, 16), r(1, 8)],
        ],
        vec![r(69, 4), r(3, 2), r(33, 4)],
        vec![r(-11, 16), r(1, 16), r(-1, 8)],
        r(111, 4),
        3,
    );

    assert_eq!(lp_slack, expected);
}

#[test]
fn non_public_forms_slack_slackformlp_pivot_case_3() {
    let mut lp_slack = SlackFormLP::from_parts(
        vec![5, 1, 4],
        vec![3, 2, 0],
        vec![
            vec![r(-1, 16), r(3, 16), r(5, 8)],
            vec![r(1, 8), r(-3, 8), r(-1, 4)],
            vec![r(-5, 16), r(-1, 16), r(1, 8)],
        ],
        vec![r(69, 4), r(3, 2), r(33, 4)],
        vec![r(-11, 16), r(1, 16), r(-1, 8)],
        r(111, 4),
        3,
    );

    lp_slack.pivot(1, 1).unwrap();

    let expected = SlackFormLP::from_parts(
        vec![5, 2, 4],
        vec![3, 1, 0],
        vec![
            vec![ri(0), r(-1, 2), r(1, 2)],
            vec![r(1, 3), r(-8, 3), r(-2, 3)],
            vec![r(-1, 3), r(1, 6), r(1, 6)],
        ],
        vec![ri(18), ri(4), ri(8)],
        vec![r(-2, 3), r(-1, 6), r(-1, 6)],
        ri(28),
        3,
    );

    assert_eq!(lp_slack, expected);
}

#[test]
fn non_public_forms_slack_slackformlp_initialize_simplex_case_1() {
    let mut lp_slack = SlackFormLP::from_parts(
        vec![0, 1],
        vec![2, 3],
        vec![vec![ri(-2), ri(1)], vec![ri(-1), ri(5)]],
        vec![ri(2), ri(-4)],
        vec![ri(2), ri(-1)],
        ri(0),
        2,
    );

    let result = lp_slack.initialize_simplex().unwrap();
    assert_eq!(result, InitializationResult::Done);

    let expected = SlackFormLP::from_parts(
        vec![0, 3],
        vec![2, 1],
        vec![vec![r(-9, 5), r(1, 5)], vec![r(1, 5), r(1, 5)]],
        vec![r(14, 5), r(4, 5)],
        vec![r(9, 5), r(-1, 5)],
        r(-4, 5),
        2,
    );

    assert_eq!(lp_slack, expected);
}
