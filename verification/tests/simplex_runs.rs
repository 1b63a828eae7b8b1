use simplex_lp::rat::Rat;
use simplex_lp::simplex::simplex_lp_chvatal;
use simplex_lp::slack::SimplexResult;
use simplex_lp::standard::StandardFormLP;

fn ri(n: i64) -> Rat {
    Rat::from_int(n)
}

fn r(n: i64, d: i64) -> Rat {
    Rat::new(n, d)
}

fn rows(vals: &[&[i64]]) -> Vec<Vec<Rat>> {
    let mut a = Vec::new();
    for row in vals {
        let mut out = Vec::new();
        for v in *row {
            out.push(ri(*v));
        }
        a.push(out);
    }
    a
}

fn ints(vals: &[i64]) -> Vec<Rat> {
    let mut out = Vec::new();
    for v in vals {
        out.push(ri(*v));
    }
    out
}

#[test]
fn algo_simplex_simplex_lp_chvatal_feasible_case_1() {
    let c = ints(&[1, 1]);
    let a = rows(&[&[4, -1], &[2, 1], &[-5, 2]]);
    let b = ints(&[8, 10, 2]);

    let standard_form = StandardFormLP::new(c, a, b, None).unwrap();
    let mut slack_form = standard_form.into_slack_form().unwrap();

    let simplex_result = simplex_lp_chvatal(&mut slack_form).unwrap();

    assert_eq!(simplex_result, SimplexResult::Optimal(ints(&[2, 6])));
}

#[test]
fn algo_simplex_simplex_lp_chvatal_feasible_case_2() {
    let c = ints(&[3, 1, 2]);
    let a = rows(&[&[1, 1, 3], &[2, 2, 5], &[4, 1, 2]]);
    let b = ints(&[30, 24, 36]);

    let standard_form = StandardFormLP::new(c, a, b, None).unwrap();
    let mut slack_form = standard_form.into_slack_form().unwrap();

    let simplex_result = simplex_lp_chvatal(&mut slack_form).unwrap();

    assert_eq!(simplex_result, SimplexResult::Optimal(ints(&[8, 4, 0])));
}

#[test]
fn algo_simplex_simplex_lp_chvatal_unbounded_case_1() {
    let c = ints(&[1, -1]);
    let a = rows(&[&[-2, 1], &[-1, -2]]);
    let b = ints(&[-1, -2]);

    let standard_form = StandardFormLP::new(c, a, b, None).unwrap();
    let mut slack_form = standard_form.into_slack_form().unwrap();

    let simplex_result = simplex_lp_chvatal(&mut slack_form).unwrap();

    assert_eq!(simplex_result, SimplexResult::Unbounded);
}

#[test]
fn algo_simplex_simplex_lp_chvatal_unbounded_case_2() {
    let c = ints(&[1, 3]);
    let a = rows(&[&[-1, 1], &[-1, -1], &[-1, 4]]);
    let b = ints(&[-1, -3, 2]);

    let standard_form = StandardFormLP::new(c, a, b, None).unwrap();
    let mut slack_form = standard_form.into_slack_form().unwrap();

    let simplex_result = simplex_lp_chvatal(&mut slack_form).unwrap();

    assert_eq!(simplex_result, SimplexResult::Unbounded);
}

#[test]
fn algo_simplex_simplex_lp_chvatal_unfeasible_case_1() {
    let c = ints(&[3, -2]);
    let a = rows(&[&[1, 1], &[-2, -2]]);
    let b = ints(&[-2, -10]);

    let standard_form = StandardFormLP::new(c, a, b, None).unwrap();
    let mut slack_form = standard_form.into_slack_form().unwrap();

    let simplex_result = simplex_lp_chvatal(&mut slack_form).unwrap();

    assert_eq!(simplex_result, SimplexResult::Unfeasible);
}

#[test]
fn algo_simplex_simplex_lp_chvatal_unfeasible_case_2() {
    let c = ints(&[1, -2]);
    let a = rows(&[&[1, 2], &[-2, -6], &[0, 1]]);
    let b = ints(&[4, -12, 1]);

    let standard_form = StandardFormLP::new(c, a, b, None).unwrap();
    let mut slack_form = standard_form.into_slack_form().unwrap();

    let simplex_result = simplex_lp_chvatal(&mut slack_form).unwrap();

    assert_eq!(simplex_result, SimplexResult::Unfeasible);
}

#[test]
fn algo_simplex_simplex_lp_chvatal_non_basic_feasible_case_1() {
    let c = ints(&[2, -1]);
    let a = rows(&[&[2, -1], &[1, -5]]);
    let b = ints(&[2, -4]);

    let standard_form = StandardFormLP::new(c, a, b, None).unwrap();
    let mut slack_form = standard_form.into_slack_form().unwrap();

    let simplex_result = simplex_lp_chvatal(&mut slack_form).unwrap();

    assert_eq!(
        simplex_result,
        SimplexResult::Optimal(vec![r(14, 9), r(10, 9)])
    );
}

#[test]
fn algo_simplex_simplex_lp_chvatal_non_basic_feasible_case_2() {
    let c = ints(&[1, 3]);
    let a = rows(&[&[1, -1], &[-1, -1], &[-1, 4]]);
    let b = ints(&[8, -3, 2]);

    let standard_form = StandardFormLP::new(c, a, b, None).unwrap();
    let mut slack_form = standard_form.into_slack_form().unwrap();

    let simplex_result = simplex_lp_chvatal(&mut slack_form).unwrap();

    assert_eq!(
        simplex_result,
        SimplexResult::Optimal(vec![r(34, 3), r(10, 3)])
    );
}
