use simplex_lp::rat::Rat;
use simplex_lp::simplex::simplex_lp_chvatal;
use simplex_lp::slack::SimplexResult;
use simplex_lp::standard::StandardFormLP;

fn ri(n: i64) -> Rat {
    Rat::from_int(n)
}

fn r(n: i64, d: i64) -> Rat {
    Rat::new(n, d)
}

/// `a . x <= b` and `x >= 0`, checked with exact arithmetic.
fn satisfies(a: &[Vec<Rat>], b: &[Rat], x: &[Rat]) -> bool {
    for xi in x {
        if xi.is_neg() {
            return false;
        }
    }
    for (row, bi) in a.iter().zip(b.iter()) {
        let mut acc = ri(0);
        for (aij, xj) in row.iter().zip(x.iter()) {
            acc = acc.add(&aij.mul(xj).unwrap()).unwrap();
        }
        if !acc.le(bi) {
            return false;
        }
    }
    true
}

#[test]
fn optimal_solution_satisfies_constraints_direct_case() {
    let a = vec![
        vec![ri(4), ri(-1)],
        vec![ri(2), ri(1)],
        vec![ri(-5), ri(2)],
    ];
    let b = vec![ri(8), ri(10), ri(2)];

    let standard_form =
        StandardFormLP::new(vec![ri(1), ri(1)], a.clone(), b.clone(), None).unwrap();
    let mut slack_form = standard_form.into_slack_form().unwrap();
    let result = simplex_lp_chvatal(&mut slack_form).unwrap();

    match result {
        SimplexResult::Optimal(x) => assert!(satisfies(&a, &b, &x)),
        _ => panic!("expected an optimal solution"),
    }
}

#[test]
fn optimal_solution_satisfies_constraints_two_phase_case() {
    let a = vec![vec![ri(2), ri(-1)], vec![ri(1), ri(-5)]];
    let b = vec![ri(2), ri(-4)];

    let standard_form =
        StandardFormLP::new(vec![ri(2), ri(-1)], a.clone(), b.clone(), None).unwrap();
    let mut slack_form = standard_form.into_slack_form().unwrap();
    let result = simplex_lp_chvatal(&mut slack_form).unwrap();

    match result {
        SimplexResult::Optimal(x) => assert!(satisfies(&a, &b, &x)),
        _ => panic!("expected an optimal solution"),
    }
}

#[test]
fn rational_arithmetic_is_exact() {
    assert_eq!(r(1, 3).add(&r(1, 6)).unwrap(), r(1, 2));
    assert_eq!(r(1, 10).add(&r(2, 10)).unwrap(), r(3, 10));
    assert_eq!(r(-7, 2).mul(&r(4, 7)).unwrap(), ri(-2));
    assert_eq!(r(5, 8).sub(&r(1, 8)).unwrap(), r(1, 2));
    assert_eq!(r(3, 4).div(&r(-3, 2)).unwrap(), r(-1, 2));
    assert_eq!(r(2, 4), r(1, 2));
    assert_ne!(r(1, 3), r(1, 2));
    assert!(r(-1, 3).is_neg());
    assert!(r(1, 3).lt(&r(1, 2)));
    assert!(r(1, 2).le(&r(2, 4)));
}

#[test]
fn slack_form_dimension_and_solution_extraction() {
    let a = vec![vec![ri(-1), ri(-2)], vec![ri(-3), ri(-4)]];
    let b = vec![ri(5), ri(6)];
    let c = vec![ri(1), ri(1)];
    let lp = simplex_lp::slack::SlackFormLP::new(a, b, c).unwrap();

    assert_eq!(lp.get_dim(), 2);
    // The fresh dictionary has only slack variables basic, so the basic
    // solution sets every decision variable to zero.
    match lp.compute_solution_vector() {
        SimplexResult::Optimal(x) => assert_eq!(x, vec![ri(0), ri(0)]),
        _ => panic!("expected a solution vector"),
    }
}

#[test]
fn standard_form_solution_storage_starts_empty() {
    let a = vec![vec![ri(1), ri(2)]];
    let b = vec![ri(3)];
    let c = vec![ri(1), ri(1)];
    let lp = StandardFormLP::new(c, a, b, None).unwrap();

    assert_eq!(lp.get_x_clone(), Vec::<Rat>::new());
    assert_eq!(lp.get_x(), Vec::<Rat>::new());
}

#[test]
fn well_formedness_check_accepts_fresh_dictionaries() {
    let a = vec![vec![ri(-1), ri(-2)], vec![ri(-3), ri(-4)]];
    let b = vec![ri(5), ri(6)];
    let c = vec![ri(1), ri(1)];
    let lp = simplex_lp::slack::SlackFormLP::new(a, b, c).unwrap();

    assert!(lp.is_well_formed());
}

#[test]
fn well_formedness_check_rejects_broken_dictionaries() {
    // A duplicated variable index breaks the non-basic/basic partition.
    let lp = simplex_lp::slack::SlackFormLP::from_parts(
        vec![0, 1],
        vec![1, 3],
        vec![vec![ri(-1), ri(-2)], vec![ri(-3), ri(-4)]],
        vec![ri(5), ri(6)],
        vec![ri(1), ri(1)],
        ri(0),
        2,
    );
    assert!(!lp.is_well_formed());

    // A ragged matrix breaks the dimensions.
    let lp = simplex_lp::slack::SlackFormLP::from_parts(
        vec![0, 1],
        vec![2, 3],
        vec![vec![ri(-1)], vec![ri(-3), ri(-4)]],
        vec![ri(5), ri(6)],
        vec![ri(1), ri(1)],
        ri(0),
        2,
    );
    assert!(!lp.is_well_formed());
}

#[test]
fn rational_arithmetic_reports_overflow() {
    let big = Rat::from_int(i64::MAX);
    let err = big.add(&big).unwrap_err();
    assert_eq!(err, "Exact rational arithmetic overflow.".to_string());

    let err = big.mul(&big).unwrap_err();
    assert_eq!(err, "Exact rational arithmetic overflow.".to_string());
}
