use simplex_lp::builder::StandardFormBuilder;
use simplex_lp::rat::Rat;
use simplex_lp::standard::StandardFormLP;

fn r(n: i64, d: i64) -> Rat {
    Rat::new(n, d)
}

fn ri(n: i64) -> Rat {
    Rat::from_int(n)
}

#[test]
fn forms_builder_standardformbuilder_new_empty() {
    let builder = StandardFormBuilder::new();

    assert_eq!(builder.get_c(), &None);
    assert_eq!(builder.get_a(), &None);
    assert_eq!(builder.get_b(), &Vec::new());
    assert_eq!(builder.get_non_negative_indices(), &None);
    assert_eq!(builder.get_dimension_size(), &None);
}

#[test]
fn forms_builder_standardformbuilder_new() {
    let builder = StandardFormBuilder::new()
        .add_min_objective(vec![ri(1), ri(2), ri(3)])
        .unwrap()
        .add_non_negative_indices(vec![1])
        .unwrap()
        .add_equality_constraint(vec![ri(1), r(33, 10), r(44, 10)], r(1001, 100))
        .unwrap()
        .add_equality_constraint(vec![ri(2), r(53, 10), r(24, 10)], r(123, 10))
        .unwrap();

    assert_eq!(builder.get_c(), &Some(vec![ri(-1), ri(-2), ri(-3)]));
    assert_eq!(
        builder.get_a(),
        &Some(vec![
            vec![ri(1), r(33, 10), r(44, 10)],
            vec![ri(-1), r(-33, 10), r(-44, 10)],
            vec![ri(2), r(53, 10), r(24, 10)],
            vec![ri(-2), r(-53, 10), r(-24, 10)],
        ])
    );
    assert_eq!(
        builder.get_b(),
        &vec![r(1001, 100), r(-1001, 100), r(123, 10), r(-123, 10)]
    );
    assert_eq!(builder.get_non_negative_indices(), &Some(vec![1]));
    assert_eq!(builder.get_dimension_size(), &Some(3));
}

#[test]
fn forms_builder_standardformbuilder_add_min_objective_empty_vec() {
    let builder = StandardFormBuilder::new();
    let err = builder.add_min_objective(Vec::new()).unwrap_err();

    assert_eq!(err, "It is not possible to add an empty vector.".to_string());
}

#[test]
fn forms_builder_standardformbuilder_add_min_objective_already_added() {
    let builder = StandardFormBuilder::new();
    let err = builder
        .add_min_objective(vec![ri(10)])
        .unwrap()
        .add_min_objective(vec![ri(10)])
        .unwrap_err();

    assert_eq!(err, "Objective function is already added.".to_string());
}

#[test]
fn forms_builder_standardformbuilder_add_min_objective_zero() {
    let builder = StandardFormBuilder::new();
    let err = builder.add_min_objective(vec![ri(0)]).unwrap_err();

    assert_eq!(
        err,
        "It is not possible to add objective with only zero values.".to_string()
    );
}

#[test]
fn forms_builder_standardformbuilder_add_min_objective_zeroes() {
    let builder = StandardFormBuilder::new();
    let err = builder
        .add_min_objective(vec![ri(0), ri(0), ri(0)])
        .unwrap_err();

    assert_eq!(
        err,
        "It is not possible to add objective with only zero values.".to_string()
    );
}

#[test]
fn forms_builder_standardformbuilder_add_min_objective_bad_dimension_smaller() {
    let builder = StandardFormBuilder::new();
    let err = builder
        .add_equality_constraint(vec![ri(1), ri(2), ri(3)], r(6, 10))
        .unwrap()
        .add_min_objective(vec![r(12, 10), r(23, 10)])
        .unwrap_err();

    assert_eq!(
        err,
        "The added vector does not match the current dimension size.".to_string()
    );
}

#[test]
fn forms_builder_standardformbuilder_add_min_objective_bad_dimension_bigger() {
    let builder = StandardFormBuilder::new();
    let err = builder
        .add_equality_constraint(vec![ri(1), ri(2), ri(3)], r(6, 10))
        .unwrap()
        .add_min_objective(vec![r(12, 10), r(23, 10), ri(3), ri(10)])
        .unwrap_err();

    assert_eq!(
        err,
        "The added vector does not match the current dimension size.".to_string()
    );
}

#[test]
fn forms_builder_standardformbuilder_add_min_objective_bad_non_negative_indices() {
    let builder = StandardFormBuilder::new();
    let err = builder
        .add_non_negative_indices(vec![50])
        .unwrap()
        .add_min_objective(vec![r(12, 10), r(23, 10), ri(3)])
        .unwrap_err();

    assert_eq!(
        err,
        "Non negative indices are out of bound of the added vector.".to_string()
    );
}

#[test]
fn forms_builder_standardformbuilder_add_min_objective() {
    let builder = StandardFormBuilder::new();
    let result = builder.add_min_objective(vec![r(12, 10), r(23, 10), ri(3), ri(10)]);

    assert!(result.is_ok());

    let builder = result.unwrap();
    assert_eq!(
        builder.get_c(),
        &Some(vec![r(-12, 10), r(-23, 10), ri(-3), ri(-10)])
    );
    assert_eq!(builder.get_a(), &None);
    assert_eq!(builder.get_b(), &Vec::new());
    assert_eq!(builder.get_non_negative_indices(), &None);
    assert_eq!(builder.get_dimension_size(), &Some(4));
}

#[test]
fn forms_builder_standardformbuilder_add_min_objective_with_non_negative_indices() {
    let builder = StandardFormBuilder::new();
    let result = builder
        .add_non_negative_indices(vec![1])
        .unwrap()
        .add_min_objective(vec![r(12, 10), r(23, 10), ri(3), ri(10)]);

    assert!(result.is_ok());

    let builder = result.unwrap();
    assert_eq!(
        builder.get_c(),
        &Some(vec![r(-12, 10), r(-23, 10), ri(-3), ri(-10)])
    );
    assert_eq!(builder.get_a(), &None);
    assert_eq!(builder.get_b(), &Vec::new());
    assert_eq!(builder.get_non_negative_indices(), &Some(vec![1]));
    assert_eq!(builder.get_dimension_size(), &Some(4));
}

#[test]
fn forms_builder_standardformbuilder_add_min_objective_with_constraint() {
    let builder = StandardFormBuilder::new();
    let result = builder
        .add_equality_constraint(vec![ri(1), ri(2), ri(3), ri(4)], ri(10))
        .unwrap()
        .add_min_objective(vec![r(12, 10), r(23, 10), ri(3), ri(10)]);

    assert!(result.is_ok());

    let builder = result.unwrap();
    assert_eq!(
        builder.get_c(),
        &Some(vec![r(-12, 10), r(-23, 10), ri(-3), ri(-10)])
    );
    assert_eq!(
        builder.get_a(),
        &Some(vec![
            vec![ri(1), ri(2), ri(3), ri(4)],
            vec![ri(-1), ri(-2), ri(-3), ri(-4)],
        ])
    );
    assert_eq!(builder.get_b(), &vec![ri(10), ri(-10)]);
    assert_eq!(builder.get_non_negative_indices(), &None);
    assert_eq!(builder.get_dimension_size(), &Some(4));
}

#[test]
fn forms_builder_standardformbuilder_add_max_objective_empty_vec() {
    let builder = StandardFormBuilder::new();
    let err = builder.add_max_objective(Vec::new()).unwrap_err();

    assert_eq!(err, "It is not possible to add an empty vector.".to_string());
}

#[test]
fn forms_builder_standardformbuilder_add_max_objective_already_added() {
    let builder = StandardFormBuilder::new();
    let err = builder
        .add_max_objective(vec![ri(10)])
        .unwrap()
        .add_max_objective(vec![ri(10)])
        .unwrap_err();

    assert_eq!(err, "Objective function is already added.".to_string());
}

#[test]
fn forms_builder_standardformbuilder_add_max_objective_zero() {
    let builder = StandardFormBuilder::new();
    let err = builder.add_max_objective(vec![ri(0)]).unwrap_err();

    assert_eq!(
        err,
        "It is not possible to add objective with only zero values.".to_string()
    );
}

#[test]
fn forms_builder_standardformbuilder_add_max_objective_zeroes() {
    let builder = StandardFormBuilder::new();
    let err = builder
        .add_max_objective(vec![ri(0), ri(0), ri(0)])
        .unwrap_err();

    assert_eq!(
        err,
        "It is not possible to add objective with only zero values.".to_string()
    );
}

#[test]
fn forms_builder_standardformbuilder_add_max_objective_bad_dimension_smaller() {
    let builder = StandardFormBuilder::new();
    let err = builder
        .add_equality_constraint(vec![ri(1), ri(2), ri(3)], r(6, 10))
        .unwrap()
        .add_max_objective(vec![r(12, 10), r(23, 10)])
        .unwrap_err();

    assert_eq!(
        err,
        "The added vector does not match the current dimension size.".to_string()
    );
}

#[test]
fn forms_builder_standardformbuilder_add_max_objective_bad_dimension_bigger() {
    let builder = StandardFormBuilder::new();
    let err = builder
        .add_equality_constraint(vec![ri(1), ri(2), ri(3)], r(6, 10))
        .unwrap()
        .add_max_objective(vec![r(12, 10), r(23, 10), ri(3), ri(10)])
        .unwrap_err();

    assert_eq!(
        err,
        "The added vector does not match the current dimension size.".to_string()
    );
}

#[test]
fn forms_builder_standardformbuilder_add_max_objective_bad_non_negative_indices() {
    let builder = StandardFormBuilder::new();
    let err = builder
        .add_non_negative_indices(vec![50])
        .unwrap()
        .add_max_objective(vec![r(12, 10), r(23, 10), ri(3)])
        .unwrap_err();

    assert_eq!(
        err,
        "Non negative indices are out of bound of the added vector.".to_string()
    );
}

#[test]
fn forms_builder_standardformbuilder_add_max_objective() {
    let builder = StandardFormBuilder::new();
    let result = builder.add_max_objective(vec![r(12, 10), r(23, 10), ri(3), ri(10)]);

    assert!(result.is_ok());

    let builder = result.unwrap();
    assert_eq!(
        builder.get_c(),
        &Some(vec![r(12, 10), r(23, 10), ri(3), ri(10)])
    );
    assert_eq!(builder.get_a(), &None);
    assert_eq!(builder.get_b(), &Vec::new());
    assert_eq!(builder.get_non_negative_indices(), &None);
    assert_eq!(builder.get_dimension_size(), &Some(4));
}

#[test]
fn forms_builder_standardformbuilder_add_max_objective_with_non_negative_indices() {
    let builder = StandardFormBuilder::new();
    let result = builder
        .add_non_negative_indices(vec![1])
        .unwrap()
        .add_max_objective(vec![r(12, 10), r(23, 10), ri(3), ri(10)]);

    assert!(result.is_ok());

    let builder = result.unwrap();
    assert_eq!(
        builder.get_c(),
        &Some(vec![r(12, 10), r(23, 10), ri(3), ri(10)])
    );
    assert_eq!(builder.get_a(), &None);
    assert_eq!(builder.get_b(), &Vec::new());
    assert_eq!(builder.get_non_negative_indices(), &Some(vec![1]));
    assert_eq!(builder.get_dimension_size(), &Some(4));
}

#[test]
fn forms_builder_standardformbuilder_add_max_objective_with_constraint() {
    let builder = StandardFormBuilder::new();
    let result = builder
        .add_equality_constraint(vec![ri(1), ri(2), ri(3), ri(4)], ri(10))
        .unwrap()
        .add_max_objective(vec![r(12, 10), r(23, 10), ri(3), ri(10)]);

    assert!(result.is_ok());

    let builder = result.unwrap();
    assert_eq!(
        builder.get_c(),
        &Some(vec![r(12, 10), r(23, 10), ri(3), ri(10)])
    );
    assert_eq!(
        builder.get_a(),
        &Some(vec![
            vec![ri(1), ri(2), ri(3), ri(4)],
            vec![ri(-1), ri(-2), ri(-3), ri(-4)],
        ])
    );
    assert_eq!(builder.get_b(), &vec![ri(10), ri(-10)]);
    assert_eq!(builder.get_non_negative_indices(), &None);
    assert_eq!(builder.get_dimension_size(), &Some(4));
}

#[test]
fn forms_builder_standardformbuilder_add_non_negative_indices_empty() {
    let builder = StandardFormBuilder::new();
    let err = builder.add_non_negative_indices(Vec::new()).unwrap_err();

    assert_eq!(
        err,
        "It is not allowed to add an empty array of non negative indices.".to_string()
    );
}

#[test]
fn forms_builder_standardformbuilder_add_non_negative_indices_not_uniq() {
    let builder = StandardFormBuilder::new();
    let err = builder.add_non_negative_indices(vec![0, 0]).unwrap_err();

    assert_eq!(
        err,
        "Non negative indices vector must be unique and sorted in ascending order.".to_string()
    );
}

#[test]
fn forms_builder_standardformbuilder_add_non_negative_indices_not_sorted() {
    let builder = StandardFormBuilder::new();
    let err = builder.add_non_negative_indices(vec![2, 1]).unwrap_err();

    assert_eq!(
        err,
        "Non negative indices vector must be unique and sorted in ascending order.".to_string()
    );
}

#[test]
fn forms_builder_standardformbuilder_add_non_negative_indices_bad_dimension() {
    let builder = StandardFormBuilder::new();
    let err = builder
        .add_max_objective(vec![r(12, 10), r(23, 10), ri(3), ri(10)])
        .unwrap()
        .add_non_negative_indices(vec![1, 10])
        .unwrap_err();

    assert_eq!(
        err,
        "Non negative indices are out of bound of the dimension size.".to_string()
    );
}

#[test]
fn forms_builder_standardformbuilder_add_non_negative_indices_already_set() {
    let builder = StandardFormBuilder::new();
    let err = builder
        .add_non_negative_indices(vec![1])
        .unwrap()
        .add_non_negative_indices(vec![2])
        .unwrap_err();

    assert_eq!(err, "Non negative indices have already been set.".to_string());
}

#[test]
fn forms_builder_standardformbuilder_add_non_negative_indices() {
    let builder = StandardFormBuilder::new();
    let result = builder.add_non_negative_indices(vec![1]);

    assert!(result.is_ok());

    let builder = result.unwrap();
    assert_eq!(builder.get_c(), &None);
    assert_eq!(builder.get_a(), &None);
    assert_eq!(builder.get_b(), &Vec::new());
    assert_eq!(builder.get_non_negative_indices(), &Some(vec![1]));
    assert_eq!(builder.get_dimension_size(), &None);
}

#[test]
fn forms_builder_standardformbuilder_add_non_negative_indices_with_dimension() {
    let builder = StandardFormBuilder::new();
    let result = builder
        .add_max_objective(vec![r(12, 10), r(23, 10), ri(3), ri(10)])
        .unwrap()
        .add_non_negative_indices(vec![1, 3]);

    assert!(result.is_ok());

    let builder = result.unwrap();
    assert_eq!(
        builder.get_c(),
        &Some(vec![r(12, 10), r(23, 10), ri(3), ri(10)])
    );
    assert_eq!(builder.get_a(), &None);
    assert_eq!(builder.get_b(), &Vec::new());
    assert_eq!(builder.get_non_negative_indices(), &Some(vec![1, 3]));
    assert_eq!(builder.get_dimension_size(), &Some(4));
}

#[test]
fn forms_builder_standardformbuilder_add_equality_constraint_empty() {
    let builder = StandardFormBuilder::new();
    let err = builder
        .add_equality_constraint(Vec::new(), ri(10))
        .unwrap_err();

    assert_eq!(err, "It is not possible to add an empty vector.".to_string());
}

#[test]
fn forms_builder_standardformbuilder_add_equality_constraint_mismatch_dim_case_1() {
    let builder = StandardFormBuilder::new();
    let err = builder
        .add_equality_constraint(vec![ri(1), ri(2), ri(3)], ri(10))
        .unwrap()
        .add_equality_constraint(vec![ri(1), ri(2)], ri(12))
        .unwrap_err();

    assert_eq!(
        err,
        "The added vector does not match the current dimension size.".to_string()
    );
}

#[test]
fn forms_builder_standardformbuilder_add_equality_constraint_mismatch_dim_case_2() {
    let builder = StandardFormBuilder::new();
    let err = builder
        .add_max_objective(vec![ri(1), ri(2), ri(3)])
        .unwrap()
        .add_equality_constraint(vec![ri(1), ri(2)], ri(12))
        .unwrap_err();

    assert_eq!(
        err,
        "The added vector does not match the current dimension size.".to_string()
    );
}

#[test]
fn forms_builder_standardformbuilder_add_equality_constraint_bad_non_negative_indices() {
    let builder = StandardFormBuilder::new();
    let err = builder
        .add_non_negative_indices(vec![10])
        .unwrap()
        .add_equality_constraint(vec![ri(1), ri(2)], ri(12))
        .unwrap_err();

    assert_eq!(
        err,
        "Non negative indices are out of bound of the added vector.".to_string()
    );
}

#[test]
fn forms_builder_standardformbuilder_add_equality_constraint_zeroes() {
    let builder = StandardFormBuilder::new();
    let err = builder
        .add_equality_constraint(vec![ri(0), ri(0)], ri(12))
        .unwrap_err();

    assert_eq!(
        err,
        "It is not possible to add constraint with only zero values.".to_string()
    );
}

#[test]
fn forms_builder_standardformbuilder_add_equality_constraint_once() {
    let builder = StandardFormBuilder::new();
    let result = builder.add_equality_constraint(vec![ri(1), ri(2), ri(3)], ri(12));

    assert!(result.is_ok());

    let builder = result.unwrap();
    assert_eq!(builder.get_c(), &None);
    assert_eq!(
        builder.get_a(),
        &Some(vec![
            vec![ri(1), ri(2), ri(3)],
            vec![ri(-1), ri(-2), ri(-3)],
        ])
    );
    assert_eq!(builder.get_b(), &vec![ri(12), ri(-12)]);
    assert_eq!(builder.get_non_negative_indices(), &None);
    assert_eq!(builder.get_dimension_size(), &Some(3));
}

#[test]
fn forms_builder_standardformbuilder_add_equality_constraint_twice() {
    let builder = StandardFormBuilder::new();
    let result = builder
        .add_equality_constraint(vec![ri(1), ri(2), ri(3)], ri(12))
        .unwrap()
        .add_equality_constraint(vec![ri(4), ri(5), ri(6)], ri(7));

    assert!(result.is_ok());

    let builder = result.unwrap();
    assert_eq!(builder.get_c(), &None);
    assert_eq!(
        builder.get_a(),
        &Some(vec![
            vec![ri(1), ri(2), ri(3)],
            vec![ri(-1), ri(-2), ri(-3)],
            vec![ri(4), ri(5), ri(6)],
            vec![ri(-4), ri(-5), ri(-6)],
        ])
    );
    assert_eq!(builder.get_b(), &vec![ri(12), ri(-12), ri(7), ri(-7)]);
    assert_eq!(builder.get_non_negative_indices(), &None);
    assert_eq!(builder.get_dimension_size(), &Some(3));
}

#[test]
fn forms_builder_standardformbuilder_add_equality_constraint_twice_with_all() {
    let builder = StandardFormBuilder::new();
    let result = builder
        .add_max_objective(vec![r(1, 10), r(2, 10), r(3, 10)])
        .unwrap()
        .add_equality_constraint(vec![ri(1), ri(2), ri(3)], ri(12))
        .unwrap()
        .add_non_negative_indices(vec![1])
        .unwrap()
        .add_equality_constraint(vec![ri(4), ri(5), ri(6)], ri(7));

    assert!(result.is_ok());

    let builder = result.unwrap();
    assert_eq!(builder.get_c(), &Some(vec![r(1, 10), r(2, 10), r(3, 10)]));
    assert_eq!(
        builder.get_a(),
        &Some(vec![
            vec![ri(1), ri(2), ri(3)],
            vec![ri(-1), ri(-2), ri(-3)],
            vec![ri(4), ri(5), ri(6)],
            vec![ri(-4), ri(-5), ri(-6)],
        ])
    );
    assert_eq!(builder.get_b(), &vec![ri(12), ri(-12), ri(7), ri(-7)]);
    assert_eq!(builder.get_non_negative_indices(), &Some(vec![1]));
    assert_eq!(builder.get_dimension_size(), &Some(3));
}

#[test]
fn forms_builder_standardformbuilder_add_less_than_or_equal_constraint_empty() {
    let builder = StandardFormBuilder::new();
    let err = builder
        .add_less_than_or_equal_constraint(Vec::new(), ri(10))
        .unwrap_err();

    assert_eq!(err, "It is not possible to add an empty vector.".to_string());
}

#[test]
fn forms_builder_standardformbuilder_add_less_than_or_equal_constraint_mismatch_dim_case_1() {
    let builder = StandardFormBuilder::new();
    let err = builder
        .add_less_than_or_equal_constraint(vec![ri(1), ri(2), ri(3)], ri(10))
        .unwrap()
        .add_less_than_or_equal_constraint(vec![ri(1), ri(2)], ri(12))
        .unwrap_err();

    assert_eq!(
        err,
        "The added vector does not match the current dimension size.".to_string()
    );
}

#[test]
fn forms_builder_standardformbuilder_add_less_than_or_equal_constraint_mismatch_dim_case_2() {
    let builder = StandardFormBuilder::new();
    let err = builder
        .add_max_objective(vec![ri(1), ri(2), ri(3)])
        .unwrap()
        .add_less_than_or_equal_constraint(vec![ri(1), ri(2)], ri(12))
        .unwrap_err();

    assert_eq!(
        err,
        "The added vector does not match the current dimension size.".to_string()
    );
}

#[test]
fn forms_builder_standardformbuilder_add_less_than_or_equal_constraint_bad_non_negative_indices() {
    let builder = StandardFormBuilder::new();
    let err = builder
        .add_non_negative_indices(vec![10])
        .unwrap()
        .add_less_than_or_equal_constraint(vec![ri(1), ri(2)], ri(12))
        .unwrap_err();

    assert_eq!(
        err,
        "Non negative indices are out of bound of the added vector.".to_string()
    );
}

#[test]
fn forms_builder_standardformbuilder_add_less_than_or_equal_constraint_zeroes() {
    let builder = StandardFormBuilder::new();
    let err = builder
        .add_less_than_or_equal_constraint(vec![ri(0), ri(0)], ri(12))
        .unwrap_err();

    assert_eq!(
        err,
        "It is not possible to add constraint with only zero values.".to_string()
    );
}

#[test]
fn forms_builder_standardformbuilder_add_less_than_or_equal_constraint_once() {
    let builder = StandardFormBuilder::new();
    let result = builder.add_less_than_or_equal_constraint(vec![ri(1), ri(2), ri(3)], ri(12));

    assert!(result.is_ok());

    let builder = result.unwrap();
    assert_eq!(builder.get_c(), &None);
    assert_eq!(builder.get_a(), &Some(vec![vec![ri(1), ri(2), ri(3)]]));
    assert_eq!(builder.get_b(), &vec![ri(12)]);
    assert_eq!(builder.get_non_negative_indices(), &None);
    assert_eq!(builder.get_dimension_size(), &Some(3));
}

#[test]
fn forms_builder_standardformbuilder_add_less_than_or_equal_constraint_twice() {
    let builder = StandardFormBuilder::new();
    let result = builder
        .add_less_than_or_equal_constraint(vec![ri(1), ri(2), ri(3)], ri(12))
        .unwrap()
        .add_less_than_or_equal_constraint(vec![ri(4), ri(5), ri(6)], ri(7));

    assert!(result.is_ok());

    let builder = result.unwrap();
    assert_eq!(builder.get_c(), &None);
    assert_eq!(
        builder.get_a(),
        &Some(vec![vec![ri(1), ri(2), ri(3)], vec![ri(4), ri(5), ri(6)]])
    );
    assert_eq!(builder.get_b(), &vec![ri(12), ri(7)]);
    assert_eq!(builder.get_non_negative_indices(), &None);
    assert_eq!(builder.get_dimension_size(), &Some(3));
}

#[test]
fn forms_builder_standardformbuilder_add_less_than_or_equal_constraint_twice_with_all() {
    let builder = StandardFormBuilder::new();
    let result = builder
        .add_max_objective(vec![r(1, 10), r(2, 10), r(3, 10)])
        .unwrap()
        .add_less_than_or_equal_constraint(vec![ri(1), ri(2), ri(3)], ri(12))
        .unwrap()
        .add_non_negative_indices(vec![1])
        .unwrap()
        .add_less_than_or_equal_constraint(vec![ri(4), ri(5), ri(6)], ri(7));

    assert!(result.is_ok());

    let builder = result.unwrap();
    assert_eq!(builder.get_c(), &Some(vec![r(1, 10), r(2, 10), r(3, 10)]));
    assert_eq!(
        builder.get_a(),
        &Some(vec![vec![ri(1), ri(2), ri(3)], vec![ri(4), ri(5), ri(6)]])
    );
    assert_eq!(builder.get_b(), &vec![ri(12), ri(7)]);
    assert_eq!(builder.get_non_negative_indices(), &Some(vec![1]));
    assert_eq!(builder.get_dimension_size(), &Some(3));
}

#[test]
fn forms_builder_standardformbuilder_add_greater_than_or_equal_constraint_empty() {
    let builder = StandardFormBuilder::new();
    let err = builder
        .add_greater_than_or_equal_constraint(Vec::new(), ri(10))
        .unwrap_err();

    assert_eq!(err, "It is not possible to add an empty vector.".to_string());
}

#[test]
fn forms_builder_standardformbuilder_add_greater_than_or_equal_constraint_mismatch_dim_case_1() {
    let builder = StandardFormBuilder::new();
    let err = builder
        .add_greater_than_or_equal_constraint(vec![ri(1), ri(2), ri(3)], ri(10))
        .unwrap()
        .add_greater_than_or_equal_constraint(vec![ri(1), ri(2)], ri(12))
        .unwrap_err();

    assert_eq!(
        err,
        "The added vector does not match the current dimension size.".to_string()
    );
}

#[test]
fn forms_builder_standardformbuilder_add_greater_than_or_equal_constraint_mismatch_dim_case_2() {
    let builder = StandardFormBuilder::new();
    let err = builder
        .add_max_objective(vec![ri(1), ri(2), ri(3)])
        .unwrap()
        .add_greater_than_or_equal_constraint(vec![ri(1), ri(2)], ri(12))
        .unwrap_err();

    assert_eq!(
        err,
        "The added vector does not match the current dimension size.".to_string()
    );
}

#[test]
fn forms_builder_standardformbuilder_add_greater_than_or_equal_constraint_bad_non_negative_indices()
{
    let builder = StandardFormBuilder::new();
    let err = builder
        .add_non_negative_indices(vec![10])
        .unwrap()
        .add_greater_than_or_equal_constraint(vec![ri(1), ri(2)], ri(12))
        .unwrap_err();

    assert_eq!(
        err,
        "Non negative indices are out of bound of the added vector.".to_string()
    );
}

#[test]
fn forms_builder_standardformbuilder_add_greater_than_or_equal_constraint_zeroes() {
    let builder = StandardFormBuilder::new();
    let err = builder
        .add_greater_than_or_equal_constraint(vec![ri(0), ri(0)], ri(12))
        .unwrap_err();

    assert_eq!(
        err,
        "It is not possible to add constraint with only zero values.".to_string()
    );
}

#[test]
fn forms_builder_standardformbuilder_add_greater_than_or_equal_constraint_once() {
    let builder = StandardFormBuilder::new();
    let result = builder.add_greater_than_or_equal_constraint(vec![ri(1), ri(2), ri(3)], ri(12));

    assert!(result.is_ok());

    let builder = result.unwrap();
    assert_eq!(builder.get_c(), &None);
    assert_eq!(builder.get_a(), &Some(vec![vec![ri(-1), ri(-2), ri(-3)]]));
    assert_eq!(builder.get_b(), &vec![ri(-12)]);
    assert_eq!(builder.get_non_negative_indices(), &None);
    assert_eq!(builder.get_dimension_size(), &Some(3));
}

#[test]
fn forms_builder_standardformbuilder_add_greater_than_or_equal_constraint_twice() {
    let builder = StandardFormBuilder::new();
    let result = builder
        .add_greater_than_or_equal_constraint(vec![ri(1), ri(2), ri(3)], ri(12))
        .unwrap()
        .add_greater_than_or_equal_constraint(vec![ri(4), ri(5), ri(6)], ri(7));

    assert!(result.is_ok());

    let builder = result.unwrap();
    assert_eq!(builder.get_c(), &None);
    assert_eq!(
        builder.get_a(),
        &Some(vec![
            vec![ri(-1), ri(-2), ri(-3)],
            vec![ri(-4), ri(-5), ri(-6)],
        ])
    );
    assert_eq!(builder.get_b(), &vec![ri(-12), ri(-7)]);
    assert_eq!(builder.get_non_negative_indices(), &None);
    assert_eq!(builder.get_dimension_size(), &Some(3));
}

#[test]
fn forms_builder_standardformbuilder_add_greater_than_or_equal_constraint_twice_with_all() {
    let builder = StandardFormBuilder::new();
    let result = builder
        .add_max_objective(vec![r(1, 10), r(2, 10), r(3, 10)])
        .unwrap()
        .add_greater_than_or_equal_constraint(vec![ri(1), ri(2), ri(3)], ri(12))
        .unwrap()
        .add_non_negative_indices(vec![1])
        .unwrap()
        .add_greater_than_or_equal_constraint(vec![ri(4), ri(5), ri(6)], ri(7));

    assert!(result.is_ok());

    let builder = result.unwrap();
    assert_eq!(builder.get_c(), &Some(vec![r(1, 10), r(2, 10), r(3, 10)]));
    assert_eq!(
        builder.get_a(),
        &Some(vec![
            vec![ri(-1), ri(-2), ri(-3)],
            vec![ri(-4), ri(-5), ri(-6)],
        ])
    );
    assert_eq!(builder.get_b(), &vec![ri(-12), ri(-7)]);
    assert_eq!(builder.get_non_negative_indices(), &Some(vec![1]));
    assert_eq!(builder.get_dimension_size(), &Some(3));
}

#[test]
fn forms_builder_standardformbuilder_build_missing_objective() {
    let err = StandardFormBuilder::new().build().unwrap_err();

    assert_eq!(
        err,
        "Cannot build standard form for LP problem, missing objective function.".to_string()
    );
}

#[test]
fn forms_builder_standardformbuilder_build_missing_constraints() {
    let err = StandardFormBuilder::new()
        .add_max_objective(vec![ri(1), ri(2), ri(3), ri(4), ri(5)])
        .unwrap()
        .build()
        .unwrap_err();

    assert_eq!(
        err,
        "Cannot build standard form for LP problem, missing constraints.".to_string()
    );
}

fn obj5() -> Vec<Rat> {
    vec![ri(1), ri(2), ri(3), ri(4), ri(5)]
}

fn minus_obj5() -> Vec<Rat> {
    vec![ri(-1), ri(-2), ri(-3), ri(-4), ri(-5)]
}

fn row5() -> Vec<Rat> {
    vec![r(22, 10), r(33, 10), r(44, 10), r(192, 10), r(1008, 100)]
}

fn minus_row5() -> Vec<Rat> {
    vec![
        r(-22, 10),
        r(-33, 10),
        r(-44, 10),
        r(-192, 10),
        r(-1008, 100),
    ]
}

#[test]
fn forms_builder_standardformbuilder_build_equality_constraint_with_max_obj() {
    let b = r(22, 10);
    let standard_form = StandardFormBuilder::new()
        .add_max_objective(obj5())
        .unwrap()
        .add_equality_constraint(row5(), b)
        .unwrap()
        .build()
        .unwrap();

    let expected =
        StandardFormLP::new(obj5(), vec![row5(), minus_row5()], vec![b, b.neg()], None).unwrap();

    assert_eq!(standard_form, expected);
}

#[test]
fn forms_builder_standardformbuilder_build_lt_eq_constraint_with_min_obj() {
    let b = r(22, 10);
    let standard_form = StandardFormBuilder::new()
        .add_min_objective(obj5())
        .unwrap()
        .add_less_than_or_equal_constraint(row5(), b)
        .unwrap()
        .build()
        .unwrap();

    let expected = StandardFormLP::new(minus_obj5(), vec![row5()], vec![b], None).unwrap();

    assert_eq!(standard_form, expected);
}

#[test]
fn forms_builder_standardformbuilder_build_gt_eq_constraint_with_min_obj() {
    let b = r(22, 10);
    let standard_form = StandardFormBuilder::new()
        .add_min_objective(obj5())
        .unwrap()
        .add_greater_than_or_equal_constraint(row5(), b)
        .unwrap()
        .build()
        .unwrap();

    let expected =
        StandardFormLP::new(minus_obj5(), vec![minus_row5()], vec![b.neg()], None).unwrap();

    assert_eq!(standard_form, expected);
}

#[test]
fn forms_builder_standardformbuilder_build_equality_constraint_with_nni() {
    let b = r(22, 10);
    let mut expect_minus_c = minus_obj5();
    expect_minus_c.push(ri(-3));
    let mut expect_row = row5();
    expect_row.push(r(44, 10));
    let mut expect_minus_row = minus_row5();
    expect_minus_row.push(r(-44, 10));
    let standard_form = StandardFormBuilder::new()
        .add_non_negative_indices(vec![2])
        .unwrap()
        .add_min_objective(obj5())
        .unwrap()
        .add_equality_constraint(row5(), b)
        .unwrap()
        .build()
        .unwrap();

    let expected = StandardFormLP::new(
        expect_minus_c,
        vec![expect_row, expect_minus_row],
        vec![b, b.neg()],
        Some(vec![2]),
    )
    .unwrap();

    assert_eq!(standard_form, expected);
}
