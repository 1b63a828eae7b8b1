use simplex_lp::rat::Rat;
use simplex_lp::standard::{check_non_negative_indices, StandardFormLP};

fn r(n: i64, d: i64) -> Rat {
    Rat::new(n, d)
}

fn row_a1() -> Vec<Rat> {
    vec![r(11, 10), r(2289719871981, 1000000000000), r(33, 10)]
}

fn row_a2() -> Vec<Rat> {
    vec![r(44, 10), r(55, 10), r(66188918901, 10000000000)]
}

fn row_a3() -> Vec<Rat> {
    vec![r(42, 10), r(85, 10), r(76188918901, 10000000000)]
}

fn c3() -> Vec<Rat> {
    vec![r(102, 10), r(133, 10), r(1418, 100)]
}

fn b2() -> Vec<Rat> {
    vec![r(62, 10), r(812, 100)]
}

#[test]
fn forms_standard_check_non_negative_indices_ok() {
    let result = check_non_negative_indices(&None, None);
    assert!(result.is_ok());

    let result = check_non_negative_indices(&None, Some(2));
    assert!(result.is_ok());

    let result = check_non_negative_indices(&Some(vec![1, 2, 3, 4]), None);
    assert!(result.is_ok());

    let result = check_non_negative_indices(&Some(vec![1, 2, 3, 4]), Some(5));
    assert!(result.is_ok());
}

#[test]
fn forms_standard_check_non_negative_indices_empty_vec() {
    let err = check_non_negative_indices(&Some(Vec::new()), None).unwrap_err();

    assert_eq!(
        err,
        "It is not allowed to add an empty array of non negative indices.".to_string()
    );
}

#[test]
fn forms_standard_check_non_negative_indices_not_uniq() {
    let err = check_non_negative_indices(&Some(vec![0, 1, 1]), None).unwrap_err();

    assert_eq!(
        err,
        "Non negative indices vector must be unique and sorted in ascending order.".to_string()
    );
}

#[test]
fn forms_standard_check_non_negative_indices_not_sorted() {
    let err = check_non_negative_indices(&Some(vec![0, 2, 1]), None).unwrap_err();

    assert_eq!(
        err,
        "Non negative indices vector must be unique and sorted in ascending order.".to_string()
    );
}

#[test]
fn forms_standard_check_non_negative_indices_bad_dim_case_1() {
    let err = check_non_negative_indices(&Some(vec![0, 2]), Some(2)).unwrap_err();

    assert_eq!(
        err,
        "Non negative indices are out of bound of the dimension size.".to_string()
    );
}

#[test]
fn forms_standard_check_non_negative_indices_bad_dim_case_2() {
    let err = check_non_negative_indices(&Some(vec![0, 2]), Some(1)).unwrap_err();

    assert_eq!(
        err,
        "Non negative indices are out of bound of the dimension size.".to_string()
    );
}

#[test]
fn forms_standard_standardformlp_empty_vector_c() {
    let c = vec![];
    let b = b2();
    let a = vec![row_a1(), row_a2()];

    let err = StandardFormLP::new(c, a, b, None).unwrap_err();

    assert_eq!(err, "Vector 'c' should not be empty".to_string());
}

#[test]
fn forms_standard_standardformlp_empty_vector_b() {
    let c = c3();
    let b = vec![];
    let a = vec![row_a1(), row_a2()];

    let err = StandardFormLP::new(c, a, b, None).unwrap_err();

    assert_eq!(err, "Vector 'b' should not be empty".to_string());
}

#[test]
fn forms_standard_standardformlp_empty_matrix_a() {
    let c = c3();
    let b = b2();
    let a = vec![];

    let err = StandardFormLP::new(c, a, b, None).unwrap_err();

    assert_eq!(err, "Matrix 'a' should not be empty".to_string());
}

#[test]
fn forms_standard_standardformlp_mismatch_matrix_a() {
    let c = c3();
    let b = b2();
    let a = vec![row_a1(), vec![r(44, 10)]];

    let err = StandardFormLP::new(c, a, b, None).unwrap_err();

    assert_eq!(
        err,
        "Each and every row in the matrix 'a' should have the same size".to_string()
    );
}

#[test]
fn forms_standard_standardformlp_mismatch_matrix_a_vector_b() {
    let c = c3();
    let b = vec![r(62, 10), r(812, 100), r(18, 1)];
    let a = vec![row_a1(), row_a2()];

    let err = StandardFormLP::new(c, a, b, None).unwrap_err();

    assert_eq!(
        err,
        "Matrix 'a' columns count does not match with vector 'b' size (2 != 3)".to_string()
    );
}

#[test]
fn forms_standard_standardformlp_mismatch_matrix_a_vector_c() {
    let c = vec![r(102, 10), r(133, 10), r(1418, 100), r(102, 10)];
    let b = b2();
    let a = vec![row_a1(), row_a2()];

    let err = StandardFormLP::new(c, a, b, None).unwrap_err();

    assert_eq!(
        err,
        "Matrix 'a' rows count does not match with vector 'c' size (3 != 4)".to_string()
    );
}

#[test]
fn forms_standard_standardformlp_empty_non_negative_indices() {
    let c = c3();
    let b = vec![r(62, 10), r(812, 100), r(12, 10)];
    let a = vec![row_a1(), row_a2(), row_a3()];

    let err = StandardFormLP::new(c, a, b, Some(Vec::new())).unwrap_err();

    assert_eq!(
        err,
        "It is not allowed to add an empty array of non negative indices.".to_string()
    );
}

#[test]
fn forms_standard_standardformlp_unsorted_non_negative_indices() {
    let mut c = c3();
    c.push(r(1, 1));
    c.push(r(2, 1));
    let b = vec![r(62, 10), r(812, 100), r(12, 10)];
    let mut a = Vec::new();
    for mut row in vec![row_a1(), row_a2(), row_a3()] {
        row.push(r(1, 1));
        row.push(r(2, 1));
        a.push(row);
    }

    let err = StandardFormLP::new(c, a, b, Some(vec![2, 1])).unwrap_err();

    assert_eq!(
        err,
        "Non negative indices vector must be unique and sorted in ascending order.".to_string()
    );
}

#[test]
fn forms_standard_standardformlp_non_uniq_non_negative_indices() {
    let mut c = c3();
    for v in [1, 2, 3, 4, 8, 9] {
        c.push(r(v, 1));
    }
    let b = vec![r(62, 10), r(812, 100), r(12, 10)];
    let mut a = Vec::new();
    for mut row in vec![row_a1(), row_a2(), row_a3()] {
        for v in [1, 2, 3, 4, 8, 9] {
            row.push(r(v, 1));
        }
        a.push(row);
    }

    let err = StandardFormLP::new(c, a, b, Some(vec![0, 1, 2, 2])).unwrap_err();

    assert_eq!(
        err,
        "Non negative indices vector must be unique and sorted in ascending order.".to_string()
    );
}

#[test]
fn forms_standard_standardformlp_more_indices_non_negative_indices() {
    let c = c3();
    let b = vec![r(62, 10), r(812, 100), r(12, 10)];
    let a = vec![row_a1(), row_a2(), row_a3()];

    let err = StandardFormLP::new(c, a, b, Some(vec![0, 1, 2, 2])).unwrap_err();

    assert_eq!(
        err,
        "Cannot be more non negative indices than the dimension size.".to_string()
    );
}

#[test]
fn forms_standard_standardformlp_out_of_bound_non_negative_indices() {
    let mut c = c3();
    for v in [1, 2, 3] {
        c.push(r(v, 1));
    }
    let b = vec![r(62, 10), r(812, 100), r(12, 10)];
    let mut a = Vec::new();
    for mut row in vec![row_a1(), row_a2(), row_a3()] {
        for v in [1, 2, 3] {
            row.push(r(v, 1));
        }
        a.push(row);
    }

    let err = StandardFormLP::new(c, a, b, Some(vec![0, 1, 3])).unwrap_err();

    assert_eq!(
        err,
        "Non negative indices are out of bound of the dimension size.".to_string()
    );
}

#[test]
fn forms_standard_standardformlp_should_be_created() {
    let c = c3();
    let b = b2();
    let a = vec![row_a1(), row_a2()];

    let standard_form = StandardFormLP::new(c, a, b, None);

    assert!(standard_form.is_ok());
}

#[test]
fn forms_standard_standardformlp_with_non_negative_indices_should_be_created() {
    let mut c = c3();
    c.push(r(1, 1));
    c.push(r(2, 1));
    let b = b2();
    let mut a = Vec::new();
    for mut row in vec![row_a1(), row_a2()] {
        row.push(r(1, 1));
        row.push(r(2, 1));
        a.push(row);
    }
    let nni = vec![0, 2];

    let standard_form = StandardFormLP::new(c, a, b, Some(nni));

    assert!(standard_form.is_ok());
}
