use numerics::{Matrix, MatrixError, SquareMatrix};

fn square_from(rows: &[&[f64]]) -> SquareMatrix<f64> {
    let n = rows.len();
    let mut m = SquareMatrix::new(n);
    for (i, row) in rows.iter().enumerate() {
        for (j, v) in row.iter().enumerate() {
            m.set(i + 1, j + 1, *v).unwrap();
        }
    }
    m
}

/// The JSON text of a square matrix's `{Size, Matrix}` record.
fn square_record_text(m: &SquareMatrix<f64>) -> String {
    let mut record = serde_json::Map::new();
    record.insert("Size".to_string(), serde_json::Value::from(m.size()));
    record.insert("Matrix".to_string(), serde_json::Value::from(m.elements()));
    serde_json::to_string(&serde_json::Value::Object(record)).expect("Err")
}

/// Reads a square matrix back from its `{Size, Matrix}` record text.
fn square_from_record_text(text: &str) -> SquareMatrix<f64> {
    let value: serde_json::Value = serde_json::from_str(text).expect("Err");
    let size = value["Size"].as_u64().expect("Err") as usize;
    let elements: Vec<f64> = value["Matrix"]
        .as_array()
        .expect("Err")
        .iter()
        .map(|v| v.as_f64().expect("Err"))
        .collect();
    SquareMatrix::from_parts(size, elements).expect("Err")
}

fn reference_matrix() -> SquareMatrix<f64> {
    let mut test_object = SquareMatrix::new(3);
    test_object.set(1, 1, 1.0).unwrap();
    test_object.set(1, 2, -1.0).unwrap();
    test_object.set(1, 3, 0.0).unwrap();
    test_object.set(2, 1, 1.0).unwrap();
    test_object.set(2, 2, 0.0).unwrap();
    test_object.set(2, 3, -1.0).unwrap();
    test_object.set(3, 1, 2.0).unwrap();
    test_object.set(3, 2, 3.0).unwrap();
    test_object.set(3, 3, -4.0).unwrap();
    test_object
}

#[test]
fn determinant_test_1() {
    let mut test_object = SquareMatrix::new(2);
    test_object.set(1, 1, 1.0).unwrap();
    test_object.set(1, 2, 2.0).unwrap();
    test_object.set(2, 1, 3.0).unwrap();
    test_object.set(2, 2, 4.0).unwrap();

    let text = square_record_text(&test_object);
    let recomposed = square_from_record_text(&text);

    assert_eq!(recomposed.deter(), -2.0);
}

#[test]
fn determinant_test_2() {
    let test_object = reference_matrix();

    // The determinant is computed correctly
    assert_eq!(test_object.deter(), 1.0);

    // The matrix survives a trip through the JSON text of its record
    let text = square_record_text(&test_object);
    let recomposed_matrix = square_from_record_text(&text);
    assert_eq!(test_object, recomposed_matrix);

    // The recomposed matrix has the same determinant
    assert_eq!(recomposed_matrix.deter(), 1.0);
}

#[test]
fn square_transposition_test() {
    let base_matrix = reference_matrix();

    let mut transposed_matrix = SquareMatrix::new(3);
    transposed_matrix.set(1, 1, 1.0).unwrap();
    transposed_matrix.set(1, 2, 1.0).unwrap();
    transposed_matrix.set(1, 3, 2.0).unwrap();
    transposed_matrix.set(2, 1, -1.0).unwrap();
    transposed_matrix.set(2, 2, 0.0).unwrap();
    transposed_matrix.set(2, 3, 3.0).unwrap();
    transposed_matrix.set(3, 1, 0.0).unwrap();
    transposed_matrix.set(3, 2, -1.0).unwrap();
    transposed_matrix.set(3, 3, -4.0).unwrap();

    assert_eq!(base_matrix.transpose(), transposed_matrix);
}

#[test]
fn inversion_test() {
    let base_matrix = reference_matrix();

    let mut inverse_matrix = SquareMatrix::new(3);
    inverse_matrix.set(1, 1, 3.0).unwrap();
    inverse_matrix.set(1, 2, -4.0).unwrap();
    inverse_matrix.set(1, 3, 1.0).unwrap();
    inverse_matrix.set(2, 1, 2.0).unwrap();
    inverse_matrix.set(2, 2, -4.0).unwrap();
    inverse_matrix.set(2, 3, 1.0).unwrap();
    inverse_matrix.set(3, 1, 3.0).unwrap();
    inverse_matrix.set(3, 2, -5.0).unwrap();
    inverse_matrix.set(3, 3, 1.0).unwrap();

    // The matrix gets inverted correctly
    assert_eq!(base_matrix, inverse_matrix.invert().unwrap());

    let mut det_0_matrix = SquareMatrix::new(3);
    det_0_matrix.set(1, 1, 1.0).unwrap();
    det_0_matrix.set(1, 2, 2.0).unwrap();
    det_0_matrix.set(2, 1, 2.0).unwrap();
    det_0_matrix.set(2, 2, 4.0).unwrap();

    // Non-invertible matrices are reported
    assert_eq!(det_0_matrix.invert().is_err(), true);
}

#[test]
fn square_sum_test() {
    let base_matrix = reference_matrix();

    let mut second_matrix = SquareMatrix::new(2);
    second_matrix.set(1, 1, 1.0).unwrap();
    second_matrix.set(1, 2, -1.0).unwrap();
    second_matrix.set(2, 1, 1.0).unwrap();
    second_matrix.set(2, 2, 0.0).unwrap();

    assert_eq!(base_matrix.sum(second_matrix).is_err(), true);
    assert_eq!(base_matrix.sum(base_matrix.to_owned()).is_err(), false);

    let mut third_matrix = SquareMatrix::new(3);
    third_matrix.set(1, 1, 2.0).unwrap();
    third_matrix.set(1, 2, -2.0).unwrap();
    third_matrix.set(1, 3, 0.0).unwrap();
    third_matrix.set(2, 1, 2.0).unwrap();
    third_matrix.set(2, 2, 0.0).unwrap();
    third_matrix.set(2, 3, -2.0).unwrap();
    third_matrix.set(3, 1, 4.0).unwrap();
    third_matrix.set(3, 2, 6.0).unwrap();
    third_matrix.set(3, 3, -8.0).unwrap();

    assert_eq!(base_matrix.sum(base_matrix.to_owned()).unwrap(), third_matrix);
}

fn reference_rect() -> Matrix<f64> {
    let mut base_matrix = Matrix::new(3, 2);
    base_matrix.set(1, 1, 1.0).unwrap();
    base_matrix.set(1, 2, -1.0).unwrap();
    base_matrix.set(1, 3, 0.0).unwrap();
    base_matrix.set(2, 1, 1.0).unwrap();
    base_matrix.set(2, 2, 0.0).unwrap();
    base_matrix.set(2, 3, -1.0).unwrap();
    base_matrix
}

#[test]
fn transposition_test() {
    let base_matrix = reference_rect();

    let mut transpose_matrix = Matrix::new(2, 3);
    transpose_matrix.set(1, 1, 1.0).unwrap();
    transpose_matrix.set(1, 2, 1.0).unwrap();
    transpose_matrix.set(2, 1, -1.0).unwrap();
    transpose_matrix.set(2, 2, 0.0).unwrap();
    transpose_matrix.set(3, 1, 0.0).unwrap();
    transpose_matrix.set(3, 2, -1.0).unwrap();

    assert_eq!(base_matrix.transpose(), transpose_matrix);
}

#[test]
fn sum_test() {
    let base_matrix = reference_rect();

    let mut second_matrix = Matrix::new(2, 3);
    second_matrix.set(1, 1, 1.0).unwrap();
    second_matrix.set(1, 2, 1.0).unwrap();
    second_matrix.set(2, 1, -1.0).unwrap();
    second_matrix.set(2, 2, 0.0).unwrap();
    second_matrix.set(3, 1, 0.0).unwrap();
    second_matrix.set(3, 2, -1.0).unwrap();

    // Mismatched shapes are reported
    assert_eq!(base_matrix.sum(second_matrix).is_err(), true);
    assert_eq!(base_matrix.sum(base_matrix.to_owned()).is_err(), false);

    let mut third_matrix = Matrix::new(3, 2);
    third_matrix.set(1, 1, 2.0).unwrap();
    third_matrix.set(1, 2, -2.0).unwrap();
    third_matrix.set(1, 3, 0.0).unwrap();
    third_matrix.set(2, 1, 2.0).unwrap();
    third_matrix.set(2, 2, 0.0).unwrap();
    third_matrix.set(2, 3, -2.0).unwrap();

    assert_eq!(base_matrix.sum(base_matrix.to_owned()).unwrap(), third_matrix);
}

// ---- further cases ----

#[test]
fn determinant_of_singular_three_by_three() {
    let m = square_from(&[&[1.0, 2.0, 3.0], &[4.0, 5.0, 6.0], &[7.0, 8.0, 9.0]]);
    assert_eq!(m.deter(), 0.0);
}

#[test]
fn determinant_of_four_by_four() {
    let m = square_from(&[
        &[2.0, 0.0, 1.0, 3.0],
        &[1.0, 1.0, 0.0, 2.0],
        &[0.0, 3.0, 1.0, 1.0],
        &[1.0, 0.0, 2.0, 1.0],
    ]);
    assert_eq!(m.deter(), -1.0);
}

#[test]
fn determinants_below_two_by_two() {
    let empty: SquareMatrix<f64> = SquareMatrix::new(0);
    assert_eq!(empty.deter(), 1.0);
    let one = square_from(&[&[5.0]]);
    assert_eq!(one.deter(), 5.0);
}

#[test]
fn two_by_two_cofactors_and_inverse() {
    let m = square_from(&[&[1.0, 2.0], &[3.0, 4.0]]);
    assert_eq!(m.compl(1, 1), 4.0);
    assert_eq!(m.compl(1, 2), -3.0);
    assert_eq!(m.compl(2, 1), -2.0);
    assert_eq!(m.compl(2, 2), 1.0);
    let n = square_from(&[&[2.0, 1.0], &[1.0, 1.0]]);
    assert_eq!(n.invert().unwrap(), square_from(&[&[1.0, -1.0], &[-1.0, 2.0]]));
    let half = square_from(&[&[2.0, 0.0], &[0.0, 1.0]]);
    assert_eq!(half.invert().unwrap(), square_from(&[&[0.5, 0.0], &[0.0, 1.0]]));
}

#[test]
fn one_by_one_inverse() {
    let m = square_from(&[&[4.0]]);
    assert_eq!(m.invert().unwrap(), square_from(&[&[0.25]]));
    let z = square_from(&[&[0.0]]);
    assert_eq!(z.invert(), Err(MatrixError::NotInvertible));
}

#[test]
fn cofactor_signs_alternate() {
    let m = reference_matrix();
    assert_eq!(m.compl(1, 1), 3.0);
    assert_eq!(m.compl(1, 2), 2.0);
    assert_eq!(m.compl(2, 1), -4.0);
    assert_eq!(m.compl(3, 3), 1.0);
}

#[test]
fn minor_drops_row_and_column() {
    let m = reference_matrix();
    let minor = m.minor(2, 3);
    assert_eq!(minor, square_from(&[&[1.0, -1.0], &[2.0, 3.0]]));
}

#[test]
fn inverse_scales_by_reciprocal_determinant() {
    // determinant 2: the inverse holds halves
    let m = square_from(&[&[2.0, 0.0, 0.0], &[0.0, 1.0, 0.0], &[0.0, 0.0, 1.0]]);
    let inv = m.invert().unwrap();
    assert_eq!(inv, square_from(&[&[0.5, 0.0, 0.0], &[0.0, 1.0, 0.0], &[0.0, 0.0, 1.0]]));
}

#[test]
fn inverse_of_inverse_is_close_to_original() {
    let m = square_from(&[&[4.0, 7.0, 2.0], &[3.0, 6.0, 1.0], &[2.0, 5.0, 3.0]]);
    let back = m.clone().invert().unwrap().invert().unwrap();
    for i in 1..=3 {
        for j in 1..=3 {
            let d = back.get(i, j).unwrap() - m.get(i, j).unwrap();
            assert!(d.abs() < 1e-9);
        }
    }
}

#[test]
fn singular_matrix_reports_not_invertible() {
    let m = square_from(&[&[1.0, 2.0, 3.0], &[4.0, 5.0, 6.0], &[7.0, 8.0, 9.0]]);
    assert_eq!(m.invert(), Err(MatrixError::NotInvertible));
}

#[test]
fn sum_mismatch_error_kind() {
    let a: SquareMatrix<f64> = SquareMatrix::new(3);
    let b: SquareMatrix<f64> = SquareMatrix::new(2);
    assert_eq!(a.sum(b), Err(MatrixError::DimensionMismatch));
    let c: Matrix<f64> = Matrix::new(3, 2);
    let d: Matrix<f64> = Matrix::new(3, 3);
    assert_eq!(c.sum(d), Err(MatrixError::DimensionMismatch));
}

#[test]
fn out_of_range_indices_are_reported() {
    let mut m: SquareMatrix<f64> = SquareMatrix::new(2);
    assert_eq!(m.get(0, 1), Err(MatrixError::OutOfRange));
    assert_eq!(m.get(1, 3), Err(MatrixError::OutOfRange));
    assert_eq!(m.set(3, 1, 1.0), Err(MatrixError::OutOfRange));
    assert_eq!(m, SquareMatrix::new(2));
    let mut r: Matrix<f64> = Matrix::new(3, 2);
    assert_eq!(r.get(3, 1), Err(MatrixError::OutOfRange));
    assert_eq!(r.set(1, 4, 1.0), Err(MatrixError::OutOfRange));
    assert_eq!(r.get(2, 3), Ok(0.0));
}

#[test]
fn new_matrices_are_zero_filled() {
    let m: SquareMatrix<f64> = SquareMatrix::new(3);
    assert_eq!(m.elements(), vec![0.0; 9]);
    let r: Matrix<f64> = Matrix::new(4, 2);
    assert_eq!(r.elements(), vec![0.0; 8]);
    assert_eq!((r.sizex(), r.sizey()), (4, 2));
}

#[test]
fn elements_are_row_major() {
    let mut r: Matrix<f64> = Matrix::new(3, 2);
    r.set(2, 1, 7.0).unwrap();
    r.set(1, 3, 5.0).unwrap();
    assert_eq!(r.elements(), vec![0.0, 0.0, 5.0, 7.0, 0.0, 0.0]);
}

#[test]
fn transpose_twice_gives_back_the_matrix() {
    let m = reference_matrix();
    assert_eq!(m.transpose().transpose(), m);
    let r = reference_rect();
    assert_eq!(r.transpose().transpose(), r);
    let t = r.transpose();
    assert_eq!((t.sizex(), t.sizey()), (2, 3));
}

#[test]
fn from_parts_checks_the_length() {
    assert_eq!(SquareMatrix::from_parts(2, vec![1.0, 2.0, 3.0]), Err(MatrixError::BadLength));
    assert_eq!(Matrix::from_parts(3, 2, vec![1.0; 5]), Err(MatrixError::BadLength));
    assert_eq!(SquareMatrix::<f64>::from_parts(0, vec![]).unwrap().size(), 0);
    let r = Matrix::from_parts(3, 2, vec![1.0, 2.0, 3.0, 4.0, 5.0, 6.0]).unwrap();
    assert_eq!(r.get(2, 1), Ok(4.0));
    assert_eq!(Matrix::from_parts(3, 2, r.elements()).unwrap(), r);
}

#[test]
fn record_round_trip_keeps_every_bit() {
    let m = square_from(&[&[0.1, 1.0 / 3.0, -2.5e-300], &[1e308, f64::MIN_POSITIVE, -0.0], &[7.0, 2.0f64.sqrt(), 123456.789]]);
    let back = square_from_record_text(&square_record_text(&m));
    let a: Vec<u64> = m.elements().iter().map(|x| x.to_bits()).collect();
    let b: Vec<u64> = back.elements().iter().map(|x| x.to_bits()).collect();
    assert_eq!(a, b);
}

#[test]
fn record_round_trip_through_json() {
    let r = reference_rect();
    let text = serde_json::to_string(&r.elements()).unwrap();
    let back: Vec<f64> = serde_json::from_str(&text).unwrap();
    assert_eq!(Matrix::from_parts(r.sizex(), r.sizey(), back).unwrap(), r);
}

#[test]
fn sum_of_a_matrix_with_itself_doubles_it() {
    let m = square_from(&[&[1.5, -2.0], &[0.25, 3.0]]);
    let doubled = m.sum(m.clone()).unwrap();
    assert_eq!(doubled, square_from(&[&[3.0, -4.0], &[0.5, 6.0]]));
}

#[test]
fn generic_over_integer_entries() {
    let mut m: SquareMatrix<i64> = SquareMatrix::new(2);
    m.set(1, 1, 3).unwrap();
    m.set(2, 2, 4).unwrap();
    m.set(1, 2, 1).unwrap();
    assert_eq!(m.transpose().get(2, 1), Ok(1));
    assert_eq!(m.sum(m.clone()).unwrap().get(2, 2), Ok(8));
}

#[test]
fn integer_determinants_and_inverse() {
    let mut m: SquareMatrix<i64> = SquareMatrix::new(3);
    let rows = [[1, -1, 0], [1, 0, -1], [2, 3, -4]];
    for i in 0..3 {
        for j in 0..3 {
            m.set(i + 1, j + 1, rows[i][j]).unwrap();
        }
    }
    assert_eq!(m.deter(), 1);
    let inv = m.invert().unwrap();
    let expected = [[3, -4, 1], [2, -4, 1], [3, -5, 1]];
    for i in 0..3 {
        for j in 0..3 {
            assert_eq!(inv.get(i + 1, j + 1), Ok(expected[i][j]));
        }
    }
}
