use onehot::matrix;
use onehot::DataError;
use onehot::Design;

fn lines(raw: &[&str]) -> Vec<String> {
    raw.iter().map(|s| s.to_string()).collect()
}

fn build(input: &[&str], reference: &str, target: &str) -> Result<Design, DataError> {
    matrix(&lines(input), &reference.to_string(), &target.to_string())
}

#[test]
fn colors_design_matrix() {
    let d = build(
        &["id,color", "1,red", "2,blue", "3,red", "4,green"],
        "red",
        "color",
    )
    .unwrap();
    assert_eq!(d.rows, 4);
    assert_eq!(d.cols, 2);
    // Predictors in first-seen order excluding the reference: blue, green.
    assert_eq!(d.data, vec![0, 0, 1, 0, 0, 0, 0, 1]);
    assert_eq!(d.labels, vec![1, 0, 1, 0]);
}

#[test]
fn labels_scale_to_floats() {
    let d = build(
        &["id,color", "1,red", "2,blue", "3,red", "4,green"],
        "red",
        "color",
    )
    .unwrap();
    let y: Vec<f64> = d.labels.iter().map(|b| *b as f64).collect();
    assert_eq!(y, vec![1.0, 0.0, 1.0, 0.0]);
    let x: Vec<f64> = d.data.iter().map(|b| *b as f64).collect();
    assert_eq!(x, vec![0.0, 0.0, 1.0, 0.0, 0.0, 0.0, 0.0, 1.0]);
}

#[test]
fn matrix_empty_input() {
    let r = build(&[], "red", "color");
    assert_eq!(r.map(|d| d.rows), Err(DataError::FormatError));
}

#[test]
fn missing_target_column() {
    let r = build(&["id,color", "1,red"], "red", "shade");
    assert_eq!(r.map(|d| d.rows), Err(DataError::ConfigError));
}

#[test]
fn matrix_header_only_input() {
    let d = build(&["id,color"], "red", "color").unwrap();
    assert_eq!(d.rows, 0);
    assert_eq!(d.cols, 0);
    assert_eq!(d.data, Vec::<u8>::new());
    assert_eq!(d.labels, Vec::<u8>::new());
}

#[test]
fn reference_absent_from_data() {
    let d = build(
        &["id,color", "1,red", "2,blue", "3,green"],
        "purple",
        "color",
    )
    .unwrap();
    assert_eq!(d.cols, 3);
    assert_eq!(d.labels, vec![0, 0, 0]);
    assert_eq!(d.data, vec![1, 0, 0, 0, 1, 0, 0, 0, 1]);
}

#[test]
fn matrix_short_rows_tolerated() {
    let d = build(&["a,b", "1,x", "2"], "x", "b").unwrap();
    // The only observed value is the reference, so there is no predictor;
    // the short row is absent, hence not the reference, hence label 0.
    assert_eq!(d.rows, 2);
    assert_eq!(d.cols, 0);
    assert_eq!(d.data, Vec::<u8>::new());
    assert_eq!(d.labels, vec![1, 0]);
}

#[test]
fn row_sums_at_most_one() {
    let d = build(
        &["id,color", "1,red", "2,blue", "3,red", "4,green", "5,blue"],
        "red",
        "color",
    )
    .unwrap();
    for i in 0..d.rows {
        let sum: u32 = d.data[i * d.cols..(i + 1) * d.cols]
            .iter()
            .map(|b| *b as u32)
            .sum();
        assert!(sum <= 1);
        if d.labels[i] == 1 {
            assert_eq!(sum, 0);
        }
    }
}

#[test]
fn exact_match_only() {
    let d = build(&["id,color", "1,Red", "2,red "], "red", "color").unwrap();
    // Neither "Red" nor "red " equals the reference exactly.
    assert_eq!(d.cols, 2);
    assert_eq!(d.labels, vec![0, 0]);
    assert_eq!(d.data, vec![1, 0, 0, 1]);
}

#[test]
fn first_seen_order_of_predictors() {
    let d = build(
        &["k,v", "1,zeta", "2,alpha", "3,zeta", "4,mid"],
        "none",
        "v",
    )
    .unwrap();
    // Columns are zeta, alpha, mid in first-seen order, not sorted.
    assert_eq!(d.cols, 3);
    assert_eq!(d.data, vec![1, 0, 0, 0, 1, 0, 1, 0, 0, 0, 0, 1]);
}
