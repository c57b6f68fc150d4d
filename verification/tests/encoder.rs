use onehot::one_hot_encode;
use onehot::DataError;

fn lines(raw: &[&str]) -> Vec<String> {
    raw.iter().map(|s| s.to_string()).collect()
}

fn encode(input: &[&str], reference: &str, targets: &[&str]) -> Result<Vec<String>, DataError> {
    one_hot_encode(&lines(input), &reference.to_string(), &lines(targets))
}

#[test]
fn colors_single_target() {
    let out = encode(
        &["id,color", "1,red", "2,blue", "3,red", "4,green"],
        "red",
        &["color"],
    )
    .unwrap();
    assert_eq!(
        out,
        lines(&[
            "color,color_is_blue,color_is_green",
            "red,0,0",
            "blue,1,0",
            "red,0,0",
            "green,0,1",
        ])
    );
}

#[test]
fn no_target_resolves() {
    let r = encode(&["id,color", "1,red"], "red", &["shade"]);
    assert_eq!(r, Err(DataError::ConfigError));
}

#[test]
fn no_targets_at_all() {
    let r = encode(&["id,color", "1,red"], "red", &[]);
    assert_eq!(r, Err(DataError::ConfigError));
}

#[test]
fn empty_input() {
    let r = encode(&[], "red", &["color"]);
    assert_eq!(r, Err(DataError::FormatError));
}

#[test]
fn header_only_input() {
    let out = encode(&["id,color"], "red", &["color"]).unwrap();
    assert_eq!(out, lines(&["color"]));
}

#[test]
fn unresolved_target_dropped() {
    let out = encode(&["id,color", "1,red", "2,blue"], "red", &["shade", "color"]).unwrap();
    assert_eq!(out, lines(&["color,color_is_blue", "red,0", "blue,1"]));
}

#[test]
fn duplicate_targets_kept() {
    let out = encode(&["id,color", "2,blue", "4,green"], "red", &["color", "color"]).unwrap();
    // The header interleaves each target's name with its indicator names;
    // data rows list all raw values first, then all indicator tokens.
    assert_eq!(
        out,
        lines(&[
            "color,color_is_blue,color_is_green,color,color_is_blue,color_is_green",
            "blue,blue,1,0,1,0",
            "green,green,0,1,0,1",
        ])
    );
}

#[test]
fn two_targets_grouped_rows() {
    let out = encode(
        &["id,color", "1,red", "2,blue"],
        "red",
        &["id", "color"],
    )
    .unwrap();
    assert_eq!(
        out,
        lines(&[
            "id,id_is_1,id_is_2,color,color_is_blue",
            "1,red,1,0,0",
            "2,blue,0,1,1",
        ])
    );
}

#[test]
fn short_rows_tolerated() {
    let out = encode(&["a,b", "x", "y,q"], "z", &["b"]).unwrap();
    assert_eq!(out, lines(&["b,b_is_q", ",0", "q,1"]));
}

#[test]
fn empty_value_is_registered() {
    let out = encode(&["id,color", "1,", "2,blue"], "red", &["color"]).unwrap();
    assert_eq!(
        out,
        lines(&["color,color_is_,color_is_blue", ",1,0", "blue,0,1"])
    );
}

#[test]
fn reference_value_not_registered() {
    let out = encode(&["id,color", "1,blue", "2,red", "3,blue"], "blue", &["color"]).unwrap();
    assert_eq!(
        out,
        lines(&["color,color_is_red", "blue,0", "red,1", "blue,0"])
    );
}

#[test]
fn comparison_is_exact() {
    // Case-sensitive, no trimming: "Red" and " red" are not the reference.
    let out = encode(&["id,color", "1,Red", "2, red"], "red", &["color"]).unwrap();
    assert_eq!(
        out,
        lines(&[
            "color,color_is_Red,color_is_ red",
            "Red,1,0",
            " red,0,1",
        ])
    );
}

#[test]
fn first_seen_order_is_kept() {
    let out = encode(
        &["k,v", "1,zeta", "2,alpha", "3,zeta", "4,mid", "5,alpha"],
        "none",
        &["v"],
    )
    .unwrap();
    // Discovery order, not sorted order.
    assert_eq!(out[0], "v,v_is_zeta,v_is_alpha,v_is_mid");
}

#[test]
fn indicator_row_sums_at_most_one() {
    let out = encode(
        &["id,color", "1,red", "2,blue", "3,red", "4,green", "5,blue"],
        "red",
        &["color"],
    )
    .unwrap();
    for line in out.iter().skip(1) {
        let fields: Vec<&str> = line.split(',').collect();
        let sum: u32 = fields[1..]
            .iter()
            .map(|f| f.parse::<u32>().unwrap())
            .sum();
        assert!(sum <= 1);
        if fields[0] == "red" {
            assert_eq!(sum, 0);
        }
    }
}

#[test]
fn header_width_matches_distinct_count() {
    let input = ["id,color", "1,red", "2,blue", "3,red", "4,green", "5,blue"];
    let out = encode(&input, "red", &["color"]).unwrap();
    // One raw column plus one indicator per distinct non-reference value.
    let distinct_non_reference = 2;
    assert_eq!(
        out[0].split(',').count(),
        1 + distinct_non_reference
    );
}
