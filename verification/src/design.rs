//! The MatrixBuilder: expand exactly one categorical column into a numeric
//! one-hot design matrix and a binary label vector, held in memory.
//!
//! The label convention is deliberately inverted with respect to the usual
//! baseline convention: a row whose target value equals the reference group
//! gets label `1`, every other row gets label `0`, while the reference group
//! receives no predictor column.

use vstd::prelude::*;
use crate::csv::field_at;
use crate::csv::header_of;
use crate::csv::lemma_row_views_push;
use crate::csv::row_views;
use crate::csv::rows_of;
use crate::csv::split_line;
use crate::csv::views;
use crate::error::DataError;
use crate::table::col_index;
use crate::table::collect_uniques;
use crate::table::field_opt;
use crate::table::find_column;
use crate::table::indicator_bit;
use crate::table::uniques_spec;

verus! {

/// A design matrix and label vector. `data` holds the matrix row-major: the
/// entry for data row `i` and predictor `j` is `data[i * cols + j]`. Every
/// entry and every label is `0` or `1`; a consumer scales them to the numeric
/// type of its fitting routine.
pub struct Design {
    /// The number of matrix rows: one per input data row.
    pub rows: usize,
    /// The number of predictor columns: one per registered non-reference
    /// value of the target column.
    pub cols: usize,
    /// The matrix entries, row-major, `rows * cols` of them.
    pub data: Vec<u8>,
    /// The labels, one per input data row.
    pub labels: Vec<u8>,
}

impl Design {
    /// The shapes agree: the flattened data length is exactly rows times
    /// columns, and there is one label per row.
    pub open spec fn wf(self) -> bool {
        &&& self.data@.len() == self.rows * self.cols
        &&& self.labels@.len() == self.rows
    }
}

/// The matrix entry for data row `i` and predictor column `j` of a row-major
/// flattening with `cols` columns.
pub open spec fn cell(data: Seq<u8>, cols: int, i: int, j: int) -> u8 {
    data[i * cols + j]
}

/// The label of a row whose target-column field is `v`: `1` exactly where the
/// field is present and equals the reference group, `0` otherwise.
pub open spec fn label_bit(v: Option<Seq<char>>, refg: Seq<char>) -> u8 {
    if v == Some(refg) {
        1u8
    } else {
        0u8
    }
}

/// Build the design matrix and label vector of the dataset given by `lines`
/// for the single `target_column`, against `reference_group`.
///
/// The predictor columns are the distinct non-reference values of the target
/// column in first-seen order; entry `(i, j)` is `1` exactly where row `i`'s
/// target value equals the `j`-th registered value, and the label of row `i`
/// is `1` exactly where its target value equals the reference group.
///
/// Fails with `FormatError` on an empty input (no header line) and with
/// `ConfigError` where the target column does not occur in the header. The
/// defensive shape check never fires: the contract allows no `ShapeError`.
pub fn matrix(
    lines: &Vec<String>,
    reference_group: &String,
    target_column: &String,
) -> (r: Result<Design, DataError>)
    ensures
        match r {
            Ok(d) => {
                &&& lines@.len() > 0
                &&& col_index(header_of(lines@), target_column@) is Some
                &&& d.wf()
                &&& d.rows == rows_of(lines@).len()
                &&& d.cols == uniques_spec(
                    rows_of(lines@),
                    col_index(header_of(lines@), target_column@)->Some_0,
                    reference_group@,
                ).len()
                &&& forall|i: int|
                    0 <= i < d.rows ==> #[trigger] d.labels@[i] == label_bit(
                        field_at(
                            rows_of(lines@)[i],
                            col_index(header_of(lines@), target_column@)->Some_0,
                        ),
                        reference_group@,
                    )
                &&& forall|i: int, j: int|
                    0 <= i < d.rows && 0 <= j < d.cols ==> #[trigger] cell(
                        d.data@,
                        d.cols as int,
                        i,
                        j,
                    ) == indicator_bit(
                        field_at(
                            rows_of(lines@)[i],
                            col_index(header_of(lines@), target_column@)->Some_0,
                        ),
                        uniques_spec(
                            rows_of(lines@),
                            col_index(header_of(lines@), target_column@)->Some_0,
                            reference_group@,
                        )[j],
                    )
            },
            Err(e) => {
                ||| (e == DataError::FormatError && lines@.len() == 0)
                ||| (e == DataError::ConfigError && lines@.len() > 0 && col_index(
                    header_of(lines@),
                    target_column@,
                ) is None)
            },
        },
{
    if lines.len() == 0 {
        return Err(DataError::FormatError);
    }
    let ghost refg = reference_group@;
    let header = split_line(lines[0].as_str());
    let idx = match find_column(&header, target_column) {
        Some(i) => i,
        None => {
            return Err(DataError::ConfigError);
        },
    };

    // Split every data line into its row of fields.
    let mut rows: Vec<Vec<String>> = Vec::new();
    let mut i: usize = 1;
    proof {
        assert(row_views(rows@) =~= rows_of(lines@).subrange(0, 0));
    }
    while i < lines.len()
        invariant
            1 <= i <= lines@.len(),
            rows@.len() == i - 1,
            row_views(rows@) == rows_of(lines@).subrange(0, i - 1),
        decreases lines@.len() - i,
    {
        let row = split_line(lines[i].as_str());
        proof {
            lemma_row_views_push(rows@, row);
            assert(rows_of(lines@).subrange(0, i as int) =~= rows_of(lines@).subrange(
                0,
                i - 1,
            ).push(rows_of(lines@)[i - 1]));
        }
        rows.push(row);
        i = i + 1;
    }
    let ghost rws = rows_of(lines@);
    proof {
        assert(rws.subrange(0, rws.len() as int) =~= rws);
    }

    // The predictor columns: distinct non-reference values, first-seen order.
    let us = collect_uniques(&rows, idx, reference_group);
    let ghost usv = views(us@);
    let cols = us.len();
    let nrows = rows.len();

    let mut data: Vec<u8> = Vec::new();
    let mut labels: Vec<u8> = Vec::new();
    let mut ri: usize = 0;
    while ri < nrows
        invariant
            ri <= nrows,
            nrows == rows@.len(),
            rws == row_views(rows@),
            refg == reference_group@,
            cols == us@.len(),
            views(us@) == usv,
            usv == uniques_spec(rws, idx as int, refg),
            labels@.len() == ri,
            data@.len() == ri * cols,
            forall|i: int|
                0 <= i < ri ==> #[trigger] labels@[i] == label_bit(
                    field_at(rws[i], idx as int),
                    refg,
                ),
            forall|i: int, jj: int|
                0 <= i < ri && 0 <= jj < cols ==> #[trigger] cell(data@, cols as int, i, jj)
                    == indicator_bit(field_at(rws[i], idx as int), usv[jj]),
        decreases nrows - ri,
    {
        let row = &rows[ri];
        let ghost rowv = rws[ri as int];
        proof {
            assert(views(row@) == rowv);
        }
        let ghost fv = field_at(rowv, idx as int);
        let vopt = field_opt(row, idx);
        let lab: u8 = match vopt {
            Some(v) => if *v == *reference_group {
                1
            } else {
                0
            },
            None => 0,
        };
        proof {
            assert(lab == label_bit(fv, refg));
        }
        labels.push(lab);

        let mut j: usize = 0;
        while j < cols
            invariant
                j <= cols,
                ri < nrows,
                nrows == rows@.len(),
                cols == us@.len(),
                views(us@) == usv,
                usv == uniques_spec(rws, idx as int, refg),
                refg == reference_group@,
                fv == field_at(rws[ri as int], idx as int),
                (match vopt {
                    Some(s) => fv == Some(s@),
                    None => fv is None,
                }),
                labels@.len() == ri + 1,
                labels@[ri as int] == label_bit(fv, refg),
                forall|i: int|
                    0 <= i < ri ==> #[trigger] labels@[i] == label_bit(
                        field_at(rws[i], idx as int),
                        refg,
                    ),
                data@.len() == ri * cols + j,
                forall|i: int, jj: int|
                    0 <= i < ri && 0 <= jj < cols ==> #[trigger] cell(data@, cols as int, i, jj)
                        == indicator_bit(field_at(rws[i], idx as int), usv[jj]),
                forall|jj: int|
                    0 <= jj < j ==> #[trigger] cell(data@, cols as int, ri as int, jj)
                        == indicator_bit(fv, usv[jj]),
            decreases cols - j,
        {
            let b: u8 = match vopt {
                Some(v) => if *v == us[j] {
                    1
                } else {
                    0
                },
                None => 0,
            };
            proof {
                assert(b == indicator_bit(fv, usv[j as int]));
            }
            let ghost pre = data@;
            data.push(b);
            proof {
                let colsi = cols as int;
                let rii = ri as int;
                let ji = j as int;
                assert forall|i: int, jj: int| 0 <= i < rii && 0 <= jj < colsi implies #[trigger] cell(
                    data@,
                    colsi,
                    i,
                    jj,
                ) == indicator_bit(field_at(rws[i], idx as int), usv[jj]) by {
                    assert(i * colsi + jj < rii * colsi) by (nonlinear_arith)
                        requires
                            0 <= i < rii,
                            0 <= jj < colsi,
                    ;
                    assert(data@[i * colsi + jj] == pre[i * colsi + jj]);
                    assert(cell(pre, colsi, i, jj) == indicator_bit(
                        field_at(rws[i], idx as int),
                        usv[jj],
                    ));
                }
                assert forall|jj: int| 0 <= jj < ji + 1 implies #[trigger] cell(
                    data@,
                    colsi,
                    rii,
                    jj,
                ) == indicator_bit(fv, usv[jj]) by {
                    if jj < ji {
                        assert(data@[rii * colsi + jj] == pre[rii * colsi + jj]);
                        assert(cell(pre, colsi, rii, jj) == indicator_bit(fv, usv[jj]));
                    } else {
                        assert(data@[rii * colsi + ji] == b);
                    }
                }
            }
            j = j + 1;
        }
        proof {
            assert((ri + 1) * cols == ri * cols + cols) by (nonlinear_arith);
        }
        ri = ri + 1;
    }

    // Defensive shape check: the flattened data length must be rows times
    // columns. The loop invariants make it pass on every input.
    if data.len() != nrows * cols {
        return Err(DataError::ShapeError);
    }
    Ok(Design { rows: nrows, cols, data, labels })
}

} // verus!
