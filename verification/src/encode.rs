//! The Encoder: expand categorical columns of a dataset into one-hot
//! indicator columns relative to a shared reference-group value, producing
//! the lines of a new delimited file.

use vstd::prelude::*;
use vstd::string::StringExecFns;
use crate::csv::field_at;
use crate::csv::header_of;
use crate::csv::join_fields;
use crate::csv::join_spec;
use crate::csv::lemma_row_views_push;
use crate::csv::lemma_views_push;
use crate::csv::row_views;
use crate::csv::rows_of;
use crate::csv::split_line;
use crate::csv::views;
use crate::error::DataError;
use crate::table::col_index;
use crate::table::collect_uniques;
use crate::table::field_opt;
use crate::table::find_column;
use crate::table::indicator_token;
use crate::table::indicator_tokens;
use crate::table::uniques_spec;

verus! {

/// The separator token spliced between a column name and a value to name an
/// indicator column.
pub open spec fn sep_str() -> Seq<char> {
    "_is_"@
}

/// The name of the indicator column for value `u` of column `t`.
pub open spec fn indicator_name(t: Seq<char>, u: Seq<char>) -> Seq<char> {
    t + sep_str() + u
}

/// The indicator column names for column `t` over a registry, in registry
/// order.
pub open spec fn indicator_names(t: Seq<char>, us: Seq<Seq<char>>) -> Seq<Seq<char>>
    decreases us.len(),
{
    if us.len() == 0 {
        Seq::empty()
    } else {
        indicator_names(t, us.drop_last()).push(indicator_name(t, us.last()))
    }
}

/// The output header fields: for each requested target column that resolves
/// against the header, in the requested order (duplicates kept), the column
/// name itself followed by its indicator column names. Requested names absent
/// from the header contribute nothing.
pub open spec fn enc_header(
    header: Seq<Seq<char>>,
    targets: Seq<Seq<char>>,
    rows: Seq<Seq<Seq<char>>>,
    refg: Seq<char>,
) -> Seq<Seq<char>>
    decreases targets.len(),
{
    if targets.len() == 0 {
        Seq::empty()
    } else {
        let rest = enc_header(header, targets.drop_last(), rows, refg);
        let t = targets.last();
        match col_index(header, t) {
            Some(i) => rest + seq![t] + indicator_names(t, uniques_spec(rows, i, refg)),
            None => rest,
        }
    }
}

/// The raw value of `row` at `idx`, with the empty string standing in where
/// the row is too short.
pub open spec fn raw_value(row: Seq<Seq<char>>, idx: int) -> Seq<char> {
    match field_at(row, idx) {
        Some(v) => v,
        None => Seq::empty(),
    }
}

/// The raw-value fields of one output row: the observed value of each
/// resolved target column, in the requested order.
pub open spec fn enc_raw(header: Seq<Seq<char>>, targets: Seq<Seq<char>>, row: Seq<Seq<char>>) -> Seq<
    Seq<char>,
>
    decreases targets.len(),
{
    if targets.len() == 0 {
        Seq::empty()
    } else {
        let rest = enc_raw(header, targets.drop_last(), row);
        match col_index(header, targets.last()) {
            Some(i) => rest.push(raw_value(row, i)),
            None => rest,
        }
    }
}

/// The indicator fields of one output row: for each resolved target column,
/// in the requested order, one `1`/`0` token per registered unique value.
pub open spec fn enc_indicators(
    header: Seq<Seq<char>>,
    targets: Seq<Seq<char>>,
    rows: Seq<Seq<Seq<char>>>,
    refg: Seq<char>,
    row: Seq<Seq<char>>,
) -> Seq<Seq<char>>
    decreases targets.len(),
{
    if targets.len() == 0 {
        Seq::empty()
    } else {
        let rest = enc_indicators(header, targets.drop_last(), rows, refg, row);
        match col_index(header, targets.last()) {
            Some(i) => rest + indicator_tokens(field_at(row, i), uniques_spec(rows, i, refg)),
            None => rest,
        }
    }
}

/// One output data row: all raw-value fields first, then all indicator
/// fields.
pub open spec fn enc_row(
    header: Seq<Seq<char>>,
    targets: Seq<Seq<char>>,
    rows: Seq<Seq<Seq<char>>>,
    refg: Seq<char>,
    row: Seq<Seq<char>>,
) -> Seq<Seq<char>> {
    enc_raw(header, targets, row) + enc_indicators(header, targets, rows, refg, row)
}

/// Whether at least one requested target column resolves against the header.
pub open spec fn any_target_resolves(header: Seq<Seq<char>>, targets: Seq<Seq<char>>) -> bool {
    exists|k: int| 0 <= k < targets.len() && col_index(header, targets[k]) is Some
}

/// Whether `r` records the resolution of name `t` against `header`.
spec fn resolves_to(header: Seq<Seq<char>>, t: Seq<char>, r: Option<usize>) -> bool {
    match r {
        Some(i) => col_index(header, t) == Some(i as int),
        None => col_index(header, t) is None,
    }
}

/// Whether `us` is the unique-value registry that resolution `r` calls for.
spec fn uniques_for(
    rows: Seq<Seq<Seq<char>>>,
    refg: Seq<char>,
    r: Option<usize>,
    us: Seq<Seq<char>>,
) -> bool {
    us == match r {
        Some(i) => uniques_spec(rows, i as int, refg),
        None => Seq::<Seq<char>>::empty(),
    }
}

/// Expand the target columns of the dataset given by `lines` into one-hot
/// indicator columns against the shared `reference_group`, returning the
/// lines of the encoded file: the new header, then one line per data row.
///
/// Fails with `FormatError` on an empty input (no header line) and with
/// `ConfigError` where no requested target column occurs in the header; a
/// requested name absent from the header is otherwise silently dropped.
pub fn one_hot_encode(
    lines: &Vec<String>,
    reference_group: &String,
    target_columns: &Vec<String>,
) -> (r: Result<Vec<String>, DataError>)
    ensures
        match r {
            Ok(out) => {
                &&& lines@.len() > 0
                &&& any_target_resolves(header_of(lines@), views(target_columns@))
                &&& out@.len() == lines@.len()
                &&& views(out@)[0] == join_spec(
                    enc_header(
                        header_of(lines@),
                        views(target_columns@),
                        rows_of(lines@),
                        reference_group@,
                    ),
                )
                &&& forall|i: int|
                    0 <= i < rows_of(lines@).len() ==> views(out@)[i + 1] == join_spec(
                        enc_row(
                            header_of(lines@),
                            views(target_columns@),
                            rows_of(lines@),
                            reference_group@,
                            rows_of(lines@)[i],
                        ),
                    )
            },
            Err(e) => {
                ||| (e == DataError::FormatError && lines@.len() == 0)
                ||| (e == DataError::ConfigError && lines@.len() > 0 && !any_target_resolves(
                    header_of(lines@),
                    views(target_columns@),
                ))
            },
        },
{
    if lines.len() == 0 {
        return Err(DataError::FormatError);
    }
    let ghost hdr = header_of(lines@);
    let ghost tviews = views(target_columns@);
    let ghost refg = reference_group@;
    let header = split_line(lines[0].as_str());

    // Resolve each requested target column against the header, in order.
    let mut resolved: Vec<Option<usize>> = Vec::new();
    let mut any: bool = false;
    let mut k: usize = 0;
    while k < target_columns.len()
        invariant
            k <= target_columns.len(),
            resolved@.len() == k,
            tviews == views(target_columns@),
            hdr == header_of(lines@),
            views(header@) == hdr,
            forall|m: int| 0 <= m < k ==> resolves_to(hdr, tviews[m], resolved@[m]),
            any == exists|m: int| 0 <= m < k && col_index(hdr, tviews[m]) is Some,
        decreases target_columns.len() - k,
    {
        let r = find_column(&header, &target_columns[k]);
        if r.is_some() {
            any = true;
            proof {
                assert(col_index(hdr, tviews[k as int]) is Some);
            }
        }
        resolved.push(r);
        k = k + 1;
    }
    if !any {
        return Err(DataError::ConfigError);
    }

    // Split every data line into its row of fields.
    let mut rows: Vec<Vec<String>> = Vec::new();
    let mut i: usize = 1;
    proof {
        assert(row_views(rows@) =~= rows_of(lines@).subrange(0, 0));
    }
    while i < lines.len()
        invariant
            1 <= i <= lines@.len(),
            rows@.len() == i - 1,
            row_views(rows@) == rows_of(lines@).subrange(0, i - 1),
        decreases lines@.len() - i,
    {
        let row = split_line(lines[i].as_str());
        proof {
            lemma_row_views_push(rows@, row);
            assert(rows_of(lines@).subrange(0, i as int) =~= rows_of(lines@).subrange(
                0,
                i - 1,
            ).push(rows_of(lines@)[i - 1]));
        }
        rows.push(row);
        i = i + 1;
    }
    let ghost rws = rows_of(lines@);
    proof {
        assert(rws.subrange(0, rws.len() as int) =~= rws);
    }

    // The unique-value registry of each resolved target column.
    let mut uniq: Vec<Vec<String>> = Vec::new();
    let mut k: usize = 0;
    while k < target_columns.len()
        invariant
            k <= target_columns.len(),
            uniq@.len() == k,
            resolved@.len() == target_columns@.len(),
            tviews == views(target_columns@),
            rws == row_views(rows@),
            refg == reference_group@,
            forall|m: int|
                0 <= m < target_columns@.len() ==> resolves_to(hdr, tviews[m], resolved@[m]),
            forall|m: int| 0 <= m < k ==> uniques_for(rws, refg, resolved@[m], views(uniq@[m]@)),
        decreases target_columns.len() - k,
    {
        match resolved[k] {
            Some(idx) => {
                let us = collect_uniques(&rows, idx, reference_group);
                let ghost usv = views(us@);
                uniq.push(us);
                proof {
                    assert(views(uniq@[k as int]@) == usv);
                    assert(uniques_for(rws, refg, resolved@[k as int], usv));
                }
            },
            None => {
                let us: Vec<String> = Vec::new();
                proof {
                    assert(views(us@) =~= Seq::<Seq<char>>::empty());
                }
                let ghost usv = views(us@);
                uniq.push(us);
                proof {
                    assert(views(uniq@[k as int]@) == usv);
                    assert(uniques_for(rws, refg, resolved@[k as int], usv));
                }
            },
        }
        k = k + 1;
    }

    // Construct the output header fields.
    let mut hfields: Vec<String> = Vec::new();
    let mut k: usize = 0;
    proof {
        assert(views(hfields@) =~= enc_header(hdr, tviews.subrange(0, 0), rws, refg));
    }
    while k < target_columns.len()
        invariant
            k <= target_columns.len(),
            resolved@.len() == target_columns@.len(),
            uniq@.len() == target_columns@.len(),
            tviews == views(target_columns@),
            forall|m: int|
                0 <= m < target_columns@.len() ==> resolves_to(hdr, tviews[m], resolved@[m]),
            forall|m: int|
                0 <= m < target_columns@.len() ==> uniques_for(rws, refg, resolved@[m], views(uniq@[m]@)),
            views(hfields@) == enc_header(hdr, tviews.subrange(0, k as int), rws, refg),
        decreases target_columns.len() - k,
    {
        proof {
            assert(tviews.subrange(0, k + 1).drop_last() =~= tviews.subrange(0, k as int));
            assert(tviews.subrange(0, k + 1).last() == tviews[k as int]);
        }
        let ghost rest = enc_header(hdr, tviews.subrange(0, k as int), rws, refg);
        match resolved[k] {
            Some(idx) => {
                let ghost us_spec = uniques_spec(rws, idx as int, refg);
                let t = target_columns[k].clone();
                proof {
                    lemma_views_push(hfields@, t);
                    assert(rest.push(tviews[k as int]) =~= rest + seq![tviews[k as int]]);
                }
                hfields.push(t);
                let mut j: usize = 0;
                proof {
                    assert(indicator_names(tviews[k as int], us_spec.subrange(0, 0))
                        =~= Seq::<Seq<char>>::empty());
                    assert((rest + seq![tviews[k as int]]) + Seq::<Seq<char>>::empty() =~= rest
                        + seq![tviews[k as int]]);
                }
                while j < uniq[k].len()
                    invariant
                        j <= uniq[k as int]@.len(),
                        k < target_columns@.len(),
                        uniq@.len() == target_columns@.len(),
                        tviews == views(target_columns@),
                        views(uniq@[k as int]@) == us_spec,
                        views(hfields@) == (rest + seq![tviews[k as int]]) + indicator_names(
                            tviews[k as int],
                            us_spec.subrange(0, j as int),
                        ),
                    decreases uniq[k as int]@.len() - j,
                {
                    proof {
                        assert(us_spec.subrange(0, j + 1).drop_last() =~= us_spec.subrange(
                            0,
                            j as int,
                        ));
                        assert(us_spec.subrange(0, j + 1).last() == us_spec[j as int]);
                        assert(us_spec[j as int] == uniq@[k as int]@[j as int]@);
                    }
                    let mut name = target_columns[k].clone();
                    name.append("_is_");
                    name.append(uniq[k][j].as_str());
                    proof {
                        assert(name@ == indicator_name(tviews[k as int], us_spec[j as int]));
                        lemma_views_push(hfields@, name);
                        assert((rest + seq![tviews[k as int]]).add(
                            indicator_names(tviews[k as int], us_spec.subrange(0, j as int)).push(
                                name@,
                            ),
                        ) =~= ((rest + seq![tviews[k as int]]) + indicator_names(
                            tviews[k as int],
                            us_spec.subrange(0, j as int),
                        )).push(name@));
                    }
                    hfields.push(name);
                    j = j + 1;
                }
                proof {
                    assert(us_spec.subrange(0, us_spec.len() as int) =~= us_spec);
                    assert(views(hfields@) == enc_header(
                        hdr,
                        tviews.subrange(0, k + 1),
                        rws,
                        refg,
                    ));
                }
            },
            None => {},
        }
        k = k + 1;
    }
    proof {
        assert(tviews.subrange(0, tviews.len() as int) =~= tviews);
    }

    // Emit the output lines: the header, then one line per data row.
    let mut out: Vec<String> = Vec::new();
    let hline = join_fields(&hfields);
    proof {
        lemma_views_push(out@, hline);
    }
    out.push(hline);
    let mut ri: usize = 0;
    while ri < rows.len()
        invariant
            ri <= rows@.len(),
            rows@.len() == rws.len(),
            rws == row_views(rows@),
            out@.len() == ri + 1,
            resolved@.len() == target_columns@.len(),
            uniq@.len() == target_columns@.len(),
            tviews == views(target_columns@),
            forall|m: int|
                0 <= m < target_columns@.len() ==> resolves_to(hdr, tviews[m], resolved@[m]),
            forall|m: int|
                0 <= m < target_columns@.len() ==> uniques_for(rws, refg, resolved@[m], views(uniq@[m]@)),
            views(out@)[0] == join_spec(enc_header(hdr, tviews, rws, refg)),
            forall|i: int|
                0 <= i < ri ==> views(out@)[i + 1] == join_spec(
                    enc_row(hdr, tviews, rws, refg, rws[i]),
                ),
        decreases rows@.len() - ri,
    {
        let row = &rows[ri];
        let ghost rowv = rws[ri as int];
        proof {
            assert(views(row@) == rowv);
        }
        let mut rfields: Vec<String> = Vec::new();

        // The raw values of the resolved target columns.
        let mut k: usize = 0;
        proof {
            assert(views(rfields@) =~= enc_raw(hdr, tviews.subrange(0, 0), rowv));
        }
        while k < target_columns.len()
            invariant
                k <= target_columns@.len(),
                resolved@.len() == target_columns@.len(),
                tviews == views(target_columns@),
                views(row@) == rowv,
                forall|m: int|
                    0 <= m < target_columns@.len() ==> resolves_to(hdr, tviews[m], resolved@[m]),
                views(rfields@) == enc_raw(hdr, tviews.subrange(0, k as int), rowv),
            decreases target_columns.len() - k,
        {
            proof {
                assert(tviews.subrange(0, k + 1).drop_last() =~= tviews.subrange(0, k as int));
                assert(tviews.subrange(0, k + 1).last() == tviews[k as int]);
            }
            match resolved[k] {
                Some(idx) => {
                    let field = match field_opt(row, idx) {
                        Some(v) => v.clone(),
                        None => String::new(),
                    };
                    proof {
                        assert(field@ == raw_value(rowv, idx as int));
                        lemma_views_push(rfields@, field);
                    }
                    rfields.push(field);
                },
                None => {},
            }
            k = k + 1;
        }
        proof {
            assert(tviews.subrange(0, tviews.len() as int) =~= tviews);
        }

        // The indicator tokens of the resolved target columns.
        let ghost raws = enc_raw(hdr, tviews, rowv);
        let mut k: usize = 0;
        proof {
            assert(raws + enc_indicators(hdr, tviews.subrange(0, 0), rws, refg, rowv) =~= raws);
        }
        while k < target_columns.len()
            invariant
                k <= target_columns@.len(),
                resolved@.len() == target_columns@.len(),
                uniq@.len() == target_columns@.len(),
                tviews == views(target_columns@),
                views(row@) == rowv,
                forall|m: int|
                    0 <= m < target_columns@.len() ==> resolves_to(hdr, tviews[m], resolved@[m]),
                forall|m: int|
                    0 <= m < target_columns@.len() ==> uniques_for(rws, refg, resolved@[m], views(uniq@[m]@)),
                views(rfields@) == raws + enc_indicators(
                    hdr,
                    tviews.subrange(0, k as int),
                    rws,
                    refg,
                    rowv,
                ),
            decreases target_columns.len() - k,
        {
            proof {
                assert(tviews.subrange(0, k + 1).drop_last() =~= tviews.subrange(0, k as int));
                assert(tviews.subrange(0, k + 1).last() == tviews[k as int]);
            }
            let ghost part = raws + enc_indicators(
                hdr,
                tviews.subrange(0, k as int),
                rws,
                refg,
                rowv,
            );
            match resolved[k] {
                Some(idx) => {
                    let ghost us_spec = uniques_spec(rws, idx as int, refg);
                    let ghost fv = field_at(rowv, idx as int);
                    let vopt = field_opt(row, idx);
                    let mut j: usize = 0;
                    proof {
                        assert(indicator_tokens(fv, us_spec.subrange(0, 0)) =~= Seq::<
                            Seq<char>,
                        >::empty());
                        assert(part + Seq::<Seq<char>>::empty() =~= part);
                    }
                    while j < uniq[k].len()
                        invariant
                            j <= uniq[k as int]@.len(),
                            k < target_columns@.len(),
                            uniq@.len() == target_columns@.len(),
                            views(uniq@[k as int]@) == us_spec,
                            views(row@) == rowv,
                            fv == field_at(rowv, idx as int),
                            match vopt {
                                Some(s) => fv == Some(s@),
                                None => fv is None,
                            },
                            views(rfields@) == part + indicator_tokens(
                                fv,
                                us_spec.subrange(0, j as int),
                            ),
                        decreases uniq[k as int]@.len() - j,
                    {
                        proof {
                            assert(us_spec.subrange(0, j + 1).drop_last() =~= us_spec.subrange(
                                0,
                                j as int,
                            ));
                            assert(us_spec.subrange(0, j + 1).last() == us_spec[j as int]);
                            assert(us_spec[j as int] == uniq@[k as int]@[j as int]@);
                        }
                        let is_match = match vopt {
                            Some(v) => *v == uniq[k][j],
                            None => false,
                        };
                        let token = if is_match {
                            String::from_str("1")
                        } else {
                            String::from_str("0")
                        };
                        proof {
                            reveal_strlit("1");
                            reveal_strlit("0");
                            assert("1"@ =~= seq!['1']);
                            assert("0"@ =~= seq!['0']);
                            assert(token@ == indicator_token(fv, us_spec[j as int]));
                            lemma_views_push(rfields@, token);
                            assert(part.add(
                                indicator_tokens(fv, us_spec.subrange(0, j as int)).push(token@),
                            ) =~= (part + indicator_tokens(fv, us_spec.subrange(0, j as int))).push(
                                token@,
                            ));
                        }
                        rfields.push(token);
                        j = j + 1;
                    }
                    proof {
                        assert(us_spec.subrange(0, us_spec.len() as int) =~= us_spec);
                    }
                },
                None => {},
            }
            k = k + 1;
        }
        proof {
            assert(tviews.subrange(0, tviews.len() as int) =~= tviews);
        }
        let line = join_fields(&rfields);
        proof {
            lemma_views_push(out@, line);
        }
        out.push(line);
        ri = ri + 1;
    }
    Ok(out)
}

} // verus!
