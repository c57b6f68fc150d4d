//! Laws of the unique-value registry and of the one-hot indicators, proved
//! once and for all datasets.

use vstd::prelude::*;
use crate::csv::field_at;
use crate::design::label_bit;
use crate::encode::enc_header;
use crate::encode::indicator_names;
use crate::table::col_index;
use crate::table::indicator_bit;
use crate::table::indicator_token;
use crate::table::indicator_tokens;
use crate::table::uniques_spec;

verus! {

/// Whether value `v` is observed at column `idx` of some row.
pub open spec fn occurs(rows: Seq<Seq<Seq<char>>>, idx: int, v: Seq<char>) -> bool {
    exists|r: int| 0 <= r < rows.len() && field_at(rows[r], idx) == Some(v)
}

/// The index of the first row whose field at `idx` equals `v`, or the row
/// count where no row has it.
pub open spec fn first_occ(rows: Seq<Seq<Seq<char>>>, idx: int, v: Seq<char>) -> int
    decreases rows.len(),
{
    if rows.len() == 0 {
        0
    } else if field_at(rows[0], idx) == Some(v) {
        0
    } else {
        1 + first_occ(rows.drop_first(), idx, v)
    }
}

/// `first_occ` is the least row index observing `v`, and equals the row count
/// exactly where `v` is never observed.
pub proof fn lemma_first_occ(rows: Seq<Seq<Seq<char>>>, idx: int, v: Seq<char>)
    ensures
        occurs(rows, idx, v) ==> {
            &&& 0 <= first_occ(rows, idx, v) < rows.len()
            &&& field_at(rows[first_occ(rows, idx, v)], idx) == Some(v)
            &&& forall|r: int|
                0 <= r < first_occ(rows, idx, v) ==> field_at(#[trigger] rows[r], idx) != Some(v)
        },
        !occurs(rows, idx, v) ==> first_occ(rows, idx, v) == rows.len(),
    decreases rows.len(),
{
    if rows.len() > 0 && field_at(rows[0], idx) != Some(v) {
        let tail = rows.drop_first();
        lemma_first_occ(tail, idx, v);
        if occurs(rows, idx, v) {
            let r = choose|r: int| 0 <= r < rows.len() && field_at(rows[r], idx) == Some(v);
            assert(r >= 1 && tail[r - 1] == rows[r]);
            assert(occurs(tail, idx, v));
            let f = first_occ(tail, idx, v);
            assert(rows[f + 1] == tail[f]);
            assert forall|s: int| 0 <= s < f + 1 implies field_at(
                #[trigger] rows[s],
                idx,
            ) != Some(v) by {
                if s >= 1 {
                    assert(rows[s] == tail[s - 1]);
                }
            }
        } else {
            if occurs(tail, idx, v) {
                let r = choose|r: int| 0 <= r < tail.len() && field_at(tail[r], idx) == Some(v);
                assert(rows[r + 1] == tail[r]);
                assert(occurs(rows, idx, v));
            }
        }
    }
}

/// Appending a row leaves the first occurrence of an already observed value
/// where it was.
proof fn lemma_first_occ_extend(prev: Seq<Seq<Seq<char>>>, last: Seq<Seq<char>>, idx: int, v: Seq<
    char,
>)
    requires
        occurs(prev, idx, v),
    ensures
        occurs(prev.push(last), idx, v),
        first_occ(prev.push(last), idx, v) == first_occ(prev, idx, v),
{
    let rows = prev.push(last);
    lemma_first_occ(prev, idx, v);
    let m = first_occ(prev, idx, v);
    assert(rows[m] == prev[m]);
    assert(occurs(rows, idx, v));
    lemma_first_occ(rows, idx, v);
    let m2 = first_occ(rows, idx, v);
    if m2 < m {
        assert(rows[m2] == prev[m2]);
    }
    if m2 > m {
        assert(field_at(rows[m], idx) != Some(v));
    }
}

/// Appending the row that first observes `v` puts its first occurrence at the
/// end.
proof fn lemma_first_occ_new(prev: Seq<Seq<Seq<char>>>, last: Seq<Seq<char>>, idx: int, v: Seq<
    char,
>)
    requires
        !occurs(prev, idx, v),
        field_at(last, idx) == Some(v),
    ensures
        occurs(prev.push(last), idx, v),
        first_occ(prev.push(last), idx, v) == prev.len(),
{
    let rows = prev.push(last);
    assert(rows[prev.len() as int] == last);
    assert(occurs(rows, idx, v));
    lemma_first_occ(rows, idx, v);
    let m2 = first_occ(rows, idx, v);
    if m2 < prev.len() {
        assert(rows[m2] == prev[m2]);
        assert(occurs(prev, idx, v));
    }
}

/// The unique-value registry is exactly the set of observed non-reference
/// values, holds no duplicate and not the reference group, and lists values
/// in strictly increasing order of first occurrence. As a spec function of
/// the dataset alone it is the same on every scan of the same input.
pub proof fn lemma_uniques_first_seen(rows: Seq<Seq<Seq<char>>>, idx: int, refg: Seq<char>)
    ensures
        forall|j: int|
            0 <= j < uniques_spec(rows, idx, refg).len() ==> occurs(
                rows,
                idx,
                #[trigger] uniques_spec(rows, idx, refg)[j],
            ) && uniques_spec(rows, idx, refg)[j] != refg,
        forall|v: Seq<char>|
            occurs(rows, idx, v) && v != refg ==> uniques_spec(rows, idx, refg).contains(v),
        forall|j: int, k: int|
            0 <= j < k < uniques_spec(rows, idx, refg).len() ==> first_occ(
                rows,
                idx,
                #[trigger] uniques_spec(rows, idx, refg)[j],
            ) < first_occ(rows, idx, #[trigger] uniques_spec(rows, idx, refg)[k]),
        forall|j: int, k: int|
            0 <= j < k < uniques_spec(rows, idx, refg).len() ==> uniques_spec(rows, idx, refg)[j]
                != uniques_spec(rows, idx, refg)[k],
    decreases rows.len(),
{
    let u = uniques_spec(rows, idx, refg);
    if rows.len() == 0 {
    } else {
        let prev = rows.drop_last();
        let last = rows.last();
        lemma_uniques_first_seen(prev, idx, refg);
        let up = uniques_spec(prev, idx, refg);
        assert(rows[prev.len() as int] == last);
        assert(prev.push(last) =~= rows);
        // An occurrence in the prefix is one in the whole.
        assert forall|w: Seq<char>| occurs(prev, idx, w) implies occurs(rows, idx, w) by {
            let r = choose|r: int| 0 <= r < prev.len() && field_at(prev[r], idx) == Some(w);
            assert(rows[r] == prev[r]);
        }
        // First occurrences of registered prefix values carry over unchanged.
        assert forall|j: int| 0 <= j < up.len() implies occurs(rows, idx, up[j]) && first_occ(
            rows,
            idx,
            #[trigger] up[j],
        ) == first_occ(prev, idx, up[j]) && first_occ(prev, idx, up[j]) < prev.len() by {
            assert(occurs(prev, idx, up[j]));
            lemma_first_occ_extend(prev, last, idx, up[j]);
            lemma_first_occ(prev, idx, up[j]);
        }
        match field_at(last, idx) {
            Some(v) => {
                if v != refg && !up.contains(v) {
                    // The newly registered value was never observed before.
                    assert(!occurs(prev, idx, v));
                    lemma_first_occ_new(prev, last, idx, v);
                    assert(u == up.push(v));
                    assert forall|w: Seq<char>| occurs(rows, idx, w) && w != refg implies
                        u.contains(w) by {
                        let r = choose|r: int|
                            0 <= r < rows.len() && field_at(rows[r], idx) == Some(w);
                        if r < prev.len() {
                            assert(prev[r] == rows[r]);
                            assert(occurs(prev, idx, w));
                            assert(up.contains(w));
                            let m = choose|m: int| 0 <= m < up.len() && up[m] == w;
                            assert(u[m] == w);
                        } else {
                            assert(w == v);
                            assert(u[up.len() as int] == v);
                        }
                    }
                    assert forall|j: int| 0 <= j < u.len() implies occurs(
                        rows,
                        idx,
                        #[trigger] u[j],
                    ) && u[j] != refg by {
                        if j < up.len() {
                            assert(u[j] == up[j]);
                        }
                    }
                } else {
                    assert(u == up);
                    assert forall|w: Seq<char>| occurs(rows, idx, w) && w != refg implies
                        u.contains(w) by {
                        let r = choose|r: int|
                            0 <= r < rows.len() && field_at(rows[r], idx) == Some(w);
                        if r < prev.len() {
                            assert(prev[r] == rows[r]);
                            assert(occurs(prev, idx, w));
                        } else {
                            assert(w == v);
                        }
                    }
                }
            },
            None => {
                assert(u == up);
                assert forall|w: Seq<char>| occurs(rows, idx, w) && w != refg implies u.contains(
                    w,
                ) by {
                    let r = choose|r: int| 0 <= r < rows.len() && field_at(rows[r], idx) == Some(w);
                    assert(r < prev.len());
                    assert(prev[r] == rows[r]);
                    assert(occurs(prev, idx, w));
                }
            },
        }
    }
}

/// The number of `"1"` tokens among one row's indicator tokens.
pub open spec fn ones_count(tokens: Seq<Seq<char>>) -> int
    decreases tokens.len(),
{
    if tokens.len() == 0 {
        0
    } else {
        ones_count(tokens.drop_last()) + if tokens.last() == seq!['1'] {
            1int
        } else {
            0int
        }
    }
}

/// The sum of one row's numeric indicators.
pub open spec fn bit_sum(bits: Seq<u8>) -> int
    decreases bits.len(),
{
    if bits.len() == 0 {
        0
    } else {
        bit_sum(bits.drop_last()) + bits.last()
    }
}

/// Against a duplicate-free registry, the indicator tokens of one observed
/// field hold exactly one `"1"` where the field is a registered value, none
/// otherwise.
proof fn lemma_tokens_ones(v: Option<Seq<char>>, us: Seq<Seq<char>>)
    requires
        forall|j: int, k: int| 0 <= j < k < us.len() ==> us[j] != us[k],
    ensures
        ones_count(indicator_tokens(v, us)) == if v is Some && us.contains(v->Some_0) {
            1int
        } else {
            0int
        },
    decreases us.len(),
{
    if us.len() == 0 {
    } else {
        let prev = us.drop_last();
        let x = us.last();
        lemma_tokens_ones(v, prev);
        let toks = indicator_tokens(v, us);
        assert(toks.drop_last() == indicator_tokens(v, prev));
        assert(toks.last() == indicator_token(v, x));
        assert(seq!['0'] != seq!['1']) by {
            assert(seq!['0'][0] == '0');
            assert(seq!['1'][0] == '1');
        }
        if v is Some {
            let w = v->Some_0;
            if w == x {
                assert(!prev.contains(w));
                assert(us.contains(w)) by {
                    assert(us[us.len() - 1] == w);
                }
            } else {
                assert(us.contains(w) <==> prev.contains(w)) by {
                    if us.contains(w) {
                        let m = choose|m: int| 0 <= m < us.len() && us[m] == w;
                        assert(prev[m] == w);
                    }
                    if prev.contains(w) {
                        let m = choose|m: int| 0 <= m < prev.len() && prev[m] == w;
                        assert(us[m] == w);
                    }
                }
            }
        }
    }
}

/// As `lemma_tokens_ones`, for the numeric indicators of the design matrix.
proof fn lemma_bits_ones(v: Option<Seq<char>>, us: Seq<Seq<char>>, bits: Seq<u8>)
    requires
        bits.len() == us.len(),
        forall|j: int| 0 <= j < us.len() ==> bits[j] == indicator_bit(v, #[trigger] us[j]),
        forall|j: int, k: int| 0 <= j < k < us.len() ==> us[j] != us[k],
    ensures
        bit_sum(bits) == if v is Some && us.contains(v->Some_0) {
            1int
        } else {
            0int
        },
    decreases us.len(),
{
    if us.len() == 0 {
    } else {
        let prev = us.drop_last();
        let x = us.last();
        lemma_bits_ones(v, prev, bits.drop_last());
        assert(bits.last() == indicator_bit(v, x));
        if v is Some {
            let w = v->Some_0;
            if w == x {
                assert(!prev.contains(w));
                assert(us.contains(w)) by {
                    assert(us[us.len() - 1] == w);
                }
            } else {
                assert(us.contains(w) <==> prev.contains(w)) by {
                    if us.contains(w) {
                        let m = choose|m: int| 0 <= m < us.len() && us[m] == w;
                        assert(prev[m] == w);
                    }
                    if prev.contains(w) {
                        let m = choose|m: int| 0 <= m < prev.len() && prev[m] == w;
                        assert(us[m] == w);
                    }
                }
            }
        }
    }
}

/// Summing the `1`/`0` indicator tokens of one target column in one output
/// row yields at most one, and exactly zero where the row's value equals the
/// reference group, is absent, or is unregistered.
pub proof fn lemma_row_indicator_sum(
    rows: Seq<Seq<Seq<char>>>,
    idx: int,
    refg: Seq<char>,
    v: Option<Seq<char>>,
)
    ensures
        ones_count(indicator_tokens(v, uniques_spec(rows, idx, refg))) <= 1,
        (v is None || v == Some(refg) || !uniques_spec(rows, idx, refg).contains(v->Some_0))
            ==> ones_count(indicator_tokens(v, uniques_spec(rows, idx, refg))) == 0,
{
    let us = uniques_spec(rows, idx, refg);
    lemma_uniques_first_seen(rows, idx, refg);
    lemma_tokens_ones(v, us);
    if v == Some(refg) && us.contains(refg) {
        let m = choose|m: int| 0 <= m < us.len() && us[m] == refg;
        assert(us[m] != refg);
    }
}

/// Each design-matrix row sums to at most one, and to zero exactly where the
/// row's target value equals the reference group, is absent, or is
/// unregistered.
pub proof fn lemma_matrix_row_sum(
    rows: Seq<Seq<Seq<char>>>,
    idx: int,
    refg: Seq<char>,
    v: Option<Seq<char>>,
    bits: Seq<u8>,
)
    requires
        bits.len() == uniques_spec(rows, idx, refg).len(),
        forall|j: int|
            0 <= j < bits.len() ==> bits[j] == indicator_bit(
                v,
                #[trigger] uniques_spec(rows, idx, refg)[j],
            ),
    ensures
        bit_sum(bits) <= 1,
        (v is None || v == Some(refg) || !uniques_spec(rows, idx, refg).contains(v->Some_0))
            ==> bit_sum(bits) == 0,
{
    let us = uniques_spec(rows, idx, refg);
    lemma_uniques_first_seen(rows, idx, refg);
    lemma_bits_ones(v, us, bits);
    if v == Some(refg) && us.contains(refg) {
        let m = choose|m: int| 0 <= m < us.len() && us[m] == refg;
        assert(us[m] != refg);
    }
}

/// A label is `1` exactly where the row's target value is present and equals
/// the reference group.
pub proof fn lemma_label_semantics(v: Option<Seq<char>>, refg: Seq<char>)
    ensures
        label_bit(v, refg) == 1 <==> v == Some(refg),
{
}

/// The width that each requested target column contributes to the encoder's
/// output header: one raw column plus one indicator column per registered
/// value where the name resolves, nothing where it does not.
pub open spec fn header_width(
    header: Seq<Seq<char>>,
    targets: Seq<Seq<char>>,
    rows: Seq<Seq<Seq<char>>>,
    refg: Seq<char>,
) -> int
    decreases targets.len(),
{
    if targets.len() == 0 {
        0
    } else {
        header_width(header, targets.drop_last(), rows, refg) + match col_index(
            header,
            targets.last(),
        ) {
            Some(i) => 1 + uniques_spec(rows, i, refg).len(),
            None => 0,
        }
    }
}

proof fn lemma_indicator_names_len(t: Seq<char>, us: Seq<Seq<char>>)
    ensures
        indicator_names(t, us).len() == us.len(),
    decreases us.len(),
{
    if us.len() > 0 {
        lemma_indicator_names_len(t, us.drop_last());
    }
}

/// The encoder's output header has, for each resolved target column, one
/// column plus one per distinct non-reference value observed in it, summed
/// over the resolved target columns.
pub proof fn lemma_enc_header_count(
    header: Seq<Seq<char>>,
    targets: Seq<Seq<char>>,
    rows: Seq<Seq<Seq<char>>>,
    refg: Seq<char>,
)
    ensures
        enc_header(header, targets, rows, refg).len() == header_width(header, targets, rows, refg),
    decreases targets.len(),
{
    if targets.len() > 0 {
        lemma_enc_header_count(header, targets.drop_last(), rows, refg);
        match col_index(header, targets.last()) {
            Some(i) => {
                lemma_indicator_names_len(targets.last(), uniques_spec(rows, i, refg));
            },
            None => {},
        }
    }
}

} // verus!
