//! The shared tabular model: resolving a column name against the header,
//! the unique-value registry of a column, and one-hot indicators.

use vstd::prelude::*;
use crate::csv::field_at;
use crate::csv::views;

verus! {

/// The index of the first header column named `name`, if any.
pub open spec fn col_index(header: Seq<Seq<char>>, name: Seq<char>) -> Option<int>
    decreases header.len(),
{
    if header.len() == 0 {
        None
    } else if header[0] == name {
        Some(0int)
    } else {
        match col_index(header.drop_first(), name) {
            Some(i) => Some(i + 1),
            None => None,
        }
    }
}

pub proof fn lemma_col_index_at(header: Seq<Seq<char>>, name: Seq<char>, j: int)
    requires
        0 <= j < header.len(),
        header[j] == name,
        forall|k: int| 0 <= k < j ==> header[k] != name,
    ensures
        col_index(header, name) == Some(j),
    decreases header.len(),
{
    if j > 0 {
        lemma_col_index_at(header.drop_first(), name, j - 1);
    }
}

pub proof fn lemma_col_index_none(header: Seq<Seq<char>>, name: Seq<char>)
    requires
        forall|k: int| 0 <= k < header.len() ==> header[k] != name,
    ensures
        col_index(header, name) is None,
    decreases header.len(),
{
    if header.len() > 0 {
        lemma_col_index_none(header.drop_first(), name);
    }
}

pub proof fn lemma_col_index_some(header: Seq<Seq<char>>, name: Seq<char>)
    requires
        col_index(header, name) is Some,
    ensures
        0 <= col_index(header, name)->Some_0 < header.len(),
        header[col_index(header, name)->Some_0] == name,
    decreases header.len(),
{
    if header.len() > 0 && header[0] != name {
        lemma_col_index_some(header.drop_first(), name);
    }
}

/// The ordered registry of distinct values observed at column `idx` over the
/// data rows, in first-seen order, excluding the reference-group value `refg`.
/// A row too short to have the column registers nothing.
pub open spec fn uniques_spec(rows: Seq<Seq<Seq<char>>>, idx: int, refg: Seq<char>) -> Seq<
    Seq<char>,
>
    decreases rows.len(),
{
    if rows.len() == 0 {
        Seq::empty()
    } else {
        let prev = uniques_spec(rows.drop_last(), idx, refg);
        match field_at(rows.last(), idx) {
            Some(v) => if v != refg && !prev.contains(v) {
                prev.push(v)
            } else {
                prev
            },
            None => prev,
        }
    }
}

/// The indicator token for one registered value: `"1"` where the observed
/// field equals it exactly, `"0"` otherwise (also where the field is absent).
pub open spec fn indicator_token(v: Option<Seq<char>>, u: Seq<char>) -> Seq<char> {
    if v == Some(u) {
        seq!['1']
    } else {
        seq!['0']
    }
}

/// The indicator tokens of one observed field against a registry, in registry
/// order.
pub open spec fn indicator_tokens(v: Option<Seq<char>>, us: Seq<Seq<char>>) -> Seq<Seq<char>>
    decreases us.len(),
{
    if us.len() == 0 {
        Seq::empty()
    } else {
        indicator_tokens(v, us.drop_last()).push(indicator_token(v, us.last()))
    }
}

/// The numeric indicator for one registered value: `1` where the observed
/// field equals it exactly, `0` otherwise (also where the field is absent).
pub open spec fn indicator_bit(v: Option<Seq<char>>, u: Seq<char>) -> u8 {
    if v == Some(u) {
        1u8
    } else {
        0u8
    }
}

/// Find the first header column with the given name.
pub fn find_column(header: &Vec<String>, name: &String) -> (r: Option<usize>)
    ensures
        match r {
            Some(i) => col_index(views(header@), name@) == Some(i as int),
            None => col_index(views(header@), name@) is None,
        },
{
    let mut j: usize = 0;
    while j < header.len()
        invariant
            j <= header.len(),
            forall|k: int| 0 <= k < j ==> views(header@)[k] != name@,
        decreases header.len() - j,
    {
        if header[j] == *name {
            proof {
                lemma_col_index_at(views(header@), name@, j as int);
            }
            return Some(j);
        }
        j = j + 1;
    }
    proof {
        lemma_col_index_none(views(header@), name@);
    }
    None
}

/// Whether `list` holds a string equal to `v`.
pub fn contains_string(list: &Vec<String>, v: &String) -> (r: bool)
    ensures
        r == views(list@).contains(v@),
{
    let mut j: usize = 0;
    while j < list.len()
        invariant
            j <= list.len(),
            forall|k: int| 0 <= k < j ==> views(list@)[k] != v@,
        decreases list.len() - j,
    {
        if list[j] == *v {
            proof {
                assert(views(list@)[j as int] == v@);
            }
            return true;
        }
        j = j + 1;
    }
    false
}

/// The field of `row` at `idx`, or `None` where the row is too short. This is
/// the explicit get-or-default accessor behind the tolerance for short rows.
pub fn field_opt<'a>(row: &'a Vec<String>, idx: usize) -> (r: Option<&'a String>)
    ensures
        match r {
            Some(s) => field_at(views(row@), idx as int) == Some(s@),
            None => field_at(views(row@), idx as int) is None,
        },
{
    if idx < row.len() {
        Some(&row[idx])
    } else {
        None
    }
}

/// Collect the unique-value registry of column `idx` over `rows`: distinct
/// observed values other than `refg`, in first-seen order.
pub fn collect_uniques(rows: &Vec<Vec<String>>, idx: usize, refg: &String) -> (us: Vec<String>)
    ensures
        views(us@) == uniques_spec(crate::csv::row_views(rows@), idx as int, refg@),
{
    let ghost all = crate::csv::row_views(rows@);
    let mut us: Vec<String> = Vec::new();
    let mut r: usize = 0;
    proof {
        assert(views(us@) =~= Seq::<Seq<char>>::empty());
        assert(all.subrange(0, 0) =~= Seq::<Seq<Seq<char>>>::empty());
    }
    while r < rows.len()
        invariant
            r <= rows.len(),
            all == crate::csv::row_views(rows@),
            views(us@) == uniques_spec(all.subrange(0, r as int), idx as int, refg@),
        decreases rows.len() - r,
    {
        proof {
            assert(all.subrange(0, r + 1).drop_last() =~= all.subrange(0, r as int));
            assert(all.subrange(0, r + 1).last() == views(rows@[r as int]@));
        }
        let row = &rows[r];
        match field_opt(row, idx) {
            Some(value) => {
                if !(*value == *refg) && !contains_string(&us, value) {
                    let v = value.clone();
                    proof {
                        assert(views(us@.push(v)) =~= views(us@).push(v@));
                    }
                    us.push(v);
                }
            },
            None => {},
        }
        r = r + 1;
    }
    proof {
        assert(all.subrange(0, rows@.len() as int) =~= all);
    }
    us
}

} // verus!
