//! Comma-delimited line handling: splitting a line into fields and joining
//! fields back into a line. No quoting or escaping: fields are separated by
//! the literal delimiter character alone.

use vstd::prelude::*;
use vstd::string::StrSliceExecFns;
use vstd::string::StringExecFns;

verus! {

/// The fixed field delimiter.
pub open spec fn delim() -> char {
    ','
}

/// The fields of `s`, split on the delimiter. Splitting the empty sequence
/// yields one empty field, so the result always has at least one field.
pub open spec fn split_spec(s: Seq<char>) -> Seq<Seq<char>>
    decreases s.len(),
{
    if s.len() == 0 {
        seq![Seq::<char>::empty()]
    } else if s.last() == delim() {
        split_spec(s.drop_last()).push(Seq::<char>::empty())
    } else {
        let r = split_spec(s.drop_last());
        r.update(r.len() - 1, r.last().push(s.last()))
    }
}

/// The fields joined by the delimiter; inverse of `split_spec` for fields
/// free of the delimiter.
pub open spec fn join_spec(fields: Seq<Seq<char>>) -> Seq<char>
    decreases fields.len(),
{
    if fields.len() == 0 {
        Seq::empty()
    } else if fields.len() == 1 {
        fields[0]
    } else {
        join_spec(fields.drop_last()) + seq![delim()] + fields.last()
    }
}

/// The views of a sequence of strings.
pub open spec fn views(s: Seq<String>) -> Seq<Seq<char>> {
    Seq::new(s.len(), |i: int| s[i]@)
}

/// The views of a sequence of rows of strings.
pub open spec fn row_views(s: Seq<Vec<String>>) -> Seq<Seq<Seq<char>>> {
    Seq::new(s.len(), |i: int| views(s[i]@))
}

/// The field of `row` at `idx`, or `None` where the row is too short.
pub open spec fn field_at(row: Seq<Seq<char>>, idx: int) -> Option<Seq<char>> {
    if 0 <= idx < row.len() {
        Some(row[idx])
    } else {
        None
    }
}

pub proof fn lemma_views_push(s: Seq<String>, t: String)
    ensures
        views(s.push(t)) == views(s).push(t@),
{
    assert(views(s.push(t)) =~= views(s).push(t@));
}

pub proof fn lemma_row_views_push(s: Seq<Vec<String>>, t: Vec<String>)
    ensures
        row_views(s.push(t)) == row_views(s).push(views(t@)),
{
    assert(row_views(s.push(t)) =~= row_views(s).push(views(t@)));
}

/// The header of a dataset given as its lines: the first line, split into
/// column names. Meaningful only for a nonempty dataset.
pub open spec fn header_of(lines: Seq<String>) -> Seq<Seq<char>> {
    split_spec(lines[0]@)
}

/// The data rows of a dataset given as its lines: every line after the
/// header, split into fields.
pub open spec fn rows_of(lines: Seq<String>) -> Seq<Seq<Seq<char>>> {
    Seq::new((lines.len() - 1) as nat, |i: int| split_spec(lines[i + 1]@))
}

/// Split one line into its fields on the delimiter.
pub fn split_line(line: &str) -> (fields: Vec<String>)
    ensures
        views(fields@) == split_spec(line@),
{
    let n = line.unicode_len();
    let mut fields: Vec<String> = Vec::new();
    let mut start: usize = 0;
    let mut i: usize = 0;
    proof {
        assert(views(fields@).push(line@.subrange(0, 0)) =~= seq![line@.subrange(0, 0)]);
        assert(line@.subrange(0, 0) =~= Seq::<char>::empty());
    }
    while i < n
        invariant
            start <= i <= n,
            n == line@.len(),
            views(fields@).push(line@.subrange(start as int, i as int)) == split_spec(
                line@.subrange(0, i as int),
            ),
        decreases n - i,
    {
        let ghost pre = line@.subrange(0, i as int);
        let ghost post = line@.subrange(0, i + 1);
        proof {
            assert(post.drop_last() =~= pre);
            assert(post.last() == line@[i as int]);
        }
        let c = line.get_char(i);
        if c == ',' {
            let field = line.substring_char(start, i).to_owned();
            proof {
                lemma_views_push(fields@, field);
                assert(line@.subrange(i + 1, i + 1) =~= Seq::<char>::empty());
            }
            fields.push(field);
            start = i + 1;
        } else {
            proof {
                let r = split_spec(pre);
                let cur = line@.subrange(start as int, i as int);
                assert(r == views(fields@).push(cur));
                assert(r.last() == cur);
                assert(r.update(r.len() - 1, cur.push(line@[i as int])) =~= views(fields@).push(
                    cur.push(line@[i as int]),
                ));
                assert(cur.push(line@[i as int]) =~= line@.subrange(start as int, i + 1));
            }
        }
        i = i + 1;
    }
    let field = line.substring_char(start, n).to_owned();
    proof {
        lemma_views_push(fields@, field);
        assert(line@.subrange(0, n as int) =~= line@);
    }
    fields.push(field);
    fields
}

/// Join fields into one delimiter-separated line.
pub fn join_fields(fields: &Vec<String>) -> (line: String)
    ensures
        line@ == join_spec(views(fields@)),
{
    let mut line = String::new();
    let mut k: usize = 0;
    proof {
        assert(views(fields@).subrange(0, 0) =~= Seq::<Seq<char>>::empty());
    }
    while k < fields.len()
        invariant
            k <= fields.len(),
            line@ == join_spec(views(fields@).subrange(0, k as int)),
        decreases fields.len() - k,
    {
        let ghost all = views(fields@);
        proof {
            assert(all.subrange(0, k + 1).drop_last() =~= all.subrange(0, k as int));
            assert(all.subrange(0, k + 1).last() == fields@[k as int]@);
        }
        if k > 0 {
            proof {
                reveal_strlit(",");
                assert(","@ =~= seq![delim()]);
            }
            line.append(",");
        } else {
            proof {
                assert(all.subrange(0, 1)[0] == fields@[0]@);
                assert(Seq::<char>::empty() + fields@[0]@ =~= fields@[0]@);
            }
        }
        line.append(fields[k].as_str());
        k = k + 1;
    }
    proof {
        assert(views(fields@).subrange(0, fields@.len() as int) =~= views(fields@));
    }
    line
}

} // verus!
