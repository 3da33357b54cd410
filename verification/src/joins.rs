//! The steps of plans that combine two tables.
use crate::assoc;
use crate::error::{CypherError, ErrV};
use crate::keying::{self, column_values, drop_repeated, values_key};
use crate::rows::{self, add_col, append_rows, table_outcome, Table, TableV};
use crate::text::{self, list_has, same_text};
use crate::value::{self, RecV, Record};
use vstd::prelude::*;

verus! {

// ---------------------------------------------------------------------------
// Products
// ---------------------------------------------------------------------------

/// The columns with those of another table from the `i`-th on that are not
/// there yet.
pub open spec fn with_cols(cols: Seq<Seq<char>>, more: Seq<Seq<char>>, i: int) -> Seq<Seq<char>>
    decreases more.len() - i,
{
    if i < 0 || i >= more.len() {
        cols
    } else {
        with_cols(rows::with_col(cols, more[i]), more, i + 1)
    }
}

/// A row with each of the other rows from the `j`-th on.
pub open spec fn row_product(l: RecV, right: Seq<RecV>, j: int, acc: Seq<RecV>) -> Seq<RecV>
    decreases right.len() - j,
{
    if j < 0 || j >= right.len() {
        acc
    } else {
        row_product(l, right, j + 1, acc.push(assoc::bind_all(l, right[j])))
    }
}

/// Each row from the `i`-th on with each of the other rows.
pub open spec fn product_rows(left: Seq<RecV>, i: int, right: Seq<RecV>, acc: Seq<RecV>) -> Seq<RecV>
    decreases left.len() - i,
{
    if i < 0 || i >= left.len() {
        acc
    } else {
        product_rows(left, i + 1, right, row_product(left[i], right, 0, acc))
    }
}

pub open spec fn product(l: TableV, r: TableV) -> TableV {
    TableV {
        cols: with_cols(l.cols, r.cols, 0),
        rows: product_rows(l.rows, 0, r.rows, seq![]),
    }
}

pub fn add_cols(cols: &mut Vec<String>, more: &Vec<String>)
    ensures
        text::texts_view(final(cols)@) == with_cols(
            text::texts_view(old(cols)@),
            text::texts_view(more@),
            0,
        ),
{
    let mut i: usize = 0;
    while i < more.len()
        invariant
            i <= more.len(),
            with_cols(text::texts_view(old(cols)@), text::texts_view(more@), 0) == with_cols(
                text::texts_view(cols@),
                text::texts_view(more@),
                i as int,
            ),
        decreases more.len() - i,
    {
        add_col(cols, more[i].as_str());
        i += 1;
    }
}

fn multiply_row(l: &Record, right: &Vec<Record>, out: &mut Vec<Record>)
    ensures
        value::recs_view(final(out)@) == row_product(
            l@,
            value::recs_view(right@),
            0,
            value::recs_view(old(out)@),
        ),
{
    let mut j: usize = 0;
    while j < right.len()
        invariant
            j <= right.len(),
            row_product(l@, value::recs_view(right@), 0, value::recs_view(old(out)@))
                == row_product(l@, value::recs_view(right@), j as int, value::recs_view(out@)),
        decreases right.len() - j,
    {
        let mut rec = l.clone();
        rec.extend(&right[j]);
        proof {
            rows::lemma_recs_push(out@, rec);
        }
        out.push(rec);
        j += 1;
    }
}

/// Each row of one table with each row of another. A single row is extended
/// in place.
pub fn multiply(l: Table, r: &Table) -> (t: Table)
    ensures
        t@ == product(l@, r@),
{
    let mut cols = l.cols;
    add_cols(&mut cols, &r.cols);
    let mut left = l.rows;
    if left.len() == 1 && r.rows.len() == 1 {
        let ghost before = left@[0]@;
        left[0].extend(&r.rows[0]);
        proof {
            let rs = value::recs_view(r.rows@);
            let ls = value::recs_view(l.rows@);
            reveal_with_fuel(row_product, 2);
            reveal_with_fuel(product_rows, 2);
            assert(value::recs_view(left@) =~= seq![assoc::bind_all(before, rs[0])]);
            assert(row_product(ls[0], rs, 0, seq![]) == seq![].push(
                assoc::bind_all(ls[0], rs[0]),
            ));
            assert(product_rows(ls, 0, rs, seq![]) =~= seq![assoc::bind_all(ls[0], rs[0])]);
        }
        return Table { cols, rows: left };
    }
    let mut out: Vec<Record> = Vec::new();
    let mut i: usize = 0;
    proof {
        assert(value::recs_view(out@) =~= seq![]);
    }
    while i < left.len()
        invariant
            i <= left.len(),
            product_rows(value::recs_view(left@), 0, value::recs_view(r.rows@), seq![])
                == product_rows(
                value::recs_view(left@),
                i as int,
                value::recs_view(r.rows@),
                value::recs_view(out@),
            ),
        decreases left.len() - i,
    {
        multiply_row(&left[i], &r.rows, &mut out);
        i += 1;
    }
    Table { cols, rows: out }
}

/// A product has as many rows as its factors have together, multiplied.
pub proof fn lemma_product_len(l: TableV, r: TableV)
    ensures
        product(l, r).rows.len() == l.rows.len() * r.rows.len(),
{
    lemma_product_rows_len(l.rows, 0, r.rows, seq![]);
    assert((l.rows.len() - 0) * r.rows.len() == l.rows.len() * r.rows.len());
}

proof fn lemma_row_product_len(l: RecV, right: Seq<RecV>, j: int, acc: Seq<RecV>)
    requires
        0 <= j <= right.len(),
    ensures
        row_product(l, right, j, acc).len() == acc.len() + right.len() - j,
    decreases right.len() - j,
{
    if j < right.len() {
        lemma_row_product_len(l, right, j + 1, acc.push(assoc::bind_all(l, right[j])));
    }
}

proof fn lemma_product_rows_len(left: Seq<RecV>, i: int, right: Seq<RecV>, acc: Seq<RecV>)
    requires
        0 <= i <= left.len(),
    ensures
        product_rows(left, i, right, acc).len() == acc.len() + (left.len() - i) * right.len(),
    decreases left.len() - i,
{
    if i < left.len() {
        let next = row_product(left[i], right, 0, acc);
        lemma_row_product_len(left[i], right, 0, acc);
        lemma_product_rows_len(left, i + 1, right, next);
        assert((left.len() - i) * right.len() == right.len() + (left.len() - (i + 1)) * right.len())
            by (nonlinear_arith)
            requires
                0 <= i < left.len(),
        ;
    } else {
        assert((left.len() - i) * right.len() == 0) by (nonlinear_arith)
            requires
                i == left.len(),
        ;
    }
}

// ---------------------------------------------------------------------------
// Outer joins
// ---------------------------------------------------------------------------

/// Those of the columns from the `i`-th on that are among others, or those
/// that are not.
pub open spec fn select_cols(
    cols: Seq<Seq<char>>,
    others: Seq<Seq<char>>,
    among: bool,
    i: int,
    acc: Seq<Seq<char>>,
) -> Seq<Seq<char>>
    decreases cols.len() - i,
{
    if i < 0 || i >= cols.len() {
        acc
    } else if text::has_text(others, cols[i]) == among {
        select_cols(cols, others, among, i + 1, acc.push(cols[i]))
    } else {
        select_cols(cols, others, among, i + 1, acc)
    }
}

/// The columns of both tables.
pub open spec fn shared_cols(l: TableV, r: TableV) -> Seq<Seq<char>> {
    select_cols(l.cols, r.cols, true, 0, seq![])
}

/// The columns of the right table alone.
pub open spec fn right_cols(l: TableV, r: TableV) -> Seq<Seq<char>> {
    select_cols(r.cols, l.cols, false, 0, seq![])
}

/// A row with the values of columns in another row, from the `i`-th on.
pub open spec fn with_values(acc: RecV, cols: Seq<Seq<char>>, i: int, from: RecV) -> RecV
    decreases cols.len() - i,
{
    if i < 0 || i >= cols.len() {
        acc
    } else {
        with_values(
            assoc::bind(acc, cols[i], value::value_or_null(from, cols[i])),
            cols,
            i + 1,
            from,
        )
    }
}

/// The key of a row over columns.
pub open spec fn join_key(rec: RecV, cols: Seq<Seq<char>>) -> Seq<char> {
    keying::row_key(keying::columns_of(rec, cols))
}

/// A row with each of the right rows from the `j`-th on that has its key.
pub open spec fn matching_rows(
    l: RecV,
    key: Seq<char>,
    shared: Seq<Seq<char>>,
    only: Seq<Seq<char>>,
    right: Seq<RecV>,
    j: int,
    acc: Seq<RecV>,
) -> Seq<RecV>
    decreases right.len() - j,
{
    if j < 0 || j >= right.len() {
        acc
    } else if join_key(right[j], shared) == key {
        matching_rows(
            l,
            key,
            shared,
            only,
            right,
            j + 1,
            acc.push(with_values(l, only, 0, right[j])),
        )
    } else {
        matching_rows(l, key, shared, only, right, j + 1, acc)
    }
}

/// The rows that one left row gives: with nulls where no right row matches.
pub open spec fn joined_row(
    l: RecV,
    shared: Seq<Seq<char>>,
    only: Seq<Seq<char>>,
    right: Seq<RecV>,
) -> Seq<RecV> {
    let found = matching_rows(l, join_key(l, shared), shared, only, right, 0, seq![]);
    if found.len() == 0 {
        seq![with_values(l, only, 0, seq![])]
    } else {
        found
    }
}

pub open spec fn join_rows(
    left: Seq<RecV>,
    i: int,
    shared: Seq<Seq<char>>,
    only: Seq<Seq<char>>,
    right: Seq<RecV>,
    acc: Seq<RecV>,
) -> Seq<RecV>
    decreases left.len() - i,
{
    if i < 0 || i >= left.len() {
        acc
    } else {
        join_rows(
            left,
            i + 1,
            shared,
            only,
            right,
            acc + joined_row(left[i], shared, only, right),
        )
    }
}

/// Each left row with the right rows that agree with it on the columns of
/// both tables.
pub open spec fn outer_join(l: TableV, r: TableV) -> TableV {
    TableV {
        cols: l.cols + right_cols(l, r),
        rows: join_rows(l.rows, 0, shared_cols(l, r), right_cols(l, r), r.rows, seq![]),
    }
}

fn pick_cols(cols: &Vec<String>, others: &Vec<String>, among: bool) -> (r: Vec<String>)
    ensures
        text::texts_view(r@) == select_cols(
            text::texts_view(cols@),
            text::texts_view(others@),
            among,
            0,
            seq![],
        ),
{
    let mut r: Vec<String> = Vec::new();
    let mut i: usize = 0;
    proof {
        assert(text::texts_view(r@) =~= seq![]);
    }
    while i < cols.len()
        invariant
            i <= cols.len(),
            select_cols(
                text::texts_view(cols@),
                text::texts_view(others@),
                among,
                0,
                seq![],
            ) == select_cols(
                text::texts_view(cols@),
                text::texts_view(others@),
                among,
                i as int,
                text::texts_view(r@),
            ),
        decreases cols.len() - i,
    {
        if list_has(others, cols[i].as_str()) == among {
            let c = cols[i].clone();
            proof {
                assert(text::texts_view(r@.push(c)) =~= text::texts_view(r@).push(c@));
            }
            r.push(c);
        }
        i += 1;
    }
    r
}

fn take_values(l: &Record, cols: &Vec<String>, from: &Record) -> (r: Record)
    ensures
        r@ == with_values(l@, text::texts_view(cols@), 0, from@),
{
    let mut rec = l.clone();
    let mut i: usize = 0;
    while i < cols.len()
        invariant
            i <= cols.len(),
            with_values(l@, text::texts_view(cols@), 0, from@) == with_values(
                rec@,
                text::texts_view(cols@),
                i as int,
                from@,
            ),
        decreases cols.len() - i,
    {
        rec.insert(cols[i].clone(), from.get_or_null(cols[i].as_str()));
        i += 1;
    }
    rec
}

fn key_over(rec: &Record, cols: &Vec<String>) -> (r: String)
    ensures
        r@ == join_key(rec@, text::texts_view(cols@)),
{
    values_key(&column_values(rec, cols))
}

fn keys_over(rows: &Vec<Record>, cols: &Vec<String>) -> (r: Vec<String>)
    ensures
        r.len() == rows.len(),
        forall|i: int|
            0 <= i < rows.len() ==> (#[trigger] r@[i])@ == join_key(
                rows@[i]@,
                text::texts_view(cols@),
            ),
{
    let mut r: Vec<String> = Vec::new();
    let mut i: usize = 0;
    while i < rows.len()
        invariant
            i <= rows.len(),
            r.len() == i,
            forall|j: int|
                0 <= j < i ==> (#[trigger] r@[j])@ == join_key(
                    rows@[j]@,
                    text::texts_view(cols@),
                ),
        decreases rows.len() - i,
    {
        r.push(key_over(&rows[i], cols));
        i += 1;
    }
    r
}

fn join_row(
    l: &Record,
    shared: &Vec<String>,
    only: &Vec<String>,
    right: &Vec<Record>,
    keys: &Vec<String>,
) -> (r: Vec<Record>)
    requires
        keys.len() == right.len(),
        forall|i: int|
            0 <= i < right.len() ==> (#[trigger] keys@[i])@ == join_key(
                right@[i]@,
                text::texts_view(shared@),
            ),
    ensures
        value::recs_view(r@) == joined_row(
            l@,
            text::texts_view(shared@),
            text::texts_view(only@),
            value::recs_view(right@),
        ),
{
    let key = key_over(l, shared);
    let mut out: Vec<Record> = Vec::new();
    let mut j: usize = 0;
    proof {
        assert(value::recs_view(out@) =~= seq![]);
    }
    while j < right.len()
        invariant
            keys.len() == right.len(),
            forall|i: int|
                0 <= i < right.len() ==> (#[trigger] keys@[i])@ == join_key(
                    right@[i]@,
                    text::texts_view(shared@),
                ),
            j <= right.len(),
            matching_rows(
                l@,
                key@,
                text::texts_view(shared@),
                text::texts_view(only@),
                value::recs_view(right@),
                0,
                seq![],
            ) == matching_rows(
                l@,
                key@,
                text::texts_view(shared@),
                text::texts_view(only@),
                value::recs_view(right@),
                j as int,
                value::recs_view(out@),
            ),
        decreases right.len() - j,
    {
        if same_text(keys[j].as_str(), key.as_str()) {
            let rec = take_values(l, only, &right[j]);
            proof {
                rows::lemma_recs_push(out@, rec);
            }
            out.push(rec);
        }
        j += 1;
    }
    if out.len() == 0 {
        let empty = Record::new();
        let rec = take_values(l, only, &empty);
        out.push(rec);
        proof {
            assert(value::recs_view(out@) =~= seq![rec@]);
        }
    }
    out
}

pub fn join_outer(l: Table, r: &Table) -> (t: Table)
    ensures
        t@ == outer_join(l@, r@),
{
    let shared = pick_cols(&l.cols, &r.cols, true);
    let only = pick_cols(&r.cols, &l.cols, false);
    let keys = keys_over(&r.rows, &shared);
    let mut out: Vec<Record> = Vec::new();
    let mut i: usize = 0;
    proof {
        assert(value::recs_view(out@) =~= seq![]);
    }
    while i < l.rows.len()
        invariant
            keys.len() == r.rows.len(),
            forall|k: int|
                0 <= k < r.rows.len() ==> (#[trigger] keys@[k])@ == join_key(
                    r.rows@[k]@,
                    text::texts_view(shared@),
                ),
            i <= l.rows.len(),
            join_rows(
                value::recs_view(l.rows@),
                0,
                text::texts_view(shared@),
                text::texts_view(only@),
                value::recs_view(r.rows@),
                seq![],
            ) == join_rows(
                value::recs_view(l.rows@),
                i as int,
                text::texts_view(shared@),
                text::texts_view(only@),
                value::recs_view(r.rows@),
                value::recs_view(out@),
            ),
        decreases l.rows.len() - i,
    {
        let more = join_row(&l.rows[i], &shared, &only, &r.rows, &keys);
        append_rows(&mut out, more);
        i += 1;
    }
    let mut cols = l.cols;
    let mut rest = only;
    let ghost a = cols@;
    let ghost b = rest@;
    cols.append(&mut rest);
    proof {
        assert(text::texts_view(cols@) =~= text::texts_view(a) + text::texts_view(b));
    }
    Table { cols, rows: out }
}

/// An outer join drops no left row.
pub proof fn lemma_outer_join_len(l: TableV, r: TableV)
    ensures
        outer_join(l, r).rows.len() >= l.rows.len(),
{
    lemma_join_rows_len(l.rows, 0, shared_cols(l, r), right_cols(l, r), r.rows, seq![]);
}

proof fn lemma_join_rows_len(
    left: Seq<RecV>,
    i: int,
    shared: Seq<Seq<char>>,
    only: Seq<Seq<char>>,
    right: Seq<RecV>,
    acc: Seq<RecV>,
)
    requires
        0 <= i <= left.len(),
    ensures
        join_rows(left, i, shared, only, right, acc).len() >= acc.len() + left.len() - i,
    decreases left.len() - i,
{
    if i < left.len() {
        lemma_join_rows_len(
            left,
            i + 1,
            shared,
            only,
            right,
            acc + joined_row(left[i], shared, only, right),
        );
    }
}

// ---------------------------------------------------------------------------
// Unions
// ---------------------------------------------------------------------------

/// A row with its columns from the `i`-th on under other names.
pub open spec fn renamed(
    rec: RecV,
    from: Seq<Seq<char>>,
    to: Seq<Seq<char>>,
    i: int,
    acc: RecV,
) -> RecV
    decreases from.len() - i,
{
    if i < 0 || i >= from.len() || i >= to.len() {
        acc
    } else {
        renamed(
            rec,
            from,
            to,
            i + 1,
            assoc::bind(acc, to[i], value::value_or_null(rec, from[i])),
        )
    }
}

pub open spec fn renamed_rows(
    rows: Seq<RecV>,
    from: Seq<Seq<char>>,
    to: Seq<Seq<char>>,
) -> Seq<RecV> {
    Seq::new(rows.len(), |i: int| renamed(rows[i], from, to, 0, seq![]))
}

/// The rows of two tables with as many columns, those of the second under the
/// names of the first.
pub open spec fn union(l: TableV, r: TableV, all: bool) -> Result<TableV, ErrV> {
    if l.cols.len() != r.cols.len() {
        Err(
            ErrV::Type("All sub queries in a UNION must have the same number of columns"@),
        )
    } else {
        let rows = l.rows + renamed_rows(r.rows, r.cols, l.cols);
        Ok(
            TableV {
                cols: l.cols,
                rows: if all {
                    rows
                } else {
                    keying::distinct_rows(rows, l.cols, 0, seq![], seq![])
                },
            },
        )
    }
}

fn rename_row(rec: &Record, from: &Vec<String>, to: &Vec<String>) -> (r: Record)
    requires
        from.len() == to.len(),
    ensures
        r@ == renamed(rec@, text::texts_view(from@), text::texts_view(to@), 0, seq![]),
{
    let mut out = Record::new();
    let mut i: usize = 0;
    while i < from.len()
        invariant
            from.len() == to.len(),
            i <= from.len(),
            renamed(rec@, text::texts_view(from@), text::texts_view(to@), 0, seq![]) == renamed(
                rec@,
                text::texts_view(from@),
                text::texts_view(to@),
                i as int,
                out@,
            ),
        decreases from.len() - i,
    {
        out.insert(to[i].clone(), rec.get_or_null(from[i].as_str()));
        i += 1;
    }
    out
}

pub fn unite(l: Table, r: &Table, all: bool) -> (t: Result<Table, CypherError>)
    ensures
        table_outcome(t) == union(l@, r@, all),
{
    if l.cols.len() != r.cols.len() {
        return Err(
            CypherError::TypeError(
                "All sub queries in a UNION must have the same number of columns".to_owned(),
            ),
        );
    }
    let mut more: Vec<Record> = Vec::new();
    let mut i: usize = 0;
    while i < r.rows.len()
        invariant
            l.cols.len() == r.cols.len(),
            i <= r.rows.len(),
            more.len() == i,
            forall|j: int|
                0 <= j < i ==> (#[trigger] more@[j])@ == renamed(
                    r.rows@[j]@,
                    text::texts_view(r.cols@),
                    text::texts_view(l.cols@),
                    0,
                    seq![],
                ),
        decreases r.rows.len() - i,
    {
        more.push(rename_row(&r.rows[i], &r.cols, &l.cols));
        i += 1;
    }
    proof {
        assert(value::recs_view(more@) =~= renamed_rows(
            value::recs_view(r.rows@),
            text::texts_view(r.cols@),
            text::texts_view(l.cols@),
        ));
    }
    let mut out = l.rows;
    append_rows(&mut out, more);
    let kept = if all {
        out
    } else {
        drop_repeated(out, &l.cols)
    };
    Ok(Table { cols: l.cols, rows: kept })
}

/// UNION ALL keeps every row of both tables.
pub proof fn lemma_union_all_len(l: TableV, r: TableV)
    requires
        l.cols.len() == r.cols.len(),
    ensures
        union(l, r, true) matches Ok(t) && t.rows.len() == l.rows.len() + r.rows.len(),
{
}

} // verus!
