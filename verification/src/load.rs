//! LOAD CSV: rows from files.
use crate::aggregate::recs_outcome;
use crate::assoc;
use crate::ast::{self, Expression, ExprV};
use crate::backend::StorageBackend;
use crate::error::{CypherError, ErrV};
use crate::eval::{eval_with_params, Ctx};
use crate::outside::{clone_bytes, Answer, AnswerV, AnswersV, Outside, Request, RequestV};
use crate::rows::{self, add_col, append_rows, table_outcome, Table, TableV};
use crate::semantics::{self, EnvV};
use crate::store::StoreV;
use crate::text::{
    self, chars_of, join2, join3, same_text, same_texts, slice_text, text_starts_with, u64_text,
};
use crate::value::{self, cypher_value_type_name, CypherValue, RecV, Record, ValV, ValueMap};
use vstd::prelude::*;

verus! {

/// The fields of the first record of CSV data, or the text of an error: what
/// `csv::Reader::headers` gives for a reader with headers and a delimiter.
pub uninterp spec fn csv_head(data: Seq<u8>, delimiter: u8) -> Result<Seq<Seq<char>>, Seq<char>>;

/// The records of CSV data, or the text of the first error: what
/// `csv::Reader::records` gives for a reader with a delimiter, with the first
/// record left out where it holds the headers.
pub uninterp spec fn csv_body(data: Seq<u8>, with_headers: bool, delimiter: u8) -> Result<
    Seq<Seq<Seq<char>>>,
    Seq<char>,
>;

/// The view of lists of texts.
pub open spec fn lists_view(s: Seq<Vec<String>>) -> Seq<Seq<Seq<char>>> {
    Seq::new(s.len(), |i: int| text::texts_view(s[i]@))
}

/// `csv::Reader::headers`, on data that is at hand: a function of the data and
/// the delimiter alone. Which function is not said.
#[verifier::external_body]
pub(crate) fn read_csv_head(data: &Vec<u8>, delimiter: u8) -> (r: Result<Vec<String>, String>)
    ensures
        match r {
            Ok(h) => csv_head(data@, delimiter) == Ok::<Seq<Seq<char>>, Seq<char>>(
                text::texts_view(h@),
            ),
            Err(e) => csv_head(data@, delimiter) == Err::<Seq<Seq<char>>, Seq<char>>(e@),
        },
{
    let mut builder = csv::ReaderBuilder::new();
    let mut reader = builder.has_headers(true).delimiter(delimiter).from_reader(data.as_slice());
    match reader.headers() {
        Ok(h) => Ok(h.iter().map(|f| f.to_string()).collect()),
        Err(e) => Err(e.to_string()),
    }
}

/// `csv::Reader::records`, on data that is at hand: a function of the data,
/// the headers' flag and the delimiter alone. Which function is not said.
#[verifier::external_body]
pub(crate) fn read_csv_body(data: &Vec<u8>, with_headers: bool, delimiter: u8) -> (r: Result<
    Vec<Vec<String>>,
    String,
>)
    ensures
        match r {
            Ok(b) => csv_body(data@, with_headers, delimiter) == Ok::<
                Seq<Seq<Seq<char>>>,
                Seq<char>,
            >(lists_view(b@)),
            Err(e) => csv_body(data@, with_headers, delimiter) == Err::<
                Seq<Seq<Seq<char>>>,
                Seq<char>,
            >(e@),
        },
{
    let mut builder = csv::ReaderBuilder::new();
    builder.has_headers(with_headers).delimiter(delimiter);
    let mut reader = builder.from_reader(data.as_slice());
    let records: Result<Vec<csv::StringRecord>, csv::Error> = reader.records().collect();
    match records {
        Ok(v) => Ok(v.iter().map(|r| r.iter().map(|f| f.to_string()).collect()).collect()),
        Err(e) => Err(e.to_string()),
    }
}

// ---------------------------------------------------------------------------
// Records as values
// ---------------------------------------------------------------------------

/// A field as a value; an empty one is null.
pub open spec fn field_value(f: Seq<char>) -> ValV {
    if f.len() == 0 {
        ValV::Null
    } else {
        ValV::Str(f)
    }
}

/// The fields of a record as a list.
pub open spec fn listed(fields: Seq<Seq<char>>) -> ValV {
    ValV::List(Seq::new(fields.len(), |i: int| field_value(fields[i])))
}

/// The fields of a record from the `i`-th on under their headers, or under
/// their numbers where there are too few headers.
pub open spec fn headed(
    headers: Seq<Seq<char>>,
    fields: Seq<Seq<char>>,
    i: int,
    acc: RecV,
) -> RecV
    decreases fields.len() - i,
{
    if i < 0 || i >= fields.len() {
        acc
    } else {
        let key = if i < headers.len() {
            headers[i]
        } else {
            text::nat_text(i as nat)
        };
        headed(headers, fields, i + 1, assoc::bind(acc, key, field_value(fields[i])))
    }
}

/// A record as a value: a map where there are headers, else a list.
pub open spec fn record_value(headers: Option<Seq<Seq<char>>>, fields: Seq<Seq<char>>) -> ValV {
    match headers {
        Some(h) => ValV::Dict(headed(h, fields, 0, seq![])),
        None => listed(fields),
    }
}

fn convert_field(f: &String) -> (r: CypherValue)
    ensures
        r@ == field_value(f@),
{
    let chars = chars_of(f.as_str());
    if chars.len() == 0 {
        CypherValue::Null
    } else {
        CypherValue::String(f.clone())
    }
}

/// The view of optional headers.
pub open spec fn opt_headers(h: Option<Vec<String>>) -> Option<Seq<Seq<char>>> {
    match h {
        Some(v) => Some(text::texts_view(v@)),
        None => None,
    }
}

/// A record as a value.
pub fn convert_record(headers: &Option<Vec<String>>, fields: &Vec<String>) -> (r: CypherValue)
    ensures
        r@ == record_value(opt_headers(*headers), text::texts_view(fields@)),
{
    match headers {
        Some(h) => {
            let mut m = ValueMap::new();
            let mut i: usize = 0;
            while i < fields.len()
                invariant
                    i <= fields.len(),
                    headed(text::texts_view(h@), text::texts_view(fields@), 0, seq![]) == headed(
                        text::texts_view(h@),
                        text::texts_view(fields@),
                        i as int,
                        m@,
                    ),
                decreases fields.len() - i,
            {
                let key = if i < h.len() {
                    h[i].clone()
                } else {
                    u64_text(i as u64)
                };
                m.insert(key, convert_field(&fields[i]));
                i += 1;
            }
            CypherValue::MapValue(m)
        },
        None => {
            let mut list: Vec<CypherValue> = Vec::new();
            let mut i: usize = 0;
            while i < fields.len()
                invariant
                    i <= fields.len(),
                    list.len() == i,
                    forall|j: int|
                        0 <= j < i ==> (#[trigger] list@[j])@ == field_value(fields@[j]@),
                decreases fields.len() - i,
            {
                list.push(convert_field(&fields[i]));
                i += 1;
            }
            proof {
                assert(value::vals_view(list@) =~= Seq::new(
                    fields@.len(),
                    |i: int| field_value(text::texts_view(fields@)[i]),
                ));
            }
            CypherValue::List(list)
        },
    }
}

/// One row for each record.
pub open spec fn record_rows(
    rec: RecV,
    alias: Seq<char>,
    headers: Option<Seq<Seq<char>>>,
    records: Seq<Seq<Seq<char>>>,
) -> Seq<RecV> {
    Seq::new(
        records.len(),
        |i: int| assoc::bind(rec, alias, record_value(headers, records[i])),
    )
}

/// One row for each record of a file.
pub fn rows_of_records(
    rec: &Record,
    alias: &str,
    headers: &Option<Vec<String>>,
    records: &Vec<Vec<String>>,
) -> (r: Vec<Record>)
    ensures
        value::recs_view(r@) == record_rows(
            rec@,
            alias@,
            opt_headers(*headers),
            lists_view(records@),
        ),
{
    let mut out: Vec<Record> = Vec::new();
    let mut i: usize = 0;
    while i < records.len()
        invariant
            i <= records.len(),
            out.len() == i,
            forall|j: int|
                0 <= j < i ==> (#[trigger] out@[j])@ == assoc::bind(
                    rec@,
                    alias@,
                    record_value(opt_headers(*headers), lists_view(records@)[j]),
                ),
        decreases records.len() - i,
    {
        out.push(rec.with(alias, convert_record(headers, &records[i])));
        i += 1;
    }
    proof {
        assert(value::recs_view(out@) =~= record_rows(
            rec@,
            alias@,
            opt_headers(*headers),
            lists_view(records@),
        ));
    }
    out
}

// ---------------------------------------------------------------------------
// Files
// ---------------------------------------------------------------------------

/// The path that a URL names: a `file://` URL, or a path itself.
pub open spec fn file_path(url: Seq<char>) -> Seq<char> {
    if text::starts_with_text(url, "file://"@) {
        url.skip("file://"@.len() as int)
    } else {
        url
    }
}

pub fn resolve_path(url: &str) -> (r: String)
    ensures
        r@ == file_path(url@),
{
    if text_starts_with(url, "file://") {
        proof {
            reveal_strlit("file://");
        }
        let chars = chars_of(url);
        proof {
            assert(chars@.subrange(7, chars@.len() as int) =~= url@.skip(7));
        }
        slice_text(&chars, 7, chars.len())
    } else {
        url.to_owned()
    }
}

/// The contents of a file, and why they end early where reading failed.
pub open spec fn file_bytes(ans: AnswersV, path: Seq<char>) -> Result<
    (Seq<u8>, Option<Seq<char>>),
    ErrV,
> {
    match ans(RequestV::ReadFile(path)) {
        Some(AnswerV::Bytes(b)) => Ok((b, None)),
        Some(AnswerV::Broken(b, m)) => Ok((b, Some(m))),
        Some(AnswerV::Failed(m)) => Err(
            ErrV::Runtime("LOAD CSV: cannot open '"@ + path + "': "@ + m),
        ),
        _ => Err(ErrV::Pending(RequestV::ReadFile(path))),
    }
}

fn read_file<O: Outside>(path: &str, outside: &O) -> (r: Result<
    (Vec<u8>, Option<String>),
    CypherError,
>)
    ensures
        (match r {
            Ok((b, why)) => Ok((b@, ast::opt_text(why))),
            Err(e) => Err(e@),
        }) == file_bytes(outside.answers(), path@),
{
    let request = Request::ReadFile(path.to_owned());
    match outside.answer(&request) {
        Some(Answer::Bytes(b)) => Ok((b, None)),
        Some(Answer::Broken(b, m)) => Ok((b, Some(m))),
        Some(Answer::Failed(m)) => Err(
            CypherError::RuntimeError(
                join2(join3("LOAD CSV: cannot open '", path, "': ").as_str(), m.as_str()),
            ),
        ),
        _ => Err(CypherError::Pending(request)),
    }
}

/// The URL of a file.
pub open spec fn url_of(v: ValV) -> Result<Seq<char>, ErrV> {
    match v {
        ValV::Str(s) => Ok(s),
        _ => Err(ErrV::Type("LOAD CSV: URL must be a string, got "@ + value::value_kind(v))),
    }
}

fn expect_url(v: &CypherValue) -> (r: Result<String, CypherError>)
    ensures
        match r {
            Ok(s) => url_of(v@) == Ok::<Seq<char>, ErrV>(s@),
            Err(e) => url_of(v@) == Err::<Seq<char>, ErrV>(e@),
        },
{
    match v {
        CypherValue::String(s) => Ok(s.clone()),
        other => Err(
            CypherError::TypeError(
                join2("LOAD CSV: URL must be a string, got ", cypher_value_type_name(other)),
            ),
        ),
    }
}

/// The character that separates fields: the first one of a text, in ASCII.
pub open spec fn separator_of(v: ValV) -> Result<u8, ErrV> {
    match v {
        ValV::Str(s) => if s.len() == 0 {
            Err(ErrV::Runtime("LOAD CSV: FIELDTERMINATOR must not be empty"@))
        } else if (s[0] as u32) >= 128 {
            Err(ErrV::Runtime("LOAD CSV: FIELDTERMINATOR must be an ASCII character"@))
        } else {
            Ok(s[0] as u8)
        },
        _ => Err(
            ErrV::Type(
                "LOAD CSV: FIELDTERMINATOR must be a string, got "@ + value::value_kind(v),
            ),
        ),
    }
}

fn expect_separator(v: &CypherValue) -> (r: Result<u8, CypherError>)
    ensures
        match r {
            Ok(c) => separator_of(v@) == Ok::<u8, ErrV>(c),
            Err(e) => separator_of(v@) == Err::<u8, ErrV>(e@),
        },
{
    match v {
        CypherValue::String(s) => {
            let chars = chars_of(s.as_str());
            if chars.len() == 0 {
                Err(
                    CypherError::RuntimeError(
                        "LOAD CSV: FIELDTERMINATOR must not be empty".to_owned(),
                    ),
                )
            } else if (chars[0] as u32) >= 128 {
                Err(
                    CypherError::RuntimeError(
                        "LOAD CSV: FIELDTERMINATOR must be an ASCII character".to_owned(),
                    ),
                )
            } else {
                Ok(chars[0] as u8)
            }
        },
        other => Err(
            CypherError::TypeError(
                join2(
                    "LOAD CSV: FIELDTERMINATOR must be a string, got ",
                    cypher_value_type_name(other),
                ),
            ),
        ),
    }
}

/// The rows for one file.
pub open spec fn loaded(
    rec: RecV,
    alias: Seq<char>,
    data: Seq<u8>,
    with_headers: bool,
    delimiter: u8,
) -> Result<Seq<RecV>, ErrV> {
    if with_headers {
        match csv_head(data, delimiter) {
            Err(m) => Err(ErrV::Runtime("LOAD CSV: failed to read headers: "@ + m)),
            Ok(h) => match csv_body(data, true, delimiter) {
                Err(m) => Err(ErrV::Runtime("LOAD CSV: failed to read record: "@ + m)),
                Ok(records) => Ok(record_rows(rec, alias, Some(h), records)),
            },
        }
    } else {
        match csv_body(data, false, delimiter) {
            Err(m) => Err(ErrV::Runtime("LOAD CSV: failed to read record: "@ + m)),
            Ok(records) => Ok(record_rows(rec, alias, None, records)),
        }
    }
}

/// The rows for the contents of one file.
pub fn load_data(
    rec: &Record,
    alias: &str,
    data: &Vec<u8>,
    with_headers: bool,
    delimiter: u8,
) -> (r: Result<Vec<Record>, CypherError>)
    ensures
        recs_outcome(r) == loaded(rec@, alias@, data@, with_headers, delimiter),
{
    let headers = if with_headers {
        match read_csv_head(data, delimiter) {
            Ok(h) => Some(h),
            Err(m) => {
                return Err(
                    CypherError::RuntimeError(
                        join2("LOAD CSV: failed to read headers: ", m.as_str()),
                    ),
                );
            },
        }
    } else {
        None
    };
    match read_csv_body(data, with_headers, delimiter) {
        Err(m) => Err(
            CypherError::RuntimeError(join2("LOAD CSV: failed to read record: ", m.as_str())),
        ),
        Ok(records) => Ok(rows_of_records(rec, alias, &headers, &records)),
    }
}

/// The headers of data that ends early are there as a whole: one more byte does
/// not change them.
pub open spec fn head_complete(data: Seq<u8>, delimiter: u8) -> bool {
    csv_head(data, delimiter) == csv_head(data.push(120), delimiter)
}

fn is_head_complete(data: &Vec<u8>, delimiter: u8) -> (r: bool)
    ensures
        r == head_complete(data@, delimiter),
{
    let mut more = clone_bytes(data);
    more.push(120);
    match (read_csv_head(data, delimiter), read_csv_head(&more, delimiter)) {
        (Ok(a), Ok(b)) => same_texts(&a, &b),
        (Err(a), Err(b)) => same_text(a.as_str(), b.as_str()),
        _ => false,
    }
}

/// Why a file that cannot be read to its end gives no rows: reading its headers
/// or one of its records failed.
pub open spec fn cut_off(
    data: Seq<u8>,
    why: Seq<char>,
    with_headers: bool,
    delimiter: u8,
) -> ErrV {
    if !with_headers {
        ErrV::Runtime("LOAD CSV: failed to read record: "@ + why)
    } else if !head_complete(data, delimiter) {
        ErrV::Runtime("LOAD CSV: failed to read headers: "@ + why)
    } else {
        match csv_head(data, delimiter) {
            Err(m) => ErrV::Runtime("LOAD CSV: failed to read headers: "@ + m),
            Ok(_) => ErrV::Runtime("LOAD CSV: failed to read record: "@ + why),
        }
    }
}

/// The error for a file that cannot be read to its end.
pub fn cut_off_error(data: &Vec<u8>, why: &str, with_headers: bool, delimiter: u8) -> (r:
    CypherError)
    ensures
        r@ == cut_off(data@, why@, with_headers, delimiter),
{
    if with_headers {
        if !is_head_complete(data, delimiter) {
            return CypherError::RuntimeError(join2("LOAD CSV: failed to read headers: ", why));
        }
        if let Err(m) = read_csv_head(data, delimiter) {
            return CypherError::RuntimeError(
                join2("LOAD CSV: failed to read headers: ", m.as_str()),
            );
        }
    }
    CypherError::RuntimeError(join2("LOAD CSV: failed to read record: ", why))
}

/// What one row loads.
pub open spec fn load_row(
    rec: RecV,
    url: ExprV,
    alias: Seq<char>,
    with_headers: bool,
    field_terminator: Option<ExprV>,
    env: EnvV,
    st: StoreV,
) -> Result<Seq<RecV>, ErrV> {
    match semantics::eval(url, rec, env.at(0), st) {
        Err(x) => Err(x),
        Ok(u) => match url_of(u) {
            Err(x) => Err(x),
            Ok(s) => match separator(rec, field_terminator, env.at(1), st) {
                Err(x) => Err(x),
                Ok(delimiter) => match file_bytes(env.answers, file_path(s)) {
                    Err(x) => Err(x),
                    Ok((data, None)) => loaded(rec, alias, data, with_headers, delimiter),
                    Ok((data, Some(why))) => Err(cut_off(data, why, with_headers, delimiter)),
                },
            },
        },
    }
}

/// The separator of fields, a comma where none is given.
pub open spec fn separator(rec: RecV, e: Option<ExprV>, env: EnvV, st: StoreV) -> Result<u8, ErrV> {
    match e {
        None => Ok(44u8),
        Some(ft) => match semantics::eval(ft, rec, env, st) {
            Err(x) => Err(x),
            Ok(v) => separator_of(v),
        },
    }
}

pub open spec fn load_rows(
    rows: Seq<RecV>,
    i: int,
    acc: Seq<RecV>,
    url: ExprV,
    alias: Seq<char>,
    with_headers: bool,
    field_terminator: Option<ExprV>,
    env: EnvV,
    st: StoreV,
) -> Result<Seq<RecV>, ErrV>
    decreases rows.len() - i,
{
    if i < 0 || i >= rows.len() {
        Ok(acc)
    } else {
        match load_row(rows[i], url, alias, with_headers, field_terminator, env.at(i), st) {
            Err(x) => Err(x),
            Ok(more) => load_rows(
                rows,
                i + 1,
                acc + more,
                url,
                alias,
                with_headers,
                field_terminator,
                env,
                st,
            ),
        }
    }
}

fn execute_load_row<S: StorageBackend, O: Outside>(
    rec: &Record,
    url: &Expression,
    alias: &str,
    with_headers: bool,
    field_terminator: &Option<Expression>,
    ctx: &Ctx<O>,
    storage: &S,
) -> (r: Result<Vec<Record>, CypherError>)
    requires
        storage.valid(),
    ensures
        recs_outcome(r) == load_row(
            rec@,
            url@,
            alias@,
            with_headers,
            ast::maybe_expr(*field_terminator),
            ctx.env(),
            storage.store(),
        ),
{
    let u = eval_with_params(url, rec, &ctx.at(0), storage)?;
    let s = expect_url(&u)?;
    let here = ctx.at(1);
    let delimiter: u8 = match field_terminator {
        None => 44,
        Some(e) => {
            let v = eval_with_params(e, rec, &here, storage)?;
            expect_separator(&v)?
        },
    };
    let path = resolve_path(s.as_str());
    let (data, why) = read_file(path.as_str(), ctx.outside)?;
    match why {
        None => load_data(rec, alias, &data, with_headers, delimiter),
        Some(m) => Err(cut_off_error(&data, m.as_str(), with_headers, delimiter)),
    }
}

/// LOAD CSV: one row for each record of a file.
pub fn execute_load_csv<S: StorageBackend, O: Outside>(
    t: Table,
    url: &Expression,
    alias: &str,
    with_headers: bool,
    field_terminator: &Option<Expression>,
    ctx: &Ctx<O>,
    storage: &S,
) -> (r: Result<Table, CypherError>)
    requires
        storage.valid(),
    ensures
        table_outcome(r) == (match load_rows(
            t@.rows,
            0,
            seq![],
            url@,
            alias@,
            with_headers,
            ast::maybe_expr(*field_terminator),
            ctx.env(),
            storage.store(),
        ) {
            Err(x) => Err(x),
            Ok(rows) => Ok(TableV { cols: rows::with_col(t@.cols, alias@), rows }),
        }),
{
    let mut cols = t.cols;
    add_col(&mut cols, alias);
    let mut out: Vec<Record> = Vec::new();
    let mut i: usize = 0;
    proof {
        assert(value::recs_view(out@) =~= seq![]);
    }
    while i < t.rows.len()
        invariant
            storage.valid(),
            i <= t.rows.len(),
            load_rows(
                value::recs_view(t.rows@),
                0,
                seq![],
                url@,
                alias@,
                with_headers,
                ast::maybe_expr(*field_terminator),
                ctx.env(),
                storage.store(),
            ) == load_rows(
                value::recs_view(t.rows@),
                i as int,
                value::recs_view(out@),
                url@,
                alias@,
                with_headers,
                ast::maybe_expr(*field_terminator),
                ctx.env(),
                storage.store(),
            ),
        decreases t.rows.len() - i,
    {
        let more = execute_load_row(
            &t.rows[i],
            url,
            alias,
            with_headers,
            field_terminator,
            &ctx.at(i),
            storage,
        )?;
        append_rows(&mut out, more);
        i += 1;
    }
    Ok(Table { cols, rows: out })
}

} // verus!
