//! Dataset data model: metadata, columns, rows, and the row-shaping
//! helpers that the store wiring uses around the engine.

use vstd::prelude::*;

verus! {

/// Errors of the dataset store operations.
#[derive(Debug)]
pub enum DatasetError {
    NotFound(String),
    DatabaseError(String),
    InvalidInput(String),
    FsError(String),
}

impl DatasetError {
    /// The text of the error, with its kind as a prefix.
    pub fn message(&self) -> (r: String)
        ensures
            r@ == self.message_spec(),
    {
        match self {
            DatasetError::NotFound(m) => {
                let p = String::from_str("Dataset not found: ");
                proof {
                    reveal_strlit("Dataset not found: ");
                }
                p.concat(m.as_str())
            },
            DatasetError::DatabaseError(m) => {
                let p = String::from_str("Database error: ");
                proof {
                    reveal_strlit("Database error: ");
                }
                p.concat(m.as_str())
            },
            DatasetError::InvalidInput(m) => {
                let p = String::from_str("Invalid input: ");
                proof {
                    reveal_strlit("Invalid input: ");
                }
                p.concat(m.as_str())
            },
            DatasetError::FsError(m) => {
                let p = String::from_str("File system error: ");
                proof {
                    reveal_strlit("File system error: ");
                }
                p.concat(m.as_str())
            },
        }
    }

    /// The text of the error, as a sequence.
    pub open spec fn message_spec(&self) -> Seq<char> {
        match self {
            DatasetError::NotFound(m) => "Dataset not found: "@ + m@,
            DatasetError::DatabaseError(m) => "Database error: "@ + m@,
            DatasetError::InvalidInput(m) => "Invalid input: "@ + m@,
            DatasetError::FsError(m) => "File system error: "@ + m@,
        }
    }
}

/// A dataset's stored description.
#[derive(Debug)]
pub struct DatasetMetadata {
    pub id: i64,
    pub table_name: String,
    pub name: String,
    pub description: String,
    pub row_count: i64,
    pub created_at: String,
    pub updated_at: String,
}

/// A column definition: its stable id, unique name, type tag, optional
/// structural details, generation rule, and presentation position.
#[derive(Debug, Clone)]
pub struct Column {
    pub id: Option<i64>,
    pub table_name: String,
    pub dataset_id: i64,
    pub name: String,
    pub column_type: String,
    pub column_type_details: Option<String>,
    pub rules: String,
    pub position: i64,
}

/// Fields of a column that an update may change.
#[derive(Debug)]
pub struct UpdatableColumnFields {
    pub name: Option<String>,
    pub rules: Option<String>,
    pub column_type: Option<String>,
    pub column_type_details: Option<String>,
    pub position: Option<String>,
}

/// A persisted row.
#[derive(Debug, Clone)]
pub struct Row {
    pub id: i64,
    pub data: Vec<RowData>,
    pub created_at: String,
    pub updated_at: String,
}

/// One cell of a row: the owning column's id, rendered as text, and the
/// cell's value.
#[derive(Debug, Clone)]
pub struct RowData {
    pub column_id: String,
    pub value: String,
}

/// Value of the first cell of `data` whose column id reads `key`.
pub open spec fn find_value(data: Seq<RowData>, key: Seq<char>) -> Option<Seq<char>>
    decreases data.len(),
{
    if data.len() == 0 {
        None
    } else if data.first().column_id@ == key {
        Some(data.first().value@)
    } else {
        find_value(data.drop_first(), key)
    }
}

/// Look up the first cell of `data` whose column id reads `key`.
pub fn find_value_vec(data: &Vec<RowData>, key: &String) -> (r: Option<String>)
    ensures
        match r {
            Some(v) => find_value(data@, key@) == Some(v@),
            None => find_value(data@, key@) is None,
        },
{
    let n: usize = data.len();
    let mut i: usize = 0;
    assert(data@.skip(0) =~= data@);
    while i < n
        invariant
            n == data@.len(),
            i <= n,
            find_value(data@, key@) == find_value(data@.skip(i as int), key@),
        decreases n - i,
    {
        proof {
            assert(data@.skip(i as int).first() == data@[i as int]);
            assert(data@.skip(i as int).drop_first() =~= data@.skip(i + 1));
        }
        if data[i].column_id.eq(key) {
            let v = data[i].value.clone();
            assert(v@ == data@[i as int].value@);
            return Some(v);
        }
        i = i + 1;
    }
    assert(data@.skip(n as int).len() == 0);
    None
}

/// Reorder generated cells into the columns' order, as the store expects
/// a row: one cell per column, keyed by the column's id.  Fails with
/// `NotFound` exactly when some column has no cell in `data`.
pub fn align_row_data(columns: &Vec<Column>, data: &Vec<RowData>) -> (r: Result<
    Vec<RowData>,
    DatasetError,
>)
    requires
        forall|i: int| 0 <= i < columns@.len() ==> columns@[i].id is Some,
    ensures
        match r {
            Ok(out) => {
                &&& out@.len() == columns@.len()
                &&& forall|i: int| 0 <= i < out@.len() ==> out@[i].column_id@
                    == crate::numbers::dec_rep_signed(columns@[i].id->Some_0 as int)
                &&& forall|i: int| 0 <= i < out@.len() ==> find_value(
                    data@,
                    crate::numbers::dec_rep_signed(columns@[i].id->Some_0 as int),
                ) == Some(out@[i].value@)
            },
            Err(e) => {
                &&& e is NotFound
                &&& exists|i: int| 0 <= i < columns@.len() && find_value(
                    data@,
                    crate::numbers::dec_rep_signed(columns@[i].id->Some_0 as int),
                ) is None
            },
        },
{
    let n: usize = columns.len();
    let mut out: Vec<RowData> = Vec::new();
    let mut i: usize = 0;
    while i < n
        invariant
            n == columns@.len(),
            i <= n,
            forall|k: int| 0 <= k < columns@.len() ==> columns@[k].id is Some,
            out@.len() == i as int,
            forall|k: int| 0 <= k < i ==> out@[k].column_id@ == crate::numbers::dec_rep_signed(
                columns@[k].id->Some_0 as int,
            ),
            forall|k: int| 0 <= k < i ==> find_value(
                data@,
                crate::numbers::dec_rep_signed(columns@[k].id->Some_0 as int),
            ) == Some(out@[k].value@),
        decreases n - i,
    {
        let id: i64 = match columns[i].id {
            Some(v) => v,
            None => {
                proof {
                    assert(columns@[i as int].id is Some);
                }
                0
            },
        };
        let key = crate::numbers::i64_to_string(id);
        match find_value_vec(data, &key) {
            Some(value) => {
                out.push(RowData { column_id: key, value });
            },
            None => {
                let mut msg = String::from_str("Column with id ");
                proof {
                    reveal_strlit("Column with id ");
                }
                msg.append(key.as_str());
                proof {
                    reveal_strlit(" not found");
                }
                msg.append(" not found");
                return Err(DatasetError::NotFound(msg));
            },
        }
        i = i + 1;
    }
    Ok(out)
}

/// A row's cells with the given updates applied: a cell whose column id
/// parses and appears among the updates takes the new value; every
/// other cell is kept.
pub fn apply_row_updates(row_data: Vec<RowData>, updates: &Vec<(i64, String)>) -> (r: Vec<
    RowData,
>)
    ensures
        r@.len() == row_data@.len(),
        forall|i: int| 0 <= i < r@.len() ==> r@[i].column_id@ == row_data@[i].column_id@,
        forall|i: int| 0 <= i < r@.len() ==> r@[i].value@ == (
        match crate::numbers::parse_i64_spec(row_data@[i].column_id@) {
            Some(cid) => match lookup_update(updates@, cid) {
                Some(v) => v,
                None => row_data@[i].value@,
            },
            None => row_data@[i].value@,
        }),
{
    let n: usize = row_data.len();
    let mut out: Vec<RowData> = Vec::new();
    let mut i: usize = 0;
    let ghost orig = row_data@;
    let mut rest = row_data;
    // walk the cells front to back, moving each into the output
    while i < n
        invariant
            n == orig.len(),
            i <= n,
            rest@ == orig,
            out@.len() == i as int,
            forall|k: int| 0 <= k < i ==> out@[k].column_id@ == orig[k].column_id@,
            forall|k: int| 0 <= k < i ==> out@[k].value@ == (
            match crate::numbers::parse_i64_spec(orig[k].column_id@) {
                Some(cid) => match lookup_update(updates@, cid) {
                    Some(v) => v,
                    None => orig[k].value@,
                },
                None => orig[k].value@,
            }),
        decreases n - i,
    {
        let cid_chars = crate::chars::str_chars(rest[i].column_id.as_str());
        let column_id = rest[i].column_id.clone();
        let old_value = rest[i].value.clone();
        let value = match crate::numbers::parse_i64(&cid_chars) {
            Some(cid) => match lookup_update_vec(updates, cid) {
                Some(v) => v,
                None => old_value,
            },
            None => old_value,
        };
        out.push(RowData { column_id, value });
        i = i + 1;
    }
    out
}

/// The new value for column `cid`, if the updates carry one: the first
/// matching entry wins.
pub open spec fn lookup_update(updates: Seq<(i64, String)>, cid: i64) -> Option<Seq<char>>
    decreases updates.len(),
{
    if updates.len() == 0 {
        None
    } else if updates.first().0 == cid {
        Some(updates.first().1@)
    } else {
        lookup_update(updates.drop_first(), cid)
    }
}

/// Look up the first update for column `cid`.
fn lookup_update_vec(updates: &Vec<(i64, String)>, cid: i64) -> (r: Option<String>)
    ensures
        match r {
            Some(v) => lookup_update(updates@, cid) == Some(v@),
            None => lookup_update(updates@, cid) is None,
        },
{
    let n: usize = updates.len();
    let mut i: usize = 0;
    assert(updates@.skip(0) =~= updates@);
    while i < n
        invariant
            n == updates@.len(),
            i <= n,
            lookup_update(updates@, cid) == lookup_update(updates@.skip(i as int), cid),
        decreases n - i,
    {
        proof {
            assert(updates@.skip(i as int).first() == updates@[i as int]);
            assert(updates@.skip(i as int).drop_first() =~= updates@.skip(i + 1));
        }
        if updates[i].0 == cid {
            let v = updates[i].1.clone();
            assert(v@ == updates@[i as int].1@);
            return Some(v);
        }
        i = i + 1;
    }
    assert(updates@.skip(n as int).len() == 0);
    None
}

/// Number of pages needed for `total_rows` rows at `page_size` rows per
/// page: the quotient, rounded up.
pub fn total_pages(total_rows: i64, page_size: i64) -> (r: i64)
    requires
        total_rows >= 0,
        page_size > 0,
    ensures
        r == (total_rows + page_size - 1) / (page_size as int),
        r * page_size >= total_rows,
        (r - 1) * page_size < total_rows,
{
    let q = total_rows / page_size;
    let rem = total_rows % page_size;
    proof {
        let t = total_rows as int;
        let p = page_size as int;
        assert(t % p != 0 ==> p >= 2 && t / p + 1 <= i64::MAX) by (nonlinear_arith)
            requires
                0 <= t <= i64::MAX,
                p > 0,
        ;
    }
    let r: i64 = if rem != 0 { q + 1 } else { q };
    proof {
        let t = total_rows as int;
        let p = page_size as int;
        assert(t == p * (t / p) + t % p && 0 <= t % p < p && 0 <= t / p <= t) by (nonlinear_arith)
            requires
                t >= 0,
                p > 0,
        ;
        assert(r as int == (t + p - 1) / p && r * p >= t && (r - 1) * p < t) by (nonlinear_arith)
            requires
                t >= 0,
                p > 0,
                t == p * (t / p) + t % p,
                0 <= t % p < p,
                r == if t % p != 0 { t / p + 1 } else { t / p },
        ;
    }
    r
}

} // verus!
