//! CSV export: field escaping and content assembly.  Writing the file
//! is the host's business.

use vstd::prelude::*;
use crate::chars::{contains_sub, contains_vec, str_chars, chars_to_string};
use crate::dataset::{Column, Row, RowData};
use crate::numbers::dec_rep_signed;
use crate::prompt::{replace_all_spec, replace_all_vec};

verus! {

/// Errors of the export pipeline.
#[derive(Debug)]
pub enum ExportError {
    NotFound(String),
    DatabaseError(String),
    FsError(String),
    InvalidInput(String),
    DatasetError(String),
}

impl ExportError {
    /// The text of the error, with its kind as a prefix.
    pub fn message(&self) -> (r: String)
        ensures
            r@ == self.message_spec(),
    {
        match self {
            ExportError::NotFound(m) => {
                let p = String::from_str("Not found: ");
                proof {
                    reveal_strlit("Not found: ");
                }
                p.concat(m.as_str())
            },
            ExportError::DatabaseError(m) => {
                let p = String::from_str("Database error: ");
                proof {
                    reveal_strlit("Database error: ");
                }
                p.concat(m.as_str())
            },
            ExportError::FsError(m) => {
                let p = String::from_str("File system error: ");
                proof {
                    reveal_strlit("File system error: ");
                }
                p.concat(m.as_str())
            },
            ExportError::InvalidInput(m) => {
                let p = String::from_str("Invalid input: ");
                proof {
                    reveal_strlit("Invalid input: ");
                }
                p.concat(m.as_str())
            },
            ExportError::DatasetError(m) => {
                let p = String::from_str("Dataset error: ");
                proof {
                    reveal_strlit("Dataset error: ");
                }
                p.concat(m.as_str())
            },
        }
    }

    /// The text of the error, as a sequence.
    pub open spec fn message_spec(&self) -> Seq<char> {
        match self {
            ExportError::NotFound(m) => "Not found: "@ + m@,
            ExportError::DatabaseError(m) => "Database error: "@ + m@,
            ExportError::FsError(m) => "File system error: "@ + m@,
            ExportError::InvalidInput(m) => "Invalid input: "@ + m@,
            ExportError::DatasetError(m) => "Dataset error: "@ + m@,
        }
    }
}

/// Does a field need quoting: a comma, quote, or line break inside.
pub open spec fn needs_quoting(s: Seq<char>) -> bool {
    ||| contains_sub(s, seq![','])
    ||| contains_sub(s, seq!['"'])
    ||| contains_sub(s, seq!['\n'])
    ||| contains_sub(s, seq!['\r'])
}

/// A field as it stands in the file: wrapped in quotes with inner
/// quotes doubled when it needs quoting, and verbatim otherwise.
pub open spec fn escape_csv_spec(s: Seq<char>) -> Seq<char> {
    if needs_quoting(s) {
        seq!['"'] + replace_all_spec(s, seq!['"'], seq!['"', '"']) + seq!['"']
    } else {
        s
    }
}

/// A one-character pattern.
fn mark(c: char) -> (r: Vec<char>)
    ensures
        r@ == seq![c],
{
    let mut r: Vec<char> = Vec::new();
    r.push(c);
    assert(r@ =~= seq![c]);
    r
}

/// Escape one field.
fn escape_csv_vec(s: &Vec<char>) -> (r: Vec<char>)
    ensures
        r@ == escape_csv_spec(s@),
{
    let needs = contains_vec(s, &mark(',')) || contains_vec(s, &mark('"')) || contains_vec(
        s,
        &mark('\n'),
    ) || contains_vec(s, &mark('\r'));
    if needs {
        let mut two: Vec<char> = Vec::new();
        two.push('"');
        two.push('"');
        assert(two@ =~= seq!['"', '"']);
        let doubled = replace_all_vec(s, &mark('"'), &two);
        let mut out: Vec<char> = Vec::new();
        out.push('"');
        crate::coerce::extend_vec(&mut out, &doubled);
        out.push('"');
        proof {
            assert(out@ =~= seq!['"'] + replace_all_spec(s@, seq!['"'], seq!['"', '"'])
                + seq!['"']);
        }
        out
    } else {
        crate::chars::sub_vec(s, 0, s.len())
    }
}

/// Escape one field of the file.
pub fn escape_csv_field(field: &str) -> (r: String)
    ensures
        r@ == escape_csv_spec(field@),
{
    let chars = str_chars(field);
    let out = escape_csv_vec(&chars);
    chars_to_string(&out)
}

/// The value stored in a row under a column id; a map built from the
/// cells resolves a duplicated id to its last cell.  Missing cells read
/// as empty.
pub open spec fn cell_of(data: Seq<RowData>, key: Seq<char>) -> Seq<char>
    decreases data.len(),
{
    if data.len() == 0 {
        Seq::empty()
    } else if data.last().column_id@ == key {
        data.last().value@
    } else {
        cell_of(data.drop_last(), key)
    }
}

/// Items joined with commas.
pub open spec fn join_comma(items: Seq<Seq<char>>) -> Seq<char>
    decreases items.len(),
{
    if items.len() == 0 {
        Seq::empty()
    } else if items.len() == 1 {
        items[0]
    } else {
        join_comma(items.drop_last()) + seq![','] + items.last()
    }
}

/// The header line's fields: the columns' escaped names.
pub open spec fn header_items(cols: Seq<Column>) -> Seq<Seq<char>> {
    Seq::new(cols.len(), |i: int| escape_csv_spec(cols[i].name@))
}

/// One row's fields, in column order.
pub open spec fn row_items(cols: Seq<Column>, row: Row) -> Seq<Seq<char>> {
    Seq::new(
        cols.len(),
        |i: int| escape_csv_spec(cell_of(row.data@, dec_rep_signed(cols[i].id->0 as int))),
    )
}

/// The data lines, one joined row per line.
pub open spec fn rows_text(cols: Seq<Column>, rows: Seq<Row>) -> Seq<char>
    decreases rows.len(),
{
    if rows.len() == 0 {
        Seq::empty()
    } else {
        rows_text(cols, rows.drop_last()) + join_comma(row_items(cols, rows.last())) + seq!['\n']
    }
}

/// The whole file: the header line, then one line per row.
pub open spec fn csv_content_spec(cols: Seq<Column>, rows: Seq<Row>) -> Seq<char> {
    join_comma(header_items(cols)) + seq!['\n'] + rows_text(cols, rows)
}

/// Join prepared fields with commas.
fn join_items(items: &Vec<Vec<char>>, Ghost(g): Ghost<Seq<Seq<char>>>) -> (r: Vec<char>)
    requires
        items@.len() == g.len(),
        forall|k: int| 0 <= k < items@.len() ==> (#[trigger] items@[k])@ == g[k],
    ensures
        r@ == join_comma(g),
{
    let n: usize = items.len();
    let mut out: Vec<char> = Vec::new();
    let mut i: usize = 0;
    proof {
        assert(g.take(0) =~= Seq::<Seq<char>>::empty());
    }
    while i < n
        invariant
            n == items@.len(),
            n == g.len(),
            forall|k: int| 0 <= k < items@.len() ==> (#[trigger] items@[k])@ == g[k],
            i <= n,
            out@ == join_comma(g.take(i as int)),
        decreases n - i,
    {
        proof {
            assert(g.take(i + 1).drop_last() =~= g.take(i as int));
            assert(g.take(i + 1).last() == g[i as int]);
        }
        let ghost pre = out@;
        if i > 0 {
            out.push(',');
        }
        crate::coerce::extend_vec(&mut out, &items[i]);
        proof {
            if i == 0 {
                assert(out@ =~= g[0]);
                assert(g.take(1).len() == 1 && g.take(1)[0] == g[0]);
            } else {
                assert(out@ =~= join_comma(g.take(i as int)) + seq![','] + g[i as int]);
            }
        }
        i = i + 1;
    }
    proof {
        assert(g.take(n as int) =~= g);
    }
    out
}

/// Look up a row's cell under a column id.
fn cell_of_vec(data: &Vec<RowData>, key: &Vec<char>) -> (r: Vec<char>)
    ensures
        r@ == cell_of(data@, key@),
{
    let mut i: usize = data.len();
    proof {
        assert(data@.take(data@.len() as int) =~= data@);
    }
    while i > 0
        invariant
            i <= data@.len(),
            cell_of(data@, key@) == cell_of(data@.take(i as int), key@),
        decreases i,
    {
        proof {
            assert(data@.take(i as int).last() == data@[i - 1]);
            assert(data@.take(i as int).drop_last() =~= data@.take(i - 1));
        }
        let cid = str_chars(data[i - 1].column_id.as_str());
        if crate::sorter::chars_eq(&cid, key) {
            return str_chars(data[i - 1].value.as_str());
        }
        i = i - 1;
    }
    assert(data@.take(0) =~= Seq::<RowData>::empty());
    Vec::new()
}

/// Assemble the file contents: the escaped column names as a header
/// line, then each row's cells in column order, one line per row.
pub fn create_csv_content(columns: &Vec<Column>, rows: &Vec<Row>) -> (r: String)
    requires
        forall|i: int| 0 <= i < columns@.len() ==> (#[trigger] columns@[i]).id is Some,
    ensures
        r@ == csv_content_spec(columns@, rows@),
{
    let cn: usize = columns.len();
    // header
    let mut hdr: Vec<Vec<char>> = Vec::new();
    let mut i: usize = 0;
    while i < cn
        invariant
            cn == columns@.len(),
            i <= cn,
            hdr@.len() == i as int,
            forall|k: int| 0 <= k < i ==> (#[trigger] hdr@[k])@ == header_items(columns@)[k],
        decreases cn - i,
    {
        let name = str_chars(columns[i].name.as_str());
        hdr.push(escape_csv_vec(&name));
        i = i + 1;
    }
    let mut out = join_items(&hdr, Ghost(header_items(columns@)));
    out.push('\n');
    let ghost header_done = join_comma(header_items(columns@)) + seq!['\n'];
    proof {
        assert(out@ =~= header_done);
    }
    // rows
    let rn: usize = rows.len();
    let mut j: usize = 0;
    proof {
        assert(rows@.take(0) =~= Seq::<Row>::empty());
        assert(out@ =~= header_done + rows_text(columns@, rows@.take(0)));
    }
    while j < rn
        invariant
            cn == columns@.len(),
            rn == rows@.len(),
            forall|k: int| 0 <= k < columns@.len() ==> (#[trigger] columns@[k]).id is Some,
            j <= rn,
            header_done == join_comma(header_items(columns@)) + seq!['\n'],
            out@ == header_done + rows_text(columns@, rows@.take(j as int)),
        decreases rn - j,
    {
        let mut fields: Vec<Vec<char>> = Vec::new();
        let mut i2: usize = 0;
        while i2 < cn
            invariant
                cn == columns@.len(),
                rn == rows@.len(),
                forall|k: int| 0 <= k < columns@.len() ==> (#[trigger] columns@[k]).id is Some,
                j < rn,
                i2 <= cn,
                fields@.len() == i2 as int,
                forall|k: int|
                    0 <= k < i2 ==> (#[trigger] fields@[k])@ == row_items(
                        columns@,
                        rows@[j as int],
                    )[k],
            decreases cn - i2,
        {
            let id: i64 = match columns[i2].id {
                Some(v) => v,
                None => 0,
            };
            let key = crate::numbers::i64_dec(id);
            let value = cell_of_vec(&rows[j].data, &key);
            fields.push(escape_csv_vec(&value));
            i2 = i2 + 1;
        }
        let line = join_items(&fields, Ghost(row_items(columns@, rows@[j as int])));
        crate::coerce::extend_vec(&mut out, &line);
        out.push('\n');
        proof {
            assert(rows@.take(j + 1).drop_last() =~= rows@.take(j as int));
            assert(rows@.take(j + 1).last() == rows@[j as int]);
            assert(out@ =~= header_done + rows_text(columns@, rows@.take(j + 1)));
        }
        j = j + 1;
    }
    proof {
        assert(rows@.take(rn as int) =~= rows@);
        assert(out@ =~= csv_content_spec(columns@, rows@));
    }
    chars_to_string(&out)
}

} // verus!
