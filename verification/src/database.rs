//! Database-layer data model and the table-name validation rule.

use vstd::prelude::*;
use crate::chars::{is_word_char, is_digit_char, str_chars};

verus! {

/// Errors of the database layer.
#[derive(Debug)]
pub enum DatabaseError {
    SqliteError(String),
    FsError(String),
    InvalidQuery(String),
}

impl DatabaseError {
    /// The text of the error, with its kind as a prefix.
    pub fn message(&self) -> (r: String)
        ensures
            r@ == self.message_spec(),
    {
        match self {
            DatabaseError::SqliteError(m) => {
                let p = String::from_str("SQLite error: ");
                proof {
                    reveal_strlit("SQLite error: ");
                }
                p.concat(m.as_str())
            },
            DatabaseError::FsError(m) => {
                let p = String::from_str("File system error: ");
                proof {
                    reveal_strlit("File system error: ");
                }
                p.concat(m.as_str())
            },
            DatabaseError::InvalidQuery(m) => {
                let p = String::from_str("Invalid query: ");
                proof {
                    reveal_strlit("Invalid query: ");
                }
                p.concat(m.as_str())
            },
        }
    }

    /// The text of the error, as a sequence.
    pub open spec fn message_spec(&self) -> Seq<char> {
        match self {
            DatabaseError::SqliteError(m) => "SQLite error: "@ + m@,
            DatabaseError::FsError(m) => "File system error: "@ + m@,
            DatabaseError::InvalidQuery(m) => "Invalid query: "@ + m@,
        }
    }
}

/// A name a table may carry: one to sixty-four word characters, not
/// starting with a digit.
pub open spec fn valid_table_name(s: Seq<char>) -> bool {
    &&& 1 <= s.len() <= 64
    &&& forall|k: int| 0 <= k < s.len() ==> is_word_char(#[trigger] s[k])
    &&& !is_digit_char(s[0])
}

/// Check a table name before it is spliced into a statement: accepted
/// exactly when it is one to sixty-four word characters and does not
/// start with a digit; the error says which rule broke.
pub fn validate_table_name(table: &str) -> (r: Result<(), String>)
    ensures
        r is Ok <==> valid_table_name(table@),
{
    let chars = str_chars(table);
    let n: usize = chars.len();
    if n == 0 || n > 64 {
        proof {
            reveal_strlit("Table name must be between 1-64 characters");
        }
        return Err(String::from_str("Table name must be between 1-64 characters"));
    }
    let mut i: usize = 0;
    while i < n
        invariant
            chars@ == table@,
            n == chars@.len(),
            1 <= n <= 64,
            i <= n,
            forall|k: int| 0 <= k < i ==> is_word_char(#[trigger] chars@[k]),
        decreases n - i,
    {
        if !crate::rules::is_word(chars[i]) {
            assert(!is_word_char(table@[i as int]));
            let mut msg = String::from_str(
                "Table name can only contain alphanumeric characters and underscores for ",
            );
            proof {
                reveal_strlit(
                    "Table name can only contain alphanumeric characters and underscores for ",
                );
            }
            msg.append(table);
            return Err(msg);
        }
        i = i + 1;
    }
    let c0 = chars[0];
    if '0' <= c0 && c0 <= '9' {
        proof {
            reveal_strlit("Table name cannot start with a number");
        }
        return Err(String::from_str("Table name cannot start with a number"));
    }
    Ok(())
}

} // verus!
