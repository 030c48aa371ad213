//! Application-level error kind, shared by the command surface.

use vstd::prelude::*;

verus! {

/// Errors surfaced to the host application.
#[derive(Debug)]
pub enum AppError {
    Io(String),
    Tauri(String),
    Validation(String),
    NotFound(String),
    Internal(String),
    Database(String),
}

impl AppError {
    /// The text of the error, with its kind as a prefix.
    pub fn message(&self) -> (r: String)
        ensures
            r@ == self.message_spec(),
    {
        match self {
            AppError::Io(m) => {
                let p = String::from_str("IO error: ");
                proof {
                    reveal_strlit("IO error: ");
                }
                p.concat(m.as_str())
            },
            AppError::Tauri(m) => {
                let p = String::from_str("Tauri error: ");
                proof {
                    reveal_strlit("Tauri error: ");
                }
                p.concat(m.as_str())
            },
            AppError::Validation(m) => {
                let p = String::from_str("Validation error: ");
                proof {
                    reveal_strlit("Validation error: ");
                }
                p.concat(m.as_str())
            },
            AppError::NotFound(m) => {
                let p = String::from_str("Not found: ");
                proof {
                    reveal_strlit("Not found: ");
                }
                p.concat(m.as_str())
            },
            AppError::Internal(m) => {
                let p = String::from_str("Internal error: ");
                proof {
                    reveal_strlit("Internal error: ");
                }
                p.concat(m.as_str())
            },
            AppError::Database(m) => {
                let p = String::from_str("Database error: ");
                proof {
                    reveal_strlit("Database error: ");
                }
                p.concat(m.as_str())
            },
        }
    }

    /// The text of the error, as a sequence.
    pub open spec fn message_spec(&self) -> Seq<char> {
        match self {
            AppError::Io(m) => "IO error: "@ + m@,
            AppError::Tauri(m) => "Tauri error: "@ + m@,
            AppError::Validation(m) => "Validation error: "@ + m@,
            AppError::NotFound(m) => "Not found: "@ + m@,
            AppError::Internal(m) => "Internal error: "@ + m@,
            AppError::Database(m) => "Database error: "@ + m@,
        }
    }
}

} // verus!
