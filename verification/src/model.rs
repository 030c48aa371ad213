//! Model registry data model and the integrity-check decision.

use vstd::prelude::*;

verus! {

/// Errors of the model registry and downloads.
#[derive(Debug)]
pub enum ModelError {
    DatabaseError(String),
    HttpError(String),
    FsError(String),
    Cancelled(String),
    NotFound(String),
}

impl ModelError {
    /// The text of the error, with its kind as a prefix.
    pub fn message(&self) -> (r: String)
        ensures
            r@ == self.message_spec(),
    {
        match self {
            ModelError::DatabaseError(m) => {
                let p = String::from_str("Database error: ");
                proof {
                    reveal_strlit("Database error: ");
                }
                p.concat(m.as_str())
            },
            ModelError::HttpError(m) => {
                let p = String::from_str("HTTP error: ");
                proof {
                    reveal_strlit("HTTP error: ");
                }
                p.concat(m.as_str())
            },
            ModelError::FsError(m) => {
                let p = String::from_str("File system error: ");
                proof {
                    reveal_strlit("File system error: ");
                }
                p.concat(m.as_str())
            },
            ModelError::Cancelled(m) => {
                let p = String::from_str("Download cancelled: ");
                proof {
                    reveal_strlit("Download cancelled: ");
                }
                p.concat(m.as_str())
            },
            ModelError::NotFound(m) => {
                let p = String::from_str("Not found: ");
                proof {
                    reveal_strlit("Not found: ");
                }
                p.concat(m.as_str())
            },
        }
    }

    /// The text of the error, as a sequence.
    pub open spec fn message_spec(&self) -> Seq<char> {
        match self {
            ModelError::DatabaseError(m) => "Database error: "@ + m@,
            ModelError::HttpError(m) => "HTTP error: "@ + m@,
            ModelError::FsError(m) => "File system error: "@ + m@,
            ModelError::Cancelled(m) => "Download cancelled: "@ + m@,
            ModelError::NotFound(m) => "Not found: "@ + m@,
        }
    }
}

/// A registered model artifact.
#[derive(Debug)]
pub struct ModelInfo {
    pub id: Option<i64>,
    pub filename: String,
    pub quantization: Option<String>,
    pub label: String,
    pub size: u64,
    pub model_type: String,
    pub created_at: String,
    pub updated_at: String,
}

/// Does the list of files on disk hold `name`?
pub open spec fn file_present(existing: Seq<String>, name: Seq<char>) -> bool {
    exists|i: int| 0 <= i < existing.len() && (#[trigger] existing[i])@ == name
}

/// Registry ids whose artifact is gone from disk, in registry order:
/// these rows are deleted by the integrity check.
pub open spec fn missing_ids(models: Seq<ModelInfo>, existing: Seq<String>) -> Seq<i64>
    decreases models.len(),
{
    if models.len() == 0 {
        Seq::empty()
    } else {
        missing_ids(models.drop_last(), existing) + (match models.last().id {
            Some(id) => if !file_present(existing, models.last().filename@) {
                seq![id]
            } else {
                Seq::empty()
            },
            None => Seq::empty(),
        })
    }
}

/// The registry rows whose files are gone: the decision of the model
/// integrity check, from registry rows and the files actually on disk.
pub fn missing_model_ids(models: &Vec<ModelInfo>, existing: &Vec<String>) -> (r: Vec<i64>)
    ensures
        r@ == missing_ids(models@, existing@),
{
    let n: usize = models.len();
    let mut out: Vec<i64> = Vec::new();
    let mut i: usize = 0;
    proof {
        assert(models@.take(0) =~= Seq::<ModelInfo>::empty());
    }
    while i < n
        invariant
            n == models@.len(),
            i <= n,
            out@ == missing_ids(models@.take(i as int), existing@),
        decreases n - i,
    {
        proof {
            assert(models@.take(i + 1).drop_last() =~= models@.take(i as int));
            assert(models@.take(i + 1).last() == models@[i as int]);
        }
        match models[i].id {
            Some(id) => {
                let mut found: bool = false;
                let en: usize = existing.len();
                let mut j: usize = 0;
                while j < en && !found
                    invariant
                        en == existing@.len(),
                        j <= en,
                        !found ==> forall|q: int|
                            0 <= q < j ==> (#[trigger] existing@[q])@ != models@[i as int].filename@,
                        found ==> file_present(existing@, models@[i as int].filename@),
                        i < n,
                        n == models@.len(),
                    decreases en - j + (if found { 0int } else { 1int }),
                {
                    if existing[j].eq(&models[i].filename) {
                        found = true;
                    } else {
                        j = j + 1;
                    }
                }
                if !found {
                    out.push(id);
                    proof {
                        assert(!file_present(existing@, models@[i as int].filename@));
                        assert(out@ =~= missing_ids(models@.take(i + 1), existing@));
                    }
                } else {
                    proof {
                        assert(out@ =~= missing_ids(models@.take(i + 1), existing@));
                    }
                }
            },
            None => {
                proof {
                    assert(out@ =~= missing_ids(models@.take(i + 1), existing@));
                }
            },
        }
        i = i + 1;
    }
    proof {
        assert(models@.take(n as int) =~= models@);
    }
    out
}

} // verus!
