//! Row-generation engine: the per-cell pipeline, the per-row loop, the
//! session loop with cooperative cancellation, the generation registry,
//! and the progress-sink contract.

use vstd::prelude::*;
use crate::cache::ModelCache;
use crate::cancel::CancelFlag;
use crate::chars::{str_chars, chars_to_string};
use crate::coerce::{coerce_bool, coerce_int, coerce_int_spec, coerce_float_text,
    coerce_float_text_spec};
use crate::dataset::{Column, Row, RowData};
use crate::jsonfix::{coerce_json, json5_ok, json5_norm, repair_json_spec};
use crate::numbers::{dec_rep_signed, dec_rep, i64_to_string};
use crate::sorter::{sort_columns_by_dependency, sortable, is_topo_order, col_eq, regex_pattern_ok};
use crate::text::{clean_text_artifacts, clean_text_spec};

verus! {

/// Errors of the generation engine.
#[derive(Debug)]
pub enum GenerationError {
    Cancelled,
    Model(String),
    CycleDetected,
    NotFound(String),
    Store(String),
    Parse(String),
}

impl GenerationError {
    /// The text of the error.
    pub fn message(&self) -> (r: String)
        ensures
            r@ == self.message_spec(),
    {
        match self {
            GenerationError::Cancelled => {
                proof {
                    reveal_strlit("Generation cancelled by user");
                }
                String::from_str("Generation cancelled by user")
            },
            GenerationError::Model(m) => {
                let p = String::from_str("Model error: ");
                proof {
                    reveal_strlit("Model error: ");
                }
                p.concat(m.as_str())
            },
            GenerationError::CycleDetected => {
                proof {
                    reveal_strlit("Circular dependency detected in column rules");
                }
                String::from_str("Circular dependency detected in column rules")
            },
            GenerationError::NotFound(m) => {
                let p = String::from_str("Not found: ");
                proof {
                    reveal_strlit("Not found: ");
                }
                p.concat(m.as_str())
            },
            GenerationError::Store(m) => {
                let p = String::from_str("Database error: ");
                proof {
                    reveal_strlit("Database error: ");
                }
                p.concat(m.as_str())
            },
            GenerationError::Parse(m) => {
                let p = String::from_str("Parse error: ");
                proof {
                    reveal_strlit("Parse error: ");
                }
                p.concat(m.as_str())
            },
        }
    }

    /// The text of the error, as a sequence.
    pub open spec fn message_spec(&self) -> Seq<char> {
        match self {
            GenerationError::Cancelled => "Generation cancelled by user"@,
            GenerationError::Model(m) => "Model error: "@ + m@,
            GenerationError::CycleDetected => "Circular dependency detected in column rules"@,
            GenerationError::NotFound(m) => "Not found: "@ + m@,
            GenerationError::Store(m) => "Database error: "@ + m@,
            GenerationError::Parse(m) => "Parse error: "@ + m@,
        }
    }
}

/// The terminal status of a finished session: completed on success,
/// cancelled when the user stopped it, failed otherwise.
pub fn terminal_status(r: &Result<(), GenerationError>) -> (s: String)
    ensures
        r is Ok ==> s@ == "completed"@,
        (r is Err && r->Err_0 is Cancelled) ==> s@ == "cancelled"@,
        (r is Err && !(r->Err_0 is Cancelled)) ==> s@ == "failed"@,
{
    match r {
        Ok(_) => {
            proof {
                reveal_strlit("completed");
            }
            String::from_str("completed")
        },
        Err(GenerationError::Cancelled) => {
            proof {
                reveal_strlit("cancelled");
            }
            String::from_str("cancelled")
        },
        Err(_) => {
            proof {
                reveal_strlit("failed");
            }
            String::from_str("failed")
        },
    }
}

/// A session identifier: the dataset's id and a millisecond timestamp,
/// under a fixed prefix.
pub fn make_generation_id(dataset_id: i64, millis: u64) -> (r: String)
    ensures
        r@ == "gen_"@ + dec_rep_signed(dataset_id as int) + "_"@ + dec_rep(millis as int),
{
    let mut s = String::from_str("gen_");
    proof {
        reveal_strlit("gen_");
        reveal_strlit("_");
    }
    let id = i64_to_string(dataset_id);
    s.append(id.as_str());
    s.append("_");
    let ms = chars_to_string(&crate::numbers::u64_dec(millis));
    s.append(ms.as_str());
    s
}

/// Progress payload surfaced to the host for each persisted row.
#[derive(Clone)]
pub struct RowGenerationProgress {
    pub dataset_id: i64,
    pub generation_id: String,
    pub last_row_generated: Row,
    pub total_rows_generated: i64,
    pub total_rows_to_generate: i64,
    pub status: String,
}

/// Status payload surfaced to the host when a session starts or ends.
#[derive(Clone)]
pub struct RowGenerationStatus {
    pub generation_id: String,
    pub status: String,
    pub message: Option<String>,
}

/// A batch in flight: its target and the rows drafted so far.
#[derive(Debug)]
pub struct GenerationProgress {
    pub total_rows_to_generate: i64,
    pub rows_generated: Vec<DraftRow>,
}

/// Callback payload for hosts that track remaining work per row.
#[derive(Debug)]
pub struct GenerationProgressCallback {
    pub id: Option<i64>,
    pub total_rows_to_generate: i64,
    pub remaining_rows_to_generate: i64,
    pub row: Row,
}

/// A generated row before the store assigns it an identity.
#[derive(Debug, Clone)]
pub struct DraftRow {
    pub data: Vec<RowData>,
}

/// One progress delivery: the row that was generated, how many rows
/// the session has completed, and its target.
pub ghost struct ProgressEvent {
    pub row: Seq<RowData>,
    pub completed: int,
    pub target: int,
}

/// Where finished rows go.  The host hands the engine a sink at session
/// start; the sink persists each row and surfaces progress.  Its ghost
/// event history is what the session contract counts.
pub trait ProgressSink {
    /// The deliveries accepted so far.
    spec fn events(&self) -> Seq<ProgressEvent>;

    /// Accept one finished row.  On success exactly one event is
    /// appended; on failure the history is unchanged and the session
    /// fails with a store error.
    fn emit(&mut self, row: Vec<RowData>, completed: i64, target: i64) -> (r: Result<(), String>)
        ensures
            r is Ok ==> final(self).events() == old(self).events().push(
                ProgressEvent { row: row@, completed: completed as int, target: target as int },
            ),
            r is Err ==> final(self).events() == old(self).events(),
    ;
}

/// A sink that simply records every delivery.
pub struct RecordingSink {
    pub entries: Vec<(Vec<RowData>, i64, i64)>,
}

impl RecordingSink {
    /// An empty recorder.
    pub fn new() -> (r: Self)
        ensures
            r.events() == Seq::<ProgressEvent>::empty(),
    {
        let r = RecordingSink { entries: Vec::new() };
        proof {
            assert(r.events() =~= Seq::<ProgressEvent>::empty());
        }
        r
    }

    /// Number of recorded deliveries.
    pub fn len(&self) -> (r: usize)
        ensures
            r as int == self.events().len(),
    {
        self.entries.len()
    }
}

impl ProgressSink for RecordingSink {
    open spec fn events(&self) -> Seq<ProgressEvent> {
        Seq::new(
            self.entries@.len() as nat,
            |i: int|
                ProgressEvent {
                    row: self.entries@[i].0@,
                    completed: self.entries@[i].1 as int,
                    target: self.entries@[i].2 as int,
                },
        )
    }

    fn emit(&mut self, row: Vec<RowData>, completed: i64, target: i64) -> (r: Result<(), String>) {
        let ghost pre = self.events();
        self.entries.push((row, completed, target));
        proof {
            assert(self.events() =~= pre.push(
                ProgressEvent { row: self.entries@.last().0@, completed: completed as int, target: target as int },
            ));
        }
        Ok(())
    }
}

/// The column type tags the engine understands.
pub open spec fn known_type(ct: Seq<char>) -> bool {
    ct == "TEXT"@ || ct == "INT"@ || ct == "FLOAT"@ || ct == "BOOL"@ || ct == "JSON"@
}

/// What a stored cell value can be, per column type: the response
/// coerced by the matching post-processor.
pub open spec fn cell_value_ok(c: Column, v: Seq<char>) -> bool {
    if c.column_type@ == "TEXT"@ {
        exists|resp: Seq<char>| v == clean_text_spec(resp)
    } else if c.column_type@ == "INT"@ {
        exists|resp: Seq<char>| v == dec_rep_signed(coerce_int_spec(resp) as int)
    } else if c.column_type@ == "FLOAT"@ {
        exists|resp: Seq<char>| v == coerce_float_text_spec(resp)
    } else if c.column_type@ == "BOOL"@ {
        v == "true"@ || v == "false"@
    } else {
        exists|resp: Seq<char>| json5_ok(repair_json_spec(resp)) && v == json5_norm(
            repair_json_spec(resp),
        )
    }
}

/// The generation service: the bounded model cache and the registry of
/// active sessions with their cancellation flags.
pub struct GenerationService<M> {
    pub model_cache: ModelCache<M>,
    pub active: Vec<(String, CancelFlag)>,
}

impl<M> GenerationService<M> {
    /// The registry holds one flag per session id.
    pub closed spec fn registry_wf(&self) -> bool {
        forall|a: int, b: int|
            0 <= a < b < self.active@.len() ==> self.active@[a].0@ != self.active@[b].0@
    }

    /// Is a session registered under this id?
    pub closed spec fn has_generation(&self, id: Seq<char>) -> bool {
        exists|i: int| 0 <= i < self.active@.len() && (#[trigger] self.active@[i]).0@ == id
    }

    /// A fresh service with an empty cache and no active sessions.
    pub fn new() -> (r: Self)
        ensures
            r.model_cache.wf(),
            r.model_cache.len_spec() == 0,
            r.registry_wf(),
            forall|id: Seq<char>| !r.has_generation(id),
    {
        GenerationService { model_cache: ModelCache::new(), active: Vec::new() }
    }

    /// Register a session's cancellation flag, replacing any flag
    /// already held under the same id.
    pub fn register_generation(&mut self, generation_id: &str, flag: CancelFlag)
        requires
            old(self).registry_wf(),
        ensures
            final(self).registry_wf(),
            final(self).has_generation(generation_id@),
            final(self).model_cache == old(self).model_cache,
    {
        let n: usize = self.active.len();
        let mut i: usize = 0;
        let mut found: bool = false;
        while i < n && !found
            invariant
                self == old(self),
                n == self.active@.len(),
                i <= n,
                !found ==> forall|q: int| 0 <= q < i ==> (#[trigger] self.active@[q]).0@
                    != generation_id@,
                found ==> i < n && self.active@[i as int].0@ == generation_id@,
            decreases n - i + (if found { 0int } else { 1int }),
        {
            if str_eq_vec(self.active[i].0.as_str(), generation_id) {
                found = true;
            } else {
                i = i + 1;
            }
        }
        if found {
            let ghost pre = self.active@;
            self.active.set(i, (String::from_str(generation_id), flag));
            proof {
                assert(self.active@[i as int].0@ == generation_id@);
                assert forall|a: int, b: int|
                    0 <= a < b < self.active@.len() implies self.active@[a].0@
                    != self.active@[b].0@ by {
                    if a != i && b != i {
                        assert(self.active@[a] == pre[a] && self.active@[b] == pre[b]);
                    } else if a == i as int {
                        assert(self.active@[b] == pre[b]);
                        assert(pre[b].0@ != pre[i as int].0@);
                    } else {
                        assert(self.active@[a] == pre[a]);
                        assert(pre[a].0@ != pre[i as int].0@);
                    }
                }
            }
        } else {
            let ghost pre = self.active@;
            self.active.push((String::from_str(generation_id), flag));
            proof {
                assert(self.active@[pre.len() as int].0@ == generation_id@);
                assert forall|a: int, b: int|
                    0 <= a < b < self.active@.len() implies self.active@[a].0@
                    != self.active@[b].0@ by {
                    if b < pre.len() {
                        assert(self.active@[a] == pre[a] && self.active@[b] == pre[b]);
                    } else {
                        assert(self.active@[a] == pre[a]);
                    }
                }
            }
        }
    }

    /// Drop a finished session from the registry.
    pub fn unregister_generation(&mut self, generation_id: &str)
        requires
            old(self).registry_wf(),
        ensures
            final(self).registry_wf(),
            !final(self).has_generation(generation_id@),
            final(self).model_cache == old(self).model_cache,
    {
        let n: usize = self.active.len();
        let mut i: usize = 0;
        while i < n
            invariant
                self == old(self),
                old(self).registry_wf(),
                n == self.active@.len(),
                i <= n,
                forall|q: int| 0 <= q < i ==> (#[trigger] self.active@[q]).0@ != generation_id@,
            decreases n - i,
        {
            if str_eq_vec(self.active[i].0.as_str(), generation_id) {
                let ghost pre = self.active@;
                self.active.remove(i);
                proof {
                    assert forall|q: int|
                        0 <= q < self.active@.len() implies (#[trigger] self.active@[q]).0@
                        != generation_id@ by {
                        if q < i {
                            assert(self.active@[q] == pre[q]);
                            assert(pre[q].0@ != generation_id@);
                        } else {
                            assert(self.active@[q] == pre[q + 1]);
                            assert(pre[q + 1].0@ != pre[i as int].0@);
                        }
                    }
                    assert forall|a: int, b: int|
                        0 <= a < b < self.active@.len() implies self.active@[a].0@
                        != self.active@[b].0@ by {
                        let pa: int = if a < i { a } else { a + 1 };
                        let pb: int = if b < i { b } else { b + 1 };
                        assert(self.active@[a] == pre[pa] && self.active@[b] == pre[pb]);
                    }
                }
                return ;
            }
            i = i + 1;
        }
    }

    /// Request cancellation of an active session: its flag is set and
    /// the worker halts at its next poll.  Fails exactly when no
    /// session is registered under the id.
    pub fn cancel_generation(&self, generation_id: &str) -> (r: Result<(), GenerationError>)
        requires
            self.registry_wf(),
        ensures
            r is Ok <==> self.has_generation(generation_id@),
            r is Err ==> r->Err_0 is NotFound,
            (match r {
                Err(GenerationError::NotFound(m)) => m@ == "Generation "@ + generation_id@
                    + " not found or already completed"@,
                _ => true,
            }),
    {
        let n: usize = self.active.len();
        let mut i: usize = 0;
        while i < n
            invariant
                self.registry_wf(),
                n == self.active@.len(),
                i <= n,
                forall|q: int| 0 <= q < i ==> (#[trigger] self.active@[q]).0@ != generation_id@,
            decreases n - i,
        {
            if str_eq_vec(self.active[i].0.as_str(), generation_id) {
                self.active[i].1.cancel();
                return Ok(());
            }
            i = i + 1;
        }
        let mut msg = String::from_str("Generation ");
        proof {
            reveal_strlit("Generation ");
            reveal_strlit(" not found or already completed");
        }
        msg.append(generation_id);
        msg.append(" not found or already completed");
        Err(GenerationError::NotFound(msg))
    }

    /// Drop every cached model.
    pub fn clear_model_cache(&mut self)
        ensures
            final(self).model_cache.wf(),
            final(self).model_cache.len_spec() == 0,
            forall|k: Seq<char>| !final(self).model_cache.has_key(k),
            final(self).active == old(self).active,
    {
        self.model_cache.clear();
    }

    /// Order the columns by their references; see the sorter.  The
    /// output is the queue run seeded in input order, so it is fixed
    /// uniquely by the column set.
    pub fn sort_columns_by_dependency(&self, columns: &Vec<Column>, pattern: &str) -> (r: Result<
        Vec<Column>,
        String,
    >)
        ensures
            (match r {
                Ok(sorted) => {
                    &&& is_topo_order(columns@, crate::sorter::kahn_order_of(columns@))
                    &&& sorted@.len() == crate::sorter::kahn_order_of(columns@).len()
                    &&& forall|a: int|
                        0 <= a < sorted@.len() ==> col_eq(
                            #[trigger] sorted@[a],
                            columns@[crate::sorter::kahn_order_of(columns@)[a]],
                        )
                },
                Err(_) => true,
            }),
            r is Ok <==> (columns@.len() == 0 || (regex_pattern_ok(pattern@) && sortable(
                columns@,
            ))),
            (r is Err && regex_pattern_ok(pattern@)) ==> r->Err_0@
                == "Circular dependency detected in column rules"@,
            (r is Err && !regex_pattern_ok(pattern@)) ==> exists|rest: Seq<char>|
                r->Err_0@ == "Failed to compile regex pattern '"@ + pattern@ + "': "@ + rest,
            pattern@ == "@(\\w+)"@ ==> regex_pattern_ok(pattern@) || columns@.len() == 0,
    {
        sort_columns_by_dependency(columns, pattern)
    }

    /// Assemble the prompt for one cell: the chat template filled with
    /// the column's name, its rule after the three substitution passes,
    /// and the format hint.  Assembly itself cannot fail.
    pub fn prepare_prompt(&self, columns: &Vec<Column>, for_column: &Column, row_data: &Vec<
        RowData,
    >) -> (r: Result<String, GenerationError>)
        ensures
            r is Ok,
            exists|d1: Seq<i64>, d2: Seq<i64>|
                {
                    &&& #[trigger] crate::prompt::range_draws_ok(for_column.rules@, d1, 0)
                    &&& #[trigger] crate::prompt::single_draws_ok(
                        crate::prompt::subst_range_from(for_column.rules@, d1, 0),
                        d2,
                        0,
                    )
                    &&& r->Ok_0@ == crate::prompt::prompt_text(
                        for_column.name@,
                        crate::prompt::subst_refs_from(
                            crate::prompt::subst_single_from(
                                crate::prompt::subst_range_from(for_column.rules@, d1, 0),
                                d2,
                                0,
                            ),
                            crate::prompt::name_value_pairs(columns@, row_data@),
                            0,
                        ),
                        crate::prompt::fmt_hint(
                            for_column.column_type@,
                            crate::prompt::detail_text(for_column.column_type_details),
                        ),
                    )
                },
    {
        Ok(crate::prompt::prepare_prompt(columns, for_column, row_data))
    }

    /// Generate one row: for each column in execution order, check the
    /// cancellation flag, assemble the prompt, obtain the model's raw
    /// response through `infer`, and coerce it to the column's type.
    /// The row is returned whole — one cell per column, keyed by the
    /// column's id — or not at all.  An empty column list yields an
    /// empty row without error.
    pub fn generate_row<F: Fn(String) -> Result<String, String>>(
        &self,
        columns: &Vec<Column>,
        cancel: &CancelFlag,
        infer: &F,
    ) -> (r: Result<Vec<RowData>, GenerationError>)
        requires
            forall|i: int| 0 <= i < columns@.len() ==> (#[trigger] columns@[i]).id is Some,
            forall|i: int|
                0 <= i < columns@.len() ==> known_type((#[trigger] columns@[i]).column_type@),
            forall|p: String| #[trigger] infer.requires((p,)),
        ensures
            match r {
                Ok(row) => {
                    &&& row@.len() == columns@.len()
                    &&& forall|i: int|
                        0 <= i < row@.len() ==> (#[trigger] row@[i]).column_id@ == dec_rep_signed(
                            columns@[i].id->0 as int,
                        )
                    &&& forall|i: int|
                        0 <= i < row@.len() ==> cell_value_ok(
                            columns@[i],
                            (#[trigger] row@[i]).value@,
                        )
                },
                Err(e) => e is Cancelled || e is Model || e is Parse,
            },
            columns@.len() == 0 ==> r is Ok,
    {
        let n: usize = columns.len();
        if n == 0 {
            return Ok(Vec::new());
        }
        let mut data: Vec<RowData> = Vec::new();
        let mut i: usize = 0;
        while i < n
            invariant
                n == columns@.len(),
                i <= n,
                forall|k: int| 0 <= k < columns@.len() ==> (#[trigger] columns@[k]).id is Some,
                forall|k: int|
                    0 <= k < columns@.len() ==> known_type((#[trigger] columns@[k]).column_type@),
                forall|p: String| #[trigger] infer.requires((p,)),
                data@.len() == i as int,
                forall|k: int|
                    0 <= k < i ==> (#[trigger] data@[k]).column_id@ == dec_rep_signed(
                        columns@[k].id->0 as int,
                    ),
                forall|k: int| 0 <= k < i ==> cell_value_ok(columns@[k], (#[trigger] data@[k]).value@),
            decreases n - i,
        {
            if cancel.is_cancelled() {
                return Err(GenerationError::Cancelled);
            }
            let prompt = crate::prompt::prepare_prompt(columns, &columns[i], &data);
            let raw: String = match infer(prompt) {
                Ok(s) => s,
                Err(m) => {
                    return Err(GenerationError::Model(m));
                },
            };
            let ct = str_chars(columns[i].column_type.as_str());
            let value: String = if crate::sorter::chars_eq(&ct, &str_chars("TEXT")) {
                let v = clean_text_artifacts(raw.as_str());
                proof {
                    assert(cell_value_ok(columns@[i as int], v@));
                }
                v
            } else if crate::sorter::chars_eq(&ct, &str_chars("INT")) {
                let v = i64_to_string(coerce_int(raw.as_str()));
                proof {
                    assert(cell_value_ok(columns@[i as int], v@));
                }
                v
            } else if crate::sorter::chars_eq(&ct, &str_chars("FLOAT")) {
                let v = coerce_float_text(raw.as_str());
                proof {
                    assert(cell_value_ok(columns@[i as int], v@));
                }
                v
            } else if crate::sorter::chars_eq(&ct, &str_chars("BOOL")) {
                let v: String = if coerce_bool(raw.as_str()) {
                    proof {
                        reveal_strlit("true");
                    }
                    String::from_str("true")
                } else {
                    proof {
                        reveal_strlit("false");
                    }
                    String::from_str("false")
                };
                proof {
                    assert(cell_value_ok(columns@[i as int], v@));
                }
                v
            } else {
                proof {
                    assert(columns@[i as int].column_type@ == "JSON"@);
                }
                match coerce_json(raw.as_str()) {
                    Ok(s) => {
                        proof {
                            assert(cell_value_ok(columns@[i as int], s@));
                        }
                        s
                    },
                    Err(m) => {
                        return Err(GenerationError::Parse(m));
                    },
                }
            };
            let id: i64 = match columns[i].id {
                Some(v) => v,
                None => 0,
            };
            data.push(RowData { column_id: i64_to_string(id), value });
            i = i + 1;
        }
        Ok(data)
    }

    /// Run one generation session: order the columns, then generate and
    /// deliver rows until the target is reached, the flag is observed,
    /// or an error stops the batch.  Exactly one event reaches the sink
    /// per finished row, carrying the running count from one up to the
    /// target; a zero or negative target completes immediately with no
    /// events; a cyclic column set fails before any row.
    pub fn generate<S: ProgressSink, F: Fn(String) -> Result<String, String>>(
        &self,
        columns: &Vec<Column>,
        total_rows_to_generate: i64,
        cancel: &CancelFlag,
        infer: &F,
        sink: &mut S,
    ) -> (r: Result<(), GenerationError>)
        requires
            forall|i: int| 0 <= i < columns@.len() ==> (#[trigger] columns@[i]).id is Some,
            forall|i: int|
                0 <= i < columns@.len() ==> known_type((#[trigger] columns@[i]).column_type@),
            forall|p: String| #[trigger] infer.requires((p,)),
        ensures
            ({
                let ev0 = old(sink).events();
                let ev = final(sink).events();
                let goal: int = if total_rows_to_generate > 0 {
                    total_rows_to_generate as int
                } else {
                    0
                };
                &&& ev.len() >= ev0.len()
                &&& forall|k: int| 0 <= k < ev0.len() ==> ev[k] == ev0[k]
                &&& forall|j: int|
                    ev0.len() <= j < ev.len() ==> (#[trigger] ev[j]).completed == j - ev0.len() + 1
                        && ev[j].target == total_rows_to_generate as int && ev[j].row.len()
                        == columns@.len()
                &&& ev.len() - ev0.len() <= goal
                &&& r is Ok ==> ev.len() - ev0.len() == goal
                &&& (total_rows_to_generate <= 0 && (columns@.len() == 0 || sortable(columns@)))
                    ==> r is Ok
                &&& (!sortable(columns@) && columns@.len() > 0) ==> (r is Err
                    && r->Err_0 is CycleDetected && ev == ev0)
                &&& (r is Err && r->Err_0 is CycleDetected) ==> (columns@.len() > 0 && !sortable(
                    columns@,
                ))
                &&& r is Err ==> (r->Err_0 is Cancelled || r->Err_0 is Model || r->Err_0 is Parse
                    || r->Err_0 is Store || r->Err_0 is CycleDetected)
            }),
    {
        let ghost ev0 = sink.events();
        let sorted = match self.sort_columns_by_dependency(columns, "@(\\w+)") {
            Ok(s) => s,
            Err(_) => {
                return Err(GenerationError::CycleDetected);
            },
        };
        let ghost ord = crate::sorter::kahn_order_of(columns@);
        proof {
            assert(is_topo_order(columns@, ord));
            assert(sorted@.len() == columns@.len());
            assert forall|i: int| 0 <= i < sorted@.len() implies (#[trigger] sorted@[i]).id is Some
                && known_type(sorted@[i].column_type@) by {
                assert(col_eq(sorted@[i], columns@[ord[i]]));
                assert(0 <= ord[i] < columns@.len());
            }
        }
        let mut completed: i64 = 0;
        while completed < total_rows_to_generate
            invariant
                forall|i: int| 0 <= i < sorted@.len() ==> (#[trigger] sorted@[i]).id is Some,
                forall|i: int|
                    0 <= i < sorted@.len() ==> known_type((#[trigger] sorted@[i]).column_type@),
                forall|p: String| #[trigger] infer.requires((p,)),
                sorted@.len() == columns@.len(),
                columns@.len() == 0 || sortable(columns@),
                0 <= completed,
                completed <= (if total_rows_to_generate > 0 {
                    total_rows_to_generate as int
                } else {
                    0int
                }),
                ev0 == old(sink).events(),
                sink.events().len() == ev0.len() + completed,
                forall|k: int| 0 <= k < ev0.len() ==> #[trigger] sink.events()[k] == ev0[k],
                forall|j: int|
                    ev0.len() <= j < sink.events().len() ==> (#[trigger] sink.events()[j]).completed
                        == j - ev0.len() + 1 && sink.events()[j].target
                        == total_rows_to_generate as int && sink.events()[j].row.len()
                        == columns@.len(),
            decreases total_rows_to_generate - completed,
        {
            if cancel.is_cancelled() {
                return Err(GenerationError::Cancelled);
            }
            let row = match self.generate_row(&sorted, cancel, infer) {
                Ok(row) => row,
                Err(e) => {
                    return Err(e);
                },
            };
            completed = completed + 1;
            let ghost pre_ev = sink.events();
            let ghost row_view = row@;
            match sink.emit(row, completed, total_rows_to_generate) {
                Ok(u) => {
                    proof {
                        assert(sink.events() == pre_ev.push(
                            ProgressEvent {
                                row: row_view,
                                completed: completed as int,
                                target: total_rows_to_generate as int,
                            },
                        ));
                    }
                },
                Err(m) => {
                    return Err(GenerationError::Store(m));
                },
            }
        }
        Ok(())
    }
}

/// Compare two string slices.
fn str_eq_vec(a: &str, b: &str) -> (r: bool)
    ensures
        r == (a@ == b@),
{
    let av = str_chars(a);
    let bv = str_chars(b);
    crate::sorter::chars_eq(&av, &bv)
}

} // verus!
