//! Session engine behaviour: rows, progress events, cancellation, the
//! model cache, the registry, and the decode decisions.

use datagen::cache::ModelCache;
use datagen::cancel::CancelFlag;
use datagen::dataset::Column;
use datagen::decode::{decode_step, top_k_select, Candidate, DecodeState, InferenceConfig};
use datagen::generation::{
    make_generation_id, terminal_status, GenerationError, GenerationService, RecordingSink,
};

fn col(id: i64, name: &str, ctype: &str, rules: &str, position: i64) -> Column {
    Column {
        id: Some(id),
        table_name: "test_table".to_string(),
        dataset_id: 1,
        name: name.to_string(),
        column_type: ctype.to_string(),
        column_type_details: None,
        rules: rules.to_string(),
        position,
    }
}

fn fixed(reply: &'static str) -> impl Fn(String) -> Result<String, String> {
    move |_p: String| Ok(reply.to_string())
}

#[test]
fn test_new_generation_service() {
    let service: GenerationService<u64> = GenerationService::new();
    assert_eq!(service.model_cache.len(), 0);
}

#[test]
fn test_generation_service_has_model_cache() {
    let generation_service: GenerationService<u64> = GenerationService::new();
    assert_eq!(generation_service.model_cache.len(), 0, "Model cache should start empty");
}

#[test]
fn test_generate_row_orders_cells_by_column() {
    let service: GenerationService<u64> = GenerationService::new();
    let columns = vec![col(7, "a", "INT", "a number", 1), col(9, "b", "TEXT", "a word", 2)];
    let flag = CancelFlag::new();
    let infer = fixed("5");
    let row = service.generate_row(&columns, &flag, &infer).expect("row generates");
    assert_eq!(row.len(), 2);
    assert_eq!(row[0].column_id, "7");
    assert_eq!(row[0].value, "5");
    assert_eq!(row[1].column_id, "9");
    assert_eq!(row[1].value, "5");
}

#[test]
fn test_generate_row_empty_columns_is_empty_row() {
    let service: GenerationService<u64> = GenerationService::new();
    let columns: Vec<Column> = vec![];
    let flag = CancelFlag::new();
    let infer = fixed("anything");
    let row = service.generate_row(&columns, &flag, &infer).expect("empty input cannot fail");
    assert!(row.is_empty());
}

#[test]
fn test_generate_row_coerces_each_type() {
    let service: GenerationService<u64> = GenerationService::new();
    let columns = vec![
        col(1, "t", "TEXT", "text", 1),
        col(2, "i", "INT", "int", 2),
        col(3, "f", "FLOAT", "float", 3),
        col(4, "b", "BOOL", "bool", 4),
    ];
    let flag = CancelFlag::new();
    let infer = fixed("  \"3.6 words\"  ");
    let row = service.generate_row(&columns, &flag, &infer).expect("row generates");
    assert_eq!(row[0].value, "3.6 words");
    assert_eq!(row[1].value, "4");
    assert_eq!(row[2].value, "3.6");
    assert_eq!(row[3].value, "false");
}

#[test]
fn test_session_emits_one_event_per_row() {
    let service: GenerationService<u64> = GenerationService::new();
    let columns = vec![col(1, "a", "TEXT", "a word", 1)];
    let flag = CancelFlag::new();
    let infer = fixed("hello");
    let mut sink = RecordingSink::new();
    let r = service.generate(&columns, 3, &flag, &infer, &mut sink);
    assert!(r.is_ok());
    assert_eq!(sink.len(), 3);
    let completed: Vec<i64> = sink.entries.iter().map(|e| e.1).collect();
    assert_eq!(completed, vec![1, 2, 3]);
    for entry in &sink.entries {
        assert_eq!(entry.0.len(), 1);
        assert_eq!(entry.2, 3);
    }
    assert_eq!(terminal_status(&r), "completed");
}

#[test]
fn test_session_zero_target_completes_immediately() {
    let service: GenerationService<u64> = GenerationService::new();
    let columns = vec![col(1, "a", "TEXT", "a word", 1)];
    let flag = CancelFlag::new();
    let infer = fixed("hello");
    let mut sink = RecordingSink::new();
    let r = service.generate(&columns, 0, &flag, &infer, &mut sink);
    assert!(r.is_ok());
    assert_eq!(sink.len(), 0);
}

#[test]
fn test_session_cancel_before_first_row() {
    let service: GenerationService<u64> = GenerationService::new();
    let columns = vec![col(1, "a", "TEXT", "a word", 1)];
    let flag = CancelFlag::new();
    flag.cancel();
    let infer = fixed("hello");
    let mut sink = RecordingSink::new();
    let r = service.generate(&columns, 5, &flag, &infer, &mut sink);
    assert!(matches!(r, Err(GenerationError::Cancelled)));
    assert_eq!(sink.len(), 0, "zero rows persisted");
    assert_eq!(terminal_status(&r), "cancelled");
}

#[test]
fn test_session_cancel_mid_batch() {
    let service: GenerationService<u64> = GenerationService::new();
    let columns = vec![col(1, "a", "TEXT", "a word", 1)];
    let flag = CancelFlag::new();
    let observer = flag.clone();
    let calls = std::cell::Cell::new(0u32);
    let infer = move |_p: String| -> Result<String, String> {
        let c = calls.get() + 1;
        calls.set(c);
        if c == 3 {
            observer.cancel();
        }
        Ok("x".to_string())
    };
    let mut sink = RecordingSink::new();
    let r = service.generate(&columns, 10, &flag, &infer, &mut sink);
    assert!(matches!(r, Err(GenerationError::Cancelled)));
    let n = sink.len();
    assert!(n == 3 || n == 4, "rows persisted after a mid-batch cancel, got {}", n);
    assert_eq!(terminal_status(&r), "cancelled");
}

#[test]
fn test_session_cycle_fails_before_any_row() {
    let service: GenerationService<u64> = GenerationService::new();
    let columns = vec![col(1, "a", "TEXT", "see @b", 1), col(2, "b", "TEXT", "see @a", 2)];
    let flag = CancelFlag::new();
    let infer = fixed("hello");
    let mut sink = RecordingSink::new();
    let r = service.generate(&columns, 2, &flag, &infer, &mut sink);
    assert!(matches!(r, Err(GenerationError::CycleDetected)));
    assert_eq!(sink.len(), 0);
    assert_eq!(terminal_status(&r), "failed");
}

#[test]
fn test_session_model_error_propagates() {
    let service: GenerationService<u64> = GenerationService::new();
    let columns = vec![col(1, "a", "TEXT", "a word", 1)];
    let flag = CancelFlag::new();
    let infer = |_p: String| -> Result<String, String> { Err("decode failed".to_string()) };
    let mut sink = RecordingSink::new();
    let r = service.generate(&columns, 2, &flag, &infer, &mut sink);
    assert!(matches!(r, Err(GenerationError::Model(_))));
    assert_eq!(sink.len(), 0);
    assert_eq!(terminal_status(&r), "failed");
}

#[test]
fn test_model_cache_never_exceeds_capacity() {
    let mut cache: ModelCache<u64> = ModelCache::new();
    cache.insert_evicting("a".to_string(), 1);
    assert_eq!(cache.len(), 1);
    cache.insert_evicting("b".to_string(), 2);
    assert_eq!(cache.len(), 2);
    cache.insert_evicting("c".to_string(), 3);
    assert_eq!(cache.len(), 2, "capacity is two");
    assert!(cache.lookup(&"c".to_string()).is_some());
    assert_eq!(*cache.lookup(&"c".to_string()).unwrap(), 3);
    assert!(cache.lookup(&"a".to_string()).is_none(), "the oldest entry was evicted");
    assert_eq!(*cache.lookup(&"b".to_string()).unwrap(), 2, "the other entry is retained");
}

#[test]
fn test_model_cache_hit_returns_stored_handle() {
    let mut cache: ModelCache<u64> = ModelCache::new();
    cache.insert_evicting("p".to_string(), 77);
    assert_eq!(*cache.lookup(&"p".to_string()).unwrap(), 77);
    cache.clear();
    assert_eq!(cache.len(), 0);
}

#[test]
fn test_cancel_generation_requires_registration() {
    let mut service: GenerationService<u64> = GenerationService::new();
    let r = service.cancel_generation("gen_1_1");
    match &r {
        Err(GenerationError::NotFound(m)) => {
            assert_eq!(m, "Generation gen_1_1 not found or already completed");
        }
        _ => panic!("expected a not-found error"),
    }
    let flag = CancelFlag::new();
    service.register_generation("gen_1_1", flag.clone());
    assert!(service.cancel_generation("gen_1_1").is_ok());
    assert!(flag.is_cancelled(), "cancelling sets the session's flag");
    service.unregister_generation("gen_1_1");
    assert!(service.cancel_generation("gen_1_1").is_err());
}

#[test]
fn test_generation_id_format() {
    assert_eq!(make_generation_id(5, 123), "gen_5_123");
    assert_eq!(make_generation_id(-2, 0), "gen_-2_0");
}

#[test]
fn test_error_messages() {
    assert_eq!(GenerationError::Cancelled.message(), "Generation cancelled by user");
    assert_eq!(GenerationError::Model("x".to_string()).message(), "Model error: x");
    assert_eq!(
        GenerationError::CycleDetected.message(),
        "Circular dependency detected in column rules"
    );
    assert_eq!(GenerationError::Store("w".to_string()).message(), "Database error: w");
    assert_eq!(GenerationError::Parse("p".to_string()).message(), "Parse error: p");
}

#[test]
fn test_top_k_keeps_the_highest_scores() {
    let cands = vec![
        Candidate { token: 1, score: 10 },
        Candidate { token: 2, score: 50 },
        Candidate { token: 3, score: 30 },
        Candidate { token: 4, score: 40 },
    ];
    let sel = top_k_select(&cands, 2);
    assert_eq!(sel.len(), 2);
    assert_eq!(sel[0], Candidate { token: 2, score: 50 });
    assert_eq!(sel[1], Candidate { token: 4, score: 40 });
}

#[test]
fn test_top_k_nonpositive_sorts_everything() {
    let cands = vec![
        Candidate { token: 1, score: 10 },
        Candidate { token: 2, score: 50 },
        Candidate { token: 3, score: 30 },
    ];
    let sel = top_k_select(&cands, 0);
    assert_eq!(sel.len(), 3);
    assert_eq!(sel[0].score, 50);
    assert_eq!(sel[1].score, 30);
    assert_eq!(sel[2].score, 10);
}

#[test]
fn test_decode_stops_at_token_budget() {
    let mut st = DecodeState::new();
    let mut steps: u32 = 0;
    loop {
        let stop = decode_step(&mut st, steps as i64, "ab", 5);
        steps += 1;
        if stop {
            break;
        }
        assert!(steps < 100);
    }
    assert_eq!(steps, 5);
    // the budget check comes before the fifth token's text is appended
    assert_eq!(st.response.len(), 8);
}

#[test]
fn test_decode_stops_on_fence() {
    let mut st = DecodeState::new();
    assert!(!decode_step(&mut st, 1, "a", 256));
    assert!(!decode_step(&mut st, 2, "b", 256));
    assert!(!decode_step(&mut st, 3, "c", 256));
    assert!(decode_step(&mut st, 4, "```", 256), "a fence after three tokens stops the decode");
}

#[test]
fn test_decode_stops_on_sentence_end_after_ten_tokens() {
    let mut st = DecodeState::new();
    for t in 0..11 {
        assert!(!decode_step(&mut st, t, "a", 256));
    }
    assert!(decode_step(&mut st, 11, ".", 256));
}

#[test]
fn test_decode_stops_on_repetition() {
    let mut st = DecodeState::new();
    let mut steps: u32 = 0;
    loop {
        let stop = decode_step(&mut st, 7, "", 1000);
        steps += 1;
        if stop {
            break;
        }
        assert!(steps < 100);
    }
    // ten tokens fill the window; the counter trips on the fourth full repeat
    assert_eq!(steps, 14);
    assert_eq!(st.repetition_count, 4);
}

#[test]
fn test_decode_stops_on_trailing_newline() {
    // a line break anywhere in the accumulated response stops the decode
    let mut st = DecodeState::new();
    assert!(!decode_step(&mut st, 1, "a", 256));
    assert!(!decode_step(&mut st, 2, "b", 256));
    assert!(!decode_step(&mut st, 3, "c", 256));
    assert!(decode_step(&mut st, 4, "\n", 256));
}

#[test]
fn test_decode_long_response_stops_before_four_tokens() {
    // the length cap is not gated behind the token-count thresholds
    let mut st = DecodeState::new();
    let piece = "aaaaaaaaaaaaaaaaaaaaaaaaaaaaaaaaaaaaaaaaaaaaaaaaaaaaaaaaaaaaaaaaaaaaaaaaaaaaaaaaaaaaaaaaaaaaaaaaaaa";
    assert!(!decode_step(&mut st, 1, piece, 256));
    assert!(!decode_step(&mut st, 2, piece, 256));
    assert!(decode_step(&mut st, 3, piece, 256));
    assert!(st.response.len() > 200);
}

#[test]
fn test_decode_stops_on_long_response() {
    let mut st = DecodeState::new();
    let mut steps: u32 = 0;
    loop {
        let stop = decode_step(&mut st, steps as i64, "aaaaaaaaaa", 1000);
        steps += 1;
        if stop {
            break;
        }
        assert!(steps < 100);
    }
    assert!(st.response.len() > 200);
}

#[test]
fn test_inference_defaults() {
    let c = InferenceConfig::default();
    assert_eq!(c.max_tokens, 256);
    assert_eq!(c.top_k, 40);
    assert_eq!(c.batch_size, 512);
    assert_eq!(c.context_size, 2048);
    assert!(c.add_bos);
}
