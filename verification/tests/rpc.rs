use astralane::json::JsonValue;
use astralane::rpc::{
    backoff_cap_ms, backoff_with_jitter, classify_response, classify_status, decimal_string,
    jitter_ms, next_step, text_contains, BlockFetchOutcome, CallOutcome, RetryStep, RpcError,
    RpcResponse, StatusVerdict, BASE_DELAY_MS, MAX_DELAY_MS, MAX_RETRIES,
};

// Real documented Solana JSON-RPC error for a skipped/missing slot - this
// exact wording (and the "-32007" family of codes) is what getBlock returns
// for a slot that was never produced.
#[test]
fn skipped_slot_error_message_classified_as_skipped() {
    let response = RpcResponse {
        result: None,
        error: Some(RpcError {
            code: -32007,
            message: "Slot 123456789 was skipped, or missing in long-term storage".to_string(),
        }),
    };

    assert!(matches!(classify_response(response), CallOutcome::Skipped));
}

#[test]
fn null_result_no_error_also_classified_as_skipped() {
    let response = RpcResponse { result: None, error: None };

    assert!(matches!(classify_response(response), CallOutcome::Skipped));
}

#[test]
fn real_block_result_classified_as_ok() {
    let block = JsonValue::Object(vec![(
        "blockhash".to_string(),
        JsonValue::String("abc".to_string()),
    )]);
    let response = RpcResponse { result: Some(block), error: None };

    assert!(matches!(classify_response(response), CallOutcome::Block(_)));
}

#[test]
fn other_rpc_error_classified_as_transient_not_skipped() {
    let response = RpcResponse {
        result: None,
        error: Some(RpcError {
            code: -32602,
            message: "Invalid params: slot out of range".to_string(),
        }),
    };

    assert!(matches!(classify_response(response), CallOutcome::Transient(_)));
}

#[test]
fn skipped_is_matched_in_any_case_and_error_wins_over_result() {
    let response = RpcResponse {
        result: Some(JsonValue::Null),
        error: Some(RpcError { code: -32009, message: "Slot 5 was SKIPPED".to_string() }),
    };
    assert!(matches!(classify_response(response), CallOutcome::Skipped));

    let response = RpcResponse {
        result: Some(JsonValue::Bool(true)),
        error: Some(RpcError { code: -1, message: "Node is behind".to_string() }),
    };
    match classify_response(response) {
        CallOutcome::Transient(msg) => assert_eq!(msg, "Node is behind"),
        _ => panic!("expected a transient error"),
    }
}

#[test]
fn text_contains_finds_substrings() {
    assert!(text_contains("was skipped, or", "skipped"));
    assert!(text_contains("skipped", "skipped"));
    assert!(text_contains("abc", ""));
    assert!(!text_contains("skippe", "skipped"));
    assert!(!text_contains("", "a"));
}

#[test]
fn status_codes_are_classified() {
    assert!(matches!(classify_status(200), StatusVerdict::Proceed));
    assert!(matches!(classify_status(204), StatusVerdict::Proceed));
    assert!(matches!(classify_status(429), StatusVerdict::Transient));
    assert!(matches!(classify_status(500), StatusVerdict::Transient));
    assert!(matches!(classify_status(503), StatusVerdict::Transient));
    assert!(matches!(classify_status(404), StatusVerdict::Permanent));
    assert!(matches!(classify_status(301), StatusVerdict::Permanent));
    assert!(matches!(classify_status(600), StatusVerdict::Permanent));
}

#[test]
fn transient_errors_retry_until_the_limit() {
    for attempt in 0..MAX_RETRIES {
        match next_step(attempt, CallOutcome::Transient("busy".to_string())) {
            RetryStep::Retry { next_attempt } => assert_eq!(next_attempt, attempt + 1),
            RetryStep::Done(_) => panic!("gave up too early"),
        }
    }
    match next_step(MAX_RETRIES, CallOutcome::Transient("busy".to_string())) {
        RetryStep::Done(BlockFetchOutcome::Failed(msg)) => {
            assert_eq!(msg, "gave up after 5 retries: busy")
        }
        _ => panic!("expected to give up"),
    }
}

#[test]
fn final_outcomes_end_the_fetch() {
    assert!(matches!(
        next_step(0, CallOutcome::Skipped),
        RetryStep::Done(BlockFetchOutcome::Skipped)
    ));
    assert!(matches!(
        next_step(3, CallOutcome::Block(JsonValue::Null)),
        RetryStep::Done(BlockFetchOutcome::Fetched(JsonValue::Null))
    ));
    match next_step(0, CallOutcome::Permanent("http status 404 Not Found".to_string())) {
        RetryStep::Done(BlockFetchOutcome::Failed(msg)) => assert_eq!(msg, "http status 404 Not Found"),
        _ => panic!("a permanent error is not retried"),
    }
}

#[test]
fn decimal_string_writes_numbers() {
    assert_eq!(decimal_string(0), "0");
    assert_eq!(decimal_string(7), "7");
    assert_eq!(decimal_string(10), "10");
    assert_eq!(decimal_string(4294967295), "4294967295");
}

#[test]
fn backoff_doubles_then_caps() {
    assert_eq!(backoff_cap_ms(0), BASE_DELAY_MS);
    assert_eq!(backoff_cap_ms(1), 400);
    assert_eq!(backoff_cap_ms(4), 3200);
    assert_eq!(backoff_cap_ms(5), MAX_DELAY_MS);
    assert_eq!(backoff_cap_ms(10), MAX_DELAY_MS);
    assert_eq!(backoff_cap_ms(u32::MAX), MAX_DELAY_MS);
}

#[test]
fn jitter_stays_within_the_cap() {
    assert_eq!(jitter_ms(0, 0), 0);
    assert_eq!(jitter_ms(201, 0), 0);
    assert_eq!(jitter_ms(200, 0), 200);
    assert_eq!(jitter_ms(u64::MAX, 7), u64::MAX % 5001);
    for attempt in 0..20 {
        assert!(backoff_with_jitter(attempt) <= backoff_cap_ms(attempt));
    }
}
