use markdown_downloader::translator::{
    interpret_translation_response, next_delay, retry_with_backoff, RateLimiter, RetryState,
    TranslationPlan, TranslationRequest, TranslationService,
};
use markdown_downloader::types::{Error, RetryConfig, TranslationConfig};

fn enabled_config() -> TranslationConfig {
    let mut c = TranslationConfig::default();
    c.enabled = true;
    c
}

#[test]
fn rate_limiter_from_fractional_rate() {
    // half a request per second: one permit, two seconds between requests
    let rl = RateLimiter::new(500);
    assert_eq!(rl.permits, 1);
    assert_eq!(rl.delay_ms, 2000);
}

#[test]
fn rate_limiter_from_whole_rate() {
    let rl = RateLimiter::new(2000);
    assert_eq!(rl.permits, 2);
    assert_eq!(rl.delay_ms, 500);
}

#[test]
fn retry_succeeds_after_k_failures_with_k_sleeps() {
    let cfg = RetryConfig::default();
    let outcomes: Vec<Result<u32, &str>> = vec![Err("one"), Err("two"), Ok(7)];
    let (r, sleeps) = retry_with_backoff(outcomes, &cfg);
    assert_eq!(r, Ok(7));
    // two failures, two backoff sleeps: 300 then 300 * 1.5
    assert_eq!(sleeps, vec![300, 450]);
}

#[test]
fn retry_exhaustion_surfaces_last_error() {
    let cfg = RetryConfig::default();
    let outcomes: Vec<Result<u32, &str>> = vec![Err("one"), Err("two"), Err("last")];
    let (r, sleeps) = retry_with_backoff(outcomes, &cfg);
    assert_eq!(r, Err("last"));
    assert_eq!(sleeps.len(), cfg.max_retries);
}

#[test]
fn retry_immediate_success_sleeps_nothing() {
    let cfg = RetryConfig::default();
    let outcomes: Vec<Result<u32, &str>> = vec![Ok(1), Err("unused"), Err("unused")];
    let (r, sleeps) = retry_with_backoff(outcomes, &cfg);
    assert_eq!(r, Ok(1));
    assert!(sleeps.is_empty());
}

#[test]
fn backoff_delays_never_shrink_until_capped() {
    let cfg = RetryConfig { max_retries: 6, ..RetryConfig::default() };
    let outcomes: Vec<Result<u32, &str>> =
        vec![Err("e"), Err("e"), Err("e"), Err("e"), Err("e"), Err("e"), Err("e")];
    let (_, sleeps) = retry_with_backoff(outcomes, &cfg);
    assert_eq!(sleeps, vec![300, 450, 675, 1012, 1518, 2277]);
    for w in sleeps.windows(2) {
        assert!(w[1] >= w[0] || w[1] == cfg.max_delay_ms);
    }
}

#[test]
fn next_delay_caps_at_maximum() {
    let cfg = RetryConfig::default();
    assert_eq!(next_delay(3000, &cfg), 3000);
    assert_eq!(next_delay(2500, &cfg), 3000);
}

#[test]
fn retry_state_steps_and_exhausts() {
    let cfg = RetryConfig::default();
    let mut st = RetryState::new(&cfg);
    assert_eq!(st.on_failure(&cfg), Some(300));
    assert_eq!(st.on_failure(&cfg), Some(450));
    assert_eq!(st.on_failure(&cfg), None);
}

#[test]
fn response_deeplx_success() {
    let body = "{\"code\":200,\"data\":\"你好\"}".as_bytes().to_vec();
    let r = interpret_translation_response(true, 200, &body);
    assert_eq!(r.unwrap(), "你好".as_bytes().to_vec());
}

#[test]
fn response_deeplx_failure_code() {
    let body = b"{\"code\":500,\"data\":\"x\"}".to_vec();
    let r = interpret_translation_response(true, 200, &body);
    match r {
        Err(Error::Translation(m)) => {
            assert_eq!(m, b"translation failed with code 500".to_vec());
        },
        _ => panic!("expected a translation error"),
    }
}

#[test]
fn response_deeplx_empty_data() {
    let body = b"{\"code\":200,\"data\":\"\"}".to_vec();
    let r = interpret_translation_response(true, 200, &body);
    assert!(matches!(r, Err(Error::Translation(_))));
}

#[test]
fn response_candidate_fields_in_order() {
    let r = interpret_translation_response(true, 200, &b"{\"translated_text\":\"a\"}".to_vec());
    assert_eq!(r.unwrap(), b"a".to_vec());
    let r = interpret_translation_response(true, 200, &b"{\"result\":\"b\"}".to_vec());
    assert_eq!(r.unwrap(), b"b".to_vec());
    let r = interpret_translation_response(true, 200, &b"{\"translation\":\"c\"}".to_vec());
    assert_eq!(r.unwrap(), b"c".to_vec());
    let r = interpret_translation_response(true, 200, &b"{\"data\":\"d\"}".to_vec());
    assert_eq!(r.unwrap(), b"d".to_vec());
    let r = interpret_translation_response(
        true,
        200,
        &b"{\"result\":\"late\",\"translated_text\":\"first\"}".to_vec(),
    );
    assert_eq!(r.unwrap(), b"first".to_vec());
}

#[test]
fn response_plain_text_taken_as_translation() {
    let body = b"plain translated text".to_vec();
    let r = interpret_translation_response(true, 200, &body);
    assert_eq!(r.unwrap(), body);
}

#[test]
fn response_blank_body_is_an_error() {
    let r = interpret_translation_response(true, 200, &b"  \n ".to_vec());
    assert!(matches!(r, Err(Error::Translation(_))));
}

#[test]
fn response_bad_json_is_an_error() {
    let r = interpret_translation_response(true, 200, &b"{not json".to_vec());
    match r {
        Err(Error::Translation(m)) => {
            assert!(m.starts_with(b"could not parse the JSON response: "));
        },
        _ => panic!("expected a translation error"),
    }
}

#[test]
fn response_json_without_candidates_is_an_error() {
    let r = interpret_translation_response(true, 200, &b"{\"other\":1}".to_vec());
    match r {
        Err(Error::Translation(m)) => {
            assert!(m.starts_with(b"no translation found in the JSON response: "));
        },
        _ => panic!("expected a translation error"),
    }
}

#[test]
fn response_error_status_is_surfaced() {
    let r = interpret_translation_response(false, 504, &b"gateway timeout".to_vec());
    match r {
        Err(Error::Translation(m)) => {
            assert_eq!(m, b"translation request failed: 504 - gateway timeout".to_vec());
        },
        _ => panic!("expected a translation error"),
    }
}

#[test]
fn plan_is_identity_when_disabled() {
    let svc = TranslationService::new(TranslationConfig::default());
    let plan = svc.translation_plan(b"anything at all");
    assert!(matches!(plan, TranslationPlan::Identity));
}

#[test]
fn plan_is_single_chunk_when_short() {
    let svc = TranslationService::new(enabled_config());
    let doc = b"short document";
    match svc.translation_plan(doc) {
        TranslationPlan::Chunks(c) => {
            assert_eq!(c, vec![doc.to_vec()]);
        },
        _ => panic!("expected chunks"),
    }
}

#[test]
fn plan_chunks_long_document_within_budget() {
    let mut cfg = enabled_config();
    cfg.max_text_length = 20;
    let svc = TranslationService::new(cfg);
    let doc = b"first paragraph words\n\nsecond paragraph words\n\nthird paragraph words";
    match svc.translation_plan(doc) {
        TranslationPlan::Chunks(c) => {
            assert!(c.len() > 1);
            for chunk in &c {
                assert!(chunk.len() <= 20);
            }
        },
        _ => panic!("expected chunks"),
    }
}

#[test]
fn join_translated_uses_blank_lines() {
    let svc = TranslationService::new(TranslationConfig::default());
    let joined = svc.join_translated(&vec![b"a".to_vec(), b"b".to_vec(), b"c".to_vec()]);
    assert_eq!(joined, b"a\n\nb\n\nc".to_vec());
}

#[test]
fn request_shape_follows_endpoint() {
    let mut cfg = enabled_config();
    cfg.deeplx_api_url = b"http://host/dptrans/translate".to_vec();
    let svc = TranslationService::new(cfg);
    match svc.build_request(b"hello") {
        TranslationRequest::DpTrans(q) => {
            assert_eq!(q.text, b"hello".to_vec());
            assert_eq!(q.source_lang, b"auto".to_vec());
            assert_eq!(q.target_lang, b"zh".to_vec());
        },
        _ => panic!("expected the alternate request shape"),
    }
    let svc2 = TranslationService::new(enabled_config());
    assert!(matches!(svc2.build_request(b"hello"), TranslationRequest::DeepLX(_)));
}

#[test]
fn response_negative_code_is_rendered() {
    let body = b"{\"code\":-1,\"data\":\"x\"}".to_vec();
    let r = interpret_translation_response(true, 200, &body);
    match r {
        Err(Error::Translation(m)) => {
            assert_eq!(m, b"translation failed with code -1".to_vec());
        },
        _ => panic!("expected a translation error"),
    }
}

#[test]
fn assemble_joins_all_successes() {
    let svc = TranslationService::new(TranslationConfig::default());
    let r = svc.assemble_translations(vec![Ok(b"a".to_vec()), Ok(b"b".to_vec())]);
    assert_eq!(r.unwrap(), b"a\n\nb".to_vec());
}

#[test]
fn assemble_aborts_on_the_first_failure() {
    let svc = TranslationService::new(TranslationConfig::default());
    let r = svc.assemble_translations(vec![
        Ok(b"a".to_vec()),
        Err(Error::Translation(b"boom".to_vec())),
        Ok(b"c".to_vec()),
    ]);
    match r {
        Err(Error::Translation(m)) => assert_eq!(m, b"boom".to_vec()),
        _ => panic!("expected the first failure to surface"),
    }
}
