//! Translation orchestration: rate budget, retry with exponential backoff,
//! chunk planning, request building and response interpretation.
//!
//! The network calls themselves are performed outside the library; here are
//! the decisions around them, verified: how many permits and what delay a
//! rate target yields, which delays a retry run sleeps and which attempt's
//! result it surfaces, how a document is cut into requests, and what a
//! response body means.

use vstd::prelude::*;

use crate::chunker::split_text_into_chunks;
use crate::text::{
    all_ws, ascii_bytes, bytes_of_ascii, contains_seq, contains_slice, copy_bytes, decimal_of_i64,
    i64_to_decimal, is_blank, push_all, subvec, views_of,
};
use crate::types::{DeepLXRequest, DpTransRequest, Error, RetryConfig, TranslationConfig};

verus! {

/// A concurrency permit count and a fixed per-acquisition delay, derived
/// from a requests-per-second target (in thousandths): as many permits as
/// whole or started requests per second, and the reciprocal of the rate in
/// milliseconds. Shared across all concurrent translation calls of a run.
pub struct RateLimiter {
    pub permits: u64,
    pub delay_ms: u64,
}

impl RateLimiter {
    pub fn new(max_requests_per_second_milli: u64) -> (r: Self)
        requires
            max_requests_per_second_milli >= 1,
        ensures
            r.permits == max_requests_per_second_milli as int / 1000 + (
            if max_requests_per_second_milli as int % 1000 == 0 {
                0int
            } else {
                1int
            }),
            r.delay_ms == 1000000int / max_requests_per_second_milli as int,
    {
        let m = max_requests_per_second_milli;
        let permits = m / 1000 + (if m % 1000 == 0 {
            0
        } else {
            1
        });
        let delay_ms = 1000000 / m;
        RateLimiter { permits, delay_ms }
    }
}

/// The backoff delay before retry number `j + 1`: the initial delay,
/// multiplied by the backoff factor after every retry, capped at the
/// maximum delay.
pub open spec fn backoff_delay(c: RetryConfig, j: int) -> int
    decreases j,
{
    if j <= 0 {
        c.initial_delay_ms as int
    } else {
        next_delay_int(backoff_delay(c, j - 1), c)
    }
}

/// One backoff step: scale by the multiplier (in thousandths), capped.
pub open spec fn next_delay_int(d: int, c: RetryConfig) -> int {
    let scaled = d * c.backoff_multiplier_milli as int / 1000;
    if scaled > c.max_delay_ms as int {
        c.max_delay_ms as int
    } else {
        scaled
    }
}

/// The transient state of one in-flight retry run.
pub struct RetryState {
    pub attempt: usize,
    pub current_delay_ms: u64,
}

/// Compute the next backoff delay.
pub fn next_delay(d: u64, config: &RetryConfig) -> (r: u64)
    ensures
        r as int == next_delay_int(d as int, *config),
{
    proof {
        assert((d as int) * (config.backoff_multiplier_milli as int) <= u128::MAX) by (nonlinear_arith)
            requires
                0 <= d <= u64::MAX,
                0 <= config.backoff_multiplier_milli <= u64::MAX,
        ;
    }
    let wide: u128 = (d as u128) * (config.backoff_multiplier_milli as u128);
    let scaled: u128 = wide / 1000;
    if scaled > config.max_delay_ms as u128 {
        config.max_delay_ms
    } else {
        scaled as u64
    }
}

impl RetryState {
    pub fn new(config: &RetryConfig) -> (r: Self)
        ensures
            r.attempt == 0,
            r.current_delay_ms == config.initial_delay_ms,
    {
        RetryState { attempt: 0, current_delay_ms: config.initial_delay_ms }
    }

    /// Record a failed attempt: when retries remain, the caller is to sleep
    /// the returned delay and try again; when they are exhausted, the last
    /// error is to be surfaced.
    pub fn on_failure(&mut self, config: &RetryConfig) -> (r: Option<u64>)
        ensures
            old(self).attempt >= config.max_retries ==> r is None && *final(self) == *old(self),
            old(self).attempt < config.max_retries ==> r == Some(old(self).current_delay_ms)
                && final(self).attempt == old(self).attempt + 1
                && final(self).current_delay_ms as int == next_delay_int(
                old(self).current_delay_ms as int,
                *config,
            ),
    {
        if self.attempt >= config.max_retries {
            None
        } else {
            let d = self.current_delay_ms;
            self.attempt = self.attempt + 1;
            self.current_delay_ms = next_delay(d, config);
            Some(d)
        }
    }
}

/// Run a retry schedule over the attempts' outcomes: the result of attempt
/// `k` is surfaced, where `k` counts the backoff sleeps taken, every
/// attempt before `k` failed, and the run goes past a failure exactly while
/// retries remain. The sleeps are the backoff delays in order. (Before each
/// attempt the caller also acquires the shared rate limiter; that is not
/// modelled here.)
#[verifier::loop_isolation(false)]
pub fn retry_with_backoff<T, E>(outcomes: Vec<Result<T, E>>, config: &RetryConfig) -> (r: (
    Result<T, E>,
    Vec<u64>,
))
    requires
        outcomes@.len() > config.max_retries,
    ensures
        r.1@.len() <= config.max_retries < outcomes@.len(),
        r.0 == outcomes@[r.1@.len() as int],
        forall|j: int| 0 <= j < r.1@.len() ==> outcomes@[j] is Err,
        r.0 is Err ==> r.1@.len() == config.max_retries,
        forall|j: int| 0 <= j < r.1@.len() ==> r.1@[j] == backoff_delay(*config, j),
{
    let ghost outs = outcomes@;
    let mut rest = outcomes;
    let mut sleeps: Vec<u64> = Vec::new();
    let mut delay: u64 = config.initial_delay_ms;
    let mut i: usize = 0;
    while i < config.max_retries
        invariant
            i == sleeps@.len() <= config.max_retries < outs.len(),
            rest@ == outs.subrange(i as int, outs.len() as int),
            forall|j: int| 0 <= j < i ==> outs[j] is Err,
            forall|j: int| 0 <= j < i ==> sleeps@[j] == backoff_delay(*config, j),
            delay == backoff_delay(*config, i as int),
        decreases config.max_retries - i,
    {
        let out = rest.remove(0);
        proof {
            assert(out == outs[i as int]);
            assert(rest@ =~= outs.subrange(i + 1 as int, outs.len() as int));
        }
        match out {
            Ok(v) => {
                return (Ok(v), sleeps);
            },
            Err(_) => {
                sleeps.push(delay);
                delay = next_delay(delay, config);
                i = i + 1;
            },
        }
    }
    let out = rest.remove(0);
    proof {
        assert(out == outs[i as int]);
    }
    (out, sleeps)
}

/// Backoff delays never shrink while the multiplier is at least one, until
/// they sit at the cap: each delay is at least the one before it, or has
/// been capped at the maximum delay.
pub proof fn lemma_backoff_monotone(c: RetryConfig, j: int)
    requires
        0 <= j,
        c.backoff_multiplier_milli >= 1000,
    ensures
        backoff_delay(c, j + 1) >= backoff_delay(c, j) || backoff_delay(c, j + 1)
            == c.max_delay_ms,
{
    lemma_backoff_nonneg(c, j);
    let d = backoff_delay(c, j);
    let scaled = d * c.backoff_multiplier_milli as int / 1000;
    assert(d * c.backoff_multiplier_milli as int >= d * 1000) by (nonlinear_arith)
        requires
            d >= 0,
            c.backoff_multiplier_milli >= 1000,
    ;
    assert(d * 1000 / 1000 == d);
    vstd::arithmetic::div_mod::lemma_div_is_ordered(
        d * 1000,
        d * c.backoff_multiplier_milli as int,
        1000,
    );
}

/// Backoff delays are never negative.
pub proof fn lemma_backoff_nonneg(c: RetryConfig, j: int)
    ensures
        backoff_delay(c, j) >= 0,
    decreases (if j > 0 {
        j
    } else {
        0
    }),
{
    if j > 0 {
        lemma_backoff_nonneg(c, j - 1);
        let d = backoff_delay(c, j - 1);
        assert(d * c.backoff_multiplier_milli as int >= 0) by (nonlinear_arith)
            requires
                d >= 0,
        ;
        vstd::arithmetic::div_mod::lemma_div_is_ordered(
            0,
            d * c.backoff_multiplier_milli as int,
            1000,
        );
    }
}

/// Backoff delays never exceed the maximum delay, once past the initial one.
pub proof fn lemma_backoff_capped(c: RetryConfig, j: int)
    requires
        1 <= j,
        c.initial_delay_ms <= c.max_delay_ms,
    ensures
        backoff_delay(c, j) <= c.max_delay_ms,
{
}

/// What the orchestrator does with a document: hand it back unchanged
/// (translation disabled), or translate these chunks in order and rejoin.
pub enum TranslationPlan {
    Identity,
    Chunks(Vec<Vec<u8>>),
}

/// The request for one chunk, in the shape the configured endpoint takes.
pub enum TranslationRequest {
    DeepLX(DeepLXRequest),
    DpTrans(DpTransRequest),
}

/// The JSON fields a translation response is known to carry, picked out of
/// the body; `parsed` is whether the body was JSON at all.
pub struct JsonFields {
    pub parsed: bool,
    pub code: Option<i64>,
    pub data: Option<Vec<u8>>,
    pub translated_text: Option<Vec<u8>>,
    pub result: Option<Vec<u8>>,
    pub translation: Option<Vec<u8>>,
}

/// Whether these bytes parse as a JSON value, as serde_json's parser
/// decides; a function of the bytes alone.
pub uninterp spec fn json_parses(body: Seq<u8>) -> bool;

/// The integer `code` field of the JSON value written in these bytes, or
/// none when the bytes do not parse or carry no such integer field; a
/// function of the bytes alone.
pub uninterp spec fn json_code_of(body: Seq<u8>) -> Option<int>;

/// The string field under the given key of the JSON value written in these
/// bytes, in UTF-8, or none when the bytes do not parse or the key holds no
/// string; a function of the bytes alone.
pub uninterp spec fn json_str_field_of(body: Seq<u8>, key: Seq<u8>) -> Option<Seq<u8>>;

pub open spec fn opt_int_view(o: Option<i64>) -> Option<int> {
    match o {
        Some(c) => Some(c as int),
        None => None,
    }
}

pub open spec fn opt_bytes_view(o: Option<Vec<u8>>) -> Option<Seq<u8>> {
    match o {
        Some(v) => Some(v@),
        None => None,
    }
}

/// Relies on serde_json::from_slice::<Value>, Value::get, Value::as_i64 and
/// Value::as_str: parse the response body as JSON and pick out the fields
/// the known translation endpoints use. Parsing is a function of the body
/// alone, so each field equals its named extraction of the body.
#[verifier::external_body]
fn json_string_fields(body: &[u8]) -> (r: JsonFields)
    ensures
        r.parsed == json_parses(body@),
        opt_int_view(r.code) == json_code_of(body@),
        opt_bytes_view(r.data) == json_str_field_of(body@, bytes_of_ascii("data"@)),
        opt_bytes_view(r.translated_text) == json_str_field_of(
            body@,
            bytes_of_ascii("translated_text"@),
        ),
        opt_bytes_view(r.result) == json_str_field_of(body@, bytes_of_ascii("result"@)),
        opt_bytes_view(r.translation) == json_str_field_of(body@, bytes_of_ascii("translation"@)),
{
    match serde_json::from_slice::<serde_json::Value>(body) {
        Err(_) => JsonFields { parsed: false, code: None, data: None, translated_text: None, result: None, translation: None },
        Ok(v) => {
            let g = |k: &str| v.get(k).and_then(|x| x.as_str()).map(|s| s.as_bytes().to_vec());
            JsonFields { parsed: true, code: v.get("code").and_then(|x| x.as_i64()), data: g("data"), translated_text: g("translated_text"), result: g("result"), translation: g("translation") }
        },
    }
}

/// The result is a translation error with this message.
pub open spec fn is_translation_err<T>(r: Result<T, Error>, msg: Seq<u8>) -> bool {
    r matches Err(Error::Translation(m)) && m@ == msg
}

/// What a translation response means, given the HTTP success flag and
/// status, the body, and the JSON fields found in the body. First the
/// recognized code/data shape is honoured; otherwise a candidate text field
/// is taken, in a fixed order; a non-JSON body is taken as the translation
/// itself.
pub open spec fn decide_core(
    status_ok: bool,
    status: int,
    body: Seq<u8>,
    parsed: bool,
    code: Option<int>,
    data: Option<Seq<u8>>,
    translated_text: Option<Seq<u8>>,
    result_field: Option<Seq<u8>>,
    translation: Option<Seq<u8>>,
) -> Result<Seq<u8>, Seq<u8>> {
    if !status_ok {
        Err(
            bytes_of_ascii("translation request failed: "@) + crate::text::decimal_of(
                status as nat,
            ) + bytes_of_ascii(" - "@) + body,
        )
    } else if code is Some && data is Some {
        if code->0 != 200 {
            Err(bytes_of_ascii("translation failed with code "@) + decimal_of_i64(code->0))
        } else if data->0.len() == 0 {
            Err(bytes_of_ascii("the translation service returned an empty result"@))
        } else {
            Ok(data->0)
        }
    } else if all_ws(body) {
        Err(bytes_of_ascii("the translation service returned an empty response"@))
    } else if body.len() > 0 && body[0] == 123 {
        if !parsed {
            Err(bytes_of_ascii("could not parse the JSON response: "@) + body)
        } else if translated_text is Some {
            Ok(translated_text->0)
        } else if result_field is Some {
            Ok(result_field->0)
        } else if translation is Some {
            Ok(translation->0)
        } else if data is Some {
            Ok(data->0)
        } else {
            Err(bytes_of_ascii("no translation found in the JSON response: "@) + body)
        }
    } else {
        Ok(body)
    }
}

/// The decision for explicitly given JSON fields.
pub open spec fn decide_spec(status_ok: bool, status: int, body: Seq<u8>, f: JsonFields) -> Result<
    Seq<u8>,
    Seq<u8>,
> {
    decide_core(
        status_ok,
        status,
        body,
        f.parsed,
        opt_int_view(f.code),
        opt_bytes_view(f.data),
        opt_bytes_view(f.translated_text),
        opt_bytes_view(f.result),
        opt_bytes_view(f.translation),
    )
}

/// The decision for the JSON fields that the body itself carries: a
/// function of the status and the body alone.
pub open spec fn decision_of(status_ok: bool, status: int, body: Seq<u8>) -> Result<
    Seq<u8>,
    Seq<u8>,
> {
    decide_core(
        status_ok,
        status,
        body,
        json_parses(body),
        json_code_of(body),
        json_str_field_of(body, bytes_of_ascii("data"@)),
        json_str_field_of(body, bytes_of_ascii("translated_text"@)),
        json_str_field_of(body, bytes_of_ascii("result"@)),
        json_str_field_of(body, bytes_of_ascii("translation"@)),
    )
}

/// The interpretation matches the decision for these JSON fields.
pub open spec fn matches_decision(
    r: Result<Vec<u8>, Error>,
    status_ok: bool,
    status: int,
    body: Seq<u8>,
    f: JsonFields,
) -> bool {
    match decide_spec(status_ok, status, body, f) {
        Ok(t) => r matches Ok(v) && v@ == t,
        Err(m) => is_translation_err(r, m),
    }
}

fn err_with_body(prefix: &str, body: &Vec<u8>) -> (r: Error)
    requires
        prefix.is_ascii(),
    ensures
        r matches Error::Translation(m) && m@ == bytes_of_ascii(prefix@) + body@,
{
    let mut m = ascii_bytes(prefix);
    push_all(&mut m, body.as_slice());
    Error::Translation(m)
}

/// Decide what a translation response means, from the HTTP success flag
/// and status, the body, and the JSON fields picked out of the body.
pub fn decide_translation_response(
    status_ok: bool,
    status: u16,
    body: &Vec<u8>,
    fields: &JsonFields,
) -> (r: Result<Vec<u8>, Error>)
    ensures
        matches_decision(r, status_ok, status as int, body@, *fields),
{
    proof {
        reveal_strlit("translation request failed: ");
        reveal_strlit(" - ");
        reveal_strlit("translation failed with code ");
        reveal_strlit("the translation service returned an empty result");
        reveal_strlit("the translation service returned an empty response");
        reveal_strlit("could not parse the JSON response: ");
        reveal_strlit("no translation found in the JSON response: ");
    }
    if !status_ok {
        let mut m = ascii_bytes("translation request failed: ");
        let digits = crate::text::u64_to_decimal(status as u64);
        push_all(&mut m, digits.as_slice());
        let dash = ascii_bytes(" - ");
        push_all(&mut m, dash.as_slice());
        push_all(&mut m, body.as_slice());
        return Err(Error::Translation(m));
    }
    if fields.code.is_some() && fields.data.is_some() {
        let code = *fields.code.as_ref().unwrap();
        let data = fields.data.as_ref().unwrap();
        if code != 200 {
            let mut m = ascii_bytes("translation failed with code ");
            let digits = i64_to_decimal(code);
            push_all(&mut m, digits.as_slice());
            return Err(Error::Translation(m));
        }
        if data.len() == 0 {
            return Err(
                Error::Translation(ascii_bytes("the translation service returned an empty result")),
            );
        }
        return Ok(copy_bytes(data));
    }
    if is_blank(body.as_slice()) {
        return Err(
            Error::Translation(ascii_bytes("the translation service returned an empty response")),
        );
    }
    if body[0] == 123 {
        if !fields.parsed {
            return Err(err_with_body("could not parse the JSON response: ", body));
        }
        if let Some(t) = fields.translated_text.as_ref() {
            return Ok(copy_bytes(t));
        }
        if let Some(t) = fields.result.as_ref() {
            return Ok(copy_bytes(t));
        }
        if let Some(t) = fields.translation.as_ref() {
            return Ok(copy_bytes(t));
        }
        if let Some(t) = fields.data.as_ref() {
            return Ok(copy_bytes(t));
        }
        return Err(err_with_body("no translation found in the JSON response: ", body));
    }
    Ok(copy_bytes(body))
}

/// Interpret a translation response: the result is exactly the decision
/// for the JSON fields the body itself carries; an error status is always
/// surfaced as a translation error naming the status and the body.
pub fn interpret_translation_response(status_ok: bool, status: u16, body: &Vec<u8>) -> (r: Result<
    Vec<u8>,
    Error,
>)
    ensures
        match decision_of(status_ok, status as int, body@) {
            Ok(t) => r matches Ok(v) && v@ == t,
            Err(m) => is_translation_err(r, m),
        },
        !status_ok ==> is_translation_err(
            r,
            bytes_of_ascii("translation request failed: "@) + crate::text::decimal_of(
                status as nat,
            ) + bytes_of_ascii(" - "@) + body@,
        ),
{
    let fields = json_string_fields(body.as_slice());
    let r = decide_translation_response(status_ok, status, body, &fields);
    proof {
        assert(decide_spec(status_ok, status as int, body@, fields) == decision_of(
            status_ok,
            status as int,
            body@,
        ));
    }
    r
}

/// The translation orchestrator's verified side: the rate budget and the
/// decisions around the network calls.
pub struct TranslationService {
    pub rate_limiter: RateLimiter,
    pub config: TranslationConfig,
}

impl TranslationService {
    pub fn new(config: TranslationConfig) -> (r: Self)
        requires
            config.max_requests_per_second_milli >= 1,
        ensures
            r.config == config,
            r.rate_limiter.permits == config.max_requests_per_second_milli as int / 1000 + (
            if config.max_requests_per_second_milli as int % 1000 == 0 {
                0int
            } else {
                1int
            }),
            r.rate_limiter.delay_ms == 1000000int / config.max_requests_per_second_milli as int,
    {
        let rate_limiter = RateLimiter::new(config.max_requests_per_second_milli);
        TranslationService { rate_limiter, config }
    }

    /// Split a document into translation chunks under the configured
    /// length budget.
    pub fn split_text_into_chunks(&self, text: &[u8]) -> (r: Vec<Vec<u8>>)
        requires
            1 <= self.config.max_text_length <= usize::MAX - 2,
            text@.len() <= usize::MAX - 2,
        ensures
            crate::text::non_ws_of_all(views_of(r@)) == crate::text::non_ws(text@),
            forall|i: int|
                0 <= i < r@.len() ==> (#[trigger] r@[i])@.len() <= self.config.max_text_length
                    || crate::chunker::is_block_copy(text@, r@[i]@),
            forall|i: int| 0 <= i < r@.len() ==> (#[trigger] r@[i])@.len() > 0,
            forall|k: int|
                0 <= k < crate::chunker::code_blocks_of(text@).len()
                    ==> crate::chunker::some_chunk_contains(
                    views_of(r@),
                    crate::chunker::block_content(
                        text@,
                        #[trigger] crate::chunker::code_blocks_of(text@)[k],
                    ),
                ),
            text@.len() == 0 ==> r@.len() == 0,
            0 < text@.len() <= self.config.max_text_length ==> r@.len() == 1 && r@[0]@ == text@,
    {
        split_text_into_chunks(text, self.config.max_text_length)
    }

    /// Decide how a document is to be translated: unchanged when
    /// translation is disabled; as a single chunk when it fits the budget;
    /// otherwise as the chunker's pieces, in order.
    pub fn translation_plan(&self, text: &[u8]) -> (r: TranslationPlan)
        requires
            1 <= self.config.max_text_length <= usize::MAX - 2,
            text@.len() <= usize::MAX - 2,
        ensures
            !self.config.enabled ==> r is Identity,
            self.config.enabled && text@.len() <= self.config.max_text_length ==> (r matches
            TranslationPlan::Chunks(c) && c@.len() == 1 && c@[0]@ == text@),
            self.config.enabled && text@.len() > self.config.max_text_length ==> (r matches
            TranslationPlan::Chunks(c) && {
                &&& crate::text::non_ws_of_all(views_of(c@)) == crate::text::non_ws(text@)
                &&& forall|i: int|
                    0 <= i < c@.len() ==> (#[trigger] c@[i])@.len() <= self.config.max_text_length
                        || crate::chunker::is_block_copy(text@, c@[i]@)
                &&& forall|i: int| 0 <= i < c@.len() ==> (#[trigger] c@[i])@.len() > 0
            }),
    {
        if !self.config.enabled {
            return TranslationPlan::Identity;
        }
        if text.len() <= self.config.max_text_length {
            let mut one: Vec<Vec<u8>> = Vec::new();
            one.push(subvec(text, 0, text.len()));
            proof {
                assert(text@.subrange(0, text@.len() as int) =~= text@);
            }
            return TranslationPlan::Chunks(one);
        }
        TranslationPlan::Chunks(self.split_text_into_chunks(text))
    }

    /// Rejoin translated chunks with a blank line between them, in order.
    pub fn join_translated(&self, chunks: &Vec<Vec<u8>>) -> (r: Vec<u8>)
        ensures
            r@ == crate::text::join_blank(views_of(chunks@)),
    {
        crate::text::join_with_blank_line(chunks)
    }

    /// The translated texts of the outcomes, in order (meaningful when
    /// every outcome succeeded).
    pub open spec fn ok_views(s: Seq<Result<Vec<u8>, Error>>) -> Seq<Seq<u8>> {
        s.map_values(|r: Result<Vec<u8>, Error>| r->Ok_0@)
    }

    /// Assemble a document from its chunks' translation outcomes, in
    /// order: the first failure aborts the whole document with that error
    /// (no partially translated document is returned); with every chunk
    /// translated, the results are rejoined with blank lines.
    #[verifier::loop_isolation(false)]
    pub fn assemble_translations(&self, outcomes: Vec<Result<Vec<u8>, Error>>) -> (r: Result<
        Vec<u8>,
        Error,
    >)
        ensures
            r matches Ok(t) ==> (forall|i: int|
                0 <= i < outcomes@.len() ==> #[trigger] outcomes@[i] is Ok) && t@ == crate::text::join_blank(
                Self::ok_views(outcomes@),
            ),
            r matches Err(e) ==> exists|i: int|
                {
                    &&& 0 <= i < outcomes@.len()
                    &&& #[trigger] outcomes@[i] is Err
                    &&& e == outcomes@[i]->Err_0
                    &&& forall|j: int| 0 <= j < i ==> outcomes@[j] is Ok
                },
    {
        let ghost outs = outcomes@;
        let mut rest = outcomes;
        let n0 = rest.len();
        let mut texts: Vec<Vec<u8>> = Vec::new();
        let mut i: usize = 0;
        while rest.len() > 0
            invariant
                n0 == outs.len(),
                i + rest@.len() == outs.len(),
                rest@ == outs.subrange(i as int, outs.len() as int),
                forall|j: int| 0 <= j < i ==> #[trigger] outs[j] is Ok,
                views_of(texts@) == Self::ok_views(outs.subrange(0, i as int)),
            decreases rest@.len(),
        {
            let out = rest.remove(0);
            proof {
                assert(out == outs[i as int]);
                assert(rest@ =~= outs.subrange(i + 1 as int, outs.len() as int));
            }
            match out {
                Ok(t) => {
                    let ghost pre = texts@;
                    proof {
                        crate::text::lemma_views_of_push(pre, t);
                    }
                    texts.push(t);
                    proof {
                        assert(views_of(texts@) =~= Self::ok_views(outs.subrange(0, i + 1 as int)));
                    }
                },
                Err(e) => {
                    return Err(e);
                },
            }
            i = i + 1;
        }
        proof {
            assert(outs.subrange(0, outs.len() as int) =~= outs);
        }
        Ok(self.join_translated(&texts))
    }

    /// Build the request for one chunk: the alternate shape when the
    /// endpoint names the dptrans service, the standard shape otherwise.
    pub fn build_request(&self, text: &[u8]) -> (r: TranslationRequest)
        ensures
            contains_seq(self.config.deeplx_api_url@, bytes_of_ascii("dptrans"@)) ==> (r matches
            TranslationRequest::DpTrans(q) && q.text@ == text@ && q.source_lang@
                == self.config.source_lang@ && q.target_lang@ == self.config.target_lang@),
            !contains_seq(self.config.deeplx_api_url@, bytes_of_ascii("dptrans"@)) ==> (r matches
            TranslationRequest::DeepLX(q) && q.text@ == text@ && q.source_lang@
                == self.config.source_lang@ && q.target_lang@ == self.config.target_lang@),
    {
        proof {
            reveal_strlit("dptrans");
        }
        let needle = ascii_bytes("dptrans");
        let text_copy = subvec(text, 0, text.len());
        proof {
            assert(text@.subrange(0, text@.len() as int) =~= text@);
        }
        if contains_slice(self.config.deeplx_api_url.as_slice(), needle.as_slice()) {
            TranslationRequest::DpTrans(
                DpTransRequest {
                    text: text_copy,
                    source_lang: copy_bytes(&self.config.source_lang),
                    target_lang: copy_bytes(&self.config.target_lang),
                },
            )
        } else {
            TranslationRequest::DeepLX(
                DeepLXRequest {
                    text: text_copy,
                    source_lang: copy_bytes(&self.config.source_lang),
                    target_lang: copy_bytes(&self.config.target_lang),
                },
            )
        }
    }
}

} // verus!
