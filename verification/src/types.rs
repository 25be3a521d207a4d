//! Core data types of the pipeline.
//!
//! All text is carried as byte sequences (`Vec<u8>`); timestamps are unix
//! seconds. Rates and multipliers are carried in thousandths, so that a
//! requests-per-second target of one half is stored as 500.

use vstd::prelude::*;

use crate::text::{ascii_bytes, bytes_of_ascii};

verus! {

/// One element of the non-overlapping, order-preserving partition of a
/// document into prose and fenced code blocks.
pub struct TextSegment {
    pub content: Vec<u8>,
    pub is_code_block: bool,
}

/// The contents of a list of segments, as byte sequences.
pub open spec fn seg_views(segs: Seq<TextSegment>) -> Seq<Seq<u8>> {
    segs.map_values(|t: TextSegment| t.content@)
}

/// The error taxonomy of the pipeline. Every variant carries a message.
#[derive(Debug)]
pub enum Error {
    /// Fetching or converting a page failed.
    Conversion(Vec<u8>),
    /// Translating a chunk failed.
    Translation(Vec<u8>),
    /// Writing an output file failed.
    Persist(Vec<u8>),
    /// The ledger record file was malformed or unreadable (non-fatal).
    Ledger(Vec<u8>),
    /// The run parameters are invalid (fatal, aborts before any work).
    Config(Vec<u8>),
}

impl Error {
    /// The message carried by the error.
    pub fn message(&self) -> (r: &Vec<u8>)
        ensures
            r@ == self.spec_message(),
    {
        match self {
            Error::Conversion(m) => m,
            Error::Translation(m) => m,
            Error::Persist(m) => m,
            Error::Ledger(m) => m,
            Error::Config(m) => m,
        }
    }

    pub open spec fn spec_message(&self) -> Seq<u8> {
        match self {
            Error::Conversion(m) => m@,
            Error::Translation(m) => m@,
            Error::Persist(m) => m@,
            Error::Ledger(m) => m@,
            Error::Config(m) => m@,
        }
    }
}

/// The kind of output file written for one URL.
#[derive(Clone, Copy, PartialEq, Eq, Structural, Debug)]
pub enum FileType {
    Original,
    Translated,
    Bilingual,
}

pub open spec fn spec_folder_name(t: FileType) -> Seq<char> {
    match t {
        FileType::Original => "original"@,
        FileType::Translated => "translated"@,
        FileType::Bilingual => "bilingual"@,
    }
}

impl FileType {
    /// The per-kind output folder name.
    pub fn folder_name(&self) -> (r: &'static str)
        ensures
            r@ == spec_folder_name(*self),
    {
        match self {
            FileType::Original => "original",
            FileType::Translated => "translated",
            FileType::Bilingual => "bilingual",
        }
    }

    /// The per-kind output folder name, as bytes.
    pub fn folder_name_bytes(&self) -> (r: Vec<u8>)
        ensures
            r@ == bytes_of_ascii(spec_folder_name(*self)),
    {
        proof {
            reveal_strlit("original");
            reveal_strlit("translated");
            reveal_strlit("bilingual");
        }
        match self {
            FileType::Original => ascii_bytes("original"),
            FileType::Translated => ascii_bytes("translated"),
            FileType::Bilingual => ascii_bytes("bilingual"),
        }
    }
}

/// The terminal result of one work item; reported to the ledger and the run
/// statistics, never retried within the same run.
pub enum PipelineOutcome {
    /// All output files were written; carries the paths.
    Saved(Vec<Vec<u8>>),
    ConversionFailed(Vec<u8>),
    TranslationFailed(Vec<u8>),
    PersistFailed(Vec<u8>),
}

impl PipelineOutcome {
    pub fn is_success(&self) -> (r: bool)
        ensures
            r == (self is Saved),
    {
        match self {
            PipelineOutcome::Saved(_) => true,
            _ => false,
        }
    }
}

/// A successfully processed URL, as recorded in the ledger.
pub struct ProcessedLink {
    pub url: Vec<u8>,
    pub processed: bool,
    pub timestamp: i64,
    pub filename: Vec<u8>,
}

impl ProcessedLink {
    pub fn new(url: Vec<u8>, filename: Vec<u8>, timestamp: i64) -> (r: Self)
        ensures
            r.url == url,
            r.filename == filename,
            r.timestamp == timestamp,
            r.processed,
    {
        ProcessedLink { url, processed: true, timestamp, filename }
    }
}

/// The request payload of the standard translation endpoint.
pub struct DeepLXRequest {
    pub text: Vec<u8>,
    pub source_lang: Vec<u8>,
    pub target_lang: Vec<u8>,
}

/// The request payload of the alternate (dptrans) translation endpoint.
pub struct DpTransRequest {
    pub text: Vec<u8>,
    pub source_lang: Vec<u8>,
    pub target_lang: Vec<u8>,
}

/// The recognized response shape of the translation endpoint.
pub struct DeepLXResponse {
    pub code: i64,
    pub data: Vec<u8>,
}

/// Settings of the translation orchestrator.
#[derive(Clone)]
pub struct TranslationConfig {
    pub enabled: bool,
    pub source_lang: Vec<u8>,
    pub target_lang: Vec<u8>,
    pub deeplx_api_url: Vec<u8>,
    /// Requests per second, in thousandths (500 is one request per 2 s).
    pub max_requests_per_second_milli: u64,
    pub max_text_length: usize,
    pub max_paragraphs_per_request: usize,
}

/// The documented default translation settings: disabled, automatic source
/// language into Chinese, the local endpoint, half a request per second, a
/// three-thousand-byte chunk budget, ten paragraphs per request.
pub open spec fn is_default_translation_config(c: TranslationConfig) -> bool {
    &&& !c.enabled
    &&& c.source_lang@ == bytes_of_ascii("auto"@)
    &&& c.target_lang@ == bytes_of_ascii("zh"@)
    &&& c.deeplx_api_url@ == bytes_of_ascii("http://localhost:1188/translate"@)
    &&& c.max_requests_per_second_milli == 500
    &&& c.max_text_length == 3000
    &&& c.max_paragraphs_per_request == 10
}

impl Default for TranslationConfig {
    fn default() -> (r: Self)
        ensures
            is_default_translation_config(r),
    {
        proof {
            reveal_strlit("auto");
            reveal_strlit("zh");
            reveal_strlit("http://localhost:1188/translate");
        }
        TranslationConfig {
            enabled: false,
            source_lang: ascii_bytes("auto"),
            target_lang: ascii_bytes("zh"),
            deeplx_api_url: ascii_bytes("http://localhost:1188/translate"),
            max_requests_per_second_milli: 500,
            max_text_length: 3000,
            max_paragraphs_per_request: 10,
        }
    }
}

/// Settings of the retry/backoff policy.
#[derive(Clone)]
pub struct RetryConfig {
    pub max_retries: usize,
    pub initial_delay_ms: u64,
    pub max_delay_ms: u64,
    /// Backoff multiplier, in thousandths (1500 is one and a half).
    pub backoff_multiplier_milli: u64,
}

impl Default for RetryConfig {
    fn default() -> (r: Self)
        ensures
            r.max_retries == 2,
            r.initial_delay_ms == 300,
            r.max_delay_ms == 3000,
            r.backoff_multiplier_milli == 1500,
    {
        RetryConfig {
            max_retries: 2,
            initial_delay_ms: 300,
            max_delay_ms: 3000,
            backoff_multiplier_milli: 1500,
        }
    }
}

} // verus!
