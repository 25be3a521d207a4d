//! Configuration-file values and their defaults.
//!
//! Loading and saving the file itself is I/O and lives outside the library;
//! here are the value types, the default for every setting, and the
//! conversion to the orchestrator's `TranslationConfig`.

use vstd::prelude::*;

use crate::text::{ascii_bytes, bytes_of_ascii, copy_bytes};
use crate::types::TranslationConfig;

verus! {

pub fn default_output_dir() -> (r: Vec<u8>)
    ensures
        r@ == bytes_of_ascii("./downloads"@),
{
    proof {
        reveal_strlit("./downloads");
    }
    ascii_bytes("./downloads")
}

pub fn default_max_pages() -> (r: u32)
    ensures
        r == 50,
{
    50
}

pub fn default_batch_size() -> (r: usize)
    ensures
        r == 10,
{
    10
}

pub fn default_wait_time() -> (r: u64)
    ensures
        r == 60,
{
    60
}

pub fn default_request_delay() -> (r: u64)
    ensures
        r == 500,
{
    500
}

pub fn default_timeout() -> (r: u64)
    ensures
        r == 30,
{
    30
}

pub fn default_user_agent() -> (r: Vec<u8>)
    ensures
        r@ == bytes_of_ascii("Mozilla/5.0 (compatible; MarkdownDownloader/1.0)"@),
{
    proof {
        reveal_strlit("Mozilla/5.0 (compatible; MarkdownDownloader/1.0)");
    }
    ascii_bytes("Mozilla/5.0 (compatible; MarkdownDownloader/1.0)")
}

pub fn default_source_lang() -> (r: Vec<u8>)
    ensures
        r@ == bytes_of_ascii("auto"@),
{
    proof {
        reveal_strlit("auto");
    }
    ascii_bytes("auto")
}

pub fn default_target_lang() -> (r: Vec<u8>)
    ensures
        r@ == bytes_of_ascii("zh"@),
{
    proof {
        reveal_strlit("zh");
    }
    ascii_bytes("zh")
}

pub fn default_deeplx_url() -> (r: Vec<u8>)
    ensures
        r@ == bytes_of_ascii("http://localhost:1188/translate"@),
{
    proof {
        reveal_strlit("http://localhost:1188/translate");
    }
    ascii_bytes("http://localhost:1188/translate")
}

/// Default request rate of the translation endpoint, in thousandths of a
/// request per second (2000 is two requests per second).
pub fn default_max_requests_per_second_milli() -> (r: u64)
    ensures
        r == 2000,
{
    2000
}

pub fn default_max_text_length() -> (r: usize)
    ensures
        r == 3000,
{
    3000
}

pub fn default_max_paragraphs_per_request() -> (r: usize)
    ensures
        r == 10,
{
    10
}

/// General run settings of the configuration file.
pub struct GeneralConfig {
    pub output_dir: Vec<u8>,
    pub max_pages: u32,
    pub batch_size: usize,
    pub wait_time: u64,
    pub request_delay: u64,
    pub timeout: u64,
    pub user_agent: Vec<u8>,
}

pub open spec fn is_default_general_config(c: GeneralConfig) -> bool {
    &&& c.output_dir@ == bytes_of_ascii("./downloads"@)
    &&& c.max_pages == 50
    &&& c.batch_size == 10
    &&& c.wait_time == 60
    &&& c.request_delay == 500
    &&& c.timeout == 30
    &&& c.user_agent@ == bytes_of_ascii("Mozilla/5.0 (compatible; MarkdownDownloader/1.0)"@)
}

impl Default for GeneralConfig {
    fn default() -> (r: Self)
        ensures
            is_default_general_config(r),
    {
        GeneralConfig {
            output_dir: default_output_dir(),
            max_pages: default_max_pages(),
            batch_size: default_batch_size(),
            wait_time: default_wait_time(),
            request_delay: default_request_delay(),
            timeout: default_timeout(),
            user_agent: default_user_agent(),
        }
    }
}

/// Translation settings of the configuration file.
pub struct TranslationFileConfig {
    pub enabled: bool,
    pub source_lang: Vec<u8>,
    pub target_lang: Vec<u8>,
    pub deeplx_api_url: Vec<u8>,
    /// Requests per second, in thousandths.
    pub max_requests_per_second_milli: u64,
    pub max_text_length: usize,
    pub max_paragraphs_per_request: usize,
}

pub open spec fn is_default_translation_file_config(c: TranslationFileConfig) -> bool {
    &&& !c.enabled
    &&& c.source_lang@ == bytes_of_ascii("auto"@)
    &&& c.target_lang@ == bytes_of_ascii("zh"@)
    &&& c.deeplx_api_url@ == bytes_of_ascii("http://localhost:1188/translate"@)
    &&& c.max_requests_per_second_milli == 2000
    &&& c.max_text_length == 3000
    &&& c.max_paragraphs_per_request == 10
}

impl Default for TranslationFileConfig {
    fn default() -> (r: Self)
        ensures
            is_default_translation_file_config(r),
    {
        TranslationFileConfig {
            enabled: false,
            source_lang: default_source_lang(),
            target_lang: default_target_lang(),
            deeplx_api_url: default_deeplx_url(),
            max_requests_per_second_milli: default_max_requests_per_second_milli(),
            max_text_length: default_max_text_length(),
            max_paragraphs_per_request: default_max_paragraphs_per_request(),
        }
    }
}

/// The whole configuration file.
pub struct ConfigFile {
    pub general: GeneralConfig,
    pub translation: TranslationFileConfig,
}

impl Default for ConfigFile {
    fn default() -> (r: Self)
        ensures
            is_default_general_config(r.general),
            is_default_translation_file_config(r.translation),
    {
        ConfigFile { general: GeneralConfig::default(), translation: TranslationFileConfig::default() }
    }
}

impl ConfigFile {
    /// The translation settings of this file, as the orchestrator takes them.
    pub fn to_translation_config(&self) -> (r: TranslationConfig)
        ensures
            r.enabled == self.translation.enabled,
            r.source_lang@ == self.translation.source_lang@,
            r.target_lang@ == self.translation.target_lang@,
            r.deeplx_api_url@ == self.translation.deeplx_api_url@,
            r.max_requests_per_second_milli == self.translation.max_requests_per_second_milli,
            r.max_text_length == self.translation.max_text_length,
            r.max_paragraphs_per_request == self.translation.max_paragraphs_per_request,
    {
        TranslationConfig {
            enabled: self.translation.enabled,
            source_lang: copy_bytes(&self.translation.source_lang),
            target_lang: copy_bytes(&self.translation.target_lang),
            deeplx_api_url: copy_bytes(&self.translation.deeplx_api_url),
            max_requests_per_second_milli: self.translation.max_requests_per_second_milli,
            max_text_length: self.translation.max_text_length,
            max_paragraphs_per_request: self.translation.max_paragraphs_per_request,
        }
    }
}

} // verus!
