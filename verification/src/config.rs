//! Run configuration and its validation.

use vstd::prelude::*;

use crate::config_file::ConfigFile;
use crate::text::{ascii_bytes, bytes_of_ascii, copy_bytes};
use crate::types::{is_default_translation_config, Error, TranslationConfig};

verus! {

/// The settings of one run.
#[derive(Clone)]
pub struct Config {
    pub url: Vec<u8>,
    pub output_dir: Vec<u8>,
    pub max_pages: u32,
    pub batch_size: usize,
    pub wait_time: u64,
    pub request_delay: u64,
    pub timeout: u64,
    pub user_agent: Vec<u8>,
    pub translation: TranslationConfig,
}

/// The result is a fatal configuration error with this message.
pub open spec fn is_config_err<T>(r: Result<T, Error>, msg: Seq<char>) -> bool {
    r matches Err(Error::Config(m)) && m@ == bytes_of_ascii(msg)
}

impl Config {
    pub fn new(
        url: Vec<u8>,
        output_dir: Vec<u8>,
        max_pages: u32,
        batch_size: usize,
        wait_time: u64,
    ) -> (r: Self)
        ensures
            r.url == url,
            r.output_dir == output_dir,
            r.max_pages == max_pages,
            r.batch_size == batch_size,
            r.wait_time == wait_time,
            r.request_delay == 500,
            r.timeout == 30,
            r.user_agent@ == bytes_of_ascii("Mozilla/5.0 (compatible; MarkdownDownloader/1.0)"@),
            is_default_translation_config(r.translation),
    {
        Config {
            url,
            output_dir,
            max_pages,
            batch_size,
            wait_time,
            request_delay: 500,
            timeout: 30,
            user_agent: crate::config_file::default_user_agent(),
            translation: TranslationConfig::default(),
        }
    }

    pub fn from_config_file(url: Vec<u8>, config_file: &ConfigFile) -> (r: Self)
        ensures
            r.url == url,
            r.output_dir@ == config_file.general.output_dir@,
            r.max_pages == config_file.general.max_pages,
            r.batch_size == config_file.general.batch_size,
            r.wait_time == config_file.general.wait_time,
            r.request_delay == config_file.general.request_delay,
            r.timeout == config_file.general.timeout,
            r.user_agent@ == config_file.general.user_agent@,
            r.translation.enabled == config_file.translation.enabled,
            r.translation.source_lang@ == config_file.translation.source_lang@,
            r.translation.target_lang@ == config_file.translation.target_lang@,
            r.translation.deeplx_api_url@ == config_file.translation.deeplx_api_url@,
            r.translation.max_requests_per_second_milli
                == config_file.translation.max_requests_per_second_milli,
            r.translation.max_text_length == config_file.translation.max_text_length,
            r.translation.max_paragraphs_per_request
                == config_file.translation.max_paragraphs_per_request,
    {
        Config {
            url,
            output_dir: copy_bytes(&config_file.general.output_dir),
            max_pages: config_file.general.max_pages,
            batch_size: config_file.general.batch_size,
            wait_time: config_file.general.wait_time,
            request_delay: config_file.general.request_delay,
            timeout: config_file.general.timeout,
            user_agent: copy_bytes(&config_file.general.user_agent),
            translation: config_file.to_translation_config(),
        }
    }

    pub fn with_translation(self, translation: TranslationConfig) -> (r: Self)
        ensures
            r.translation == translation,
            r.url == self.url,
            r.output_dir == self.output_dir,
            r.max_pages == self.max_pages,
            r.batch_size == self.batch_size,
            r.wait_time == self.wait_time,
            r.request_delay == self.request_delay,
            r.timeout == self.timeout,
            r.user_agent == self.user_agent,
    {
        Config { translation, ..self }
    }

    /// Check the run parameters; rejects an empty URL, an empty output
    /// directory, a zero page limit and a zero batch size, in that order.
    pub fn validate(&self) -> (r: Result<(), Error>)
        ensures
            r is Ok <==> self.url@.len() > 0 && self.output_dir@.len() > 0 && self.max_pages > 0
                && self.batch_size > 0,
            self.url@.len() == 0 ==> is_config_err(r, "URL cannot be empty"@),
            self.url@.len() > 0 && self.output_dir@.len() == 0 ==> is_config_err(
                r,
                "Output directory cannot be empty"@,
            ),
            self.url@.len() > 0 && self.output_dir@.len() > 0 && self.max_pages == 0
                ==> is_config_err(r, "Max pages must be greater than 0"@),
            self.url@.len() > 0 && self.output_dir@.len() > 0 && self.max_pages > 0
                && self.batch_size == 0 ==> is_config_err(
                r,
                "Batch size must be greater than 0"@,
            ),
    {
        if self.url.len() == 0 {
            proof {
                reveal_strlit("URL cannot be empty");
            }
            return Err(Error::Config(ascii_bytes("URL cannot be empty")));
        }
        if self.output_dir.len() == 0 {
            proof {
                reveal_strlit("Output directory cannot be empty");
            }
            return Err(Error::Config(ascii_bytes("Output directory cannot be empty")));
        }
        if self.max_pages == 0 {
            proof {
                reveal_strlit("Max pages must be greater than 0");
            }
            return Err(Error::Config(ascii_bytes("Max pages must be greater than 0")));
        }
        if self.batch_size == 0 {
            proof {
                reveal_strlit("Batch size must be greater than 0");
            }
            return Err(Error::Config(ascii_bytes("Batch size must be greater than 0")));
        }
        Ok(())
    }
}

} // verus!
