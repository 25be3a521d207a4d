use markdown_downloader::config::Config;
use markdown_downloader::config_file::{ConfigFile, GeneralConfig, TranslationFileConfig};
use markdown_downloader::converter::{conversion_request_url, interpret_conversion_response};
use markdown_downloader::types::{Error, FileType, RetryConfig, TranslationConfig};
use markdown_downloader::urls::{extract_domain, normalize_url};

#[test]
fn translation_defaults_match_the_documented_values() {
    let c = TranslationConfig::default();
    assert!(!c.enabled);
    assert_eq!(c.source_lang, b"auto".to_vec());
    assert_eq!(c.target_lang, b"zh".to_vec());
    assert_eq!(c.deeplx_api_url, b"http://localhost:1188/translate".to_vec());
    assert_eq!(c.max_requests_per_second_milli, 500);
    assert_eq!(c.max_text_length, 3000);
    assert_eq!(c.max_paragraphs_per_request, 10);
}

#[test]
fn retry_defaults_match_the_documented_values() {
    let c = RetryConfig::default();
    assert_eq!(c.max_retries, 2);
    assert_eq!(c.initial_delay_ms, 300);
    assert_eq!(c.max_delay_ms, 3000);
    assert_eq!(c.backoff_multiplier_milli, 1500);
}

#[test]
fn general_defaults_match_the_documented_values() {
    let g = GeneralConfig::default();
    assert_eq!(g.output_dir, b"./downloads".to_vec());
    assert_eq!(g.max_pages, 50);
    assert_eq!(g.batch_size, 10);
    assert_eq!(g.wait_time, 60);
    assert_eq!(g.request_delay, 500);
    assert_eq!(g.timeout, 30);
}

#[test]
fn config_file_converts_to_translation_config() {
    let mut f = ConfigFile::default();
    f.translation = TranslationFileConfig::default();
    f.translation.enabled = true;
    f.translation.max_text_length = 1234;
    let t = f.to_translation_config();
    assert!(t.enabled);
    assert_eq!(t.max_text_length, 1234);
    assert_eq!(t.source_lang, b"auto".to_vec());
}

#[test]
fn config_new_fills_fixed_fields() {
    let c = Config::new(b"https://x.example".to_vec(), b"./out".to_vec(), 10, 5, 30);
    assert_eq!(c.request_delay, 500);
    assert_eq!(c.timeout, 30);
    assert!(!c.translation.enabled);
}

#[test]
fn validate_accepts_a_sound_config() {
    let c = Config::new(b"https://x.example".to_vec(), b"./out".to_vec(), 10, 5, 30);
    assert!(c.validate().is_ok());
}

#[test]
fn validate_rejects_each_bad_parameter() {
    let ok = || Config::new(b"https://x.example".to_vec(), b"./out".to_vec(), 10, 5, 30);

    let mut c = ok();
    c.url = Vec::new();
    match c.validate() {
        Err(Error::Config(m)) => assert_eq!(m, b"URL cannot be empty".to_vec()),
        _ => panic!("expected a config error"),
    }

    let mut c = ok();
    c.output_dir = Vec::new();
    match c.validate() {
        Err(Error::Config(m)) => assert_eq!(m, b"Output directory cannot be empty".to_vec()),
        _ => panic!("expected a config error"),
    }

    let mut c = ok();
    c.max_pages = 0;
    match c.validate() {
        Err(Error::Config(m)) => assert_eq!(m, b"Max pages must be greater than 0".to_vec()),
        _ => panic!("expected a config error"),
    }

    let mut c = ok();
    c.batch_size = 0;
    match c.validate() {
        Err(Error::Config(m)) => assert_eq!(m, b"Batch size must be greater than 0".to_vec()),
        _ => panic!("expected a config error"),
    }
}

#[test]
fn normalize_url_adds_scheme_only_when_missing() {
    assert_eq!(normalize_url(&b"example.com".to_vec()), b"https://example.com".to_vec());
    assert_eq!(normalize_url(&b"http://example.com".to_vec()), b"http://example.com".to_vec());
    assert_eq!(normalize_url(&b"https://example.com".to_vec()), b"https://example.com".to_vec());
}

#[test]
fn extract_domain_uses_the_url_host() {
    assert_eq!(extract_domain(b"https://sub.example.org/p?q=1").unwrap(), b"sub.example.org".to_vec());
    assert!(extract_domain(b"not a url").is_err());
    assert!(extract_domain(b"data:text/plain,x").is_err());
}

#[test]
fn conversion_url_prefixes_the_reader() {
    let u = conversion_request_url(b"https://example.com/page");
    assert_eq!(u, b"https://r.jina.ai/https://example.com/page".to_vec());
}

#[test]
fn conversion_response_success_passes_body_through() {
    let r = interpret_conversion_response(true, 200, b"content".to_vec());
    assert_eq!(r.unwrap(), b"content".to_vec());
}

#[test]
fn conversion_response_error_names_the_status() {
    match interpret_conversion_response(false, 404, b"ignored".to_vec()) {
        Err(Error::Conversion(m)) => assert_eq!(m, b"HTTP error: 404".to_vec()),
        _ => panic!("expected a conversion error"),
    }
}

#[test]
fn error_message_accessor_returns_the_payload() {
    let e = Error::Ledger(b"bad line".to_vec());
    assert_eq!(e.message(), &b"bad line".to_vec());
}

#[test]
fn file_type_folder_names() {
    assert_eq!(FileType::Original.folder_name(), "original");
    assert_eq!(FileType::Translated.folder_name(), "translated");
    assert_eq!(FileType::Bilingual.folder_name(), "bilingual");
    assert_eq!(FileType::Original.folder_name_bytes(), b"original".to_vec());
}
