//! A verified core for a resumable, rate-limited, batch-concurrent page
//! processing pipeline: a structure-aware text chunker, a resumable link
//! ledger, retry/backoff and rate-budget policies, a translation
//! orchestrator, a batch scheduler, and a bilingual content assembler.
//!
//! All document text is handled as byte sequences (`Vec<u8>`), so that the
//! size budgets of the chunker are byte budgets.

pub mod chunker;
pub mod clock;
pub mod config;
pub mod config_file;
pub mod converter;
pub mod file_manager;
pub mod folder_manager;
pub mod progress;
pub mod scheduler;
pub mod links_manager;
pub mod text;
pub mod translator;
pub mod types;
pub mod urls;
