use markdown_downloader::links_manager::{
    failure_line, links_file_name, render_links_file_header, success_line, LinksManager,
};

fn ledger_from(text: &[u8]) -> LinksManager {
    LinksManager::new(b"site_links.txt".to_vec(), text)
}

#[test]
fn loads_success_lines_only() {
    let record = "# Links Processing Record\n\
                  # Generated on: 2024-01-01 00:00:00 UTC\n\
                  \n\
                  ✅ https://a.example/one | one.md | 2024-01-01 00:00:01\n\
                  ❌ https://a.example/two | ERROR: boom | 2024-01-01 00:00:02\n\
                  garbage line without markers\n\
                  ✅ https://a.example/three | three.md | 2024-01-01 00:00:03\n";
    let lm = ledger_from(record.as_bytes());
    assert_eq!(lm.get_processed_count(), 2);
    assert!(lm.is_processed(b"https://a.example/one"));
    assert!(lm.is_processed(b"https://a.example/three"));
    assert!(!lm.is_processed(b"https://a.example/two"));
}

#[test]
fn malformed_lines_are_ignored() {
    let record = "✅ no separator here\n✅\n✅ https://ok.example/x | f.md | t\n";
    let lm = ledger_from(record.as_bytes());
    assert_eq!(lm.get_processed_count(), 1);
    assert!(lm.is_processed(b"https://ok.example/x"));
}

#[test]
fn duplicate_success_lines_counted_once() {
    let record = "✅ https://a.example/p | f.md | t1\n✅ https://a.example/p | f.md | t2\n";
    let lm = ledger_from(record.as_bytes());
    assert_eq!(lm.get_processed_count(), 1);
}

#[test]
fn filter_unprocessed_returns_exact_complement_in_order() {
    let record = "✅ https://s.example/a | a.md | t\n✅ https://s.example/c | c.md | t\n";
    let lm = ledger_from(record.as_bytes());
    let urls = vec![
        b"https://s.example/a".to_vec(),
        b"https://s.example/b".to_vec(),
        b"https://s.example/c".to_vec(),
        b"https://s.example/d".to_vec(),
    ];
    let left = lm.filter_unprocessed_urls(urls);
    assert_eq!(left, vec![b"https://s.example/b".to_vec(), b"https://s.example/d".to_vec()]);
}

#[test]
fn mark_as_processed_appends_exact_line_once() {
    let mut lm = ledger_from(b"");
    let line = lm.mark_as_processed_at(b"https://s.example/a", b"a.md", b"2024-01-02 03:04:05");
    assert_eq!(
        line,
        Some("✅ https://s.example/a | a.md | 2024-01-02 03:04:05\n".as_bytes().to_vec())
    );
    assert_eq!(lm.get_processed_count(), 1);
    // a second run records nothing for the same URL
    let again = lm.mark_as_processed_at(b"https://s.example/a", b"a.md", b"2024-01-02 03:04:06");
    assert_eq!(again, None);
    assert_eq!(lm.get_processed_count(), 1);
}

#[test]
fn mark_as_failed_is_log_only() {
    let mut lm = ledger_from(b"");
    let line = lm.mark_as_failed_at(b"https://s.example/a", b"timeout", b"ts");
    assert_eq!(line, "❌ https://s.example/a | ERROR: timeout | ts\n".as_bytes().to_vec());
    assert_eq!(lm.get_processed_count(), 0);
    // a failure does not suppress a later success
    let ok = lm.mark_as_processed_at(b"https://s.example/a", b"a.md", b"ts2");
    assert!(ok.is_some());
    assert!(lm.is_processed(b"https://s.example/a"));
}

#[test]
fn appended_lines_parse_back_on_resume() {
    let l1 = success_line(b"https://s.example/a", b"a.md", b"t1");
    let l2 = failure_line(b"https://s.example/b", b"boom", b"t2");
    let l3 = success_line(b"https://s.example/c", b"c.md", b"t3");
    let mut record: Vec<u8> = render_links_file_header(b"t0");
    record.extend_from_slice(&l1);
    record.extend_from_slice(&l2);
    record.extend_from_slice(&l3);
    let lm = ledger_from(&record);
    assert_eq!(lm.get_processed_count(), 2);
    assert!(lm.is_processed(b"https://s.example/a"));
    assert!(lm.is_processed(b"https://s.example/c"));
    assert!(!lm.is_processed(b"https://s.example/b"));
}

#[test]
fn links_file_name_from_host() {
    let name = links_file_name(b"https://docs.example.com/guide").unwrap();
    assert_eq!(name, b"docs_example_com_links.txt".to_vec());
}

#[test]
fn links_file_name_rejects_bad_url() {
    assert!(links_file_name(b"not a url").is_err());
}

#[test]
fn extract_url_from_line_forms() {
    let lm = ledger_from(b"");
    let got = lm.extract_url_from_line("✅ https://x.example/p | f.md | ts".as_bytes());
    assert_eq!(got, Some(b"https://x.example/p".to_vec()));
    assert_eq!(lm.extract_url_from_line(b"nospacesep"), None);
    assert_eq!(lm.extract_url_from_line(b"mark urlwithoutbars"), None);
}

#[test]
fn export_lists_all_processed_links() {
    let mut lm = ledger_from(b"");
    lm.mark_as_processed_at(b"https://s.example/a", b"a.md", b"t");
    lm.mark_as_processed_at(b"https://s.example/b", b"b.md", b"t");
    let out = lm.render_export(b"2024-05-06 07:08:09");
    let expect = "# Processed Links Export\n# Exported on: 2024-05-06 07:08:09\n# Total links: 2\n\nhttps://s.example/a\nhttps://s.example/b\n";
    assert_eq!(out, expect.as_bytes().to_vec());
}

#[test]
fn get_all_processed_links_copies_the_set() {
    let mut lm = ledger_from(b"");
    lm.mark_as_processed_at(b"https://s.example/a", b"a.md", b"t");
    let all = lm.get_all_processed_links();
    assert_eq!(all, vec![b"https://s.example/a".to_vec()]);
}
