use markdown_downloader::file_manager::FileManager;
use markdown_downloader::folder_manager::FolderManager;
use markdown_downloader::types::{FileType, TranslationConfig};

fn manager(enabled: bool) -> FolderManager {
    let mut tc = TranslationConfig::default();
    tc.enabled = enabled;
    FolderManager::new(b"./downloads".to_vec(), tc)
}

#[test]
fn bilingual_pairs_paragraphs_in_order() {
    let fm = manager(true);
    let out = fm.create_bilingual_content("A\n\nB".as_bytes(), "甲\n\n乙".as_bytes());
    let expect = "甲\n\nA\n\n\n乙\n\nB\n\n\n";
    assert_eq!(out, expect.as_bytes().to_vec());
}

#[test]
fn bilingual_falls_back_on_unequal_counts() {
    let fm = manager(true);
    let out = fm.create_bilingual_content(b"A\n\nB", b"X");
    let expect = "**译文:**\n\nX\n\n---\n\n**原文:**\n\nA\n\nB\n";
    assert_eq!(out, expect.as_bytes().to_vec());
}

#[test]
fn bilingual_fallback_puts_translated_above_original() {
    let fm = manager(true);
    let out = fm.create_bilingual_content("A".as_bytes(), "甲\n\n乙".as_bytes());
    let expect = "**译文:**\n\n甲\n\n乙\n\n---\n\n**原文:**\n\nA\n";
    assert_eq!(out, expect.as_bytes().to_vec());
}

#[test]
fn bilingual_skips_blank_pairs() {
    let fm = manager(true);
    let out = fm.create_bilingual_content(b"A\n\n \n\nB", b"x\n\n\t\n\ny");
    let expect = "x\n\nA\n\n\ny\n\nB\n\n\n";
    assert_eq!(out, expect.as_bytes().to_vec());
}

#[test]
fn bilingual_empty_translated_side_in_fallback() {
    let fm = manager(true);
    let out = fm.create_bilingual_content(b"A\n\nB", b"");
    // one paragraph against two: fallback, and the blank translated side
    // is left out entirely
    let expect = "**原文:**\n\nA\n\nB\n";
    assert_eq!(out, expect.as_bytes().to_vec());
}

#[test]
fn folder_path_plain_when_translation_off() {
    let fm = manager(false);
    let p = fm.get_folder_path(b"https://docs.example.com/guide", FileType::Original).unwrap();
    assert_eq!(p, b"./downloads/docs.example.com".to_vec());
}

#[test]
fn folder_path_tagged_when_translation_on() {
    let fm = manager(true);
    let p = fm.get_folder_path(b"https://docs.example.com/guide", FileType::Bilingual).unwrap();
    assert_eq!(p, b"./downloads/docs.example.com_auto-zh/bilingual".to_vec());
}

#[test]
fn folder_path_rejects_bad_url() {
    let fm = manager(true);
    assert!(fm.get_folder_path(b"no scheme here", FileType::Original).is_err());
}

#[test]
fn filename_is_deterministic_in_the_url() {
    let fm = manager(true);
    let name = fm.generate_filename(b"https://docs.example.com/api/v2").unwrap();
    assert_eq!(name, b"docs_example_com_api_v2.md".to_vec());
    // repeated runs target the same location
    let again = fm.generate_filename(b"https://docs.example.com/api/v2").unwrap();
    assert_eq!(name, again);
}

#[test]
fn filename_root_path_is_index() {
    let fm = manager(true);
    let name = fm.generate_filename(b"https://docs.example.com").unwrap();
    assert_eq!(name, b"docs_example_com_index.md".to_vec());
}

#[test]
fn flat_filename_with_path() {
    let fm = FileManager::new(b"./downloads".to_vec());
    let name = fm.generate_filename(b"https://docs.example.com/a/b.html").unwrap();
    assert_eq!(name, b"docs.example.com_a_b.html.md".to_vec());
    assert_eq!(name, fm.generate_filename(b"https://docs.example.com/a/b.html").unwrap());
}

#[test]
fn flat_filename_root_path_has_no_suffix() {
    let fm = FileManager::new(b"./downloads".to_vec());
    let name = fm.generate_filename(b"https://docs.example.com/").unwrap();
    assert_eq!(name, b"docs.example.com.md".to_vec());
}

#[test]
fn save_plan_writes_three_files_with_translation() {
    let fm = manager(true);
    let plan = fm
        .save_plan(b"https://d.example/p", b"orig", Some(&b"trans".to_vec()))
        .unwrap();
    assert_eq!(plan.len(), 3);
    assert_eq!(
        plan[0].path,
        b"./downloads/d.example_auto-zh/original/d_example_p.md".to_vec()
    );
    assert_eq!(plan[0].content, b"orig".to_vec());
    assert_eq!(plan[1].content, b"trans".to_vec());
    assert_eq!(plan[2].content, b"trans\n\norig\n\n\n".to_vec());
}

#[test]
fn save_plan_single_file_when_translation_off() {
    let fm = manager(false);
    let plan = fm.save_plan(b"https://d.example/p", b"orig", None).unwrap();
    assert_eq!(plan.len(), 1);
    assert_eq!(plan[0].path, b"./downloads/d.example/d_example_p.md".to_vec());
}

#[test]
fn folders_to_create_lists_every_kind_when_translating() {
    let fm = manager(true);
    let fs = fm.folders_to_create(b"https://d.example/p").unwrap();
    assert_eq!(
        fs,
        vec![
            b"./downloads/d.example_auto-zh/original".to_vec(),
            b"./downloads/d.example_auto-zh/translated".to_vec(),
            b"./downloads/d.example_auto-zh/bilingual".to_vec(),
        ]
    );
    let fm2 = manager(false);
    let fs2 = fm2.folders_to_create(b"https://d.example/p").unwrap();
    assert_eq!(fs2, vec![b"./downloads/d.example".to_vec()]);
}
