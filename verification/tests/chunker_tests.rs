use markdown_downloader::chunker::{
    identify_code_blocks, split_by_code_blocks, split_long_paragraph, split_text_by_empty_lines,
    split_text_into_chunks,
};

fn non_ws(s: &[u8]) -> Vec<u8> {
    s.iter().copied().filter(|b| !matches!(b, 32 | 9 | 10 | 13)).collect()
}

fn contains_sub(hay: &[u8], needle: &[u8]) -> bool {
    needle.is_empty() || hay.windows(needle.len()).any(|w| w == needle)
}

#[test]
fn empty_document_yields_zero_chunks() {
    let chunks = split_text_into_chunks(b"", 100);
    assert_eq!(chunks.len(), 0);
}

#[test]
fn short_document_yields_one_chunk_equal_to_it() {
    let doc = b"hello world\n\nsecond paragraph";
    let chunks = split_text_into_chunks(doc, 100);
    assert_eq!(chunks.len(), 1);
    assert_eq!(chunks[0], doc.to_vec());
}

#[test]
fn round_trip_preserves_non_whitespace() {
    let doc = b"para one is here\n\npara two is here\n\n```\nlet x = 1;\n```\n\ntail text";
    let chunks = split_text_into_chunks(doc, 20);
    let mut joined: Vec<u8> = Vec::new();
    for c in &chunks {
        joined.extend_from_slice(c);
        joined.extend_from_slice(b"\n\n");
    }
    assert_eq!(non_ws(&joined), non_ws(doc));
}

#[test]
fn size_bound_holds_except_oversized_code_block() {
    let doc = b"short para\n\n```\naaaaaaaaaaaaaaaaaaaaaaaaaaaaaaaaaaaaaaaa\nbbbbbbbbbbbbbbbbbbbb\n```\n\nmore text here";
    let max = 30;
    let chunks = split_text_into_chunks(doc, max);
    let blocks = identify_code_blocks(doc);
    for c in &chunks {
        let is_block = blocks.iter().any(|&(s, e)| &doc[s..e] == c.as_slice());
        assert!(c.len() <= max || is_block, "oversized chunk is not a code block");
    }
}

#[test]
fn code_block_stays_whole_in_one_chunk() {
    let doc = b"intro paragraph with words\n\n```rust\nfn main() {}\n```\n\nclosing paragraph with words";
    let chunks = split_text_into_chunks(doc, 30);
    let blocks = identify_code_blocks(doc);
    assert_eq!(blocks.len(), 1);
    let (s, e) = blocks[0];
    let content = &doc[s..e];
    let holders: Vec<_> = chunks.iter().filter(|c| contains_sub(c, content)).collect();
    assert!(holders.len() >= 1, "code block split across chunks");
}

#[test]
fn oversized_code_block_emitted_verbatim() {
    let doc = b"x\n\n```\n0123456789012345678901234567890123456789\n```\n\ny";
    let chunks = split_text_into_chunks(doc, 10);
    let blocks = identify_code_blocks(doc);
    assert_eq!(blocks.len(), 1);
    let (s, e) = blocks[0];
    let content = doc[s..e].to_vec();
    assert!(content.len() > 10);
    assert!(chunks.contains(&content), "oversized block not its own chunk");
}

#[test]
fn identify_code_blocks_positions() {
    let doc = b"aa\n```\ncode\n```\nbb";
    let blocks = identify_code_blocks(doc);
    // the block runs from the start of the opening fence line to the end
    // of the closing fence line (exclusive of its newline)
    assert_eq!(blocks, vec![(3, 15)]);
    assert_eq!(&doc[3..15], b"```\ncode\n```");
}

#[test]
fn unterminated_fence_closed_at_end() {
    let doc = b"aa\n```\ncode never ends";
    let blocks = identify_code_blocks(doc);
    assert_eq!(blocks, vec![(3, doc.len())]);
}

#[test]
fn fence_line_detected_after_leading_whitespace() {
    let doc = b"p\n  ```\nc\n```";
    let blocks = identify_code_blocks(doc);
    assert_eq!(blocks.len(), 1);
    assert_eq!(blocks[0].0, 2);
}

#[test]
fn segments_alternate_and_cover_content() {
    let doc = b"before\n\n```\ncode\n```\nafter";
    let blocks = identify_code_blocks(doc);
    let segs = split_by_code_blocks(doc, &blocks);
    assert_eq!(segs.len(), 3);
    assert!(!segs[0].is_code_block);
    assert!(segs[1].is_code_block);
    assert!(!segs[2].is_code_block);
    assert_eq!(segs[1].content, b"```\ncode\n```".to_vec());
    let joined: Vec<u8> = segs.iter().flat_map(|s| s.content.iter().copied()).collect();
    assert_eq!(non_ws(&joined), non_ws(doc));
}

#[test]
fn split_by_empty_lines_groups_paragraphs() {
    let doc = b"aaaa\n\nbbbb\n\ncccc";
    // budget fits two paragraphs (4 + 2 + 4 = 10), not three
    let pieces = split_text_by_empty_lines(doc, 10);
    assert_eq!(pieces, vec![b"aaaa\n\nbbbb".to_vec(), b"cccc".to_vec()]);
}

#[test]
fn split_by_empty_lines_short_text_unchanged() {
    let doc = b"aa\n\nbb";
    let pieces = split_text_by_empty_lines(doc, 100);
    assert_eq!(pieces, vec![doc.to_vec()]);
}

#[test]
fn split_long_paragraph_cuts_after_sentence() {
    let p = b"aaaa. bbbb";
    let pieces = split_long_paragraph(p, 6);
    assert_eq!(pieces, vec![b"aaaa.".to_vec(), b"bbbb".to_vec()]);
}

#[test]
fn split_long_paragraph_respects_budget() {
    let p = b"word word word word word word word word word word";
    let pieces = split_long_paragraph(p, 12);
    for piece in &pieces {
        assert!(piece.len() <= 12);
        assert!(!piece.is_empty());
    }
    let joined: Vec<u8> = pieces.iter().flat_map(|c| c.iter().copied()).collect();
    assert_eq!(non_ws(&joined), non_ws(p));
}

#[test]
fn split_long_paragraph_cjk_terminator() {
    // two CJK sentences; the terminator is three bytes long
    let p = "你好。再见".as_bytes();
    let pieces = split_long_paragraph(p, 10);
    assert_eq!(pieces, vec!["你好。".as_bytes().to_vec(), "再见".as_bytes().to_vec()]);
}
