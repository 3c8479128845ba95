use npurag::extract::{extract, looks_binary, needs_extractor, ExtractOptions, Extraction, SkipReason};

#[test]
fn plain_text_needs_no_extractor_in_any_build() {
    assert!(!needs_extractor("notes.md"));
    assert_eq!(
        extract("notes.md", "zażółć gęślą jaźń".as_bytes()),
        Extraction::Text("zażółć gęślą jaźń".to_string())
    );
    assert!(!needs_extractor("src/main.rs"));
    assert!(!needs_extractor("Makefile"));
}

#[test]
fn binary_files_are_still_detected_by_content() {
    assert!(looks_binary(&[b'a', 0, b'b']));
    assert_eq!(
        extract("blob.dat", &[0, 1, 2]),
        Extraction::Skipped(SkipReason::Binary)
    );
}

#[test]
fn legacy_formats_are_skipped_when_no_external_tool_may_run() {
    assert_eq!(
        extract("old.doc", b"whatever"),
        Extraction::Skipped(SkipReason::UnsupportedFormat)
    );
}

#[test]
fn documents_needing_a_parser_are_recognised_by_extension() {
    for name in ["a.pdf", "b.DOCX", "c.Odt", "d.epub", "dir.x/e.xlsx", "f.rtf"] {
        assert!(needs_extractor(name), "{name}");
        assert_eq!(
            extract(name, b"whatever"),
            Extraction::Skipped(SkipReason::UnsupportedFormat)
        );
    }
    assert!(!needs_extractor(".pdf"));
    assert!(!needs_extractor("pdf"));
}

#[test]
fn formats_are_recognised_by_extension() {
    for name in ["a.pdf", "a.PDF", "a.html", "a.htm", "a.docx", "a.odt", "a.doc", "a.epub"] {
        assert!(needs_extractor(name), "{name}");
    }
    assert!(!needs_extractor("a.md"));
    assert!(!needs_extractor("noextension"));
}

#[test]
fn a_missing_extractor_skips_instead_of_failing() {
    let fixtures: [(&str, &[u8]); 3] = [
        ("invoice.pdf", b"%PDF-1.4\n1 0 obj << /Type /Catalog >> endobj\n"),
        ("meeting.docx", b"PK\x03\x04\x14\x00\x06\x00word/document.xml"),
        ("page.html", b"<html><h1>Deployment runbook</h1></html>"),
    ];
    for (name, bytes) in fixtures {
        assert_eq!(
            extract(name, bytes),
            Extraction::Skipped(SkipReason::UnsupportedFormat),
            "{name}"
        );
    }
}

#[test]
fn invalid_utf8_degrades_instead_of_failing() {
    match extract("odd.txt", &[b'a', 0xff, b'b']) {
        Extraction::Text(text) => {
            assert!(text.contains('a') && text.contains('b'));
            assert_eq!(text, "a\u{fffd}b");
        }
        other => panic!("expected lossy text, got {other:?}"),
    }
}

#[test]
fn a_nul_far_past_the_sniff_window_does_not_condemn_the_file() {
    let mut bytes = vec![b'a'; 4096];
    bytes.push(0);
    assert!(!looks_binary(&bytes));
    let mut near = vec![b'a'; 2000];
    near[1023] = 0;
    assert!(looks_binary(&near));
    near[1023] = b'a';
    near[1024] = 0;
    assert!(!looks_binary(&near));
    assert!(!looks_binary(b""));
}

#[test]
fn external_tools_are_allowed_by_default() {
    assert!(ExtractOptions::default().external_tools);
}
