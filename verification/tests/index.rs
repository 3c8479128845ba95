use npurag::extract::SkipReason;
use npurag::index::{
    check_embedding_count, file_step, missing_paths, Contents, FileStep, IndexReport,
};

fn digest_of(bytes: &[u8]) -> String {
    blake3::hash(bytes).to_hex().to_string()
}

#[test]
fn an_untouched_file_is_not_opened() {
    let step = file_step("notes.md", Some((10, "abc")), 10, true, Contents::NotRead);
    assert_eq!(step, FileStep::Unchanged);
}

#[test]
fn moved_metadata_asks_for_the_file_to_be_read() {
    assert_eq!(file_step("notes.md", Some((10, "abc")), 11, true, Contents::NotRead), FileStep::Read);
    assert_eq!(file_step("notes.md", Some((10, "abc")), 10, false, Contents::NotRead), FileStep::Read);
    assert_eq!(file_step("notes.md", None, 10, true, Contents::NotRead), FileStep::Read);
    assert_eq!(
        file_step("notes.md", None, 10, true, Contents::Unreadable),
        FileStep::Unreadable
    );
}

#[test]
fn a_resaved_file_with_the_same_content_is_only_touched() {
    let bytes = b"nightly backup at 02:00\n";
    let digest = digest_of(bytes);
    let known = Some((3, digest.as_str()));
    assert_eq!(
        file_step("ops/backup.md", known, bytes.len() as u64, false, Contents::Bytes(bytes)),
        FileStep::Touch
    );
}

#[test]
fn changed_content_is_indexed_under_its_blake3_digest() {
    let bytes = b"hello";
    let step = file_step("greeting.txt", Some((5, "stale")), 5, false, Contents::Bytes(bytes));
    let expected = "ea8f163db38682925e4491c5e58d4bb3506ef8c14eb78a86e908c5624a67200f";
    assert_eq!(
        step,
        FileStep::Index { text: "hello".to_string(), digest: expected.to_string() }
    );
    assert_eq!(digest_of(bytes), expected);
}

#[test]
fn a_skipped_file_is_forgotten_only_when_it_was_indexed_before() {
    assert_eq!(
        file_step("report.pdf", None, 4, false, Contents::Bytes(b"%PDF")),
        FileStep::Skip { reason: SkipReason::UnsupportedFormat, forget: false }
    );
    assert_eq!(
        file_step("blob.dat", Some((2, "old")), 3, false, Contents::Bytes(&[0, 1, 2])),
        FileStep::Skip { reason: SkipReason::Binary, forget: true }
    );
    assert_eq!(
        file_step("page.html", Some((9, "old")), 40, true, Contents::Bytes(b"<html></html>")),
        FileStep::Skip { reason: SkipReason::UnsupportedFormat, forget: true }
    );
}

#[test]
fn reindexing_an_unchanged_tree_changes_nothing() {
    let files: [(&str, &[u8]); 3] = [
        ("a.md", b"alpha\n"),
        ("b.rs", b"fn main() {}\n"),
        ("c.txt", b"gamma"),
    ];
    let digests: Vec<String> = files.iter().map(|(_, b)| digest_of(b)).collect();
    let mut report = IndexReport::default();
    for (i, (path, bytes)) in files.iter().enumerate() {
        let known = Some((bytes.len() as i64, digests[i].as_str()));
        // The second file's modification time moved; its content did not.
        let same_mtime = i != 1;
        let mut step = file_step(path, known, bytes.len() as u64, same_mtime, Contents::NotRead);
        if step == FileStep::Read {
            step = file_step(path, known, bytes.len() as u64, same_mtime, Contents::Bytes(bytes));
        }
        assert!(matches!(step, FileStep::Unchanged | FileStep::Touch), "{path}");
        assert!(report.can_note(&step, 0));
        report.note_step(&step, 0);
    }
    let known: Vec<String> = files.iter().map(|(p, _)| p.to_string()).collect();
    let gone = missing_paths(&known, &vec![true; known.len()]);
    report.note_removed(gone.len());
    assert_eq!(report.unchanged, 3);
    assert_eq!((report.indexed, report.chunks_written, report.removed), (0, 0, 0));
    assert_eq!(report.skipped(), 0);
}

#[test]
fn files_the_walk_no_longer_sees_are_removed_in_order() {
    let known = vec!["a".to_string(), "b".to_string(), "c".to_string(), "d".to_string()];
    assert_eq!(
        missing_paths(&known, &vec![true, false, true, false]),
        vec!["b".to_string(), "d".to_string()]
    );
    assert!(missing_paths(&vec![], &vec![]).is_empty());
}

#[test]
fn a_full_counter_is_reported_before_it_overflows() {
    let mut report = IndexReport::default();
    report.unchanged = usize::MAX;
    assert!(!report.can_note(&FileStep::Touch, 0));
    assert!(report.can_note(&FileStep::Unreadable, 0));
    report.chunks_written = usize::MAX - 2;
    let indexed = FileStep::Index { text: String::new(), digest: String::new() };
    assert!(report.can_note(&indexed, 2));
    assert!(!report.can_note(&indexed, 3));
}

#[test]
fn one_embedding_is_needed_per_chunk() {
    assert_eq!(check_embedding_count("a.md", 3, 3), Ok(()));
    assert_eq!(
        check_embedding_count("docs/a.md", 2, 3),
        Err("the backend returned 2 embeddings for 3 chunks of docs/a.md".to_string())
    );
}

#[test]
fn the_run_summary_reports_each_counter() {
    let mut report = IndexReport::default();
    report.scanned = 4;
    report.indexed = 1;
    report.chunks_written = 7;
    report.unchanged = 2;
    report.skipped_binary = 1;
    assert_eq!(
        report.summary("/home/u/notes", "/tmp/i.db"),
        "root         /home/u/notes\nindex        /tmp/i.db\nscanned      4\n\
         indexed      1 file(s), 7 chunk(s)\nunchanged    2\n\
         skipped      1 (1 binary, 0 needing an extractor, 0 too large, 0 unreadable)\n"
    );
    report.skipped_binary = 0;
    report.removed = 3;
    assert!(report
        .summary("r", "i")
        .ends_with("unchanged    2\nremoved      3 file(s) no longer present\n"));
}
