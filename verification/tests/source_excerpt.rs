use std::sync::atomic::{AtomicUsize, Ordering};
use std::sync::Mutex;

use fossilsense::source_excerpt::{
    SourceByteRange, SourceExcerpt, SourceExcerptOmission, SourceExcerptReader,
    SourceFileIdentity, SourceFileRevision, SourceMetadata, SourceRangeProvider, SourceRangeRead,
    SourceRevision, SourceUnreadable, SOURCE_EXCERPT_MAX_BYTES, SOURCE_EXCERPT_MAX_LINES,
};

struct FakeProvider {
    metadata_before: SourceMetadata,
    metadata_after: SourceMetadata,
    range_metadata_before: SourceMetadata,
    range_metadata_after: SourceMetadata,
    bytes: Vec<u8>,
    reads: Mutex<Vec<(u64, usize)>>,
    metadata_reads: AtomicUsize,
}

impl SourceRangeProvider for FakeProvider {
    fn metadata(&self, _path: &str) -> Result<SourceMetadata, SourceUnreadable> {
        let call = self.metadata_reads.fetch_add(1, Ordering::SeqCst);
        Ok(if call == 0 {
            self.metadata_before
        } else {
            self.metadata_after
        })
    }

    fn read_range(&self, _path: &str, start: u64, len: usize) -> Result<SourceRangeRead, SourceUnreadable> {
        self.reads.lock().unwrap().push((start, len));
        let start = start as usize;
        let bytes = self
            .bytes
            .get(start..start.saturating_add(len))
            .unwrap_or_default()
            .to_vec();
        Ok(SourceRangeRead {
            bytes,
            metadata_before: self.range_metadata_before,
            metadata_after: self.range_metadata_after,
        })
    }
}

fn provider(source: &str) -> FakeProvider {
    let metadata = fake_metadata(source.len() as u64, 7, 11);
    FakeProvider {
        metadata_before: metadata,
        metadata_after: metadata,
        range_metadata_before: metadata,
        range_metadata_after: metadata,
        bytes: source.as_bytes().to_vec(),
        reads: Mutex::new(Vec::new()),
        metadata_reads: AtomicUsize::new(0),
    }
}

fn fake_metadata(size: u64, mtime_ns: i64, file: u64) -> SourceMetadata {
    SourceMetadata {
        is_file: true,
        revision: SourceFileRevision { size, mtime_ns },
        file_identity: Some(SourceFileIdentity { volume: 1, file }),
    }
}

fn expected_revision(metadata: SourceMetadata, excerpt: &[u8]) -> SourceRevision {
    SourceRevision {
        size: metadata.revision.size,
        mtime_ns: metadata.revision.mtime_ns,
        excerpt_hash: *blake3::hash(excerpt).as_bytes(),
    }
}

#[test]
fn file_reader_fetches_only_the_requested_range() {
    let source = "prefix\nstruct Packet {\n  int size;\n};\nsuffix\n";
    let start = source.find("struct").unwrap();
    let end = source.find("\nsuffix").unwrap();
    let provider = provider(source);
    let expected = expected_revision(provider.metadata_before, &source.as_bytes()[start..end]);
    let reader = SourceExcerptReader::new(provider);
    let excerpt = reader.read_file(
        "packet.h",
        SourceByteRange { start, end },
        expected,
    );
    assert_eq!(excerpt.text(), Some("struct Packet {\n  int size;\n};"));
    assert_eq!(
        *reader.provider.reads.lock().unwrap(),
        vec![(start as u64, end - start)]
    );
}

#[test]
fn stale_revision_refuses_to_read_any_bytes() {
    let provider = provider("struct A {};\n");
    let reader = SourceExcerptReader::new(provider);
    let excerpt = reader.read_file(
        "a.h",
        SourceByteRange { start: 0, end: 12 },
        SourceRevision {
            size: 12,
            mtime_ns: 99,
            excerpt_hash: *blake3::hash(b"struct A {};").as_bytes(),
        },
    );
    assert_eq!(
        excerpt,
        SourceExcerpt::Omitted(SourceExcerptOmission::StaleRevision)
    );
    assert!(reader.provider.reads.lock().unwrap().is_empty());
}

#[test]
fn atomic_replacement_after_range_read_is_stale_even_with_same_revision() {
    let source = "struct A {};\n";
    let mut provider = provider(source);
    let expected = expected_revision(provider.metadata_before, source.as_bytes());
    provider.metadata_after = fake_metadata(expected.size, expected.mtime_ns, 22);
    let reader = SourceExcerptReader::new(provider);

    let excerpt = reader.read_file(
        "a.h",
        SourceByteRange {
            start: 0,
            end: source.len(),
        },
        expected,
    );

    assert_eq!(
        excerpt,
        SourceExcerpt::Omitted(SourceExcerptOmission::StaleRevision)
    );
    assert_eq!(reader.provider.metadata_reads.load(Ordering::SeqCst), 2);
}

#[test]
fn revision_change_during_range_read_is_stale() {
    let source = "struct A {};\n";
    let mut provider = provider(source);
    let expected = expected_revision(provider.metadata_before, source.as_bytes());
    provider.range_metadata_after = fake_metadata(expected.size, 8, 11);
    provider.metadata_after = provider.range_metadata_after;
    let reader = SourceExcerptReader::new(provider);

    let excerpt = reader.read_file(
        "a.h",
        SourceByteRange {
            start: 0,
            end: source.len(),
        },
        expected,
    );

    assert_eq!(
        excerpt,
        SourceExcerpt::Omitted(SourceExcerptOmission::StaleRevision)
    );
    assert_eq!(
        *reader.provider.reads.lock().unwrap(),
        vec![(0, source.len())]
    );
}

#[test]
fn same_metadata_replacement_with_different_range_bytes_is_stale() {
    let original = "struct A {};\n";
    let replacement = "struct B {};\n";
    assert_eq!(original.len(), replacement.len());
    let mut provider = provider(replacement);
    let expected = expected_revision(provider.metadata_before, original.as_bytes());
    // The fake preserves size, mtime, and file identity, matching the
    // metadata blind spot that range-local content identity closes.
    provider.metadata_after = provider.metadata_before;
    provider.range_metadata_before = provider.metadata_before;
    provider.range_metadata_after = provider.metadata_before;
    let reader = SourceExcerptReader::new(provider);

    let excerpt = reader.read_file(
        "a.h",
        SourceByteRange {
            start: 0,
            end: replacement.len(),
        },
        expected,
    );

    assert_eq!(
        excerpt,
        SourceExcerpt::Omitted(SourceExcerptOmission::StaleRevision)
    );
    assert_eq!(
        *reader.provider.reads.lock().unwrap(),
        vec![(0, replacement.len())]
    );
}

#[test]
fn byte_and_line_limits_omit_instead_of_returning_partial_text() {
    let byte_reader = SourceExcerptReader::with_limits(provider("abcdef"), 4, 20);
    assert_eq!(
        byte_reader.read_buffer("abcdef", SourceByteRange { start: 0, end: 6 }),
        SourceExcerpt::Omitted(SourceExcerptOmission::ByteLimit)
    );

    let line_reader = SourceExcerptReader::with_limits(provider("a\nb\nc\n"), 64, 2);
    assert_eq!(
        line_reader.read_buffer("a\nb\nc\n", SourceByteRange { start: 0, end: 6 }),
        SourceExcerpt::Omitted(SourceExcerptOmission::LineLimit)
    );
}

#[test]
fn buffer_reader_rejects_stale_and_non_utf8_boundaries() {
    let reader = SourceExcerptReader::new(provider("unused"));
    assert_eq!(
        reader.read_buffer("结构", SourceByteRange { start: 1, end: 3 }),
        SourceExcerpt::Omitted(SourceExcerptOmission::InvalidRange)
    );
    assert_eq!(
        reader.read_buffer("short", SourceByteRange { start: 0, end: 20 }),
        SourceExcerpt::Omitted(SourceExcerptOmission::StaleRevision)
    );
}

struct Broken;

impl SourceRangeProvider for Broken {
    fn metadata(&self, _path: &str) -> Result<SourceMetadata, SourceUnreadable> {
        Err(SourceUnreadable)
    }

    fn read_range(
        &self,
        _path: &str,
        _start: u64,
        _len: usize,
    ) -> Result<SourceRangeRead, SourceUnreadable> {
        Err(SourceUnreadable)
    }
}

#[test]
fn unreadable_files_are_omitted_as_such() {
    let reader = SourceExcerptReader::new(Broken);
    assert_eq!(reader.max_bytes, SOURCE_EXCERPT_MAX_BYTES);
    assert_eq!(reader.max_lines, SOURCE_EXCERPT_MAX_LINES);
    let expected = SourceRevision { size: 4, mtime_ns: 7, excerpt_hash: [0; 32] };
    assert_eq!(
        reader.read_file("a.h", SourceByteRange { start: 0, end: 4 }, expected),
        SourceExcerpt::Omitted(SourceExcerptOmission::Unreadable)
    );
    assert_eq!(
        reader.read_file("a.h", SourceByteRange { start: 3, end: 2 }, expected),
        SourceExcerpt::Omitted(SourceExcerptOmission::InvalidRange)
    );
    assert_eq!(
        reader.read_file("a.h", SourceByteRange { start: 0, end: 5 }, expected),
        SourceExcerpt::Omitted(SourceExcerptOmission::StaleRevision)
    );
}

#[test]
fn bytes_that_are_no_text_are_omitted() {
    let mut broken = provider("abcd");
    broken.bytes = vec![0x61, 0xFF, 0x61, 0x61];
    let expected = expected_revision(broken.metadata_before, &[0x61, 0xFF, 0x61, 0x61]);
    let reader = SourceExcerptReader::new(broken);
    assert_eq!(
        reader.read_file("a.h", SourceByteRange { start: 0, end: 4 }, expected),
        SourceExcerpt::Omitted(SourceExcerptOmission::InvalidUtf8)
    );
}

#[test]
fn buffer_excerpts_are_whole_ranges() {
    let reader = SourceExcerptReader::with_limits(provider("unused"), 64, 2);
    assert_eq!(
        reader.read_buffer("a\nbc\n", SourceByteRange { start: 2, end: 4 }),
        SourceExcerpt::Complete { text: "bc".to_string(), bytes_read: 2, line_count: 1 }
    );
    assert_eq!(
        reader.read_buffer("a\nbc", SourceByteRange { start: 0, end: 4 }),
        SourceExcerpt::Complete { text: "a\nbc".to_string(), bytes_read: 4, line_count: 2 }
    );
    assert_eq!(
        reader.read_buffer("", SourceByteRange { start: 0, end: 0 }),
        SourceExcerpt::Complete { text: String::new(), bytes_read: 0, line_count: 0 }
    );
}

#[test]
fn omissions_have_labels() {
    assert_eq!(SourceExcerptOmission::InvalidRange.as_str(), "invalid source range");
    assert_eq!(SourceExcerptOmission::ByteLimit.as_str(), "definition exceeds the byte budget");
    assert_eq!(SourceExcerptOmission::InvalidUtf8.as_str(), "source range is not valid UTF-8");
}
