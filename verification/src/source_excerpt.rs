//! Bounded reading of source ranges of a known revision.
//!
//! A range is handed out whole or not at all: an excerpt that is too large,
//! stale or unreadable is omitted with a reason.

use vstd::prelude::*;
use vstd::slice::slice_subrange;
use vstd::utf8::{
    decode_utf8, encode_utf8, encode_utf8_decode_utf8, encode_utf8_valid_utf8, is_char_boundary,
    is_char_boundary_iff_not_is_continuation_byte, is_char_boundary_start_end_of_seq, valid_utf8,
    valid_utf8_split,
};

use crate::chars::same_bytes;

verus! {

pub const SOURCE_EXCERPT_MAX_BYTES: usize = 131_072;

pub const SOURCE_EXCERPT_MAX_LINES: usize = 2_048;

/// The revision of a file that an excerpt was located in.
#[derive(Debug, Clone, Copy, PartialEq, Eq)]
pub struct SourceRevision {
    pub size: u64,
    pub mtime_ns: i64,
    /// BLAKE3 hash of exactly the bytes of the excerpt.
    pub excerpt_hash: [u8; 32],
}

#[derive(Debug, Clone, Copy, PartialEq, Eq, Structural)]
pub struct SourceFileRevision {
    pub size: u64,
    pub mtime_ns: i64,
}

#[derive(Debug, Clone, Copy, PartialEq, Eq, Structural)]
pub struct SourceByteRange {
    pub start: usize,
    pub end: usize,
}

impl SourceByteRange {
    pub open spec fn spec_len(self) -> Option<int> {
        if self.start <= self.end {
            Some(self.end - self.start)
        } else {
            None
        }
    }

    /// The number of bytes, if the range is one.
    pub fn len(self) -> (r: Option<usize>)
        ensures
            match r {
                Some(n) => self.spec_len() == Some(n as int),
                None => self.spec_len() is None,
            },
    {
        self.end.checked_sub(self.start)
    }
}

#[derive(Debug, Clone, Copy, PartialEq, Eq, Structural)]
pub enum SourceExcerptOmission {
    InvalidRange,
    StaleRevision,
    ByteLimit,
    LineLimit,
    Unreadable,
    InvalidUtf8,
}

impl SourceExcerptOmission {
    pub open spec fn label(self) -> Seq<char> {
        match self {
            SourceExcerptOmission::InvalidRange => "invalid source range"@,
            SourceExcerptOmission::StaleRevision => "source range is stale"@,
            SourceExcerptOmission::ByteLimit => "definition exceeds the byte budget"@,
            SourceExcerptOmission::LineLimit => "definition exceeds the line budget"@,
            SourceExcerptOmission::Unreadable => "source range is unreadable"@,
            SourceExcerptOmission::InvalidUtf8 => "source range is not valid UTF-8"@,
        }
    }

    pub fn as_str(self) -> (r: &'static str)
        ensures
            r@ == self.label(),
    {
        match self {
            SourceExcerptOmission::InvalidRange => "invalid source range",
            SourceExcerptOmission::StaleRevision => "source range is stale",
            SourceExcerptOmission::ByteLimit => "definition exceeds the byte budget",
            SourceExcerptOmission::LineLimit => "definition exceeds the line budget",
            SourceExcerptOmission::Unreadable => "source range is unreadable",
            SourceExcerptOmission::InvalidUtf8 => "source range is not valid UTF-8",
        }
    }
}

#[derive(Debug, Clone, PartialEq, Eq)]
pub enum SourceExcerpt {
    Complete { text: String, bytes_read: usize, line_count: usize },
    Omitted(SourceExcerptOmission),
}

/// An excerpt with its text as a sequence.
pub enum Excerpt {
    Complete { text: Seq<char>, bytes_read: int, line_count: int },
    Omitted(SourceExcerptOmission),
}

impl View for SourceExcerpt {
    type V = Excerpt;

    open spec fn view(&self) -> Excerpt {
        match *self {
            SourceExcerpt::Complete { text, bytes_read, line_count } => Excerpt::Complete {
                text: text@,
                bytes_read: bytes_read as int,
                line_count: line_count as int,
            },
            SourceExcerpt::Omitted(o) => Excerpt::Omitted(o),
        }
    }
}

impl SourceExcerpt {
    /// The text of a complete excerpt.
    pub fn text(&self) -> (r: Option<&str>)
        ensures
            match self@ {
                Excerpt::Complete { text, .. } => r is Some && r->0@ == text,
                Excerpt::Omitted(_) => r is None,
            },
    {
        match self {
            SourceExcerpt::Complete { text, .. } => Some(text.as_str()),
            SourceExcerpt::Omitted(_) => None,
        }
    }
}

/// What tells one file from another on a machine.
#[derive(Debug, Clone, Copy, PartialEq, Eq, Structural)]
pub struct SourceFileIdentity {
    pub volume: u64,
    pub file: u64,
}

#[derive(Debug, Clone, Copy, PartialEq, Eq, Structural)]
pub struct SourceMetadata {
    pub is_file: bool,
    pub revision: SourceFileRevision,
    pub file_identity: Option<SourceFileIdentity>,
}

#[derive(Debug, Clone, PartialEq, Eq)]
pub struct SourceRangeRead {
    pub bytes: Vec<u8>,
    pub metadata_before: SourceMetadata,
    pub metadata_after: SourceMetadata,
}

/// A file could not be examined or read.
#[derive(Debug, Clone, Copy, PartialEq, Eq, Structural)]
pub struct SourceUnreadable;

/// Where source ranges come from.
pub trait SourceRangeProvider {
    fn metadata(&self, path: &str) -> Result<SourceMetadata, SourceUnreadable>;

    fn read_range(&self, path: &str, start: u64, len: usize) -> Result<
        SourceRangeRead,
        SourceUnreadable,
    >;
}

// ---------------------------------------------------------------------------
// Outside calls

/// The BLAKE3 hash of some bytes.
pub uninterp spec fn blake3_of(bytes: Seq<u8>) -> Seq<u8>;

/// Calls `blake3::hash`. The hash depends on the bytes alone.
#[verifier::external_body]
fn hash_bytes(bytes: &[u8]) -> (r: [u8; 32])
    ensures
        r@ == blake3_of(bytes@),
{
    *blake3::hash(bytes).as_bytes()
}

/// Calls `String::from_utf8`: bytes that are UTF-8 become the text that they
/// encode, others are refused.
#[verifier::external_body]
fn text_from_utf8(bytes: Vec<u8>) -> (r: Option<String>)
    ensures
        match r {
            Some(text) => valid_utf8(bytes@) && encode_utf8(text@) == bytes@,
            None => !valid_utf8(bytes@),
        },
{
    String::from_utf8(bytes).ok()
}

// ---------------------------------------------------------------------------
// Rules

pub open spec fn line_feeds(bytes: Seq<u8>, n: int) -> int
    decreases n,
{
    if n <= 0 {
        0
    } else {
        line_feeds(bytes, n - 1) + if bytes[n - 1] == 0x0A {
            1int
        } else {
            0int
        }
    }
}

/// Lines that some bytes touch: none for no bytes, else one more than they
/// have line feeds.
pub open spec fn line_count(bytes: Seq<u8>) -> int {
    if bytes.len() == 0 {
        0
    } else {
        line_feeds(bytes, bytes.len() as int) + 1
    }
}

/// What is handed out of bytes that were read.
pub open spec fn finished(bytes: Seq<u8>, max_lines: int) -> Excerpt {
    if line_count(bytes) > max_lines {
        Excerpt::Omitted(SourceExcerptOmission::LineLimit)
    } else if valid_utf8(bytes) {
        Excerpt::Complete {
            text: decode_utf8(bytes),
            bytes_read: bytes.len() as int,
            line_count: line_count(bytes),
        }
    } else {
        Excerpt::Omitted(SourceExcerptOmission::InvalidUtf8)
    }
}

/// Metadata of a file of the expected revision.
pub open spec fn matches_revision(m: SourceMetadata, expected: SourceRevision) -> bool {
    m.is_file && m.revision.size == expected.size && m.revision.mtime_ns == expected.mtime_ns
}

/// Why a request is refused before its file is examined, if it is.
pub open spec fn refused(range: SourceByteRange, expected: SourceRevision, max_bytes: int) -> Option<
    SourceExcerptOmission,
> {
    if range.start > range.end {
        Some(SourceExcerptOmission::InvalidRange)
    } else if range.end > expected.size {
        Some(SourceExcerptOmission::StaleRevision)
    } else if range.end - range.start > max_bytes {
        Some(SourceExcerptOmission::ByteLimit)
    } else {
        None
    }
}

/// Why a file is not read, if it is not, by what its metadata say.
pub open spec fn unread(
    before: Result<SourceMetadata, SourceUnreadable>,
    expected: SourceRevision,
) -> Option<SourceExcerptOmission> {
    match before {
        Err(_) => Some(SourceExcerptOmission::Unreadable),
        Ok(m) => if !m.is_file {
            Some(SourceExcerptOmission::Unreadable)
        } else if !matches_revision(m, expected) {
            Some(SourceExcerptOmission::StaleRevision)
        } else {
            None
        },
    }
}

/// The file stayed the same one, at the expected revision, all through the
/// read.
pub open spec fn undisturbed(
    before: SourceMetadata,
    read: SourceRangeRead,
    after: SourceMetadata,
    expected: SourceRevision,
) -> bool {
    &&& matches_revision(read.metadata_before, expected)
    &&& matches_revision(read.metadata_after, expected)
    &&& matches_revision(after, expected)
    &&& before.file_identity == read.metadata_before.file_identity
    &&& read.metadata_before.file_identity == read.metadata_after.file_identity
    &&& read.metadata_after.file_identity == after.file_identity
}

/// What becomes of a range that was read.
pub open spec fn judged(
    before: SourceMetadata,
    read: SourceRangeRead,
    after: Result<SourceMetadata, SourceUnreadable>,
    len: int,
    expected: SourceRevision,
    max_lines: int,
) -> Excerpt {
    match after {
        Err(_) => Excerpt::Omitted(SourceExcerptOmission::StaleRevision),
        Ok(m) => if undisturbed(before, read, m, expected) && read.bytes@.len() == len
            && blake3_of(read.bytes@) == expected.excerpt_hash@ {
            finished(read.bytes@, max_lines)
        } else {
            Excerpt::Omitted(SourceExcerptOmission::StaleRevision)
        },
    }
}

/// What becomes of a range of an open text.
pub open spec fn buffered(
    source: Seq<u8>,
    range: SourceByteRange,
    max_bytes: int,
    max_lines: int,
) -> Excerpt {
    if range.start > range.end {
        Excerpt::Omitted(SourceExcerptOmission::InvalidRange)
    } else if range.end - range.start > max_bytes {
        Excerpt::Omitted(SourceExcerptOmission::ByteLimit)
    } else if range.end > source.len() {
        Excerpt::Omitted(SourceExcerptOmission::StaleRevision)
    } else if !is_char_boundary(source, range.start as int) || !is_char_boundary(
        source,
        range.end as int,
    ) {
        Excerpt::Omitted(SourceExcerptOmission::InvalidRange)
    } else {
        finished(source.subrange(range.start as int, range.end as int), max_lines)
    }
}

/// The number of lines, where it is no more than `max_lines`.
fn source_line_count(bytes: &[u8], max_lines: usize) -> (r: Option<usize>)
    ensures
        match r {
            Some(n) => n == line_count(bytes@) && n <= max_lines,
            None => line_count(bytes@) > max_lines,
        },
{
    let mut feeds: usize = 0;
    let mut i: usize = 0;
    while i < bytes.len()
        invariant
            i <= bytes@.len(),
            feeds <= i,
            feeds == line_feeds(bytes@, i as int),
        decreases bytes@.len() - i,
    {
        if bytes[i] == 0x0A {
            feeds = feeds + 1;
        }
        i = i + 1;
    }
    if bytes.len() == 0 {
        Some(0)
    } else if feeds < max_lines {
        Some(feeds + 1)
    } else {
        None
    }
}

fn metadata_matches_revision(metadata: SourceMetadata, expected: &SourceRevision) -> (r: bool)
    ensures
        r == matches_revision(metadata, *expected),
{
    metadata.is_file && metadata.revision.size == expected.size && metadata.revision.mtime_ns
        == expected.mtime_ns
}

fn same_file(left: SourceMetadata, right: SourceMetadata) -> (r: bool)
    ensures
        r == (left.file_identity == right.file_identity),
{
    match (left.file_identity, right.file_identity) {
        (Some(a), Some(b)) => a == b,
        (None, None) => true,
        _ => false,
    }
}

pub struct SourceExcerptReader<P> {
    pub provider: P,
    pub max_bytes: usize,
    pub max_lines: usize,
}

impl<P: SourceRangeProvider> SourceExcerptReader<P> {
    pub fn new(provider: P) -> (r: Self)
        ensures
            r.provider == provider,
            r.max_bytes == SOURCE_EXCERPT_MAX_BYTES,
            r.max_lines == SOURCE_EXCERPT_MAX_LINES,
    {
        SourceExcerptReader {
            provider,
            max_bytes: SOURCE_EXCERPT_MAX_BYTES,
            max_lines: SOURCE_EXCERPT_MAX_LINES,
        }
    }

    pub fn with_limits(provider: P, max_bytes: usize, max_lines: usize) -> (r: Self)
        ensures
            r.provider == provider,
            r.max_bytes == max_bytes,
            r.max_lines == max_lines,
    {
        SourceExcerptReader { provider, max_bytes, max_lines }
    }

    /// Read a range of a file whose bytes have the expected hash. The file is
    /// examined before and after the read; any sign that it is not the expected
    /// revision makes the range stale.
    pub fn read_file(&self, path: &str, range: SourceByteRange, expected: SourceRevision) -> (r:
        SourceExcerpt)
        ensures
            match refused(range, expected, self.max_bytes as int) {
                Some(o) => r@ == Excerpt::Omitted(o),
                None => exists|before: Result<SourceMetadata, SourceUnreadable>|
                    #![trigger call_ensures(P::metadata, (&self.provider, path), before)]
                    call_ensures(P::metadata, (&self.provider, path), before) && match unread(
                        before,
                        expected,
                    ) {
                        Some(o) => r@ == Excerpt::Omitted(o),
                        None => self.outcome(path, range, expected, before->Ok_0, r@),
                    },
            },
    {
        let len: usize = match range.len() {
            Some(len) => len,
            None => {
                return SourceExcerpt::Omitted(SourceExcerptOmission::InvalidRange);
            },
        };
        if range.end as u64 > expected.size {
            return SourceExcerpt::Omitted(SourceExcerptOmission::StaleRevision);
        }
        if len > self.max_bytes {
            return SourceExcerpt::Omitted(SourceExcerptOmission::ByteLimit);
        }
        let first = self.provider.metadata(path);
        assert(call_ensures(P::metadata, (&self.provider, path), first));
        let before = match first {
            Ok(m) => m,
            Err(_) => {
                return SourceExcerpt::Omitted(SourceExcerptOmission::Unreadable);
            },
        };
        if !before.is_file {
            return SourceExcerpt::Omitted(SourceExcerptOmission::Unreadable);
        }
        if !metadata_matches_revision(before, &expected) {
            return SourceExcerpt::Omitted(SourceExcerptOmission::StaleRevision);
        }
        let answer = self.provider.read_range(path, range.start as u64, len);
        assert(call_ensures(
            P::read_range,
            (&self.provider, path, range.start as u64, len),
            answer,
        ));
        let read = match answer {
            Ok(read) => read,
            Err(_) => {
                return SourceExcerpt::Omitted(SourceExcerptOmission::Unreadable);
            },
        };
        let after = self.provider.metadata(path);
        assert(call_ensures(P::metadata, (&self.provider, path), after));
        self.judge(before, read, after, len, &expected)
    }

    /// What `r` can be once a file was found readable: some answers of the
    /// provider for the range and for a second look at the file account for
    /// it.
    pub open spec fn outcome(
        self,
        path: &str,
        range: SourceByteRange,
        expected: SourceRevision,
        before: SourceMetadata,
        r: Excerpt,
    ) -> bool {
        exists|answer: Result<SourceRangeRead, SourceUnreadable>|
            #![trigger call_ensures(P::read_range, (&self.provider, path, range.start as u64, (range.end - range.start) as usize), answer)]
            call_ensures(
                P::read_range,
                (
                    &self.provider,
                    path,
                    range.start as u64,
                    (range.end - range.start) as usize,
                ),
                answer,
            ) && match answer {
                Err(_) => r == Excerpt::Omitted(SourceExcerptOmission::Unreadable),
                Ok(read) => exists|after: Result<SourceMetadata, SourceUnreadable>|
                    #![trigger call_ensures(P::metadata, (&self.provider, path), after)]
                    call_ensures(P::metadata, (&self.provider, path), after) && r == judged(
                        before,
                        read,
                        after,
                        range.end - range.start,
                        expected,
                        self.max_lines as int,
                    ),
            }
    }

    /// Decide on a range of `len` bytes that was read between two looks at its
    /// file.
    pub fn judge(
        &self,
        before: SourceMetadata,
        read: SourceRangeRead,
        after: Result<SourceMetadata, SourceUnreadable>,
        len: usize,
        expected: &SourceRevision,
    ) -> (r: SourceExcerpt)
        ensures
            r@ == judged(before, read, after, len as int, *expected, self.max_lines as int),
    {
        let metadata_after = match after {
            Ok(m) => m,
            Err(_) => {
                return SourceExcerpt::Omitted(SourceExcerptOmission::StaleRevision);
            },
        };
        if !metadata_matches_revision(read.metadata_before, expected)
            || !metadata_matches_revision(read.metadata_after, expected)
            || !metadata_matches_revision(metadata_after, expected) || !same_file(
            before,
            read.metadata_before,
        ) || !same_file(read.metadata_before, read.metadata_after) || !same_file(
            read.metadata_after,
            metadata_after,
        ) {
            return SourceExcerpt::Omitted(SourceExcerptOmission::StaleRevision);
        }
        if read.bytes.len() != len {
            return SourceExcerpt::Omitted(SourceExcerptOmission::StaleRevision);
        }
        let hash = hash_bytes(&read.bytes);
        if !same_bytes(hash.as_slice(), expected.excerpt_hash.as_slice()) {
            return SourceExcerpt::Omitted(SourceExcerptOmission::StaleRevision);
        }
        self.finish(read.bytes)
    }

    /// Take a range out of an open text.
    pub fn read_buffer(&self, source: &str, range: SourceByteRange) -> (r: SourceExcerpt)
        ensures
            r@ == buffered(
                encode_utf8(source@),
                range,
                self.max_bytes as int,
                self.max_lines as int,
            ),
            r@ != Excerpt::Omitted(SourceExcerptOmission::InvalidUtf8),
    {
        let len: usize = match range.len() {
            Some(len) => len,
            None => {
                return SourceExcerpt::Omitted(SourceExcerptOmission::InvalidRange);
            },
        };
        if len > self.max_bytes {
            return SourceExcerpt::Omitted(SourceExcerptOmission::ByteLimit);
        }
        let all = source.as_bytes();
        if range.end > all.len() {
            return SourceExcerpt::Omitted(SourceExcerptOmission::StaleRevision);
        }
        if !source.is_char_boundary(range.start) || !source.is_char_boundary(range.end) {
            return SourceExcerpt::Omitted(SourceExcerptOmission::InvalidRange);
        }
        let bytes = copy_bytes(slice_subrange(all, range.start, range.end));
        proof {
            encode_utf8_valid_utf8(source@);
            boundary_range_is_utf8(all@, range.start as int, range.end as int);
        }
        self.finish(bytes)
    }

    fn finish(&self, bytes: Vec<u8>) -> (r: SourceExcerpt)
        ensures
            r@ == finished(bytes@, self.max_lines as int),
    {
        let line_count: usize = match source_line_count(&bytes, self.max_lines) {
            Some(n) => n,
            None => {
                return SourceExcerpt::Omitted(SourceExcerptOmission::LineLimit);
            },
        };
        let bytes_read: usize = bytes.len();
        match text_from_utf8(bytes) {
            Some(text) => {
                proof {
                    encode_utf8_decode_utf8(text@);
                }
                SourceExcerpt::Complete { text, bytes_read, line_count }
            },
            None => SourceExcerpt::Omitted(SourceExcerptOmission::InvalidUtf8),
        }
    }
}

fn copy_bytes(bytes: &[u8]) -> (r: Vec<u8>)
    ensures
        r@ == bytes@,
{
    let mut out: Vec<u8> = Vec::new();
    let mut i: usize = 0;
    while i < bytes.len()
        invariant
            i <= bytes@.len(),
            out@ == bytes@.subrange(0, i as int),
        decreases bytes@.len() - i,
    {
        out.push(bytes[i]);
        i = i + 1;
        assert(out@ =~= bytes@.subrange(0, i as int));
    }
    assert(out@ =~= bytes@);
    out
}

/// The bytes between two character boundaries of a text are UTF-8.
pub proof fn boundary_range_is_utf8(bytes: Seq<u8>, start: int, end: int)
    requires
        valid_utf8(bytes),
        0 <= start <= end <= bytes.len(),
        is_char_boundary(bytes, start),
        is_char_boundary(bytes, end),
    ensures
        valid_utf8(bytes.subrange(start, end)),
    decreases bytes.len(),
{
    valid_utf8_split(bytes, end);
    let head = bytes.subrange(0, end);
    boundary_of_head(bytes, start, end);
    valid_utf8_split(head, start);
    assert(head.subrange(start, head.len() as int) =~= bytes.subrange(start, end));
}

proof fn boundary_of_head(bytes: Seq<u8>, start: int, end: int)
    requires
        valid_utf8(bytes),
        0 <= start <= end <= bytes.len(),
        is_char_boundary(bytes, start),
        is_char_boundary(bytes, end),
    ensures
        is_char_boundary(bytes.subrange(0, end), start),
{
    let head = bytes.subrange(0, end);
    valid_utf8_split(bytes, end);
    is_char_boundary_start_end_of_seq(head);
    if start < end {
        assert(head[start] == bytes[start]);
        is_char_boundary_iff_not_is_continuation_byte(bytes, start);
        is_char_boundary_iff_not_is_continuation_byte(head, start);
    }
}

// ---------------------------------------------------------------------------
// Laws

/// A complete excerpt of a file is the whole range, with the expected hash and
/// within the line limit; nothing partial is handed out.
pub proof fn complete_excerpt_is_proven(
    before: SourceMetadata,
    read: SourceRangeRead,
    after: Result<SourceMetadata, SourceUnreadable>,
    len: int,
    expected: SourceRevision,
    max_lines: int,
)
    requires
        judged(before, read, after, len, expected, max_lines) is Complete,
    ensures
        match judged(before, read, after, len, expected, max_lines) {
            Excerpt::Complete { text, bytes_read, line_count } => {
                &&& encode_utf8(text) == read.bytes@
                &&& bytes_read == len
                &&& encode_utf8(text).len() == len
                &&& blake3_of(encode_utf8(text)) == expected.excerpt_hash@
                &&& line_count <= max_lines
                &&& after is Ok
                &&& undisturbed(before, read, after->Ok_0, expected)
            },
            Excerpt::Omitted(_) => false,
        },
{
    vstd::utf8::decode_utf8_encode_utf8(read.bytes@);
}

/// A complete excerpt of an open text is exactly the range that was asked for,
/// within both limits.
pub proof fn complete_buffer_excerpt_is_the_range(
    source: Seq<char>,
    range: SourceByteRange,
    max_bytes: int,
    max_lines: int,
)
    requires
        buffered(encode_utf8(source), range, max_bytes, max_lines) is Complete,
    ensures
        match buffered(encode_utf8(source), range, max_bytes, max_lines) {
            Excerpt::Complete { text, bytes_read, line_count } => {
                &&& range.start <= range.end <= encode_utf8(source).len()
                &&& encode_utf8(text) == encode_utf8(source).subrange(
                    range.start as int,
                    range.end as int,
                )
                &&& bytes_read == range.end - range.start
                &&& bytes_read <= max_bytes
                &&& line_count <= max_lines
            },
            Excerpt::Omitted(_) => false,
        },
{
    vstd::utf8::decode_utf8_encode_utf8(
        encode_utf8(source).subrange(range.start as int, range.end as int),
    );
}

} // verus!
