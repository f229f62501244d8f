//! Blob header: constants, error type, little-endian readers, header validation,
//! section offsets and text-pool access.

use vstd::prelude::*;
use vstd::string::StringSliceAdditionalSpecFns;
use vstd::utf8::*;

use crate::text::str_from_utf8;

verus! {

/// Magic number `MKSC` in little-endian order.
pub const BLOB_MAGIC: u32 = 0x4D4B_5343;

/// First blob layout (64-byte header).
pub const BLOB_VERSION_V1: u16 = 1;

/// Second blob layout (128-byte header with additional section counts).
pub const BLOB_VERSION_V2: u16 = 2;

/// Header size of a version 1 blob.
pub const V1_HEADER_SIZE: usize = 64;

/// Header size of a version 2 blob.
pub const V2_HEADER_SIZE: usize = 128;

/// Size of one heading record.
pub const HEADING_SIZE: usize = 40;

/// Size of one link record.
pub const LINK_SIZE: usize = 40;

/// Size of one tag record.
pub const TAG_SIZE: usize = 24;

/// Size of one block-id record.
pub const BLOCK_ID_SIZE: usize = 28;

/// Size of one code-span record.
pub const CODE_SPAN_SIZE: usize = 32;

/// Size of one task record.
pub const TASK_SIZE: usize = 36;

/// Size of one embed record.
pub const EMBED_SIZE: usize = 32;

/// Size of one callout record.
pub const CALLOUT_SIZE: usize = 40;

/// Size of one block-reference record.
pub const BLOCK_REF_SIZE: usize = 28;

/// Size of one query-block record.
pub const QUERY_BLOCK_SIZE: usize = 32;

/// Size of one link-definition record.
pub const LINK_DEF_SIZE: usize = 48;

/// Size of one property record.
pub const PROPERTY_SIZE: usize = 20;

/// Size of one XML-tag record.
pub const XML_TAG_SIZE: usize = 40;

/// Error returned when a blob cannot be decoded.
#[derive(Debug, Clone, Copy, PartialEq, Eq, Structural)]
pub enum BlobError {
    /// Data is too short to hold a blob header (64 bytes for v1, 128 bytes for v2).
    TooSmall,
    /// Magic number does not match `MKSC` (`0x4D4B5343`).
    InvalidMagic,
    /// Blob version field is neither 1 nor 2.
    UnsupportedVersion,
    /// Total blob size field differs from the actual length or the computed size.
    SizeMismatch,
    /// A text pool offset + length exceeds the text pool bounds.
    TextPoolOutOfBounds,
    /// Text pool bytes are not valid UTF-8.
    InvalidUtf8,
}

/// The human-readable message of each error.
pub open spec fn blob_error_message(e: BlobError) -> Seq<char> {
    match e {
        BlobError::TooSmall => "blob too small (minimum 64 bytes for v1 or 128 bytes for v2 header)"@,
        BlobError::InvalidMagic => "invalid blob magic (expected MKSC / 0x4D4B5343)"@,
        BlobError::UnsupportedVersion => "unsupported blob version (version 1 or version 2 expected: only versions 1 and 2 are supported)"@,
        BlobError::SizeMismatch => "blob size mismatch (header total_blob_size differs from actual or computed size)"@,
        BlobError::TextPoolOutOfBounds => "text pool offset + length exceeds text pool bounds"@,
        BlobError::InvalidUtf8 => "text pool contains invalid UTF-8 bytes"@,
    }
}

/// Every error has its own message.
pub proof fn law_blob_error_messages_distinct(a: BlobError, b: BlobError)
    requires
        a != b,
    ensures
        blob_error_message(a) != blob_error_message(b),
{
    reveal_strlit("blob too small (minimum 64 bytes for v1 or 128 bytes for v2 header)");
    reveal_strlit("invalid blob magic (expected MKSC / 0x4D4B5343)");
    reveal_strlit(
        "unsupported blob version (version 1 or version 2 expected: only versions 1 and 2 are supported)",
    );
    reveal_strlit(
        "blob size mismatch (header total_blob_size differs from actual or computed size)",
    );
    reveal_strlit("text pool offset + length exceeds text pool bounds");
    reveal_strlit("text pool contains invalid UTF-8 bytes");
    // The messages differ in length.
    assert(blob_error_message(BlobError::TooSmall).len() == 67);
    assert(blob_error_message(BlobError::InvalidMagic).len() == 47);
    assert(blob_error_message(BlobError::UnsupportedVersion).len() == 95);
    assert(blob_error_message(BlobError::SizeMismatch).len() == 80);
    assert(blob_error_message(BlobError::TextPoolOutOfBounds).len() == 50);
    assert(blob_error_message(BlobError::InvalidUtf8).len() == 38);
}

impl BlobError {
    /// Human-readable description of the error.
    pub fn message(&self) -> (m: &'static str)
        ensures
            m@ == blob_error_message(*self),
    {
        match self {
            BlobError::TooSmall => "blob too small (minimum 64 bytes for v1 or 128 bytes for v2 header)",
            BlobError::InvalidMagic => "invalid blob magic (expected MKSC / 0x4D4B5343)",
            BlobError::UnsupportedVersion => "unsupported blob version (version 1 or version 2 expected: only versions 1 and 2 are supported)",
            BlobError::SizeMismatch => "blob size mismatch (header total_blob_size differs from actual or computed size)",
            BlobError::TextPoolOutOfBounds => "text pool offset + length exceeds text pool bounds",
            BlobError::InvalidUtf8 => "text pool contains invalid UTF-8 bytes",
        }
    }
}

/// Little-endian value of the two bytes at `off`.
pub open spec fn le_u16(s: Seq<u8>, off: int) -> int {
    s[off] as int + 256 * (s[off + 1] as int)
}

/// Little-endian value of the four bytes at `off`.
pub open spec fn le_u32(s: Seq<u8>, off: int) -> int {
    s[off] as int + 256 * (s[off + 1] as int) + 65536 * (s[off + 2] as int) + 16777216 * (
    s[off + 3] as int)
}

/// Read one byte.
pub fn read_u8(data: &[u8], offset: usize) -> (b: u8)
    requires
        offset < data@.len(),
    ensures
        b == data@[offset as int],
{
    data[offset]
}

/// Read a little-endian `u16`.
pub fn read_u16_le(data: &[u8], offset: usize) -> (v: u16)
    requires
        offset + 2 <= data@.len(),
    ensures
        v == le_u16(data@, offset as int),
{
    let b0 = data[offset] as u16;
    let b1 = data[offset + 1] as u16;
    b0 + 256 * b1
}

/// Read a little-endian `u32`.
pub fn read_u32_le(data: &[u8], offset: usize) -> (v: u32)
    requires
        offset + 4 <= data@.len(),
    ensures
        v == le_u32(data@, offset as int),
{
    let b0 = data[offset] as u32;
    let b1 = data[offset + 1] as u32;
    let b2 = data[offset + 2] as u32;
    let b3 = data[offset + 3] as u32;
    b0 + 256 * b1 + 65536 * b2 + 16777216 * b3
}

/// Counts and sizes read from a validated blob header.
#[derive(Debug, Clone, Copy, PartialEq, Eq, Structural)]
pub struct BlobHeader {
    /// Header size in bytes (64 for v1, 128 for v2).
    pub header_size: usize,
    /// Number of heading records.
    pub heading_count: u32,
    /// Number of link records.
    pub link_count: u32,
    /// Number of tag records.
    pub tag_count: u32,
    /// Number of block-id records.
    pub block_id_count: u32,
    /// Number of code-span records.
    pub code_span_count: u32,
    /// Number of task records (v2 only).
    pub task_count: u32,
    /// Number of embed records (v2 only).
    pub embed_count: u32,
    /// Number of callout records (v2 only).
    pub callout_count: u32,
    /// Number of block-reference records (v2 only).
    pub block_ref_count: u32,
    /// Number of query-block records (v2 only).
    pub query_block_count: u32,
    /// Number of link-definition records (v2 only).
    pub link_def_count: u32,
    /// Number of property records (v2 only).
    pub property_count: u32,
    /// Number of XML-tag records (v2 only).
    pub xml_tag_count: u32,
    /// Number of line-start entries (4 bytes each).
    pub line_count: u32,
    /// Size of the text pool in bytes.
    pub text_pool_size: u32,
}

/// Total blob size that a header describes: the header, every record section,
/// the line-start table and the text pool.
pub open spec fn expected_blob_size(h: BlobHeader) -> int {
    h.header_size + h.heading_count * 40 + h.link_count * 40 + h.tag_count * 24
        + h.block_id_count * 28 + h.code_span_count * 32 + h.task_count * 36 + h.embed_count * 32
        + h.callout_count * 40 + h.block_ref_count * 28 + h.query_block_count * 32
        + h.link_def_count * 48 + h.property_count * 20 + h.xml_tag_count * 40 + h.line_count * 4
        + h.text_pool_size
}

/// The header fields of `data`, for a header of `header_size` bytes; the
/// version-2 counts are zero for a version-1 header.
pub open spec fn header_fields(data: Seq<u8>, header_size: usize, v2: bool) -> BlobHeader {
    BlobHeader {
        header_size,
        heading_count: le_u32(data, 16) as u32,
        link_count: le_u32(data, 20) as u32,
        tag_count: le_u32(data, 24) as u32,
        block_id_count: le_u32(data, 28) as u32,
        code_span_count: le_u32(data, 48) as u32,
        task_count: if v2 { le_u32(data, 56) as u32 } else { 0 },
        embed_count: if v2 { le_u32(data, 52) as u32 } else { 0 },
        callout_count: if v2 { le_u32(data, 60) as u32 } else { 0 },
        block_ref_count: if v2 { le_u32(data, 72) as u32 } else { 0 },
        query_block_count: if v2 { le_u32(data, 64) as u32 } else { 0 },
        link_def_count: if v2 { le_u32(data, 68) as u32 } else { 0 },
        property_count: if v2 { le_u32(data, 76) as u32 } else { 0 },
        xml_tag_count: if v2 { le_u32(data, 80) as u32 } else { 0 },
        line_count: le_u32(data, 32) as u32,
        text_pool_size: le_u32(data, 36) as u32,
    }
}

/// Accept `h` only when its computed size equals both the declared total size
/// (offset 44) and the actual data length.
pub open spec fn check_size(data: Seq<u8>, h: BlobHeader) -> Result<BlobHeader, BlobError> {
    if expected_blob_size(h) == le_u32(data, 44) && expected_blob_size(h) == data.len() {
        Ok(h)
    } else {
        Err(BlobError::SizeMismatch)
    }
}

/// What validating `data` yields: the first failing check in the order
/// length, magic, version (with the v2 length), size; otherwise the header.
pub open spec fn spec_validate_blob(data: Seq<u8>) -> Result<BlobHeader, BlobError> {
    if data.len() < 64 {
        Err(BlobError::TooSmall)
    } else if le_u32(data, 0) != 0x4D4B_5343 {
        Err(BlobError::InvalidMagic)
    } else if le_u16(data, 4) == 1 {
        check_size(data, header_fields(data, 64, false))
    } else if le_u16(data, 4) == 2 {
        if data.len() < 128 {
            Err(BlobError::TooSmall)
        } else {
            check_size(data, header_fields(data, 128, true))
        }
    } else {
        Err(BlobError::UnsupportedVersion)
    }
}

/// Validate blob magic, version, and size consistency.
pub fn validate_blob(data: &[u8]) -> (res: Result<BlobHeader, BlobError>)
    ensures
        res == spec_validate_blob(data@),
{
    if data.len() < V1_HEADER_SIZE {
        return Err(BlobError::TooSmall);
    }
    let magic = read_u32_le(data, 0);
    if magic != BLOB_MAGIC {
        return Err(BlobError::InvalidMagic);
    }
    let version = read_u16_le(data, 4);
    let header_size: usize = if version == BLOB_VERSION_V1 {
        V1_HEADER_SIZE
    } else if version == BLOB_VERSION_V2 {
        if data.len() < V2_HEADER_SIZE {
            return Err(BlobError::TooSmall);
        }
        V2_HEADER_SIZE
    } else {
        return Err(BlobError::UnsupportedVersion);
    };
    let v2 = version >= BLOB_VERSION_V2;

    let heading_count = read_u32_le(data, 16);
    let link_count = read_u32_le(data, 20);
    let tag_count = read_u32_le(data, 24);
    let block_id_count = read_u32_le(data, 28);
    let line_count = read_u32_le(data, 32);
    let text_pool_size = read_u32_le(data, 36);
    let total_blob_size = read_u32_le(data, 44);
    let code_span_count = read_u32_le(data, 48);
    let (
        embed_count,
        task_count,
        callout_count,
        block_ref_count,
        query_block_count,
        link_def_count,
        property_count,
        xml_tag_count,
    ) = if v2 {
        (
            read_u32_le(data, 52),
            read_u32_le(data, 56),
            read_u32_le(data, 60),
            read_u32_le(data, 72),
            read_u32_le(data, 64),
            read_u32_le(data, 68),
            read_u32_le(data, 76),
            read_u32_le(data, 80),
        )
    } else {
        (0, 0, 0, 0, 0, 0, 0, 0)
    };
    let header = BlobHeader {
        header_size,
        heading_count,
        link_count,
        tag_count,
        block_id_count,
        code_span_count,
        task_count,
        embed_count,
        callout_count,
        block_ref_count,
        query_block_count,
        link_def_count,
        property_count,
        xml_tag_count,
        line_count,
        text_pool_size,
    };
    assert(header == header_fields(data@, header_size, v2));

    // Every term is below 2^38, so the sum cannot overflow 64 bits.
    let expected: u64 = header_size as u64 + heading_count as u64 * 40 + link_count as u64 * 40
        + tag_count as u64 * 24 + block_id_count as u64 * 28 + code_span_count as u64 * 32
        + task_count as u64 * 36 + embed_count as u64 * 32 + callout_count as u64 * 40
        + block_ref_count as u64 * 28 + query_block_count as u64 * 32 + link_def_count as u64
        * 48 + property_count as u64 * 20 + xml_tag_count as u64 * 40 + line_count as u64 * 4
        + text_pool_size as u64;
    if expected != total_blob_size as u64 || expected != data.len() as u64 {
        return Err(BlobError::SizeMismatch);
    }
    Ok(header)
}


/// Byte offset of each section in a blob whose header has been validated.
#[derive(Debug, Clone, Copy, PartialEq, Eq, Structural)]
pub struct SectionOffsets {
    /// Start of the heading records.
    pub headings: usize,
    /// Start of the link records.
    pub links: usize,
    /// Start of the tag records.
    pub tags: usize,
    /// Start of the block-id records.
    pub block_ids: usize,
    /// Start of the code-span records.
    pub code_spans: usize,
    /// Start of the task records.
    pub tasks: usize,
    /// Start of the embed records.
    pub embeds: usize,
    /// Start of the callout records.
    pub callouts: usize,
    /// Start of the block-reference records.
    pub block_refs: usize,
    /// Start of the query-block records.
    pub query_blocks: usize,
    /// Start of the link-definition records.
    pub link_definitions: usize,
    /// Start of the property records.
    pub properties: usize,
    /// Start of the XML-tag records.
    pub xml_tags: usize,
    /// Start of the text pool (after the line-start table).
    pub text_pool: usize,
}

/// The section layout of a header: sections follow each other in this order,
/// each `count * record size` bytes long, with the line-start table before the pool.
pub open spec fn spec_offsets(h: BlobHeader) -> SectionOffsets {
    let headings = h.header_size as int;
    let links = headings + h.heading_count * 40;
    let tags = links + h.link_count * 40;
    let block_ids = tags + h.tag_count * 24;
    let code_spans = block_ids + h.block_id_count * 28;
    let tasks = code_spans + h.code_span_count * 32;
    let embeds = tasks + h.task_count * 36;
    let callouts = embeds + h.embed_count * 32;
    let block_refs = callouts + h.callout_count * 40;
    let query_blocks = block_refs + h.block_ref_count * 28;
    let link_definitions = query_blocks + h.query_block_count * 32;
    let properties = link_definitions + h.link_def_count * 48;
    let xml_tags = properties + h.property_count * 20;
    let line_starts = xml_tags + h.xml_tag_count * 40;
    let text_pool = line_starts + h.line_count * 4;
    SectionOffsets {
        headings: headings as usize,
        links: links as usize,
        tags: tags as usize,
        block_ids: block_ids as usize,
        code_spans: code_spans as usize,
        tasks: tasks as usize,
        embeds: embeds as usize,
        callouts: callouts as usize,
        block_refs: block_refs as usize,
        query_blocks: query_blocks as usize,
        link_definitions: link_definitions as usize,
        properties: properties as usize,
        xml_tags: xml_tags as usize,
        text_pool: text_pool as usize,
    }
}

/// Compute the start of every section.
pub fn compute_offsets(h: &BlobHeader) -> (o: SectionOffsets)
    requires
        expected_blob_size(*h) <= usize::MAX,
    ensures
        o == spec_offsets(*h),
        o.text_pool + h.text_pool_size == expected_blob_size(*h),
{
    let headings = h.header_size;
    let links = headings + h.heading_count as usize * HEADING_SIZE;
    let tags = links + h.link_count as usize * LINK_SIZE;
    let block_ids = tags + h.tag_count as usize * TAG_SIZE;
    let code_spans = block_ids + h.block_id_count as usize * BLOCK_ID_SIZE;
    let tasks = code_spans + h.code_span_count as usize * CODE_SPAN_SIZE;
    let embeds = tasks + h.task_count as usize * TASK_SIZE;
    let callouts = embeds + h.embed_count as usize * EMBED_SIZE;
    let block_refs = callouts + h.callout_count as usize * CALLOUT_SIZE;
    let query_blocks = block_refs + h.block_ref_count as usize * BLOCK_REF_SIZE;
    let link_definitions = query_blocks + h.query_block_count as usize * QUERY_BLOCK_SIZE;
    let properties = link_definitions + h.link_def_count as usize * LINK_DEF_SIZE;
    let xml_tags = properties + h.property_count as usize * PROPERTY_SIZE;
    let line_starts = xml_tags + h.xml_tag_count as usize * XML_TAG_SIZE;
    let text_pool = line_starts + h.line_count as usize * 4;
    SectionOffsets {
        headings,
        links,
        tags,
        block_ids,
        code_spans,
        tasks,
        embeds,
        callouts,
        block_refs,
        query_blocks,
        link_definitions,
        properties,
        xml_tags,
        text_pool,
    }
}


/// What looking up `len` bytes at `off` in the text pool yields.
pub open spec fn spec_pool_str(pool: Seq<u8>, off: u32, len: u32) -> Result<Seq<char>, BlobError> {
    if off + len > pool.len() {
        Err(BlobError::TextPoolOutOfBounds)
    } else if !valid_utf8(pool.subrange(off as int, off + len)) {
        Err(BlobError::InvalidUtf8)
    } else {
        Ok(decode_utf8(pool.subrange(off as int, off + len)))
    }
}

/// Borrow a UTF-8 string from the text pool with bounds and encoding checks.
pub fn pool_str(text_pool: &[u8], off: u32, len: u32) -> (r: Result<&str, BlobError>)
    ensures
        r matches Ok(s) ==> s.spec_bytes() == text_pool@.subrange(off as int, off + len),
        match r {
            Ok(s) => spec_pool_str(text_pool@, off, len) == Ok::<Seq<char>, BlobError>(s@),
            Err(e) => spec_pool_str(text_pool@, off, len) == Err::<Seq<char>, BlobError>(e),
        },
{
    let pool_len = text_pool.len();
    let start = off as usize;
    let end = match start.checked_add(len as usize) {
        Some(e) => e,
        None => return Err(BlobError::TextPoolOutOfBounds),
    };
    if end > pool_len {
        return Err(BlobError::TextPoolOutOfBounds);
    }
    match str_from_utf8(&text_pool[start..end]) {
        Some(s) => {
            proof {
                encode_utf8_decode_utf8(s@);
            }
            Ok(s)
        },
        None => Err(BlobError::InvalidUtf8),
    }
}


/// Index of the first `b` in `s` at or after `i`, or `s.len()` when there is none.
pub open spec fn find_byte(s: Seq<u8>, b: u8, i: int) -> int
    decreases s.len() - i,
{
    if i < 0 || i >= s.len() {
        s.len() as int
    } else if s[i] == b {
        i
    } else {
        find_byte(s, b, i + 1)
    }
}

/// `find_byte` lands on a `b` or at the end, and skips no earlier `b`.
pub proof fn lemma_find_byte(s: Seq<u8>, b: u8, i: int)
    requires
        0 <= i <= s.len(),
    ensures
        i <= find_byte(s, b, i) <= s.len(),
        find_byte(s, b, i) < s.len() ==> s[find_byte(s, b, i)] == b,
        forall|j: int| i <= j < find_byte(s, b, i) ==> s[j] != b,
    decreases s.len() - i,
{
    if i < s.len() && s[i] != b {
        lemma_find_byte(s, b, i + 1);
    }
}

/// Position of the first byte equal to `b`, or the length when there is none.
pub fn position_of_byte(s: &[u8], b: u8) -> (p: usize)
    ensures
        p == find_byte(s@, b, 0),
{
    let mut i: usize = 0;
    while i < s.len()
        invariant
            0 <= i <= s@.len(),
            find_byte(s@, b, 0) == find_byte(s@, b, i as int),
        decreases s@.len() - i,
    {
        if s[i] == b {
            return i;
        }
        i = i + 1;
    }
    i
}

/// The chars before the first `#` of a UTF-8 byte string.
pub open spec fn before_hash(bytes: Seq<u8>) -> Seq<char> {
    decode_utf8(bytes.subrange(0, find_byte(bytes, 35, 0)))
}

/// The chars after the first `#` of a UTF-8 byte string, if it has one.
pub open spec fn after_hash(bytes: Seq<u8>) -> Option<Seq<char>> {
    let h = find_byte(bytes, 35, 0);
    if h < bytes.len() {
        Some(decode_utf8(bytes.subrange(h + 1, bytes.len() as int)))
    } else {
        None
    }
}

/// Splitting a valid UTF-8 byte string around an ASCII byte leaves valid UTF-8 on both sides.
proof fn lemma_split_ascii(bytes: Seq<u8>, h: int)
    requires
        valid_utf8(bytes),
        0 <= h < bytes.len(),
        bytes[h] < 0x80,
    ensures
        valid_utf8(bytes.subrange(0, h)),
        valid_utf8(bytes.subrange(h + 1, bytes.len() as int)),
{
    is_char_boundary_iff_is_leading_byte(bytes, h);
    valid_utf8_split(bytes, h);
    let tail = bytes.subrange(h, bytes.len() as int);
    assert(pop_first_scalar(tail) =~= bytes.subrange(h + 1, bytes.len() as int));
}

/// Split a string at its first `#`: the part before it, and the part after it if
/// there is a `#` at all.
pub fn split_first_hash(s: &str) -> (r: (String, Option<String>))
    ensures
        r.0@ == before_hash(s.spec_bytes()),
        match r.1 {
            Some(a) => after_hash(s.spec_bytes()) == Some(a@),
            None => after_hash(s.spec_bytes()) is None,
        },
{
    let bytes = s.as_bytes();
    proof {
        encode_utf8_valid_utf8(s@);
    }
    let h = position_of_byte(bytes, 35);
    proof {
        lemma_find_byte(bytes@, 35, 0);
    }
    if h < bytes.len() {
        proof {
            lemma_split_ascii(bytes@, h as int);
        }
        let head = str_from_utf8(&bytes[0..h]);
        let tail = str_from_utf8(&bytes[h + 1..bytes.len()]);
        match (head, tail) {
            (Some(a), Some(b)) => {
                proof {
                    encode_utf8_decode_utf8(a@);
                    encode_utf8_decode_utf8(b@);
                }
                (a.to_owned(), Some(b.to_owned()))
            },
            _ => {
                proof {
                    assert(false);
                }
                (String::new(), None)
            },
        }
    } else {
        proof {
            assert(bytes@.subrange(0, h as int) =~= bytes@);
            decode_utf8_encode_utf8(bytes@);
            encode_utf8_decode_utf8(s@);
        }
        (s.to_owned(), None)
    }
}

} // verus!
