//! The end records of an archive: where its central directory stands, and its comment.

use super::bytes::{
    array_22, lemma_read_u16, lemma_read_u32, lemma_read_u64, push_bytes, push_u16, push_u32,
    push_u64, read_u16, read_u32, read_u64, u16_at, u16_bytes, u32_at, u32_bytes, u64_at, u64_bytes,
};
use super::error::{
    end_of_input, invalid, limit, outcome, ArchiveError, ArchiveErrorModel, Error, ErrorModel,
    Result, UnsupportedFeature, UnsupportedModel,
};
use super::{EOCD_SIG, ZIP64_EOCD_LOCATOR_SIG, ZIP64_EOCD_SIG};
use vstd::prelude::*;
use vstd::slice::{slice_subrange, slice_to_vec};

verus! {

/// Where the central directory of an archive stands.
#[derive(Debug)]
pub struct ArchiveInfo {
    /// Offset of the first byte of the central directory.
    pub cd_offset: u64,
    /// Size of the central directory.
    pub cd_size: u64,
    /// Number of entries of the central directory.
    pub total_entries: u64,
    /// Whether the archive has ZIP64 end records.
    pub is_zip64: bool,
    /// The archive comment behind the end record.
    pub archive_comment: Vec<u8>,
}

#[verifier::ext_equal]
pub struct ArchiveInfoModel {
    pub cd_offset: u64,
    pub cd_size: u64,
    pub total_entries: u64,
    pub is_zip64: bool,
    pub archive_comment: Seq<u8>,
}

impl View for ArchiveInfo {
    type V = ArchiveInfoModel;

    open spec fn view(&self) -> ArchiveInfoModel {
        ArchiveInfoModel {
            cd_offset: self.cd_offset,
            cd_size: self.cd_size,
            total_entries: self.total_entries,
            is_zip64: self.is_zip64,
            archive_comment: self.archive_comment@,
        }
    }
}

/// The fields of the end record.
#[derive(Debug, Clone, Copy)]
pub struct EndRecord {
    pub entries_this: u16,
    pub total_entries: u16,
    pub cd_size: u32,
    pub cd_offset: u32,
    pub comment_len: u16,
}

/// Whether an end record stands at index `p` of `tail` with a comment that reaches to the end.
pub open spec fn is_eocd_at(tail: Seq<u8>, p: int) -> bool {
    &&& 0 <= p
    &&& p + 22 <= tail.len()
    &&& u32_at(tail, p) == EOCD_SIG
    &&& p + 22 + u16_at(tail, p + 20) == tail.len()
}

/// The last index below `n` at which an end record stands.
pub open spec fn last_eocd(tail: Seq<u8>, n: int) -> Option<int>
    decreases n,
{
    if n <= 0 {
        None
    } else if is_eocd_at(tail, n - 1) {
        Some(n - 1)
    } else {
        last_eocd(tail, n - 1)
    }
}

/// The offset from which on the end record is looked for: a comment has at most 65535 bytes.
pub open spec fn search_from(file_len: int) -> int {
    if file_len <= 22 + 65535 {
        0
    } else {
        file_len - (22 + 65535)
    }
}

/// The `len` bytes of `content` from `offset` on, if there are so many.
pub open spec fn bytes_at(content: Seq<u8>, offset: int, len: int) -> Option<Seq<u8>> {
    if offset + len <= content.len() {
        Some(content.subrange(offset, offset + len))
    } else {
        None
    }
}

/// What is wrong with a central directory in this place, if anything is.
pub open spec fn cd_range_fault(
    cd_offset: u64,
    cd_size: u64,
    cd_end_limit: u64,
    file_len: u64,
) -> Option<ErrorModel> {
    if cd_offset + cd_size > u64::MAX {
        Some(limit("Central Directory range overflows u64"@))
    } else if cd_offset + cd_size > file_len {
        Some(
            ErrorModel::InvalidArchive(
                ArchiveErrorModel::CentralDirectoryRange {
                    offset: cd_offset,
                    size: cd_size,
                    file_len,
                },
            ),
        )
    } else if cd_offset + cd_size > cd_end_limit {
        Some(
            ErrorModel::InvalidArchive(
                ArchiveErrorModel::CentralDirectoryOverlap {
                    offset: cd_offset,
                    size: cd_size,
                    limit: cd_end_limit,
                },
            ),
        )
    } else {
        None
    }
}

impl EndRecord {
    /// The record in the 22 bytes `eocd`.
    pub open spec fn of(eocd: Seq<u8>) -> EndRecord {
        EndRecord {
            entries_this: u16_at(eocd, 8),
            total_entries: u16_at(eocd, 10),
            cd_size: u32_at(eocd, 12),
            cd_offset: u32_at(eocd, 16),
            comment_len: u16_at(eocd, 20),
        }
    }

    /// Whether a field holds the value that refers to the ZIP64 records.
    pub open spec fn refers_to_zip64(self) -> bool {
        ||| self.entries_this == 0xFFFF
        ||| self.total_entries == 0xFFFF
        ||| self.cd_size == 0xFFFF_FFFF
        ||| self.cd_offset == 0xFFFF_FFFF
    }

    /// What the record alone says of the archive.
    pub open spec fn plain_outcome(
        self,
        comment: Seq<u8>,
        eocd_offset: u64,
        file_len: u64,
    ) -> core::result::Result<ArchiveInfoModel, ErrorModel> {
        if self.entries_this != self.total_entries {
            Err(ErrorModel::Unsupported(UnsupportedModel::EntryCountMismatch))
        } else {
            match cd_range_fault(
                self.cd_offset as u64,
                self.cd_size as u64,
                eocd_offset,
                file_len,
            ) {
                Some(fault) => Err(fault),
                None => Ok(
                    ArchiveInfoModel {
                        cd_offset: self.cd_offset as u64,
                        cd_size: self.cd_size as u64,
                        total_entries: self.total_entries as u64,
                        is_zip64: false,
                        archive_comment: comment,
                    },
                ),
            }
        }
    }
}

/// Whether an end record speaks of a second disk.
pub open spec fn eocd_multi_disk(eocd: Seq<u8>) -> bool {
    u16_at(eocd, 4) != 0 || u16_at(eocd, 6) != 0
}

/// The offset of the ZIP64 end record that the 20 bytes of a locator give.
pub open spec fn locator_outcome(loc: Seq<u8>) -> core::result::Result<u64, ErrorModel> {
    if u32_at(loc, 0) != ZIP64_EOCD_LOCATOR_SIG {
        Err(invalid("ZIP64 EOCD locator signature not found"@))
    } else if u32_at(loc, 4) != 0 || u32_at(loc, 16) != 1 {
        Err(ErrorModel::Unsupported(UnsupportedModel::MultiDiskZip64))
    } else {
        Ok(u64_at(loc, 8))
    }
}

/// What the 56 bytes of a ZIP64 end record at `z64_offset` say of the archive.
pub open spec fn zip64_outcome(
    rec: Seq<u8>,
    z64_offset: u64,
    locator_offset: u64,
    comment: Seq<u8>,
    file_len: u64,
) -> core::result::Result<ArchiveInfoModel, ErrorModel> {
    if u32_at(rec, 0) != ZIP64_EOCD_SIG {
        Err(invalid("invalid ZIP64 EOCD signature"@))
    } else if u64_at(rec, 4) < 44 {
        Err(invalid("ZIP64 EOCD record is too small"@))
    } else if z64_offset + 12 + u64_at(rec, 4) > u64::MAX {
        Err(limit("ZIP64 EOCD record range overflows u64"@))
    } else if z64_offset + 12 + u64_at(rec, 4) > locator_offset {
        Err(invalid("ZIP64 EOCD record overlaps ZIP64 locator"@))
    } else if u32_at(rec, 16) != 0 || u32_at(rec, 20) != 0 {
        Err(ErrorModel::Unsupported(UnsupportedModel::MultiDiskZip64))
    } else if u64_at(rec, 24) != u64_at(rec, 32) {
        Err(
            ErrorModel::Unsupported(
                UnsupportedModel::Other(
                    "entry count mismatch in ZIP64 EOCD; multi-disk may be unsupported"@,
                ),
            ),
        )
    } else {
        match cd_range_fault(u64_at(rec, 48), u64_at(rec, 40), z64_offset, file_len) {
            Some(fault) => Err(fault),
            None => Ok(
                ArchiveInfoModel {
                    cd_offset: u64_at(rec, 48),
                    cd_size: u64_at(rec, 40),
                    total_entries: u64_at(rec, 32),
                    is_zip64: true,
                    archive_comment: comment,
                },
            ),
        }
    }
}

/// What the end record `eocd` at `eocd_offset`, with the ZIP64 records where it refers to them,
/// says of the archive `content`.
#[verifier::opaque]
pub open spec fn eocd_outcome(
    content: Seq<u8>,
    eocd: Seq<u8>,
    eocd_offset: u64,
    file_len: u64,
) -> core::result::Result<ArchiveInfoModel, ErrorModel> {
    let record = EndRecord::of(eocd);
    if eocd_multi_disk(eocd) {
        Err(ErrorModel::Unsupported(UnsupportedModel::MultiDisk))
    } else if record.comment_len > 0 && bytes_at(
        content,
        eocd_offset + 22,
        record.comment_len as int,
    ) is None {
        Err(end_of_input())
    } else {
        let comment = if record.comment_len > 0 {
            bytes_at(content, eocd_offset + 22, record.comment_len as int)->0
        } else {
            Seq::empty()
        };
        if !record.refers_to_zip64() {
            record.plain_outcome(comment, eocd_offset, file_len)
        } else if eocd_offset < 20 {
            Err(invalid("ZIP64 EOCD locator not found before EOCD"@))
        } else {
            match bytes_at(content, eocd_offset - 20, 20) {
                None => Err(end_of_input()),
                Some(loc) => match locator_outcome(loc) {
                    Err(e) => Err(e),
                    Ok(z64_offset) => match bytes_at(content, z64_offset as int, 56) {
                        None => Err(end_of_input()),
                        Some(rec) => zip64_outcome(
                            rec,
                            z64_offset,
                            (eocd_offset - 20) as u64,
                            comment,
                            file_len,
                        ),
                    },
                },
            }
        }
    }
}

/// What the end records of the first `file_len` bytes of `content` say of the archive.
pub open spec fn archive_outcome(content: Seq<u8>, file_len: u64) -> core::result::Result<
    ArchiveInfoModel,
    ErrorModel,
> {
    if file_len < 22 {
        Err(ErrorModel::InvalidArchive(ArchiveErrorModel::TooSmall))
    } else if content.len() < file_len {
        Err(end_of_input())
    } else {
        let from = search_from(file_len as int);
        let tail = content.subrange(from, file_len as int);
        match last_eocd(tail, tail.len() - 21) {
            None => Err(ErrorModel::InvalidArchive(ArchiveErrorModel::EocdNotFound)),
            Some(p) => eocd_outcome(
                content,
                tail.subrange(p, p + 22),
                (from + p) as u64,
                file_len,
            ),
        }
    }
}

/// The bytes of an end record and the comment behind it.
#[verifier::opaque]
pub open spec fn eocd_bytes(
    entries: u16,
    cd_size: u32,
    cd_offset: u32,
    comment: Seq<u8>,
) -> Seq<u8> {
    u32_bytes(EOCD_SIG) + u32_bytes(0) + u16_bytes(entries) + u16_bytes(entries) + u32_bytes(
        cd_size,
    ) + u32_bytes(cd_offset) + u16_bytes(comment.len() as u16) + comment
}

/// The bytes of a ZIP64 end record at `z64_offset` and its locator.
pub open spec fn zip64_record_bytes(
    z64_offset: u64,
    entries: u64,
    cd_size: u64,
    cd_offset: u64,
) -> Seq<u8> {
    (u32_bytes(ZIP64_EOCD_SIG) + u64_bytes(44) + u16_bytes(45) + u16_bytes(45) + u32_bytes(0)
        + u32_bytes(0) + u64_bytes(entries) + u64_bytes(entries) + u64_bytes(cd_size) + u64_bytes(
        cd_offset,
    )) + (u32_bytes(ZIP64_EOCD_LOCATOR_SIG) + u32_bytes(0) + u64_bytes(z64_offset) + u32_bytes(1))
}

/// The bytes of a ZIP64 end record at `z64_offset`, its locator, an end record that refers to
/// them, and the comment.
#[verifier::opaque]
pub open spec fn zip64_eocd_bytes(
    z64_offset: u64,
    entries: u64,
    cd_size: u64,
    cd_offset: u64,
    comment: Seq<u8>,
) -> Seq<u8> {
    zip64_record_bytes(z64_offset, entries, cd_size, cd_offset) + eocd_bytes(
        0xFFFF,
        0xFFFF_FFFF,
        0xFFFF_FFFF,
        comment,
    )
}

/// The offset from which on the end record is looked for in a file of `file_len` bytes.
pub fn search_start(file_len: u64) -> (from: u64)
    ensures
        from == search_from(file_len as int),
{
    if file_len <= 22 + 65535 {
        0
    } else {
        file_len - (22 + 65535)
    }
}

/// The index of the last end record in the tail of a file.
pub fn find_eocd(tail: &[u8]) -> (r: Option<usize>)
    ensures
        match r {
            Some(p) => last_eocd(tail@, tail@.len() - 21) == Some(p as int),
            None => last_eocd(tail@, tail@.len() - 21) is None,
        },
{
    if tail.len() < 22 {
        return None;
    }
    let mut n: usize = tail.len() - 21;
    while n > 0
        invariant
            n <= tail.len() - 21,
            tail.len() >= 22,
            last_eocd(tail@, tail@.len() - 21) == last_eocd(tail@, n as int),
        decreases n,
    {
        let p: usize = n - 1;
        if read_u32(tail, p) == EOCD_SIG {
            let comment_len: usize = read_u16(tail, p + 20) as usize;
            if tail.len() - 22 - p == comment_len {
                return Some(p);
            }
        }
        n = p;
    }
    None
}

/// The `len` bytes of `content` from `offset` on.
pub fn read_at(content: &[u8], offset: u64, len: usize) -> (r: Option<&[u8]>)
    ensures
        match r {
            Some(b) => bytes_at(content@, offset as int, len as int) == Some(b@),
            None => bytes_at(content@, offset as int, len as int) is None,
        },
{
    if offset <= content.len() as u64 {
        let from: usize = offset as usize;
        if len <= content.len() - from {
            return Some(slice_subrange(content, from, from + len));
        }
    }
    None
}

/// Reads the 22 bytes of an end record.
pub fn parse_end_record(eocd: &[u8]) -> (r: Result<EndRecord>)
    requires
        eocd@.len() == 22,
    ensures
        match r {
            Ok(record) => !eocd_multi_disk(eocd@) && record == EndRecord::of(eocd@),
            Err(e) => eocd_multi_disk(eocd@) && e@ == ErrorModel::Unsupported(
                UnsupportedModel::MultiDisk,
            ),
        },
{
    if read_u16(eocd, 4) != 0 || read_u16(eocd, 6) != 0 {
        return Err(Error::Unsupported(UnsupportedFeature::MultiDisk));
    }
    Ok(
        EndRecord {
            entries_this: read_u16(eocd, 8),
            total_entries: read_u16(eocd, 10),
            cd_size: read_u32(eocd, 12),
            cd_offset: read_u32(eocd, 16),
            comment_len: read_u16(eocd, 20),
        },
    )
}

impl EndRecord {
    /// Whether the ZIP64 records have to be read.
    pub fn needs_zip64(&self) -> (r: bool)
        ensures
            r == self.refers_to_zip64(),
    {
        self.entries_this == 0xFFFF || self.total_entries == 0xFFFF || self.cd_size == 0xFFFF_FFFF
            || self.cd_offset == 0xFFFF_FFFF
    }

    /// What the record says of an archive that has no ZIP64 records.
    pub fn plain_info(&self, comment: Vec<u8>, eocd_offset: u64, file_len: u64) -> (r: Result<
        ArchiveInfo,
    >)
        ensures
            outcome(r) == self.plain_outcome(comment@, eocd_offset, file_len),
    {
        if self.entries_this != self.total_entries {
            return Err(Error::Unsupported(UnsupportedFeature::EntryCountMismatch));
        }
        let cd_offset: u64 = self.cd_offset as u64;
        let cd_size: u64 = self.cd_size as u64;
        match validate_cd_range(cd_offset, cd_size, eocd_offset, file_len) {
            Err(e) => Err(e),
            Ok(()) => Ok(
                ArchiveInfo {
                    cd_offset,
                    cd_size,
                    total_entries: self.total_entries as u64,
                    is_zip64: false,
                    archive_comment: comment,
                },
            ),
        }
    }
}

/// Reads the 20 bytes of a ZIP64 locator.
pub fn parse_zip64_locator(loc: &[u8]) -> (r: Result<u64>)
    requires
        loc@.len() == 20,
    ensures
        outcome(r) == locator_outcome(loc@),
{
    if read_u32(loc, 0) != ZIP64_EOCD_LOCATOR_SIG {
        return Err(Error::invalid_archive("ZIP64 EOCD locator signature not found"));
    }
    if read_u32(loc, 4) != 0 || read_u32(loc, 16) != 1 {
        return Err(Error::Unsupported(UnsupportedFeature::MultiDiskZip64));
    }
    Ok(read_u64(loc, 8))
}

/// Reads the 56 bytes of a ZIP64 end record.
pub fn parse_zip64_eocd(
    rec: &[u8],
    z64_offset: u64,
    locator_offset: u64,
    comment: Vec<u8>,
    file_len: u64,
) -> (r: Result<ArchiveInfo>)
    requires
        rec@.len() == 56,
    ensures
        outcome(r) == zip64_outcome(rec@, z64_offset, locator_offset, comment@, file_len),
{
    if read_u32(rec, 0) != ZIP64_EOCD_SIG {
        return Err(Error::invalid_archive("invalid ZIP64 EOCD signature"));
    }
    let size: u64 = read_u64(rec, 4);
    if size < 44 {
        return Err(Error::invalid_archive("ZIP64 EOCD record is too small"));
    }
    if z64_offset > u64::MAX - 12 || size > u64::MAX - 12 - z64_offset {
        return Err(Error::limit_exceeded("ZIP64 EOCD record range overflows u64"));
    }
    if z64_offset + 12 + size > locator_offset {
        return Err(Error::invalid_archive("ZIP64 EOCD record overlaps ZIP64 locator"));
    }
    if read_u32(rec, 16) != 0 || read_u32(rec, 20) != 0 {
        return Err(Error::Unsupported(UnsupportedFeature::MultiDiskZip64));
    }
    let entries_this: u64 = read_u64(rec, 24);
    let total_entries: u64 = read_u64(rec, 32);
    let cd_size: u64 = read_u64(rec, 40);
    let cd_offset: u64 = read_u64(rec, 48);
    if entries_this != total_entries {
        return Err(
            Error::unsupported("entry count mismatch in ZIP64 EOCD; multi-disk may be unsupported"),
        );
    }
    match validate_cd_range(cd_offset, cd_size, z64_offset, file_len) {
        Err(e) => Err(e),
        Ok(()) => Ok(
            ArchiveInfo {
                cd_offset,
                cd_size,
                total_entries,
                is_zip64: true,
                archive_comment: comment,
            },
        ),
    }
}

/// Reads the end record `eocd_buf`, which stands at `eocd_offset`, and what it refers to.
pub fn parse_eocd(
    content: &[u8],
    eocd_buf: &[u8; 22],
    eocd_offset: u64,
    file_len: u64,
) -> (r: Result<ArchiveInfo>)
    ensures
        outcome(r) == eocd_outcome(content@, eocd_buf@, eocd_offset, file_len),
{
    reveal(eocd_outcome);
    let record = match parse_end_record(eocd_buf) {
        Ok(record) => record,
        Err(e) => return Err(e),
    };
    let mut comment: Vec<u8> = Vec::new();
    if record.comment_len > 0 {
        let available: u64 = content.len() as u64;
        if available < 22 || eocd_offset > available - 22 {
            return Err(Error::end_of_input());
        }
        match read_at(content, eocd_offset + 22, record.comment_len as usize) {
            Some(bytes) => {
                comment = slice_to_vec(bytes);
            },
            None => return Err(Error::end_of_input()),
        }
    }
    assert(comment@ =~= if record.comment_len > 0 {
        bytes_at(content@, eocd_offset + 22, record.comment_len as int)->0
    } else {
        Seq::empty()
    });
    if !record.needs_zip64() {
        return record.plain_info(comment, eocd_offset, file_len);
    }
    if eocd_offset < 20 {
        return Err(Error::invalid_archive("ZIP64 EOCD locator not found before EOCD"));
    }
    let locator_offset: u64 = eocd_offset - 20;
    let loc = match read_at(content, locator_offset, 20) {
        Some(loc) => loc,
        None => return Err(Error::end_of_input()),
    };
    let z64_offset: u64 = match parse_zip64_locator(loc) {
        Ok(z64_offset) => z64_offset,
        Err(e) => return Err(e),
    };
    match read_at(content, z64_offset, 56) {
        Some(rec) => parse_zip64_eocd(rec, z64_offset, locator_offset, comment, file_len),
        None => Err(Error::end_of_input()),
    }
}

/// Finds the end record of an archive of `file_len` bytes and reads where its central directory
/// stands.
pub fn find_archive_info(content: &[u8], file_len: u64) -> (r: Result<ArchiveInfo>)
    ensures
        outcome(r) == archive_outcome(content@, file_len),
{
    if file_len < 22 {
        return Err(Error::InvalidArchive(ArchiveError::TooSmall));
    }
    if (content.len() as u64) < file_len {
        return Err(Error::end_of_input());
    }
    let from: u64 = search_start(file_len);
    let tail = slice_subrange(content, from as usize, file_len as usize);
    match find_eocd(tail) {
        None => Err(Error::InvalidArchive(ArchiveError::EocdNotFound)),
        Some(p) => {
            proof {
                lemma_last_eocd(tail@, tail@.len() - 21);
            }
            let eocd = array_22(tail, p);
            parse_eocd(content, &eocd, from + p as u64, file_len)
        },
    }
}

/// The search returns the last place at which an end record stands.
pub proof fn lemma_last_eocd(tail: Seq<u8>, n: int)
    ensures
        match last_eocd(tail, n) {
            Some(p) => 0 <= p < n && is_eocd_at(tail, p) && forall|q: int|
                p < q < n ==> !is_eocd_at(tail, q),
            None => forall|q: int| 0 <= q < n ==> !is_eocd_at(tail, q),
        },
    decreases n,
{
    if n > 0 && !is_eocd_at(tail, n - 1) {
        lemma_last_eocd(tail, n - 1);
    }
}

/// The sizes of the end records.
pub proof fn lemma_end_sizes(
    entries: u64,
    cd_size: u64,
    cd_offset: u64,
    z64_offset: u64,
    comment: Seq<u8>,
)
    ensures
        eocd_bytes(entries as u16, cd_size as u32, cd_offset as u32, comment).len() == 22
            + comment.len(),
        zip64_eocd_bytes(z64_offset, entries, cd_size, cd_offset, comment).len() == 98
            + comment.len(),
{
    reveal(eocd_bytes);
    reveal(zip64_eocd_bytes);
}

/// The fields of an end record that was written are read as they were written.
pub proof fn law_eocd_fields(entries: u16, cd_size: u32, cd_offset: u32, comment: Seq<u8>)
    requires
        comment.len() <= 0xFFFF,
    ensures
        ({
            let b = eocd_bytes(entries, cd_size, cd_offset, comment);
            &&& b.len() == 22 + comment.len()
            &&& u32_at(b, 0) == 0x0605_4b50
            &&& u16_at(b, 4) == 0
            &&& u16_at(b, 6) == 0
            &&& u16_at(b, 8) == entries
            &&& u16_at(b, 10) == entries
            &&& u32_at(b, 12) == cd_size
            &&& u32_at(b, 16) == cd_offset
            &&& u16_at(b, 20) == comment.len()
            &&& b.subrange(22, b.len() as int) == comment
        }),
{
    reveal(eocd_bytes);
    let b = eocd_bytes(entries, cd_size, cd_offset, comment);
    assert(b.len() == 22 + comment.len());
    assert(b.subrange(0, 4) =~= u32_bytes(EOCD_SIG));
    assert(b.subrange(4, 6) =~= u16_bytes(0));
    assert(b.subrange(6, 8) =~= u16_bytes(0));
    assert(b.subrange(8, 10) =~= u16_bytes(entries));
    assert(b.subrange(10, 12) =~= u16_bytes(entries));
    assert(b.subrange(12, 16) =~= u32_bytes(cd_size));
    assert(b.subrange(16, 20) =~= u32_bytes(cd_offset));
    assert(b.subrange(20, 22) =~= u16_bytes(comment.len() as u16));
    assert(b.subrange(22, b.len() as int) =~= comment);
    lemma_read_u32(b, 0, EOCD_SIG);
    lemma_read_u16(b, 4, 0);
    lemma_read_u16(b, 6, 0);
    lemma_read_u16(b, 8, entries);
    lemma_read_u16(b, 10, entries);
    lemma_read_u32(b, 12, cd_size);
    lemma_read_u32(b, 16, cd_offset);
    lemma_read_u16(b, 20, comment.len() as u16);
}

/// The fields of ZIP64 end records that were written are read as they were written.
pub proof fn law_zip64_fields(
    z64_offset: u64,
    entries: u64,
    cd_size: u64,
    cd_offset: u64,
    comment: Seq<u8>,
)
    ensures
        ({
            let b = zip64_eocd_bytes(z64_offset, entries, cd_size, cd_offset, comment);
            &&& b.len() == 98 + comment.len()
            &&& u32_at(b, 0) == 0x0606_4b50
            &&& u64_at(b, 4) == 44
            &&& u16_at(b, 12) == 45
            &&& u16_at(b, 14) == 45
            &&& u32_at(b, 16) == 0
            &&& u32_at(b, 20) == 0
            &&& u64_at(b, 24) == entries
            &&& u64_at(b, 32) == entries
            &&& u64_at(b, 40) == cd_size
            &&& u64_at(b, 48) == cd_offset
            &&& u32_at(b, 56) == 0x0706_4b50
            &&& u32_at(b, 60) == 0
            &&& u64_at(b, 64) == z64_offset
            &&& u32_at(b, 72) == 1
            &&& b.subrange(76, b.len() as int) == eocd_bytes(
                0xFFFF,
                0xFFFF_FFFF,
                0xFFFF_FFFF,
                comment,
            )
        }),
{
    reveal(zip64_eocd_bytes);
    lemma_end_sizes(0xFFFF, 0xFFFF_FFFF, 0xFFFF_FFFF, 0, comment);
    let b = zip64_eocd_bytes(z64_offset, entries, cd_size, cd_offset, comment);
    assert(b.len() == 98 + comment.len());
    assert(b.subrange(0, 4) =~= u32_bytes(ZIP64_EOCD_SIG));
    assert(b.subrange(4, 12) =~= u64_bytes(44));
    assert(b.subrange(12, 14) =~= u16_bytes(45));
    assert(b.subrange(14, 16) =~= u16_bytes(45));
    assert(b.subrange(16, 20) =~= u32_bytes(0));
    assert(b.subrange(20, 24) =~= u32_bytes(0));
    assert(b.subrange(24, 32) =~= u64_bytes(entries));
    assert(b.subrange(32, 40) =~= u64_bytes(entries));
    assert(b.subrange(40, 48) =~= u64_bytes(cd_size));
    assert(b.subrange(48, 56) =~= u64_bytes(cd_offset));
    assert(b.subrange(56, 60) =~= u32_bytes(ZIP64_EOCD_LOCATOR_SIG));
    assert(b.subrange(60, 64) =~= u32_bytes(0));
    assert(b.subrange(64, 72) =~= u64_bytes(z64_offset));
    assert(b.subrange(72, 76) =~= u32_bytes(1));
    assert(b.subrange(76, b.len() as int) =~= eocd_bytes(
        0xFFFF,
        0xFFFF_FFFF,
        0xFFFF_FFFF,
        comment,
    ));
    lemma_read_u32(b, 0, ZIP64_EOCD_SIG);
    lemma_read_u64(b, 4, 44);
    lemma_read_u16(b, 12, 45);
    lemma_read_u16(b, 14, 45);
    lemma_read_u32(b, 16, 0);
    lemma_read_u32(b, 20, 0);
    lemma_read_u64(b, 24, entries);
    lemma_read_u64(b, 32, entries);
    lemma_read_u64(b, 40, cd_size);
    lemma_read_u64(b, 48, cd_offset);
    lemma_read_u32(b, 56, ZIP64_EOCD_LOCATOR_SIG);
    lemma_read_u32(b, 60, 0);
    lemma_read_u64(b, 64, z64_offset);
    lemma_read_u32(b, 72, 1);
}

/// Appends an end record with its comment to `out`.
pub fn build_eocd_into(
    out: &mut Vec<u8>,
    entries: u16,
    cd_size: u32,
    cd_offset: u32,
    comment: &[u8],
) -> (r: Result<()>)
    ensures
        match r {
            Ok(()) => comment@.len() <= 0xFFFF && final(out)@ == old(out)@ + eocd_bytes(
                entries,
                cd_size,
                cd_offset,
                comment@,
            ),
            Err(e) => comment@.len() > 0xFFFF && final(out)@ == old(out)@ && e@ == limit(
                "archive comment is too long for EOCD"@,
            ),
        },
{
    reveal(eocd_bytes);
    if comment.len() > 0xFFFF {
        return Err(Error::limit_exceeded("archive comment is too long for EOCD"));
    }
    push_u32(out, EOCD_SIG);
    push_u32(out, 0);
    push_u16(out, entries);
    push_u16(out, entries);
    push_u32(out, cd_size);
    push_u32(out, cd_offset);
    push_u16(out, comment.len() as u16);
    push_bytes(out, comment);
    assert(out@ =~= old(out)@ + eocd_bytes(entries, cd_size, cd_offset, comment@));
    Ok(())
}

/// Appends the ZIP64 end records, which are to stand at `z64_eocd_off`, with the comment to `out`.
/// Where the comment is too long, those before the end record that would hold it have been
/// appended.
pub fn build_zip64_eocd_into(
    out: &mut Vec<u8>,
    z64_eocd_off: u64,
    entries: u64,
    cd_size: u64,
    cd_offset: u64,
    comment: &[u8],
) -> (r: Result<()>)
    ensures
        match r {
            Ok(()) => comment@.len() <= 0xFFFF && final(out)@ == old(out)@ + zip64_eocd_bytes(
                z64_eocd_off,
                entries,
                cd_size,
                cd_offset,
                comment@,
            ),
            Err(e) => comment@.len() > 0xFFFF && final(out)@ == old(out)@ + zip64_record_bytes(
                z64_eocd_off,
                entries,
                cd_size,
                cd_offset,
            ) && e@ == limit("archive comment is too long for EOCD"@),
        },
{
    reveal(zip64_eocd_bytes);
    push_u32(out, ZIP64_EOCD_SIG);
    push_u64(out, 44);
    push_u16(out, 45);
    push_u16(out, 45);
    push_u32(out, 0);
    push_u32(out, 0);
    push_u64(out, entries);
    push_u64(out, entries);
    push_u64(out, cd_size);
    push_u64(out, cd_offset);
    push_u32(out, ZIP64_EOCD_LOCATOR_SIG);
    push_u32(out, 0);
    push_u64(out, z64_eocd_off);
    push_u32(out, 1);
    assert(out@ =~= old(out)@ + zip64_record_bytes(z64_eocd_off, entries, cd_size, cd_offset));
    let r = build_eocd_into(out, 0xFFFF, 0xFFFF_FFFF, 0xFFFF_FFFF, comment);
    assert(r is Ok ==> out@ =~= old(out)@ + zip64_eocd_bytes(
        z64_eocd_off,
        entries,
        cd_size,
        cd_offset,
        comment@,
    ));
    r
}

/// Writes an end record with its comment to the end of `w`.
pub fn write_eocd(
    w: &mut Vec<u8>,
    entries: u16,
    cd_size: u32,
    cd_offset: u32,
    comment: &[u8],
) -> (r: Result<()>)
    ensures
        match r {
            Ok(()) => comment@.len() <= 0xFFFF && final(w)@ == old(w)@ + eocd_bytes(
                entries,
                cd_size,
                cd_offset,
                comment@,
            ),
            Err(e) => comment@.len() > 0xFFFF && final(w)@ == old(w)@ && e@ == limit(
                "archive comment is too long for EOCD"@,
            ),
        },
{
    build_eocd_into(w, entries, cd_size, cd_offset, comment)
}

/// Writes the ZIP64 end records, which stand at `pos`, to the end of `w` and moves `pos` behind
/// them.
pub fn write_zip64_eocd(
    w: &mut Vec<u8>,
    pos: &mut u64,
    entries: u64,
    cd_size: u64,
    cd_offset: u64,
    comment: &[u8],
) -> (r: Result<()>)
    requires
        *old(pos) + 98 + comment@.len() <= u64::MAX,
    ensures
        match r {
            Ok(()) => comment@.len() <= 0xFFFF && final(w)@ == old(w)@ + zip64_eocd_bytes(
                *old(pos),
                entries,
                cd_size,
                cd_offset,
                comment@,
            ) && *final(pos) == *old(pos) + 98 + comment@.len(),
            Err(e) => comment@.len() > 0xFFFF && final(w)@ == old(w)@ && *final(pos) == *old(pos)
                && e@ == limit("archive comment is too long for EOCD"@),
        },
{
    let mut buf: Vec<u8> = Vec::new();
    match build_zip64_eocd_into(&mut buf, *pos, entries, cd_size, cd_offset, comment) {
        Err(e) => Err(e),
        Ok(()) => {
            proof {
                lemma_end_sizes(entries, cd_size, cd_offset, *pos, comment@);
                assert(buf@ =~= zip64_eocd_bytes(*pos, entries, cd_size, cd_offset, comment@));
            }
            push_bytes(w, buf.as_slice());
            *pos = *pos + 98 + comment.len() as u64;
            Ok(())
        },
    }
}

/// Whether a central directory lies within the file and before the end records.
fn validate_cd_range(cd_offset: u64, cd_size: u64, cd_end_limit: u64, file_len: u64) -> (r: Result<
    (),
>)
    ensures
        match r {
            Ok(()) => cd_range_fault(cd_offset, cd_size, cd_end_limit, file_len) is None,
            Err(e) => cd_range_fault(cd_offset, cd_size, cd_end_limit, file_len) == Some(e@),
        },
{
    let cd_end: u64 = match cd_offset.checked_add(cd_size) {
        Some(cd_end) => cd_end,
        None => return Err(Error::limit_exceeded("Central Directory range overflows u64")),
    };
    if cd_end > file_len {
        return Err(
            Error::InvalidArchive(
                ArchiveError::CentralDirectoryRange { offset: cd_offset, size: cd_size, file_len },
            ),
        );
    }
    if cd_end > cd_end_limit {
        return Err(
            Error::InvalidArchive(
                ArchiveError::CentralDirectoryOverlap {
                    offset: cd_offset,
                    size: cd_size,
                    limit: cd_end_limit,
                },
            ),
        );
    }
    Ok(())
}

} // verus!
