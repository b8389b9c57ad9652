//! What an archive must hold to be read, and what is read from it.

use super::bytes::{lemma_read_part, u16_at, u32_at, u64_at};
use super::eocd::{
    archive_outcome, bytes_at, eocd_outcome, is_eocd_at, last_eocd, lemma_last_eocd,
    locator_outcome, search_from, zip64_outcome, ArchiveInfoModel, EndRecord,
};
use super::error::{end_of_input, ArchiveErrorModel, ErrorModel, UnsupportedModel};
use super::extra::{search_outcome, FieldSearch};
use super::layout::lemma_cd_entries;
use super::names::new_name_outcome;
use super::options::OptionsModel;
use super::order::{lemma_stable_order, stable_order};
use super::plan::{
    cd_bytes_of, cd_entries_outcome, cd_entry_outcome, from_offset, in_file_order,
    lfh_offset_outcome, local_plan_outcome, local_plans_outcome, offsets, plans_outcome, span_end,
    spans_outcome, EntryPlanModel,
};
use super::reread::{last_end_record, lemma_eocd_in_tail, lemma_found};
use vstd::prelude::*;

verus! {

/// Whether the end record of a file stands at `p`: the bytes `PK\x05\x06`, with a comment behind
/// the 22 bytes of the record that reaches to the end of the file.
pub open spec fn end_record_at(file: Seq<u8>, p: int) -> bool {
    &&& 0 <= p
    &&& p + 22 <= file.len()
    &&& file[p] == 0x50
    &&& file[p + 1] == 0x4b
    &&& file[p + 2] == 0x05
    &&& file[p + 3] == 0x06
    &&& file[p + 20] + 0x100 * file[p + 21] == file.len() - p - 22
}

proof fn lemma_end_record_at(file: Seq<u8>, p: int)
    ensures
        end_record_at(file, p) == is_eocd_at(file, p),
{
}

/// A file without an end record is no archive, and neither is one that is too short for one or
/// shorter than was said.
pub proof fn law_no_end_record(content: Seq<u8>, file_len: u64)
    ensures
        file_len < 22 ==> archive_outcome(content, file_len) == Err::<ArchiveInfoModel, ErrorModel>(
            ErrorModel::InvalidArchive(ArchiveErrorModel::TooSmall),
        ),
        file_len >= 22 && content.len() < file_len ==> archive_outcome(content, file_len) == Err::<
            ArchiveInfoModel,
            ErrorModel,
        >(end_of_input()),
        file_len >= 22 && content.len() == file_len && (forall|p: int|
            !#[trigger] end_record_at(content, p)) ==> archive_outcome(content, file_len) == Err::<
            ArchiveInfoModel,
            ErrorModel,
        >(ErrorModel::InvalidArchive(ArchiveErrorModel::EocdNotFound)),
{
    if file_len >= 22 && content.len() == file_len && (forall|p: int|
        !#[trigger] end_record_at(content, p)) {
        let from = search_from(file_len as int);
        let tail = content.subrange(from, file_len as int);
        lemma_last_eocd(tail, tail.len() - 21);
        if let Some(i) = last_eocd(tail, tail.len() - 21) {
            lemma_eocd_in_tail(content, from, i);
            lemma_end_record_at(content, from + i);
        }
    }
}

/// The last end record of a file counts. Where none of its fields refers to ZIP64 records, the
/// archive is read exactly when it is on one disk, the two numbers of entries agree, and the
/// directory ends before the record; the numbers are those of the record, and the comment is what
/// stands behind it.
pub proof fn law_plain_end_record(file: Seq<u8>, p: int)
    requires
        file.len() <= u64::MAX,
        end_record_at(file, p),
        forall|q: int| p < q ==> !#[trigger] end_record_at(file, q),
        u16_at(file, p + 8) < 0xFFFF,
        u16_at(file, p + 10) < 0xFFFF,
        u32_at(file, p + 12) < 0xFFFF_FFFF,
        u32_at(file, p + 16) < 0xFFFF_FFFF,
    ensures
        ({
            let one_disk = u16_at(file, p + 4) == 0 && u16_at(file, p + 6) == 0;
            let agree = u16_at(file, p + 8) == u16_at(file, p + 10);
            let end = u32_at(file, p + 16) + u32_at(file, p + 12);
            let r = archive_outcome(file, file.len() as u64);
            &&& one_disk && agree && end <= p ==> r == Ok::<ArchiveInfoModel, ErrorModel>(
                ArchiveInfoModel {
                    cd_offset: u32_at(file, p + 16) as u64,
                    cd_size: u32_at(file, p + 12) as u64,
                    total_entries: u16_at(file, p + 10) as u64,
                    is_zip64: false,
                    archive_comment: file.subrange(p + 22, file.len() as int),
                },
            )
            &&& !one_disk ==> r == Err::<ArchiveInfoModel, ErrorModel>(
                ErrorModel::Unsupported(UnsupportedModel::MultiDisk),
            )
            &&& one_disk && !agree ==> r == Err::<ArchiveInfoModel, ErrorModel>(
                ErrorModel::Unsupported(UnsupportedModel::EntryCountMismatch),
            )
            &&& one_disk && agree && end > p ==> r == Err::<ArchiveInfoModel, ErrorModel>(
                ErrorModel::InvalidArchive(
                    if end > file.len() {
                        ArchiveErrorModel::CentralDirectoryRange {
                            offset: u32_at(file, p + 16) as u64,
                            size: u32_at(file, p + 12) as u64,
                            file_len: file.len() as u64,
                        }
                    } else {
                        ArchiveErrorModel::CentralDirectoryOverlap {
                            offset: u32_at(file, p + 16) as u64,
                            size: u32_at(file, p + 12) as u64,
                            limit: p as u64,
                        }
                    },
                ),
            )
        }),
{
    lemma_last_record(file, p);
    reveal(eocd_outcome);
}

/// The fields of the last end record of a file are those that count.
proof fn lemma_last_record(file: Seq<u8>, p: int)
    requires
        file.len() <= u64::MAX,
        end_record_at(file, p),
        forall|q: int| p < q ==> !#[trigger] end_record_at(file, q),
    ensures
        ({
            let eocd = file.subrange(p, p + 22);
            &&& archive_outcome(file, file.len() as u64) == eocd_outcome(
                file,
                eocd,
                p as u64,
                file.len() as u64,
            )
            &&& u16_at(eocd, 4) == u16_at(file, p + 4)
            &&& u16_at(eocd, 6) == u16_at(file, p + 6)
            &&& EndRecord::of(eocd) == (EndRecord {
                entries_this: u16_at(file, p + 8),
                total_entries: u16_at(file, p + 10),
                cd_size: u32_at(file, p + 12),
                cd_offset: u32_at(file, p + 16),
                comment_len: (file.len() - p - 22) as u16,
            })
            &&& bytes_at(file, p + 22, file.len() - p - 22) == Some(
                file.subrange(p + 22, file.len() as int),
            )
            &&& file.len() - p - 22 == 0 ==> file.subrange(p + 22, file.len() as int)
                == Seq::<u8>::empty()
        }),
{
    lemma_end_record_at(file, p);
    assert forall|q: int| p < q implies !#[trigger] is_eocd_at(file, q) by {
        lemma_end_record_at(file, q);
        assert(!end_record_at(file, q));
    }
    assert(last_end_record(file, p));
    lemma_found(file, p);
    lemma_read_part(file, p, p + 22, 4);
    lemma_read_part(file, p, p + 22, 6);
    lemma_read_part(file, p, p + 22, 8);
    lemma_read_part(file, p, p + 22, 10);
    lemma_read_part(file, p, p + 22, 12);
    lemma_read_part(file, p, p + 22, 16);
    lemma_read_part(file, p, p + 22, 20);
    assert(file.len() - p - 22 == 0 ==> file.subrange(p + 22, file.len() as int)
        =~= Seq::<u8>::empty());
}

/// Where a field of the last end record refers to ZIP64 records, the archive is read exactly when
/// the locator stands in the 20 bytes before the record and points at a ZIP64 end record that ends
/// before it, all on one disk, with two numbers of entries that agree and a directory that ends
/// before the ZIP64 record. The numbers are those of the ZIP64 record.
pub proof fn law_zip64_end_record(file: Seq<u8>, p: int)
    requires
        file.len() <= u64::MAX,
        end_record_at(file, p),
        forall|q: int| p < q ==> !#[trigger] end_record_at(file, q),
        u16_at(file, p + 8) == 0xFFFF || u16_at(file, p + 10) == 0xFFFF || u32_at(file, p + 12)
            == 0xFFFF_FFFF || u32_at(file, p + 16) == 0xFFFF_FFFF,
    ensures
        ({
            let at = u64_at(file, p - 12) as int;
            let located = {
                &&& p >= 20
                &&& u32_at(file, p - 20) == 0x0706_4b50
                &&& u32_at(file, p - 16) == 0
                &&& u32_at(file, p - 4) == 1
            };
            let sound = {
                &&& at + 56 <= file.len()
                &&& u32_at(file, at) == 0x0606_4b50
                &&& u64_at(file, at + 4) >= 44
                &&& at + 12 + u64_at(file, at + 4) <= p - 20
                &&& u32_at(file, at + 16) == 0
                &&& u32_at(file, at + 20) == 0
                &&& u64_at(file, at + 24) == u64_at(file, at + 32)
                &&& u64_at(file, at + 48) + u64_at(file, at + 40) <= at
            };
            let one_disk = u16_at(file, p + 4) == 0 && u16_at(file, p + 6) == 0;
            let r = archive_outcome(file, file.len() as u64);
            &&& r is Ok <==> one_disk && located && sound
            &&& r is Ok ==> r == Ok::<ArchiveInfoModel, ErrorModel>(
                ArchiveInfoModel {
                    cd_offset: u64_at(file, at + 48),
                    cd_size: u64_at(file, at + 40),
                    total_entries: u64_at(file, at + 32),
                    is_zip64: true,
                    archive_comment: file.subrange(p + 22, file.len() as int),
                },
            )
        }),
{
    let one_disk = u16_at(file, p + 4) == 0 && u16_at(file, p + 6) == 0;
    let comment = file.subrange(p + 22, file.len() as int);
    lemma_last_record(file, p);
    lemma_referring_record(file, file.subrange(p, p + 22), p, comment);
    if one_disk && p >= 20 {
        lemma_locator_at(file, p - 20);
        if let Ok(z64_offset) = said_by_locator(file, p - 20) {
            let at = z64_offset as int;
            if at + 56 <= file.len() {
                lemma_zip64_at(file, at, p - 20, comment);
            }
        }
    }
}

/// What the locator at `from` says.
#[verifier::opaque]
spec fn said_by_locator(file: Seq<u8>, from: int) -> core::result::Result<u64, ErrorModel> {
    locator_outcome(file.subrange(from, from + 20))
}

/// What the ZIP64 end record at `at` says.
#[verifier::opaque]
spec fn said_by_zip64(
    file: Seq<u8>,
    at: int,
    locator: int,
    comment: Seq<u8>,
) -> core::result::Result<ArchiveInfoModel, ErrorModel> {
    zip64_outcome(
        file.subrange(at, at + 56),
        at as u64,
        locator as u64,
        comment,
        file.len() as u64,
    )
}

/// The ZIP64 records count where the end record refers to them.
proof fn lemma_referring_record(file: Seq<u8>, eocd: Seq<u8>, p: int, comment: Seq<u8>)
    requires
        0 <= p <= p + 22 + comment.len() <= u64::MAX,
        file.len() == p + 22 + comment.len(),
        EndRecord::of(eocd).refers_to_zip64(),
        EndRecord::of(eocd).comment_len == comment.len(),
        comment == file.subrange(p + 22, file.len() as int),
    ensures
        ({
            let r = eocd_outcome(file, eocd, p as u64, file.len() as u64);
            if u16_at(eocd, 4) != 0 || u16_at(eocd, 6) != 0 || p < 20 {
                r is Err
            } else {
                match said_by_locator(file, p - 20) {
                    Err(_) => r is Err,
                    Ok(at) => if at + 56 > file.len() {
                        r is Err
                    } else {
                        r == said_by_zip64(file, at as int, p - 20, comment)
                    },
                }
            }
        }),
{
    reveal(eocd_outcome);
    reveal(said_by_locator);
    reveal(said_by_zip64);
    assert(comment.len() == 0 ==> comment =~= Seq::<u8>::empty());
}

/// What a locator at `from` says.
proof fn lemma_locator_at(file: Seq<u8>, from: int)
    requires
        0 <= from,
        from + 20 <= file.len(),
    ensures
        ({
            let r = said_by_locator(file, from);
            &&& r is Ok <==> u32_at(file, from) == 0x0706_4b50 && u32_at(file, from + 4) == 0
                && u32_at(file, from + 16) == 1
            &&& r matches Ok(at) ==> at == u64_at(file, from + 8)
        }),
{
    reveal(said_by_locator);
    lemma_read_part(file, from, from + 20, 0);
    lemma_read_part(file, from, from + 20, 4);
    lemma_read_part(file, from, from + 20, 8);
    lemma_read_part(file, from, from + 20, 16);
}

/// What a ZIP64 end record at `at` says.
proof fn lemma_zip64_at(file: Seq<u8>, at: int, locator: int, comment: Seq<u8>)
    requires
        0 <= at,
        at + 56 <= file.len() <= u64::MAX,
        0 <= locator <= file.len(),
    ensures
        ({
            let r = said_by_zip64(file, at, locator, comment);
            &&& r is Ok <==> {
                &&& u32_at(file, at) == 0x0606_4b50
                &&& u64_at(file, at + 4) >= 44
                &&& at + 12 + u64_at(file, at + 4) <= locator
                &&& u32_at(file, at + 16) == 0
                &&& u32_at(file, at + 20) == 0
                &&& u64_at(file, at + 24) == u64_at(file, at + 32)
                &&& u64_at(file, at + 48) + u64_at(file, at + 40) <= at
            }
            &&& r is Ok ==> r == Ok::<ArchiveInfoModel, ErrorModel>(
                ArchiveInfoModel {
                    cd_offset: u64_at(file, at + 48),
                    cd_size: u64_at(file, at + 40),
                    total_entries: u64_at(file, at + 32),
                    is_zip64: true,
                    archive_comment: comment,
                },
            )
        }),
{
    reveal(said_by_zip64);
    lemma_read_part(file, at, at + 56, 0);
    lemma_read_part(file, at, at + 56, 4);
    lemma_read_part(file, at, at + 56, 16);
    lemma_read_part(file, at, at + 56, 20);
    lemma_read_part(file, at, at + 56, 24);
    lemma_read_part(file, at, at + 56, 32);
    lemma_read_part(file, at, at + 56, 40);
    lemma_read_part(file, at, at + 56, 48);
}

/// The offset of a local header is the one in the entry, unless that is all ones: then it stands
/// in the ZIP64 field, behind the sizes that are all ones in the entry too.
pub proof fn law_local_header_offset(
    comp32: u32,
    uncomp32: u32,
    lhf32: u32,
    extra: Seq<u8>,
    entry_no: int,
)
    ensures
        ({
            let before = (if uncomp32 == 0xFFFF_FFFF {
                8int
            } else {
                0int
            }) + (if comp32 == 0xFFFF_FFFF {
                8int
            } else {
                0int
            });
            let r = lfh_offset_outcome(comp32, uncomp32, lhf32, extra, entry_no);
            if lhf32 < 0xFFFF_FFFF {
                r == Ok::<(u64, bool), Seq<char>>((lhf32 as u64, false))
            } else {
                match search_outcome(extra, 0x0001, 0) {
                    FieldSearch::Found { start, size } => if before + 8 <= size {
                        r == Ok::<(u64, bool), Seq<char>>((u64_at(extra, start + before), true))
                    } else {
                        r is Err
                    },
                    _ => r is Err,
                }
            }
        }),
{
}

/// An entry of the central directory is read exactly when it is all there behind the bytes
/// `PK\x01\x02`, gives the offset of a local header, and can get a new name. What is read is what
/// stands there: the fixed part of 46 bytes, the name, the extra area and the comment, one behind
/// another, and each as long as the fixed part says.
pub proof fn law_directory_entry(cd: Seq<u8>, pos: int, cd_index: int, opts: OptionsModel)
    requires
        0 <= pos,
    ensures
        ({
            let name_at = pos + 46;
            let extra_at = name_at + u16_at(cd, pos + 28);
            let comment_at = extra_at + u16_at(cd, pos + 30);
            let end = comment_at + u16_at(cd, pos + 32);
            let flags = u16_at(cd, pos + 8);
            let name = cd.subrange(name_at, extra_at);
            let extra = cd.subrange(extra_at, comment_at);
            let there = {
                &&& pos + 46 <= cd.len()
                &&& u32_at(cd, pos) == 0x0201_4b50
                &&& end <= cd.len()
            };
            let offset = lfh_offset_outcome(
                u32_at(cd, pos + 20),
                u32_at(cd, pos + 24),
                u32_at(cd, pos + 42),
                extra,
                cd_index + 1,
            );
            let named = new_name_outcome(name, flags, (cd_index + 1) as u64, opts);
            let r = cd_entry_outcome(cd, pos, cd_index, opts);
            &&& r is Ok <==> there && offset is Ok && named is Ok
            &&& r matches Ok(e) ==> {
                &&& e.cd_index == cd_index
                &&& e.cd_header == cd.subrange(pos, pos + 46)
                &&& e.orig_fname == name
                &&& e.cd_extra == extra
                &&& e.cd_comment == cd.subrange(comment_at, end)
                &&& offset == Ok::<(u64, bool), Seq<char>>(
                    (e.lhf_offset as u64, e.lhf_offset_in_zip64_extra),
                )
                &&& 0 <= e.lhf_offset <= u64::MAX
                &&& e.excluded == opts.excludes(name)
                &&& named == Ok::<(Seq<u8>, bool), ErrorModel>((e.new_fname, e.new_bit11_set))
                &&& e.needs_bit11 == (flags & 0x0800 == 0 && e.new_bit11_set)
            }
        }),
{
    reveal(cd_entry_outcome);
    if pos + 46 <= cd.len() {
        lemma_read_part(cd, pos, pos + 46, 0);
        lemma_read_part(cd, pos, pos + 46, 8);
        lemma_read_part(cd, pos, pos + 46, 20);
        lemma_read_part(cd, pos, pos + 46, 24);
        lemma_read_part(cd, pos, pos + 46, 28);
        lemma_read_part(cd, pos, pos + 46, 30);
        lemma_read_part(cd, pos, pos + 46, 32);
        lemma_read_part(cd, pos, pos + 46, 42);
    }
}

/// The size of the local header at `at` in a file: 30 bytes, the name and the extra area.
pub open spec fn local_size(file: Seq<u8>, at: int) -> int {
    30 + u16_at(file, at + 26) + u16_at(file, at + 28)
}

/// Whether a local header stands at `at` in a file, behind the bytes `PK\x03\x04`, with this name.
pub open spec fn local_header_at(file: Seq<u8>, at: int, name: Seq<u8>) -> bool {
    &&& 0 <= at
    &&& at + 30 + name.len() <= file.len()
    &&& file[at] == 0x50
    &&& file[at + 1] == 0x4b
    &&& file[at + 2] == 0x03
    &&& file[at + 3] == 0x04
    &&& file[at + 26] + 0x100 * file[at + 27] == name.len()
    &&& file.subrange(at + 30, at + 30 + name.len()) == name
}

/// A local header is read exactly when it is there under the name that the directory gives.
proof fn lemma_local_at(file: Seq<u8>, e: EntryPlanModel)
    requires
        0 <= e.lhf_offset,
    ensures
        ({
            let r = local_plan_outcome(e, from_offset(file, e.lhf_offset));
            &&& r is Ok <==> local_header_at(file, e.lhf_offset, e.orig_fname)
            &&& r matches Ok(p) ==> p == (EntryPlanModel {
                lhf_header_size: local_size(file, e.lhf_offset),
                lhf_extra_len: u16_at(file, e.lhf_offset + 28) as int,
                ..e
            })
        }),
{
    let at = e.lhf_offset;
    if at <= file.len() {
        let rest = from_offset(file, at);
        assert(rest == file.subrange(at, file.len() as int));
        lemma_read_part(file, at, file.len() as int, 0);
        lemma_read_part(file, at, file.len() as int, 26);
        lemma_read_part(file, at, file.len() as int, 28);
        if at + 30 + u16_at(file, at + 26) <= file.len() {
            assert(rest.subrange(30, 30 + u16_at(file, at + 26)) =~= file.subrange(
                at + 30,
                at + 30 + u16_at(file, at + 26),
            ));
        }
    }
}

/// What the first entries add up to, where each of their local headers is there.
proof fn lemma_locals_read(file: Seq<u8>, es: Seq<EntryPlanModel>, n: int)
    requires
        0 <= n <= es.len(),
        forall|i: int| 0 <= i < n ==> 0 <= (#[trigger] es[i]).lhf_offset,
    ensures
        local_plans_outcome(file, es, n) is Ok <==> forall|i: int|
            0 <= i < n ==> local_header_at(file, (#[trigger] es[i]).lhf_offset, es[i].orig_fname),
        local_plans_outcome(file, es, n) matches Ok(ps) ==> ps.len() == n && forall|i: int|
            0 <= i < n ==> #[trigger] ps[i] == (EntryPlanModel {
                lhf_header_size: local_size(file, es[i].lhf_offset),
                lhf_extra_len: u16_at(file, es[i].lhf_offset + 28) as int,
                ..es[i]
            }),
    decreases n,
{
    if n > 0 {
        lemma_locals_read(file, es, n - 1);
        lemma_local_at(file, es[n - 1]);
    }
}

/// The entries have room where none begins inside the local header before it.
proof fn lemma_spans_fit(ps: Seq<EntryPlanModel>, cd_offset: int, n: int)
    requires
        0 <= n <= ps.len(),
    ensures
        spans_outcome(ps, cd_offset, n) is Ok <==> forall|i: int|
            0 <= i < n ==> (#[trigger] ps[i]).lhf_offset + ps[i].lhf_header_size <= span_end(
                ps,
                cd_offset,
                i,
            ),
        spans_outcome(ps, cd_offset, n) matches Ok(qs) ==> qs.len() == n && forall|i: int|
            0 <= i < n ==> #[trigger] qs[i] == (EntryPlanModel {
                span_size: span_end(ps, cd_offset, i) - ps[i].lhf_offset,
                ..ps[i]
            }),
    decreases n,
{
    if n > 0 {
        lemma_spans_fit(ps, cd_offset, n - 1);
    }
}

/// The entries of a directory, each with its local header, are read exactly when every local
/// header is there under the name that the directory gives, and none of them reaches into the next
/// entry or into the directory, whatever the order in which the directory lists them.
pub proof fn law_entries_are_read(
    file: Seq<u8>,
    info: ArchiveInfoModel,
    opts: OptionsModel,
    es: Seq<EntryPlanModel>,
)
    requires
        info.total_entries <= usize::MAX,
        cd_entries_outcome(
            cd_bytes_of(file, info),
            0,
            0,
            info.total_entries as int,
            info.cd_size as int,
            opts,
        ) == Ok::<Seq<EntryPlanModel>, ErrorModel>(es),
    ensures
        plans_outcome(file, info, opts) is Ok <==> {
            &&& forall|i: int|
                0 <= i < es.len() ==> {
                    &&& local_header_at(file, (#[trigger] es[i]).lhf_offset, es[i].orig_fname)
                    &&& es[i].lhf_offset + local_size(file, es[i].lhf_offset) <= info.cd_offset
                }
            &&& forall|i: int, j: int|
                0 <= i < es.len() && 0 <= j < es.len() && i != j && (#[trigger] es[i]).lhf_offset
                    <= (#[trigger] es[j]).lhf_offset ==> es[i].lhf_offset + local_size(
                    file,
                    es[i].lhf_offset,
                ) <= es[j].lhf_offset
        },
{
    let n = es.len() as int;
    let keys = offsets(es);
    let order = stable_order(keys);
    let sorted = in_file_order(es);
    let cd_offset = info.cd_offset as int;
    let cd = cd_bytes_of(file, info);
    lemma_cd_entries(cd, 0, 0, info.total_entries as int, info.cd_size as int, opts);
    lemma_stable_order(keys);
    assert forall|i: int| 0 <= i < n implies 0 <= (#[trigger] es[i]).lhf_offset by {}
    assert forall|i: int| 0 <= i < n implies 0 <= (#[trigger] sorted[i]).lhf_offset by {
        assert(sorted[i] == es[order[i]]);
    }
    lemma_locals_read(file, sorted, n);
    if let Ok(ps) = local_plans_outcome(file, sorted, n) {
        lemma_spans_fit(ps, cd_offset, n);
    }
    if plans_outcome(file, info, opts) is Ok {
        let ps = local_plans_outcome(file, sorted, n)->Ok_0;
        assert forall|i: int, j: int|
            0 <= i < n && 0 <= j < n && i != j && (#[trigger] es[i]).lhf_offset <= (
            #[trigger] es[j]).lhf_offset implies es[i].lhf_offset + local_size(
            file,
            es[i].lhf_offset,
        ) <= es[j].lhf_offset by {
            lemma_reads_apart(file, es, cd_offset, i, j);
        }
        assert forall|i: int| 0 <= i < n implies {
            &&& local_header_at(file, (#[trigger] es[i]).lhf_offset, es[i].orig_fname)
            &&& es[i].lhf_offset + local_size(file, es[i].lhf_offset) <= cd_offset
        } by {
            assert(order.contains(i));
            let k = choose|k: int| 0 <= k < order.len() && order[k] == i;
            assert(sorted[k] == es[i]);
            lemma_reads_before(file, es, cd_offset, k);
        }
    }
    if (forall|i: int|
        0 <= i < es.len() ==> {
            &&& local_header_at(file, (#[trigger] es[i]).lhf_offset, es[i].orig_fname)
            &&& es[i].lhf_offset + local_size(file, es[i].lhf_offset) <= info.cd_offset
        }) && (forall|i: int, j: int|
        0 <= i < es.len() && 0 <= j < es.len() && i != j && (#[trigger] es[i]).lhf_offset <= (
        #[trigger] es[j]).lhf_offset ==> es[i].lhf_offset + local_size(file, es[i].lhf_offset)
            <= es[j].lhf_offset) {
        assert forall|k: int| 0 <= k < n implies local_header_at(
            file,
            (#[trigger] sorted[k]).lhf_offset,
            sorted[k].orig_fname,
        ) by {
            assert(sorted[k] == es[order[k]]);
        }
        let ps = local_plans_outcome(file, sorted, n)->Ok_0;
        assert forall|k: int| 0 <= k < n implies (#[trigger] ps[k]).lhf_offset
            + ps[k].lhf_header_size <= span_end(ps, cd_offset, k) by {
            assert(sorted[k] == es[order[k]]);
            if k + 1 < n {
                assert(sorted[k + 1] == es[order[k + 1]]);
                assert(keys[order[k]] <= keys[order[k + 1]]);
                assert(order[k] != order[k + 1]);
                assert(es[order[k]].lhf_offset <= es[order[k + 1]].lhf_offset);
                assert(ps[k + 1].lhf_offset == es[order[k + 1]].lhf_offset);
            }
        }
    }
}

/// Where the entries are read, each ends before the directory and before all that follow it.
proof fn lemma_reads_before(file: Seq<u8>, es: Seq<EntryPlanModel>, cd_offset: int, k: int)
    requires
        0 <= k < es.len(),
        forall|i: int| 0 <= i < es.len() ==> 0 <= (#[trigger] es[i]).lhf_offset,
        local_plans_outcome(file, in_file_order(es), es.len() as int) matches Ok(ps)
            && spans_outcome(ps, cd_offset, es.len() as int) is Ok,
    ensures
        ({
            let e = in_file_order(es)[k];
            let end = e.lhf_offset + local_size(file, e.lhf_offset);
            &&& end <= cd_offset
            &&& forall|l: int|
                k < l < es.len() ==> end <= (#[trigger] in_file_order(es)[l]).lhf_offset
        }),
    decreases es.len() - k,
{
    let n = es.len() as int;
    let sorted = in_file_order(es);
    let keys = offsets(es);
    let order = stable_order(keys);
    lemma_stable_order(keys);
    assert forall|i: int| 0 <= i < n implies 0 <= (#[trigger] sorted[i]).lhf_offset by {
        assert(sorted[i] == es[order[i]]);
    }
    lemma_locals_read(file, sorted, n);
    let ps = local_plans_outcome(file, sorted, n)->Ok_0;
    lemma_spans_fit(ps, cd_offset, n);
    assert(ps[k].lhf_offset == sorted[k].lhf_offset);
    if k + 1 < n {
        lemma_reads_before(file, es, cd_offset, k + 1);
        assert(ps[k + 1].lhf_offset == sorted[k + 1].lhf_offset);
    }
}

/// Where the entries are read, none begins inside the local header of another.
proof fn lemma_reads_apart(file: Seq<u8>, es: Seq<EntryPlanModel>, cd_offset: int, i: int, j: int)
    requires
        0 <= i < es.len(),
        0 <= j < es.len(),
        i != j,
        es[i].lhf_offset <= es[j].lhf_offset,
        forall|i: int| 0 <= i < es.len() ==> 0 <= (#[trigger] es[i]).lhf_offset,
        local_plans_outcome(file, in_file_order(es), es.len() as int) matches Ok(ps)
            && spans_outcome(ps, cd_offset, es.len() as int) is Ok,
    ensures
        es[i].lhf_offset + local_size(file, es[i].lhf_offset) <= es[j].lhf_offset,
{
    let sorted = in_file_order(es);
    let keys = offsets(es);
    let order = stable_order(keys);
    lemma_stable_order(keys);
    assert(order.contains(i) && order.contains(j));
    let k = choose|k: int| 0 <= k < order.len() && order[k] == i;
    let l = choose|l: int| 0 <= l < order.len() && order[l] == j;
    assert(sorted[k] == es[i]);
    assert(sorted[l] == es[j]);
    if k < l {
        lemma_reads_before(file, es, cd_offset, k);
    } else {
        lemma_reads_before(file, es, cd_offset, l);
    }
}

/// Where the entry at place `i` begins in a directory of these entries.
pub open spec fn start_of(es: Seq<EntryPlanModel>, i: int) -> int
    decreases i,
{
    if i <= 0 {
        0
    } else {
        let e = es[i - 1];
        start_of(es, i - 1) + 46 + e.orig_fname.len() + e.cd_extra.len() + e.cd_comment.len()
    }
}

/// Whether a directory holds these entries from place `from` on, one behind another.
pub open spec fn lists(
    cd: Seq<u8>,
    es: Seq<EntryPlanModel>,
    from: int,
    opts: OptionsModel,
) -> bool {
    forall|i: int|
        from <= i < es.len() ==> cd_entry_outcome(cd, #[trigger] start_of(es, i), i, opts) == Ok::<
            EntryPlanModel,
            ErrorModel,
        >(es[i])
}

/// A directory is read exactly when it holds as many entries as was said, one behind another, and
/// nothing behind them.
pub proof fn law_directory_is_read(
    cd: Seq<u8>,
    n: int,
    cd_size: int,
    opts: OptionsModel,
    es: Seq<EntryPlanModel>,
)
    requires
        0 <= n,
    ensures
        cd_entries_outcome(cd, 0, 0, n, cd_size, opts) == Ok::<Seq<EntryPlanModel>, ErrorModel>(es)
            <==> es.len() == n && lists(cd, es, 0, opts) && start_of(es, n) == cd_size,
{
    if cd_entries_outcome(cd, 0, 0, n, cd_size, opts) == Ok::<Seq<EntryPlanModel>, ErrorModel>(
        es,
    ) {
        lemma_cd_entries(cd, 0, 0, n, cd_size, opts);
        assert(es.skip(0) =~= es);
        lemma_is_listed(cd, es, 0, n, cd_size, opts);
    }
    if es.len() == n && lists(cd, es, 0, opts) && start_of(es, n) == cd_size {
        lemma_listed(cd, es, 0, cd_size, opts);
        assert(es.skip(0) =~= es);
    }
}

proof fn lemma_is_listed(
    cd: Seq<u8>,
    es: Seq<EntryPlanModel>,
    k: int,
    n: int,
    cd_size: int,
    opts: OptionsModel,
)
    requires
        0 <= k <= n,
        es.len() == n,
        cd_entries_outcome(cd, start_of(es, k), k, n, cd_size, opts) == Ok::<
            Seq<EntryPlanModel>,
            ErrorModel,
        >(es.skip(k)),
    ensures
        lists(cd, es, k, opts),
        start_of(es, n) == cd_size,
    decreases n - k,
{
    if k < n {
        let at = start_of(es, k);
        let e = cd_entry_outcome(cd, at, k, opts)->Ok_0;
        let rest = cd_entries_outcome(cd, at + e.cd_len(), k + 1, n, cd_size, opts)->Ok_0;
        assert(seq![e] + rest == es.skip(k));
        assert(es[k] == es.skip(k)[0]);
        assert((seq![e] + rest)[0] == e);
        assert(rest =~= (seq![e] + rest).skip(1));
        assert(es.skip(k).skip(1) =~= es.skip(k + 1));
        lemma_is_listed(cd, es, k + 1, n, cd_size, opts);
        assert forall|i: int| k <= i < es.len() implies cd_entry_outcome(
            cd,
            #[trigger] start_of(es, i),
            i,
            opts,
        ) == Ok::<EntryPlanModel, ErrorModel>(es[i]) by {
            if i > k {
                assert(lists(cd, es, k + 1, opts));
            }
        }
    }
}

proof fn lemma_listed(
    cd: Seq<u8>,
    es: Seq<EntryPlanModel>,
    k: int,
    cd_size: int,
    opts: OptionsModel,
)
    requires
        0 <= k <= es.len(),
        lists(cd, es, k, opts),
        start_of(es, es.len() as int) == cd_size,
    ensures
        cd_entries_outcome(cd, start_of(es, k), k, es.len() as int, cd_size, opts) == Ok::<
            Seq<EntryPlanModel>,
            ErrorModel,
        >(es.skip(k)),
    decreases es.len() - k,
{
    if k < es.len() {
        let at = start_of(es, k);
        assert(cd_entry_outcome(cd, at, k, opts) == Ok::<EntryPlanModel, ErrorModel>(es[k]));
        lemma_listed(cd, es, k + 1, cd_size, opts);
        assert(seq![es[k]] + es.skip(k + 1) =~= es.skip(k));
    } else {
        assert(es.skip(k) =~= Seq::empty());
    }
}

/// The plans that are read stand in the order of the file. Each is an entry of the directory with
/// the sizes of its local header, and its bytes go up to the next local header or, for the last
/// one, to the directory.
pub proof fn law_plans_are_read(
    file: Seq<u8>,
    info: ArchiveInfoModel,
    opts: OptionsModel,
    plans: Seq<EntryPlanModel>,
    k: int,
)
    requires
        plans_outcome(file, info, opts) == Ok::<Seq<EntryPlanModel>, ErrorModel>(plans),
        0 <= k < plans.len(),
    ensures
        plans.len() == info.total_entries,
        0 <= plans[k].cd_index < plans.len(),
        ({
            let p = plans[k];
            let end = if k + 1 < plans.len() {
                plans[k + 1].lhf_offset
            } else {
                info.cd_offset as int
            };
            cd_entries_outcome(
                cd_bytes_of(file, info),
                0,
                0,
                info.total_entries as int,
                info.cd_size as int,
                opts,
            ) matches Ok(es) && p == (EntryPlanModel {
                lhf_header_size: local_size(file, p.lhf_offset),
                lhf_extra_len: u16_at(file, p.lhf_offset + 28) as int,
                span_size: end - p.lhf_offset,
                ..es[p.cd_index]
            }) && p.lhf_offset + local_size(file, p.lhf_offset) <= end
        }),
        forall|l: int| 0 <= l < plans.len() && l != k ==> (#[trigger] plans[l]).cd_index
            != plans[k].cd_index,
{
    let n = info.total_entries as int;
    let cd = cd_bytes_of(file, info);
    let cd_offset = info.cd_offset as int;
    lemma_cd_entries(cd, 0, 0, n, info.cd_size as int, opts);
    let es = cd_entries_outcome(cd, 0, 0, n, info.cd_size as int, opts)->Ok_0;
    let order = stable_order(offsets(es));
    let sorted = in_file_order(es);
    lemma_stable_order(offsets(es));
    assert forall|i: int| 0 <= i < n implies 0 <= (#[trigger] sorted[i]).lhf_offset by {
        assert(sorted[i] == es[order[i]]);
    }
    lemma_locals_read(file, sorted, n);
    let ps = local_plans_outcome(file, sorted, n)->Ok_0;
    lemma_spans_fit(ps, cd_offset, n);
    assert(plans[k].lhf_offset == ps[k].lhf_offset);
    assert(sorted[k] == es[order[k]]);
    assert(es[order[k]].cd_index == order[k]);
    if k + 1 < n {
        assert(plans[k + 1].lhf_offset == ps[k + 1].lhf_offset);
    }
    assert forall|l: int| 0 <= l < plans.len() && l != k implies (#[trigger] plans[l]).cd_index
        != plans[k].cd_index by {
        assert(plans[l].cd_index == ps[l].cd_index);
        assert(sorted[l] == es[order[l]]);
        assert(es[order[l]].cd_index == order[l]);
    }
}

} // verus!
