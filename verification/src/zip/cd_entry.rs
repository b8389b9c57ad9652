//! Entries of the central directory as they are written.

use super::bytes::{
    law_write_back_u32, law_write_back_u64, lemma_read_u16, lemma_read_u32, lemma_read_u64, patched,
    push_bytes, read_u16, read_u32, u16_at, u16_bytes, u32_at, u32_bytes, u64_at, u64_bytes,
    write_u16, write_u32, write_u64,
};
use super::extra::{
    find_field, lemma_search_bounds, lemma_search_patched, offset_slot, search_outcome,
    slot_of_offset, FieldSearch,
};
use super::plan::{lfh_offset_outcome, EntryPlan, EntryPlanModel};
use super::{checked_u16, flags_with_bit11, over_u16, with_bit11, ZIP64_EXTRA_FIELD_ID};
use crate::text::{decimal, numbered, with_number};
use vstd::prelude::*;
use vstd::string::*;

verus! {

/// The extra area of an entry with a new local header offset in its ZIP64 field.
pub open spec fn patch_outcome(
    extra: Seq<u8>,
    new_lhf_offset: u64,
    p: EntryPlanModel,
) -> core::result::Result<Seq<u8>, Seq<char>> {
    let slot = offset_slot(u32_at(p.cd_header, 20), u32_at(p.cd_header, 24));
    match search_outcome(extra, ZIP64_EXTRA_FIELD_ID, 0) {
        FieldSearch::Truncated => Err(
            "truncated extra field patching CD entry "@ + decimal(p.entry_no()),
        ),
        FieldSearch::Missing => Err(
            "ZIP64 extra field not found while patching CD entry "@ + decimal(p.entry_no()),
        ),
        FieldSearch::Found { start, size } => if slot + 8 > size {
            Err(
                "ZIP64 extra too short to hold LFH offset for CD entry "@ + decimal(p.entry_no()),
            )
        } else {
            Ok(patched(extra, start + slot, u64_bytes(new_lhf_offset)))
        },
    }
}

/// The fixed part of an entry with its new flag and the length of its new name.
pub open spec fn renamed_header(p: EntryPlanModel) -> Seq<u8> {
    patched(
        patched(
            p.cd_header,
            8,
            u16_bytes(flags_with_bit11(u16_at(p.cd_header, 8), p.new_bit11_set)),
        ),
        28,
        u16_bytes(p.new_fname.len() as u16),
    )
}

/// The bytes of an entry whose local header stands at `new_lhf_offset`.
pub open spec fn cd_entry_bytes_outcome(
    p: EntryPlanModel,
    new_lhf_offset: u64,
) -> core::result::Result<Seq<u8>, Seq<char>> {
    if p.new_fname.len() > 0xFFFF {
        Err(over_u16("CD filename length exceeds ZIP limit"@, p.new_fname.len() as int))
    } else if p.lhf_offset_in_zip64_extra {
        match patch_outcome(p.cd_extra, new_lhf_offset, p) {
            Err(text) => Err(text),
            Ok(extra) => Ok(renamed_header(p) + p.new_fname + extra + p.cd_comment),
        }
    } else if new_lhf_offset > 0xFFFF_FFFF {
        Err(
            "entry "@ + decimal(p.entry_no())
                + ": LFH offset grown beyond 4 GB but no ZIP64 extra field present"@,
        )
    } else {
        Ok(
            patched(renamed_header(p), 42, u32_bytes(new_lhf_offset as u32)) + p.new_fname
                + p.cd_extra + p.cd_comment,
        )
    }
}

/// The bytes of one entry.
pub fn build_cd_entry(p: &EntryPlan, new_lhf_offset: u64) -> (r: core::result::Result<
    Vec<u8>,
    String,
>)
    ensures
        match r {
            Ok(bytes) => cd_entry_bytes_outcome(p@, new_lhf_offset) == Ok::<Seq<u8>, Seq<char>>(
                bytes@,
            ),
            Err(e) => cd_entry_bytes_outcome(p@, new_lhf_offset) == Err::<Seq<u8>, Seq<char>>(e@),
        },
{
    let mut out: Vec<u8> = Vec::new();
    match build_cd_entry_into(p, new_lhf_offset, &mut out) {
        Ok(_) => {
            assert(out@ =~= cd_entry_bytes_outcome(p@, new_lhf_offset)->Ok_0);
            Ok(out)
        },
        Err(e) => Err(e),
    }
}

/// What of an entry is appended when it cannot be written: its fixed part, its name and its extra
/// area where only the offset in its ZIP64 field is at fault, and nothing otherwise.
pub open spec fn refused_entry_bytes(p: EntryPlanModel) -> Seq<u8> {
    if p.new_fname.len() <= 0xFFFF && p.lhf_offset_in_zip64_extra {
        renamed_header(p) + p.new_fname + p.cd_extra
    } else {
        Seq::empty()
    }
}

/// Appends the bytes of one entry to `out` and returns their number. Where the entry cannot be
/// written, the parts before the fault may have been appended.
pub fn build_cd_entry_into(p: &EntryPlan, new_lhf_offset: u64, out: &mut Vec<u8>) -> (r:
    core::result::Result<usize, String>)
    ensures
        match r {
            Ok(n) => cd_entry_bytes_outcome(p@, new_lhf_offset) matches Ok(bytes) && final(out)@
                == old(out)@ + bytes && n == bytes.len(),
            Err(e) => cd_entry_bytes_outcome(p@, new_lhf_offset) == Err::<Seq<u8>, Seq<char>>(e@)
                && final(out)@ == old(out)@ + refused_entry_bytes(p@),
        },
{
    let start: usize = out.len();
    assert(out@ + Seq::<u8>::empty() =~= out@);
    let mut header: [u8; 46] = p.cd_header;
    let flags: u16 = with_bit11(read_u16(&header, 8), p.new_bit11_set);
    write_u16(&mut header, 8, flags);
    let fname_len: u16 = match checked_u16(
        p.new_fname.len() as u64,
        "CD filename length exceeds ZIP limit",
    ) {
        Ok(fname_len) => fname_len,
        Err(e) => return Err(e),
    };
    write_u16(&mut header, 28, fname_len);
    assert(header@ == renamed_header(p@));
    if !p.lhf_offset_in_zip64_extra {
        if new_lhf_offset > 0xFFFF_FFFF {
            return Err(
                numbered(
                    "entry ",
                    p.cd_index as u128 + 1,
                    ": LFH offset grown beyond 4 GB but no ZIP64 extra field present",
                ),
            );
        }
        write_u32(&mut header, 42, new_lhf_offset as u32);
    }
    push_bytes(out, &header);
    push_bytes(out, p.new_fname.as_slice());
    let mut extra: Vec<u8> = p.cd_extra.clone();
    assert(extra@ =~= p.cd_extra@);
    if p.lhf_offset_in_zip64_extra {
        match patch_zip64_lhf_offset_in_extra(&mut extra, new_lhf_offset, p) {
            Ok(()) => {},
            Err(e) => {
                push_bytes(out, extra.as_slice());
                assert(out@ =~= old(out)@ + refused_entry_bytes(p@));
                return Err(e);
            },
        }
    }
    push_bytes(out, extra.as_slice());
    push_bytes(out, p.cd_comment.as_slice());
    assert(out@ =~= old(out)@ + (header@ + p.new_fname@ + extra@ + p.cd_comment@));
    Ok(out.len() - start)
}

/// Writes a new local header offset into the ZIP64 field of an extra area.
pub fn patch_zip64_lhf_offset_in_extra(
    extra: &mut [u8],
    new_lhf_offset: u64,
    p: &EntryPlan,
) -> (r: core::result::Result<(), String>)
    ensures
        match r {
            Ok(()) => patch_outcome(old(extra)@, new_lhf_offset, p@) == Ok::<Seq<u8>, Seq<char>>(
                final(extra)@,
            ),
            Err(e) => patch_outcome(old(extra)@, new_lhf_offset, p@) == Err::<Seq<u8>, Seq<char>>(
                e@,
            ) && final(extra)@ == old(extra)@,
        },
{
    let no: u128 = p.cd_index as u128 + 1;
    match find_field(extra, ZIP64_EXTRA_FIELD_ID) {
        FieldSearch::Truncated => Err(
            with_number("truncated extra field patching CD entry ", no),
        ),
        FieldSearch::Missing => Err(
            with_number("ZIP64 extra field not found while patching CD entry ", no),
        ),
        FieldSearch::Found { start, size } => {
            let slot: usize = slot_of_offset(
                read_u32(&p.cd_header, 20),
                read_u32(&p.cd_header, 24),
            );
            if size < 8 || slot > size - 8 {
                return Err(
                    with_number("ZIP64 extra too short to hold LFH offset for CD entry ", no),
                );
            }
            write_u64(extra, start + slot, new_lhf_offset);
            Ok(())
        },
    }
}

/// A number that was written is read, and writing the number that is there changes nothing.
proof fn lemma_patched_u64(b: Seq<u8>, at: int, v: u64)
    requires
        0 <= at,
        at + 8 <= b.len(),
    ensures
        u64_at(patched(b, at, u64_bytes(v)), at) == v,
        u64_at(b, at) == v ==> patched(b, at, u64_bytes(v)) == b,
{
    let next = patched(b, at, u64_bytes(v));
    assert(next.subrange(at, at + 8) =~= u64_bytes(v));
    lemma_read_u64(next, at, v);
    law_write_back_u64(b, at);
}

/// The offset that was written into a ZIP64 field is the one that is read from it; the field can
/// be written exactly where it can be read, and writing the offset that is there changes nothing.
pub proof fn law_patched_offset_is_read(
    extra: Seq<u8>,
    new_lhf_offset: u64,
    p: EntryPlanModel,
    entry_no: int,
)
    requires
        extra.len() <= usize::MAX,
    ensures
        patch_outcome(extra, new_lhf_offset, p) is Ok <==> lfh_offset_outcome(
            u32_at(p.cd_header, 20),
            u32_at(p.cd_header, 24),
            0xFFFF_FFFF,
            extra,
            entry_no,
        ) is Ok,
        patch_outcome(extra, new_lhf_offset, p) matches Ok(next) ==> {
            &&& next.len() == extra.len()
            &&& lfh_offset_outcome(
                u32_at(p.cd_header, 20),
                u32_at(p.cd_header, 24),
                0xFFFF_FFFF,
                next,
                entry_no,
            ) == Ok::<(u64, bool), Seq<char>>((new_lhf_offset, true))
            &&& lfh_offset_outcome(
                u32_at(p.cd_header, 20),
                u32_at(p.cd_header, 24),
                0xFFFF_FFFF,
                extra,
                entry_no,
            ) == Ok::<(u64, bool), Seq<char>>((new_lhf_offset, true)) ==> next == extra
        },
{
    lemma_search_bounds(extra, ZIP64_EXTRA_FIELD_ID, 0);
    if let FieldSearch::Found { start, size } = search_outcome(extra, ZIP64_EXTRA_FIELD_ID, 0) {
        let slot = offset_slot(u32_at(p.cd_header, 20), u32_at(p.cd_header, 24));
        if slot + 8 <= size {
            let at = start + slot;
            lemma_search_patched(
                extra,
                ZIP64_EXTRA_FIELD_ID,
                0,
                at,
                u64_bytes(new_lhf_offset),
            );
            lemma_patched_u64(extra, at, new_lhf_offset);
        }
    }
}

/// A new offset takes eight bytes of the ZIP64 field, behind the sizes that the entry refers to.
/// All other bytes of the extra area stay.
pub proof fn law_patch_changes_the_offset_only(
    extra: Seq<u8>,
    new_lhf_offset: u64,
    p: EntryPlanModel,
    i: int,
)
    requires
        extra.len() <= usize::MAX,
        0 <= i < extra.len(),
    ensures
        patch_outcome(extra, new_lhf_offset, p) matches Ok(next) ==> (search_outcome(
            extra,
            0x0001,
            0,
        ) matches FieldSearch::Found { start, size } && ({
            let at = start + (if u32_at(p.cd_header, 24) == 0xFFFF_FFFF {
                8int
            } else {
                0int
            }) + (if u32_at(p.cd_header, 20) == 0xFFFF_FFFF {
                8int
            } else {
                0int
            });
            &&& at + 8 <= start + size
            &&& u64_at(next, at) == new_lhf_offset
            &&& !(at <= i < at + 8) ==> next[i] == extra[i]
        })),
{
    lemma_search_bounds(extra, ZIP64_EXTRA_FIELD_ID, 0);
    if let FieldSearch::Found { start, size } = search_outcome(extra, ZIP64_EXTRA_FIELD_ID, 0) {
        let slot = offset_slot(u32_at(p.cd_header, 20), u32_at(p.cd_header, 24));
        if slot + 8 <= size {
            lemma_patched_u64(extra, start + slot, new_lhf_offset);
        }
    }
}

/// An entry is written exactly when its name fits, and its offset fits or has a place in its ZIP64
/// field. It is written as its fixed part, its new name, its extra area and its comment. Of the
/// fixed part only the UTF-8 flag, the length of the name and the offset change, and the offset
/// only where it does not stand in the ZIP64 field.
#[verifier::rlimit(30)]
pub proof fn law_written_entry(p: EntryPlanModel, new_lhf_offset: u64)
    requires
        p.cd_header.len() == 46,
        p.cd_extra.len() <= usize::MAX,
    ensures
        ({
            let r = cd_entry_bytes_outcome(p, new_lhf_offset);
            let n = p.new_fname.len() as int;
            let m = p.cd_extra.len() as int;
            &&& r is Ok <==> n <= 0xFFFF && if p.lhf_offset_in_zip64_extra {
                patch_outcome(p.cd_extra, new_lhf_offset, p) is Ok
            } else {
                new_lhf_offset <= 0xFFFF_FFFF
            }
            &&& r matches Ok(b) ==> {
                &&& b.len() == 46 + n + m + p.cd_comment.len()
                &&& forall|i: int|
                    0 <= i < 46 && !(8 <= i < 10) && !(28 <= i < 30) && !(42 <= i < 46)
                        ==> #[trigger] b[i] == p.cd_header[i]
                &&& u16_at(b, 8) == if p.new_bit11_set {
                    u16_at(p.cd_header, 8) | 0x0800
                } else {
                    u16_at(p.cd_header, 8) & 0xF7FF
                }
                &&& u16_at(b, 28) == n
                &&& u32_at(b, 42) == if p.lhf_offset_in_zip64_extra {
                    u32_at(p.cd_header, 42)
                } else {
                    new_lhf_offset as u32
                }
                &&& b.subrange(46, 46 + n) == p.new_fname
                &&& b.subrange(46 + n, 46 + n + m) == if p.lhf_offset_in_zip64_extra {
                    patch_outcome(p.cd_extra, new_lhf_offset, p)->Ok_0
                } else {
                    p.cd_extra
                }
                &&& b.subrange(46 + n + m, b.len() as int) == p.cd_comment
            }
        }),
{
    if let Ok(b) = cd_entry_bytes_outcome(p, new_lhf_offset) {
        let n = p.new_fname.len() as int;
        let m = p.cd_extra.len() as int;
        let extra = if p.lhf_offset_in_zip64_extra {
            patch_outcome(p.cd_extra, new_lhf_offset, p)->Ok_0
        } else {
            p.cd_extra
        };
        let flags = u16_at(p.cd_header, 8);
        if p.lhf_offset_in_zip64_extra {
            law_patched_offset_is_read(p.cd_extra, new_lhf_offset, p, 0);
        }
        assert(flags & !0x0800u16 == flags & 0xF7FF) by (bit_vector);
        let next = flags_with_bit11(flags, p.new_bit11_set);
        assert(b.subrange(8, 10) =~= u16_bytes(next));
        lemma_read_u16(b, 8, next);
        assert(b.subrange(28, 30) =~= u16_bytes(n as u16));
        lemma_read_u16(b, 28, n as u16);
        if p.lhf_offset_in_zip64_extra {
            assert(b.subrange(42, 46) =~= p.cd_header.subrange(42, 46));
            law_write_back_u32(p.cd_header, 42);
            lemma_read_u32(b, 42, u32_at(p.cd_header, 42));
        } else {
            assert(b.subrange(42, 46) =~= u32_bytes(new_lhf_offset as u32));
            lemma_read_u32(b, 42, new_lhf_offset as u32);
        }
        assert(b.subrange(46, 46 + n) =~= p.new_fname);
        assert(b.subrange(46 + n, 46 + n + m) =~= extra);
        assert(b.subrange(46 + n + m, b.len() as int) =~= p.cd_comment);
    }
}

} // verus!
