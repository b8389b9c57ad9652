//! What is to be done with each entry of an archive.

use super::bytes::{array_46, read_u16, read_u32, read_u64, u16_at, u32_at, u64_at};
use super::eocd::{ArchiveInfo, ArchiveInfoModel};
use super::error::{message, outcome, text_outcome, Error, ErrorModel, Result};
use super::extra::{find_field, offset_slot, search_outcome, slot_of_offset, FieldSearch};
use super::names::{new_name, new_name_outcome};
use super::options::{Options, OptionsModel};
use super::order::{ints, keys_of, lemma_stable_order, sort_by_key, stable_order};
use super::{has_bit11, BIT11, CENTRAL_DIR_SIG, LOCAL_FILE_HEADER_SIG, ZIP64_EXTRA_FIELD_ID};
use crate::text::{
    decimal, decimal_text, hexadecimal, hexadecimal_text, numbered, same_bytes, with_number,
};
use vstd::prelude::*;
use vstd::slice::{slice_subrange, slice_to_vec};
use vstd::string::*;

verus! {

/// An entry of the central directory, with what is to become of it.
#[derive(Debug)]
pub struct EntryPlan {
    /// The place of the entry in the central directory.
    pub cd_index: usize,
    /// Offset of the local header.
    pub lhf_offset: u64,
    /// Whether the entry is to be dropped.
    pub excluded: bool,
    pub orig_fname: Vec<u8>,
    pub new_fname: Vec<u8>,
    /// Whether the UTF-8 flag is to be set and is not set yet.
    pub needs_bit11: bool,
    /// The UTF-8 flag that the entry is to have.
    pub new_bit11_set: bool,
    /// The number of bytes from the local header to the next one.
    pub span_size: u64,
    /// The size of the local header with name and extra fields.
    pub lhf_header_size: u64,
    pub lhf_extra_len: u16,
    /// Whether the offset of the local header stands in a ZIP64 extra field.
    pub lhf_offset_in_zip64_extra: bool,
    pub cd_header: [u8; 46],
    pub cd_extra: Vec<u8>,
    pub cd_comment: Vec<u8>,
}

#[verifier::ext_equal]
pub struct EntryPlanModel {
    pub cd_index: int,
    pub lhf_offset: int,
    pub excluded: bool,
    pub orig_fname: Seq<u8>,
    pub new_fname: Seq<u8>,
    pub needs_bit11: bool,
    pub new_bit11_set: bool,
    pub span_size: int,
    pub lhf_header_size: int,
    pub lhf_extra_len: int,
    pub lhf_offset_in_zip64_extra: bool,
    pub cd_header: Seq<u8>,
    pub cd_extra: Seq<u8>,
    pub cd_comment: Seq<u8>,
}

impl View for EntryPlan {
    type V = EntryPlanModel;

    open spec fn view(&self) -> EntryPlanModel {
        EntryPlanModel {
            cd_index: self.cd_index as int,
            lhf_offset: self.lhf_offset as int,
            excluded: self.excluded,
            orig_fname: self.orig_fname@,
            new_fname: self.new_fname@,
            needs_bit11: self.needs_bit11,
            new_bit11_set: self.new_bit11_set,
            span_size: self.span_size as int,
            lhf_header_size: self.lhf_header_size as int,
            lhf_extra_len: self.lhf_extra_len as int,
            lhf_offset_in_zip64_extra: self.lhf_offset_in_zip64_extra,
            cd_header: self.cd_header@,
            cd_extra: self.cd_extra@,
            cd_comment: self.cd_comment@,
        }
    }
}

impl Clone for EntryPlan {
    fn clone(&self) -> (r: Self)
        ensures
            r@ == self@,
    {
        let r = EntryPlan {
            cd_index: self.cd_index,
            lhf_offset: self.lhf_offset,
            excluded: self.excluded,
            orig_fname: self.orig_fname.clone(),
            new_fname: self.new_fname.clone(),
            needs_bit11: self.needs_bit11,
            new_bit11_set: self.new_bit11_set,
            span_size: self.span_size,
            lhf_header_size: self.lhf_header_size,
            lhf_extra_len: self.lhf_extra_len,
            lhf_offset_in_zip64_extra: self.lhf_offset_in_zip64_extra,
            cd_header: self.cd_header,
            cd_extra: self.cd_extra.clone(),
            cd_comment: self.cd_comment.clone(),
        };
        assert(r@ =~= self@);
        r
    }
}

/// The views of a list of plans.
pub open spec fn models(plans: Seq<EntryPlan>) -> Seq<EntryPlanModel> {
    plans.map_values(|p: EntryPlan| p@)
}

/// The result of a function that returns plans, by the views of the plans and of the error.
pub open spec fn listed(r: Result<Vec<EntryPlan>>) -> core::result::Result<
    Seq<EntryPlanModel>,
    ErrorModel,
> {
    match r {
        Ok(plans) => Ok(models(plans@)),
        Err(e) => Err(e@),
    }
}

impl EntryPlanModel {
    /// By how many bytes the name gets shorter.
    pub open spec fn fname_delta(self) -> int {
        self.orig_fname.len() - self.new_fname.len()
    }

    /// The number of bytes behind the local header.
    pub open spec fn payload_size(self) -> int {
        self.span_size - self.lhf_header_size
    }

    /// The size of the entry in the central directory.
    pub open spec fn cd_len(self) -> int {
        46int + self.orig_fname.len() + self.cd_extra.len() + self.cd_comment.len()
    }

    /// The number by which messages name the entry.
    pub open spec fn entry_no(self) -> int {
        self.cd_index + 1
    }
}

impl EntryPlan {
    pub fn fname_delta(&self) -> (delta: u64)
        requires
            self.new_fname@.len() <= self.orig_fname@.len(),
        ensures
            delta == self@.fname_delta(),
    {
        self.orig_fname.len() as u64 - self.new_fname.len() as u64
    }

    pub fn payload_size(&self) -> (size: u64)
        requires
            self.lhf_header_size <= self.span_size,
        ensures
            size == self@.payload_size(),
    {
        self.span_size - self.lhf_header_size
    }
}

/// The message `before` with the number of an entry behind it.
pub open spec fn about_entry(before: Seq<char>, entry_no: int) -> ErrorModel {
    message(before + decimal(entry_no))
}

pub(crate) fn entry_error(before: &str, entry_no: u128) -> (r: Error)
    ensures
        r@ == about_entry(before@, entry_no as int),
{
    Error::Message(with_number(before, entry_no))
}

/// The offset of the local header that an entry gives, and whether it stands in a ZIP64 field.
pub open spec fn lfh_offset_outcome(
    comp32: u32,
    uncomp32: u32,
    lhf32: u32,
    extra: Seq<u8>,
    entry_no: int,
) -> core::result::Result<(u64, bool), Seq<char>> {
    if lhf32 != 0xFFFF_FFFF {
        Ok((lhf32 as u64, false))
    } else {
        match search_outcome(extra, ZIP64_EXTRA_FIELD_ID, 0) {
            FieldSearch::Truncated => Err(
                "truncated extra field in CD entry "@ + decimal(entry_no),
            ),
            FieldSearch::Missing => Err(
                "ZIP64 extra field missing for CD entry "@ + decimal(entry_no),
            ),
            FieldSearch::Found { start, size } => if offset_slot(comp32, uncomp32) + 8 > size {
                Err("ZIP64 extra too short in CD entry "@ + decimal(entry_no))
            } else {
                Ok((u64_at(extra, start + offset_slot(comp32, uncomp32)), true))
            },
        }
    }
}

pub fn resolve_lfh_offset(
    comp32: u32,
    uncomp32: u32,
    lhf32: u32,
    extra: &[u8],
    entry_no: u64,
) -> (r: core::result::Result<(u64, bool), String>)
    ensures
        text_outcome(r) == lfh_offset_outcome(comp32, uncomp32, lhf32, extra@, entry_no as int),
{
    if lhf32 != 0xFFFF_FFFF {
        return Ok((lhf32 as u64, false));
    }
    let no: u128 = entry_no as u128;
    match find_field(extra, ZIP64_EXTRA_FIELD_ID) {
        FieldSearch::Truncated => Err(
            with_number("truncated extra field in CD entry ", no),
        ),
        FieldSearch::Missing => Err(
            with_number("ZIP64 extra field missing for CD entry ", no),
        ),
        FieldSearch::Found { start, size } => {
            let slot: usize = slot_of_offset(comp32, uncomp32);
            if size < 8 || slot > size - 8 {
                return Err(
                    with_number("ZIP64 extra too short in CD entry ", no),
                );
            }
            Ok((read_u64(extra, start + slot), true))
        },
    }
}

/// The failure to read a part of an entry of the central directory.
pub open spec fn cd_part_missing(part: Seq<char>, entry_no: int) -> ErrorModel {
    message("unexpected EOF reading "@ + part + " at CD entry "@ + decimal(entry_no))
}

/// The entry with number `cd_index + 1`, which stands at index `pos` of the central directory.
#[verifier::opaque]
pub open spec fn cd_entry_outcome(
    cd: Seq<u8>,
    pos: int,
    cd_index: int,
    opts: OptionsModel,
) -> core::result::Result<EntryPlanModel, ErrorModel> {
    let entry_no = cd_index + 1;
    let hdr = cd.subrange(pos, pos + 46);
    let name_at = pos + 46;
    let extra_at = name_at + u16_at(hdr, 28);
    let comment_at = extra_at + u16_at(hdr, 30);
    let end = comment_at + u16_at(hdr, 32);
    if name_at > cd.len() {
        Err(cd_part_missing("CD entry header"@, entry_no))
    } else if u32_at(hdr, 0) != CENTRAL_DIR_SIG {
        Err(about_entry("invalid CD signature at entry "@, entry_no))
    } else if extra_at > cd.len() {
        Err(cd_part_missing("filename"@, entry_no))
    } else if comment_at > cd.len() {
        Err(cd_part_missing("extra"@, entry_no))
    } else if end > cd.len() {
        Err(cd_part_missing("comment"@, entry_no))
    } else {
        let name = cd.subrange(name_at, extra_at);
        let extra = cd.subrange(extra_at, comment_at);
        let flags = u16_at(hdr, 8);
        match lfh_offset_outcome(
            u32_at(hdr, 20),
            u32_at(hdr, 24),
            u32_at(hdr, 42),
            extra,
            entry_no,
        ) {
            Err(text) => Err(message(text)),
            Ok((lhf_offset, in_zip64)) => match new_name_outcome(
                name,
                flags,
                entry_no as u64,
                opts,
            ) {
                Err(e) => Err(e),
                Ok((new_fname, bit11)) => Ok(
                    EntryPlanModel {
                        cd_index,
                        lhf_offset: lhf_offset as int,
                        excluded: opts.excludes(name),
                        orig_fname: name,
                        new_fname,
                        needs_bit11: !has_bit11(flags) && bit11,
                        new_bit11_set: bit11,
                        span_size: 0,
                        lhf_header_size: 0,
                        lhf_extra_len: 0,
                        lhf_offset_in_zip64_extra: in_zip64,
                        cd_header: hdr,
                        cd_extra: extra,
                        cd_comment: cd.subrange(comment_at, end),
                    },
                ),
            },
        }
    }
}

/// The entries from index `pos` of the central directory on, of which the first has the number
/// `index + 1` and the last the number `total`.
pub open spec fn cd_entries_outcome(
    cd: Seq<u8>,
    pos: int,
    index: int,
    total: int,
    cd_size: int,
    opts: OptionsModel,
) -> core::result::Result<Seq<EntryPlanModel>, ErrorModel>
    decreases total - index,
{
    if index >= total {
        if pos != cd_size {
            Err(message("Central Directory has trailing bytes after expected entries"@))
        } else {
            Ok(Seq::empty())
        }
    } else {
        match cd_entry_outcome(cd, pos, index, opts) {
            Err(e) => Err(e),
            Ok(entry) => match cd_entries_outcome(
                cd,
                pos + entry.cd_len(),
                index + 1,
                total,
                cd_size,
                opts,
            ) {
                Err(e) => Err(e),
                Ok(rest) => Ok(seq![entry] + rest),
            },
        }
    }
}

fn cd_part_error(part: &str, entry_no: u64) -> (r: Error)
    ensures
        r@ == cd_part_missing(part@, entry_no as int),
{
    let mut s = String::from_str("unexpected EOF reading ");
    s.append(part);
    s.append(" at CD entry ");
    s.append(decimal_text(entry_no as u128).as_str());
    Error::Message(s)
}

/// Reads `len` bytes of the central directory from index `pos` on.
fn read_cd_exact<'a>(cd: &'a [u8], pos: usize, len: usize, part: &str, entry_no: u64) -> (r: Result<
    &'a [u8],
>)
    requires
        pos <= cd.len(),
    ensures
        match r {
            Ok(bytes) => pos + len <= cd@.len() && bytes@ == cd@.subrange(pos as int, pos + len),
            Err(e) => pos + len > cd@.len() && e@ == cd_part_missing(part@, entry_no as int),
        },
{
    if len > cd.len() - pos {
        return Err(cd_part_error(part, entry_no));
    }
    Ok(slice_subrange(cd, pos, pos + len))
}

/// Reads the entry that stands at index `pos` of the central directory.
pub fn read_cd_entry_plan(cd: &[u8], pos: usize, cd_index: usize, opts: &Options) -> (r: Result<
    EntryPlan,
>)
    requires
        pos <= cd.len(),
        cd_index < usize::MAX,
    ensures
        outcome(r) == cd_entry_outcome(cd@, pos as int, cd_index as int, opts@),
        r matches Ok(p) ==> pos + p@.cd_len() <= cd@.len(),
{
    reveal(cd_entry_outcome);
    let entry_no: u64 = cd_index as u64 + 1;
    let hdr = match read_cd_exact(cd, pos, 46, "CD entry header", entry_no) {
        Ok(hdr) => hdr,
        Err(e) => return Err(e),
    };
    if read_u32(hdr, 0) != CENTRAL_DIR_SIG {
        return Err(entry_error("invalid CD signature at entry ", entry_no as u128));
    }
    let flags: u16 = read_u16(hdr, 8);
    let name_len: usize = read_u16(hdr, 28) as usize;
    let extra_len: usize = read_u16(hdr, 30) as usize;
    let comment_len: usize = read_u16(hdr, 32) as usize;
    let name_at: usize = pos + 46;
    let name = match read_cd_exact(cd, name_at, name_len, "filename", entry_no) {
        Ok(name) => name,
        Err(e) => return Err(e),
    };
    let extra_at: usize = name_at + name_len;
    let extra = match read_cd_exact(cd, extra_at, extra_len, "extra", entry_no) {
        Ok(extra) => extra,
        Err(e) => return Err(e),
    };
    let comment_at: usize = extra_at + extra_len;
    let comment = match read_cd_exact(cd, comment_at, comment_len, "comment", entry_no) {
        Ok(comment) => comment,
        Err(e) => return Err(e),
    };
    let (lhf_offset, in_zip64) = match resolve_lfh_offset(
        read_u32(hdr, 20),
        read_u32(hdr, 24),
        read_u32(hdr, 42),
        extra,
        entry_no,
    ) {
        Ok(found) => found,
        Err(text) => return Err(Error::Message(text)),
    };
    let (new_fname, bit11) = match new_name(name, flags, entry_no, opts) {
        Ok(named) => named,
        Err(e) => return Err(e),
    };
    let plan = EntryPlan {
        cd_index,
        lhf_offset,
        excluded: opts.is_excluded(name),
        orig_fname: slice_to_vec(name),
        new_fname,
        needs_bit11: (flags & BIT11) == 0 && bit11,
        new_bit11_set: bit11,
        span_size: 0,
        lhf_header_size: 0,
        lhf_extra_len: 0,
        lhf_offset_in_zip64_extra: in_zip64,
        cd_header: array_46(hdr, 0),
        cd_extra: slice_to_vec(extra),
        cd_comment: slice_to_vec(comment),
    };
    proof {
        assert(hdr@.subrange(0, 46) =~= hdr@);
        assert(plan.orig_fname@ =~= name@);
        assert(plan.cd_extra@ =~= extra@);
        assert(plan.cd_comment@ =~= comment@);
    }
    Ok(plan)
}

/// Reads all entries of the central directory.
pub fn read_cd_entries(cd: &[u8], cd_size: u64, total_entries: usize, opts: &Options) -> (r: Result<
    Vec<EntryPlan>,
>)
    ensures
        listed(r) == cd_entries_outcome(
            cd@,
            0,
            0,
            total_entries as int,
            cd_size as int,
            opts@,
        ),
{
    let mut entries: Vec<EntryPlan> = Vec::new();
    let mut pos: usize = 0;
    let mut i: usize = 0;
    let ghost whole = cd_entries_outcome(cd@, 0, 0, total_entries as int, cd_size as int, opts@);
    assert(prepended(models(entries@), whole) == whole) by {
        if whole is Ok {
            assert(models(entries@) + whole->Ok_0 =~= whole->Ok_0);
        }
    }
    while i < total_entries
        invariant
            i <= total_entries,
            pos <= cd.len(),
            whole == cd_entries_outcome(
                cd@,
                0,
                0,
                total_entries as int,
                cd_size as int,
                opts@,
            ),
            whole == prepended(
                models(entries@),
                cd_entries_outcome(
                    cd@,
                    pos as int,
                    i as int,
                    total_entries as int,
                    cd_size as int,
                    opts@,
                ),
            ),
        decreases total_entries - i,
    {
        let entry = match read_cd_entry_plan(cd, pos, i, opts) {
            Ok(entry) => entry,
            Err(e) => return Err(e),
        };
        let ghost before = models(entries@);
        let ghost model = entry@;
        pos = pos + 46 + entry.orig_fname.len() + entry.cd_extra.len() + entry.cd_comment.len();
        entries.push(entry);
        i += 1;
        proof {
            assert(models(entries@) =~= before.push(model));
            let rest = cd_entries_outcome(
                cd@,
                pos as int,
                i as int,
                total_entries as int,
                cd_size as int,
                opts@,
            );
            if rest is Ok {
                assert(before + (seq![model] + rest->Ok_0) =~= before.push(model) + rest->Ok_0);
            }
        }
    }
    if pos as u64 != cd_size {
        return Err(
            Error::from("Central Directory has trailing bytes after expected entries"),
        );
    }
    assert(models(entries@) + Seq::empty() =~= models(entries@));
    Ok(entries)
}

/// A list with others before it, where there is a list.
pub open spec fn prepended(
    front: Seq<EntryPlanModel>,
    rest: core::result::Result<Seq<EntryPlanModel>, ErrorModel>,
) -> core::result::Result<Seq<EntryPlanModel>, ErrorModel> {
    match rest {
        Ok(rest) => Ok(front + rest),
        Err(e) => Err(e),
    }
}

/// What stands in a file from `offset` on.
pub open spec fn from_offset(content: Seq<u8>, offset: int) -> Seq<u8> {
    if offset <= content.len() {
        content.subrange(offset, content.len() as int)
    } else {
        Seq::empty()
    }
}

/// The central directory of a file, as far as it is there.
pub open spec fn cd_bytes_of(content: Seq<u8>, info: ArchiveInfoModel) -> Seq<u8> {
    let rest = from_offset(content, info.cd_offset as int);
    if info.cd_size <= rest.len() {
        rest.take(info.cd_size as int)
    } else {
        rest
    }
}

/// The name and the length of the extra area in the local header that `at` starts with and that
/// stands at `offset` in the file.
pub open spec fn lfh_outcome(at: Seq<u8>, offset: int, entry_no: int) -> core::result::Result<
    (Seq<u8>, int),
    ErrorModel,
> {
    if at.len() < 30 {
        Err(about_entry("unexpected EOF reading LFH at entry "@, entry_no))
    } else if u32_at(at, 0) != LOCAL_FILE_HEADER_SIG {
        Err(
            message(
                "invalid LFH signature at entry "@ + decimal(entry_no) + " (offset "@ + hexadecimal(
                    offset,
                ) + ")"@,
            ),
        )
    } else if at.len() < 30 + u16_at(at, 26) {
        Err(about_entry("unexpected EOF reading LFH filename at entry "@, entry_no))
    } else {
        Ok((at.subrange(30, 30 + u16_at(at, 26)), u16_at(at, 28) as int))
    }
}

/// An entry with what its local header, which `at` starts with, adds to it.
pub open spec fn local_plan_outcome(entry: EntryPlanModel, at: Seq<u8>) -> core::result::Result<
    EntryPlanModel,
    ErrorModel,
> {
    match lfh_outcome(at, entry.lhf_offset, entry.entry_no()) {
        Err(e) => Err(e),
        Ok((name, extra_len)) => if name.len() != entry.orig_fname.len() {
            Err(
                message(
                    "LFH filename length mismatch at entry "@ + decimal(entry.entry_no())
                        + ": LFH has "@ + decimal(name.len() as int) + ", CD has "@ + decimal(
                        entry.orig_fname.len() as int,
                    ),
                ),
            )
        } else if name != entry.orig_fname {
            Err(about_entry("LFH filename bytes mismatch at entry "@, entry.entry_no()))
        } else {
            Ok(
                EntryPlanModel {
                    lhf_header_size: 30 + name.len() + extra_len,
                    lhf_extra_len: extra_len,
                    ..entry
                },
            )
        },
    }
}

/// The first `n` of the entries with what their local headers add to them.
pub open spec fn local_plans_outcome(
    content: Seq<u8>,
    entries: Seq<EntryPlanModel>,
    n: int,
) -> core::result::Result<Seq<EntryPlanModel>, ErrorModel>
    decreases n,
{
    if n <= 0 {
        Ok(Seq::empty())
    } else {
        match local_plans_outcome(content, entries, n - 1) {
            Err(e) => Err(e),
            Ok(front) => match local_plan_outcome(
                entries[n - 1],
                from_offset(content, entries[n - 1].lhf_offset),
            ) {
                Err(e) => Err(e),
                Ok(plan) => Ok(front.push(plan)),
            },
        }
    }
}

/// Where the bytes of the entry at place `i` end: at the next entry or at the central directory.
pub open spec fn span_end(plans: Seq<EntryPlanModel>, cd_offset: int, i: int) -> int {
    if i + 1 < plans.len() {
        plans[i + 1].lhf_offset
    } else {
        cd_offset
    }
}

/// The plan at place `i` with the number of bytes that its entry takes.
pub open spec fn with_span(plans: Seq<EntryPlanModel>, cd_offset: int, i: int) -> EntryPlanModel {
    EntryPlanModel {
        span_size: span_end(plans, cd_offset, i) - plans[i].lhf_offset,
        ..plans[i]
    }
}

/// The first `n` of the plans with the number of bytes that each entry takes.
pub open spec fn spans_outcome(
    plans: Seq<EntryPlanModel>,
    cd_offset: int,
    n: int,
) -> core::result::Result<Seq<EntryPlanModel>, ErrorModel>
    decreases n,
{
    if n <= 0 {
        Ok(Seq::empty())
    } else {
        match spans_outcome(plans, cd_offset, n - 1) {
            Err(e) => Err(e),
            Ok(front) => {
                let p = plans[n - 1];
                if span_end(plans, cd_offset, n - 1) < p.lhf_offset + p.lhf_header_size {
                    Err(
                        message(
                            "entry "@ + decimal(p.entry_no()) + " has an invalid physical span"@,
                        ),
                    )
                } else {
                    Ok(front.push(with_span(plans, cd_offset, n - 1)))
                }
            },
        }
    }
}

/// The offsets of the local headers.
pub open spec fn offsets(entries: Seq<EntryPlanModel>) -> Seq<int> {
    entries.map_values(|e: EntryPlanModel| e.lhf_offset)
}

/// The entries in the order in which they stand in the file.
pub open spec fn in_file_order(entries: Seq<EntryPlanModel>) -> Seq<EntryPlanModel> {
    stable_order(offsets(entries)).map_values(|i: int| entries[i])
}

/// What is to be done with the entries of an archive, in the order in which they stand in it.
pub open spec fn plans_outcome(
    content: Seq<u8>,
    info: ArchiveInfoModel,
    opts: OptionsModel,
) -> core::result::Result<Seq<EntryPlanModel>, ErrorModel> {
    if info.total_entries > usize::MAX {
        Err(about_entry("too many Central Directory entries: "@, info.total_entries as int))
    } else {
        match cd_entries_outcome(
            cd_bytes_of(content, info),
            0,
            0,
            info.total_entries as int,
            info.cd_size as int,
            opts,
        ) {
            Err(e) => Err(e),
            Ok(entries) => match local_plans_outcome(
                content,
                in_file_order(entries),
                entries.len() as int,
            ) {
                Err(e) => Err(e),
                Ok(plans) => spans_outcome(plans, info.cd_offset as int, plans.len() as int),
            },
        }
    }
}

/// The name and the length of the extra area of a local header.
#[derive(Debug)]
pub struct LfhHeaderInfo {
    pub fname: Vec<u8>,
    pub extra_len: u16,
}

/// Reads the local header that stands at `lhf_offset` in the file; `at` is what the file holds
/// from there on.
pub fn read_lhf_header(at: &[u8], lhf_offset: u64, entry_no: u128) -> (r: Result<LfhHeaderInfo>)
    ensures
        match r {
            Ok(lfh) => lfh_outcome(at@, lhf_offset as int, entry_no as int) == Ok::<
                (Seq<u8>, int),
                ErrorModel,
            >((lfh.fname@, lfh.extra_len as int)),
            Err(e) => lfh_outcome(at@, lhf_offset as int, entry_no as int) == Err::<
                (Seq<u8>, int),
                ErrorModel,
            >(e@),
        },
{
    if at.len() < 30 {
        return Err(entry_error("unexpected EOF reading LFH at entry ", entry_no));
    }
    if read_u32(at, 0) != LOCAL_FILE_HEADER_SIG {
        let mut s = numbered("invalid LFH signature at entry ", entry_no, " (offset ");
        s.append(hexadecimal_text(lhf_offset as u128).as_str());
        s.append(")");
        return Err(Error::Message(s));
    }
    let fname_len: usize = read_u16(at, 26) as usize;
    let extra_len: u16 = read_u16(at, 28);
    if at.len() - 30 < fname_len {
        return Err(entry_error("unexpected EOF reading LFH filename at entry ", entry_no));
    }
    let fname = slice_to_vec(slice_subrange(at, 30, 30 + fname_len));
    assert(fname@ =~= at@.subrange(30, 30 + fname_len));
    Ok(LfhHeaderInfo { fname, extra_len })
}

/// Adds to an entry what its local header says; `at` is what the file holds from that header on.
pub fn plan_entry(entry: &EntryPlan, at: &[u8]) -> (r: Result<EntryPlan>)
    ensures
        outcome(r) == local_plan_outcome(entry@, at@),
{
    let entry_no: u128 = entry.cd_index as u128 + 1;
    let lfh = match read_lhf_header(at, entry.lhf_offset, entry_no) {
        Ok(lfh) => lfh,
        Err(e) => return Err(e),
    };
    if lfh.fname.len() != entry.orig_fname.len() {
        let mut s = numbered("LFH filename length mismatch at entry ", entry_no, ": LFH has ");
        s.append(decimal_text(lfh.fname.len() as u128).as_str());
        s.append(", CD has ");
        s.append(decimal_text(entry.orig_fname.len() as u128).as_str());
        return Err(Error::Message(s));
    }
    if !same_bytes(lfh.fname.as_slice(), entry.orig_fname.as_slice()) {
        return Err(entry_error("LFH filename bytes mismatch at entry ", entry_no));
    }
    let mut plan = entry.clone();
    assert(lfh.fname@.len() <= 0xFFFF);
    plan.lhf_header_size = 30 + lfh.fname.len() as u64 + lfh.extra_len as u64;
    plan.lhf_extra_len = lfh.extra_len;
    Ok(plan)
}

/// A failure among the first entries is the failure of all of them.
pub proof fn lemma_local_plans_fail(content: Seq<u8>, entries: Seq<EntryPlanModel>, n: int, m: int)
    requires
        n <= m,
        local_plans_outcome(content, entries, n) is Err,
    ensures
        local_plans_outcome(content, entries, m) == local_plans_outcome(content, entries, n),
    decreases m - n,
{
    if n < m {
        lemma_local_plans_fail(content, entries, n, m - 1);
    }
}

proof fn lemma_spans_fail(plans: Seq<EntryPlanModel>, cd_offset: int, n: int, m: int)
    requires
        n <= m,
        spans_outcome(plans, cd_offset, n) is Err,
    ensures
        spans_outcome(plans, cd_offset, m) == spans_outcome(plans, cd_offset, n),
    decreases m - n,
{
    if n < m {
        lemma_spans_fail(plans, cd_offset, n, m - 1);
    }
}

/// Sets the number of bytes that each entry takes in the file.
pub fn assign_spans(plans: Vec<EntryPlan>, cd_offset: u64) -> (r: Result<Vec<EntryPlan>>)
    ensures
        listed(r) == spans_outcome(models(plans@), cd_offset as int, plans@.len() as int),
{
    let mut done: Vec<EntryPlan> = Vec::new();
    let mut i: usize = 0;
    assert(models(done@) =~= Seq::empty());
    while i < plans.len()
        invariant
            i <= plans.len(),
            done@.len() == i,
            spans_outcome(models(plans@), cd_offset as int, i as int) == Ok::<
                Seq<EntryPlanModel>,
                ErrorModel,
            >(models(done@)),
        decreases plans.len() - i,
    {
        let end: u64 = if i + 1 < plans.len() {
            plans[i + 1].lhf_offset
        } else {
            cd_offset
        };
        let p = &plans[i];
        if end < p.lhf_offset || end - p.lhf_offset < p.lhf_header_size {
            proof {
                lemma_spans_fail(models(plans@), cd_offset as int, i + 1, plans@.len() as int);
            }
            return Err(
                Error::Message(
                    numbered("entry ", p.cd_index as u128 + 1, " has an invalid physical span"),
                ),
            );
        }
        let mut plan = p.clone();
        plan.span_size = end - p.lhf_offset;
        let ghost before = models(done@);
        let ghost model = plan@;
        done.push(plan);
        i += 1;
        assert(models(done@) =~= before.push(model));
    }
    Ok(done)
}

/// The places of the entries of the central directory in the file, in order.
pub fn file_order(entries: &Vec<EntryPlan>) -> (order: Vec<usize>)
    ensures
        ints(order@) == stable_order(offsets(models(entries@))),
        forall|k: int| 0 <= k < order@.len() ==> #[trigger] order@[k] < entries@.len(),
{
    let mut keys: Vec<u64> = Vec::new();
    let mut i: usize = 0;
    while i < entries.len()
        invariant
            i <= entries.len(),
            keys@.len() == i,
            forall|k: int| 0 <= k < i ==> keys@[k] == entries@[k].lhf_offset,
        decreases entries.len() - i,
    {
        keys.push(entries[i].lhf_offset);
        i += 1;
    }
    assert(keys_of(keys@) =~= offsets(models(entries@)));
    sort_by_key(keys.as_slice())
}

/// Plans what is to be done with the entries of an archive.
pub fn build_plans(content: &[u8], info: &ArchiveInfo, opts: &Options) -> (r: Result<
    Vec<EntryPlan>,
>)
    ensures
        listed(r) == plans_outcome(content@, info@, opts@),
{
    if info.total_entries > usize::MAX as u64 {
        return Err(
            entry_error("too many Central Directory entries: ", info.total_entries as u128),
        );
    }
    let rest = tail_from(content, info.cd_offset);
    let cd = if info.cd_size <= rest.len() as u64 {
        slice_subrange(rest, 0, info.cd_size as usize)
    } else {
        rest
    };
    assert(cd@ =~= cd_bytes_of(content@, info@));
    let entries = match read_cd_entries(cd, info.cd_size, info.total_entries as usize, opts) {
        Ok(entries) => entries,
        Err(e) => return Err(e),
    };
    let order = file_order(&entries);
    let ghost sorted = in_file_order(models(entries@));
    proof {
        lemma_stable_order(offsets(models(entries@)));
        assert(ints(order@).len() == order@.len());
    }
    let mut plans: Vec<EntryPlan> = Vec::new();
    let mut i: usize = 0;
    assert(models(plans@) =~= Seq::empty());
    while i < order.len()
        invariant
            i <= order.len(),
            order@.len() == entries@.len(),
            plans@.len() == i,
            sorted == in_file_order(models(entries@)),
            ints(order@) == stable_order(offsets(models(entries@))),
            forall|k: int| 0 <= k < order@.len() ==> #[trigger] order@[k] < entries@.len(),
            local_plans_outcome(content@, sorted, i as int) == Ok::<
                Seq<EntryPlanModel>,
                ErrorModel,
            >(models(plans@)),
            plans_outcome(content@, info@, opts@) == (match local_plans_outcome(
                content@,
                sorted,
                entries@.len() as int,
            ) {
                Err(e) => Err(e),
                Ok(plans) => spans_outcome(plans, info@.cd_offset as int, plans.len() as int),
            }),
        decreases order.len() - i,
    {
        let entry = &entries[order[i]];
        proof {
            assert(ints(order@)[i as int] == order@[i as int] as int);
            assert(sorted[i as int] == entry@);
        }
        match plan_entry(entry, tail_from(content, entry.lhf_offset)) {
            Ok(plan) => {
                let ghost before = models(plans@);
                let ghost model = plan@;
                plans.push(plan);
                assert(models(plans@) =~= before.push(model));
            },
            Err(e) => {
                proof {
                    lemma_local_plans_fail(content@, sorted, i + 1, entries@.len() as int);
                }
                return Err(e);
            },
        }
        i += 1;
    }
    assign_spans(plans, info.cd_offset)
}

/// What a file holds from `offset` on.
pub fn tail_from(content: &[u8], offset: u64) -> (r: &[u8])
    ensures
        r@ == from_offset(content@, offset as int),
{
    if offset <= content.len() as u64 {
        slice_subrange(content, offset as usize, content.len())
    } else {
        slice_subrange(content, content.len(), content.len())
    }
}

/// What is wrong with the place that the plan at `k` has in the central directory, if anything is.
pub open spec fn cd_index_fault(plans: Seq<EntryPlanModel>, k: int) -> Option<Seq<char>> {
    if plans[k].cd_index >= plans.len() {
        Some("CD entry index "@ + decimal(plans[k].entry_no()) + " is out of range"@)
    } else if exists|j: int| 0 <= j < k && #[trigger] plans[j].cd_index == plans[k].cd_index {
        Some("duplicate CD entry index "@ + decimal(plans[k].entry_no()))
    } else {
        None
    }
}

/// The first such fault among the first `n` plans.
pub open spec fn first_cd_index_fault(plans: Seq<EntryPlanModel>, n: int) -> Option<Seq<char>>
    decreases n,
{
    if n <= 0 {
        None
    } else {
        match first_cd_index_fault(plans, n - 1) {
            Some(fault) => Some(fault),
            None => cd_index_fault(plans, n - 1),
        }
    }
}

/// The plan of the entry that has place `c` in the central directory.
pub open spec fn plan_at_cd_index(plans: Seq<EntryPlanModel>, c: int) -> int {
    choose|k: int| 0 <= k < plans.len() && #[trigger] plans[k].cd_index == c
}

/// The plans in the order of the central directory.
pub open spec fn cd_positions(plans: Seq<EntryPlanModel>) -> Seq<int> {
    Seq::new(plans.len(), |c: int| plan_at_cd_index(plans, c))
}

/// Whether each place in the central directory belongs to exactly one plan.
pub open spec fn cd_indexed(plans: Seq<EntryPlanModel>) -> bool {
    &&& forall|k: int| 0 <= k < plans.len() ==> 0 <= #[trigger] plans[k].cd_index < plans.len()
    &&& forall|k: int, l: int|
        0 <= k < l < plans.len() ==> #[trigger] plans[k].cd_index != #[trigger] plans[l].cd_index
}

/// No place is at fault exactly where each is in range and none is taken twice.
pub proof fn lemma_cd_index_faults(plans: Seq<EntryPlanModel>, n: int)
    requires
        0 <= n <= plans.len(),
        forall|k: int| 0 <= k < plans.len() ==> 0 <= #[trigger] plans[k].cd_index,
    ensures
        first_cd_index_fault(plans, n) is None <==> {
            &&& forall|k: int| 0 <= k < n ==> #[trigger] plans[k].cd_index < plans.len()
            &&& forall|k: int, l: int|
                0 <= k < l < n ==> #[trigger] plans[k].cd_index != #[trigger] plans[l].cd_index
        },
    decreases n,
{
    if n > 0 {
        lemma_cd_index_faults(plans, n - 1);
        if first_cd_index_fault(plans, n) is None {
            assert(cd_index_fault(plans, n - 1) is None);
        }
    }
}

proof fn lemma_cd_index_fault_stays(plans: Seq<EntryPlanModel>, n: int, m: int)
    requires
        n <= m,
        first_cd_index_fault(plans, n) is Some,
    ensures
        first_cd_index_fault(plans, m) == first_cd_index_fault(plans, n),
    decreases m - n,
{
    if n < m {
        lemma_cd_index_fault_stays(plans, n, m - 1);
    }
}

/// Where no place is taken twice, every place is taken.
pub proof fn lemma_cd_index_taken(plans: Seq<EntryPlanModel>, c: int)
    requires
        cd_indexed(plans),
        0 <= c < plans.len(),
    ensures
        0 <= plan_at_cd_index(plans, c) < plans.len(),
        plans[plan_at_cd_index(plans, c)].cd_index == c,
{
    let taken = plans.map_values(|p: EntryPlanModel| p.cd_index);
    if forall|k: int| 0 <= k < plans.len() ==> #[trigger] plans[k].cd_index != c {
        taken.unique_seq_to_set();
        let others = vstd::set_lib::set_int_range(0, plans.len() as int).remove(c);
        vstd::set_lib::lemma_int_range(0, plans.len() as int);
        assert(taken.to_set().subset_of(others)) by {
            assert forall|x: int| taken.to_set().contains(x) implies others.contains(x) by {
                let k = choose|k: int| 0 <= k < taken.len() && taken[k] == x;
                assert(plans[k].cd_index == x);
            }
        }
        vstd::set_lib::lemma_len_subset(taken.to_set(), others);
        assert(false);
    }
    let k = choose|k: int| 0 <= k < plans.len() && #[trigger] plans[k].cd_index == c;
    assert(plans[k].cd_index == c);
}

/// The plans in the order of the central directory.
pub fn cd_order(plans: &[EntryPlan]) -> (r: core::result::Result<Vec<usize>, String>)
    ensures
        match r {
            Ok(order) => first_cd_index_fault(models(plans@), plans@.len() as int) is None && ints(
                order@,
            ) == cd_positions(models(plans@)) && forall|c: int|
                0 <= c < order@.len() ==> #[trigger] order@[c] < plans@.len(),
            Err(e) => first_cd_index_fault(models(plans@), plans@.len() as int) == Some(e@),
        },
{
    let ghost ms = models(plans@);
    let none: usize = plans.len();
    let mut order: Vec<usize> = Vec::new();
    order.resize(plans.len(), none);
    let mut k: usize = 0;
    while k < plans.len()
        invariant
            k <= plans.len(),
            none == plans.len(),
            ms == models(plans@),
            order@.len() == plans@.len(),
            first_cd_index_fault(ms, k as int) is None,
            forall|j: int|
                0 <= j < k ==> 0 <= #[trigger] ms[j].cd_index < order@.len()
                    && order@[ms[j].cd_index] == j,
            forall|c: int|
                0 <= c < order@.len() && #[trigger] order@[c] != none ==> order@[c] < k
                    && ms[order@[c] as int].cd_index == c,
        decreases plans.len() - k,
    {
        let c: usize = plans[k].cd_index;
        assert(ms[k as int].cd_index == c);
        if c >= plans.len() {
            proof {
                lemma_cd_index_fault_stays(ms, k + 1, plans@.len() as int);
            }
            return Err(numbered("CD entry index ", c as u128 + 1, " is out of range"));
        }
        if order[c] != none {
            proof {
                assert(ms[order@[c as int] as int].cd_index == c);
                lemma_cd_index_fault_stays(ms, k + 1, plans@.len() as int);
            }
            return Err(
                with_number("duplicate CD entry index ", c as u128 + 1),
            );
        }
        assert(cd_index_fault(ms, k as int) is None) by {
            assert forall|j: int| 0 <= j < k implies #[trigger] ms[j].cd_index != c by {
                assert(order@[ms[j].cd_index] == j);
            }
        }
        order.set(c, k);
        k += 1;
    }
    proof {
        lemma_cd_index_faults(ms, ms.len() as int);
        assert(cd_indexed(ms));
        assert forall|c: int| 0 <= c < order@.len() implies #[trigger] order@[c]
            == plan_at_cd_index(ms, c) by {
            lemma_cd_index_taken(ms, c);
            assert(order@[ms[plan_at_cd_index(ms, c)].cd_index] == plan_at_cd_index(ms, c));
        }
        assert forall|c: int| 0 <= c < order@.len() implies #[trigger] order@[c] < plans@.len() by {
            lemma_cd_index_taken(ms, c);
        }
        assert(ints(order@) =~= cd_positions(ms));
    }
    Ok(order)
}

} // verus!
