//! Changes of a file in place, which only move bytes towards its front.

use super::bytes::{law_write_back_u16, patched, push_bytes, push_u16, read_u16, u16_at, u16_bytes};
use super::copy::{copy_within_file_with_buf, moved, store};
use super::directory::{
    directory_outcome, end_records, kept, lemma_directory, push_end_records, write_directory,
};
use super::eocd::ArchiveInfo;
use super::layout::{
    entry_ok, entry_on, header_of, layout_ok, lemma_offsets_rise, payload_of, ArchiveModel,
};
use super::local_header::{patched_local_header, LocalHeader, LocalHeaderModel};
use super::plan::{span_end, EntryPlan, EntryPlanModel};
use super::write_new::{archive_of, rename_local_header, renamed_local_header};
use super::{
    checked_u16, flags_with_bit11, over_u16, with_bit11, COPY_BUF_SIZE, MIN_PADDING,
    PADDING_EXTRA_FIELD_ID,
};
use crate::text::same_bytes;
use vstd::prelude::*;
use vstd::slice::slice_to_vec;
use vstd::string::*;

verus! {

/// One change of a file.
#[derive(Debug)]
pub enum FileOp {
    /// Write bytes at a position.
    Write { pos: u64, bytes: Vec<u8> },
    /// Copy `len` bytes from `src` to `dst`, which lies before it.
    Copy { src: u64, dst: u64, len: u64 },
    /// Cut the file off.
    SetLen { len: u64 },
}

#[verifier::ext_equal]
pub enum OpModel {
    Write { pos: int, bytes: Seq<u8> },
    Copy { src: int, dst: int, len: int },
    SetLen { len: int },
}

impl View for FileOp {
    type V = OpModel;

    open spec fn view(&self) -> OpModel {
        match *self {
            FileOp::Write { pos, bytes } => OpModel::Write { pos: pos as int, bytes: bytes@ },
            FileOp::Copy { src, dst, len } => OpModel::Copy {
                src: src as int,
                dst: dst as int,
                len: len as int,
            },
            FileOp::SetLen { len } => OpModel::SetLen { len: len as int },
        }
    }
}

pub open spec fn op_models(ops: Seq<FileOp>) -> Seq<OpModel> {
    ops.map_values(|op: FileOp| op@)
}

impl OpModel {
    /// What the change makes of a file.
    pub open spec fn apply(self, file: Seq<u8>) -> Seq<u8> {
        match self {
            OpModel::Write { pos, bytes } => if pos + bytes.len() <= file.len() {
                patched(file, pos, bytes)
            } else {
                file.take(pos) + bytes
            },
            OpModel::Copy { src, dst, len } => moved(file, src, dst, len),
            OpModel::SetLen { len } => file.take(len),
        }
    }

    /// Whether the change leaves no hole, reads only what is there, and moves nothing back.
    pub open spec fn fits(self, file: Seq<u8>) -> bool {
        match self {
            OpModel::Write { pos, .. } => 0 <= pos <= file.len(),
            OpModel::Copy { src, dst, len } => 0 <= dst <= src && 0 <= len && src + len
                <= file.len(),
            OpModel::SetLen { len } => 0 <= len <= file.len(),
        }
    }
}

/// What the changes make of a file, one after another.
pub open spec fn applied(file: Seq<u8>, ops: Seq<OpModel>) -> Seq<u8>
    decreases ops.len(),
{
    if ops.len() == 0 {
        file
    } else {
        ops.last().apply(applied(file, ops.drop_last()))
    }
}

/// Whether each of the changes fits the file that the ones before it leave.
pub open spec fn all_fit(file: Seq<u8>, ops: Seq<OpModel>) -> bool
    decreases ops.len(),
{
    ops.len() > 0 ==> all_fit(file, ops.drop_last()) && ops.last().fits(
        applied(file, ops.drop_last()),
    )
}

/// Where the next bytes are written, and by how much what follows may move.
pub struct Place {
    pub pos: int,
    pub carry: int,
}

/// The number of bytes that an entry can take up: its own savings and those before it.
pub open spec fn absorbed(p: EntryPlanModel, carry: int) -> int {
    p.fname_delta() + carry
}

/// Whether an entry takes them up in an extra field.
pub open spec fn pads(p: EntryPlanModel, carry: int) -> bool {
    absorbed(p, carry) >= MIN_PADDING && p.lhf_extra_len + absorbed(p, carry) <= 0xFFFF
}

/// Where the local header of an entry is written.
pub open spec fn place_of(p: EntryPlanModel, at: Place) -> int {
    if !p.excluded && pads(p, at.carry) {
        at.pos
    } else {
        p.lhf_offset - at.carry
    }
}

/// The place behind an entry.
pub open spec fn place_behind(p: EntryPlanModel, at: Place) -> Place {
    if p.excluded {
        Place { pos: place_of(p, at) + p.span_size, carry: 0 }
    } else if pads(p, at.carry) {
        Place { pos: place_of(p, at) + p.span_size + at.carry, carry: 0 }
    } else {
        Place {
            pos: place_of(p, at) + p.span_size - p.fname_delta(),
            carry: absorbed(p, at.carry),
        }
    }
}

/// The place behind the first `n` entries.
pub open spec fn place_after(plans: Seq<EntryPlanModel>, n: int) -> Place
    decreases n,
{
    if n <= 0 {
        Place {
            pos: if plans.len() > 0 {
                plans[0].lhf_offset
            } else {
                0
            },
            carry: 0,
        }
    } else {
        place_behind(plans[n - 1], place_after(plans, n - 1))
    }
}

/// Where the local header of the entry with plan `k` is written.
pub open spec fn place_at(plans: Seq<EntryPlanModel>, k: int) -> int {
    place_of(plans[k], place_after(plans, k))
}

/// A run of zero bytes.
pub open spec fn zeros(n: int) -> Seq<u8> {
    Seq::new(n as nat, |i: int| 0u8)
}

/// The extra field that takes up `absorb` bytes.
pub open spec fn padding_field(absorb: int) -> Seq<u8> {
    u16_bytes(PADDING_EXTRA_FIELD_ID) + u16_bytes((absorb - 4) as u16) + zeros(absorb - 4)
}

/// The local header of an entry that takes up `absorb` bytes.
pub open spec fn padded_local_header(
    h: LocalHeaderModel,
    p: EntryPlanModel,
    absorb: int,
) -> Seq<u8> {
    patched_local_header(
        h.header,
        flags_with_bit11(u16_at(h.header, 6), p.new_bit11_set),
        p.new_fname.len() as u16,
        (p.lhf_extra_len + absorb) as u16,
    ) + p.new_fname + padding_field(absorb) + h.extra
}

/// The local header of an entry as it is written in place.
pub open spec fn inplace_header(h: LocalHeaderModel, p: EntryPlanModel, carry: int) -> Seq<u8> {
    if pads(p, carry) {
        padded_local_header(h, p, absorbed(p, carry))
    } else {
        renamed_local_header(h, p)
    }
}

/// The bytes that stand for an entry in the changed file.
pub open spec fn inplace_entry(
    content: Seq<u8>,
    h: LocalHeaderModel,
    p: EntryPlanModel,
    carry: int,
) -> Seq<u8> {
    if p.excluded {
        content.subrange(p.lhf_offset, p.lhf_offset + p.span_size)
    } else {
        inplace_header(h, p, carry) + payload_of(content, p)
    }
}

/// The changed file up to the place behind the first `n` entries. Between two entries stands what
/// stood there before.
pub open spec fn inplace_front(content: Seq<u8>, a: ArchiveModel, n: int) -> Seq<u8>
    decreases n,
{
    let at = place_after(a.plans, n - 1);
    if n <= 0 {
        content.take(place_after(a.plans, 0).pos)
    } else {
        inplace_front(content, a, n - 1) + content.subrange(at.pos, place_at(a.plans, n - 1))
            + inplace_entry(content, a.headers[n - 1], a.plans[n - 1], at.carry)
    }
}

/// The offsets of the local headers in the changed file.
pub open spec fn inplace_offsets(plans: Seq<EntryPlanModel>) -> Seq<u64> {
    Seq::new(plans.len(), |k: int| place_at(plans, k) as u64)
}

/// The central directory with these offsets, at `cd_start`, and the end records behind it.
pub open spec fn inplace_tail(a: ArchiveModel, offs: Seq<u64>, cd_start: int) -> Seq<u8> {
    let cd = directory_outcome(a.plans, offs)->Ok_0;
    let entries = kept(a.plans).len() as int;
    cd + end_records(
        a.info.is_zip64 || entries > 0xFFFF || cd.len() > 0xFFFF_FFFF || cd_start > 0xFFFF_FFFF,
        entries,
        cd.len() as int,
        cd_start,
        a.info.archive_comment,
    )
}

/// A file whose archive has been changed in place.
pub open spec fn inplace_file(content: Seq<u8>, a: ArchiveModel) -> Seq<u8> {
    let n = a.plans.len() as int;
    inplace_front(content, a, n) + inplace_tail(
        a,
        inplace_offsets(a.plans),
        place_after(a.plans, n).pos,
    )
}

/// The offsets that the local headers have.
pub open spec fn old_offsets(plans: Seq<EntryPlanModel>) -> Seq<u64> {
    plans.map_values(|p: EntryPlanModel| p.lhf_offset as u64)
}

/// A file of which only the central directory has been rewritten.
pub open spec fn fast_file(content: Seq<u8>, a: ArchiveModel) -> Seq<u8> {
    content.take(a.info.cd_offset as int) + inplace_tail(
        a,
        old_offsets(a.plans),
        a.info.cd_offset as int,
    )
}

/// The changes for one entry.
pub open spec fn entry_ops(h: LocalHeaderModel, p: EntryPlanModel, at: Place) -> Seq<OpModel> {
    let to = place_of(p, at);
    let header = inplace_header(h, p, at.carry);
    let data_src = p.lhf_offset + p.lhf_header_size;
    let data_dst = to + header.len();
    if p.excluded {
        if at.carry == 0 {
            Seq::empty()
        } else {
            seq![OpModel::Copy { src: p.lhf_offset, dst: to, len: p.span_size }]
        }
    } else if at.carry == 0 && p.fname_delta() == 0 {
        let flags = flags_with_bit11(u16_at(h.header, 6), p.new_bit11_set);
        (if flags == u16_at(h.header, 6) {
            Seq::empty()
        } else {
            seq![OpModel::Write { pos: p.lhf_offset + 6, bytes: u16_bytes(flags) }]
        }) + (if p.new_fname == p.orig_fname {
            Seq::empty()
        } else {
            seq![OpModel::Write { pos: p.lhf_offset + 30, bytes: p.new_fname }]
        })
    } else if data_src == data_dst {
        seq![OpModel::Write { pos: to, bytes: header }]
    } else {
        seq![
            OpModel::Write { pos: to, bytes: header },
            OpModel::Copy { src: data_src, dst: data_dst, len: p.payload_size() },
        ]
    }
}

/// The changes for the first `n` entries.
pub open spec fn front_ops(a: ArchiveModel, n: int) -> Seq<OpModel>
    decreases n,
{
    if n <= 0 {
        Seq::empty()
    } else {
        front_ops(a, n - 1) + entry_ops(
            a.headers[n - 1],
            a.plans[n - 1],
            place_after(a.plans, n - 1),
        )
    }
}

/// The changes that write the end of an archive at `pos`.
pub open spec fn tail_ops(tail: Seq<u8>, pos: int) -> Seq<OpModel> {
    seq![
        OpModel::Write { pos, bytes: tail },
        OpModel::SetLen { len: pos + tail.len() },
    ]
}

/// The changes that clean an archive in place.
pub open spec fn inplace_ops(a: ArchiveModel) -> Seq<OpModel> {
    let n = a.plans.len() as int;
    let cd_start = place_after(a.plans, n).pos;
    front_ops(a, n) + tail_ops(inplace_tail(a, inplace_offsets(a.plans), cd_start), cd_start)
}

/// The changes that rewrite only the central directory.
pub open spec fn fast_ops(a: ArchiveModel) -> Seq<OpModel> {
    let cd_start = a.info.cd_offset as int;
    tail_ops(inplace_tail(a, old_offsets(a.plans), cd_start), cd_start)
}

/// Every entry is written at or before the place where it stood, and behind what was written
/// before.
pub proof fn lemma_place(plans: Seq<EntryPlanModel>, cd_offset: int, n: int)
    requires
        layout_ok(plans, cd_offset),
        0 <= cd_offset,
        0 <= n <= plans.len(),
    ensures
        0 <= place_after(plans, n).pos,
        0 <= place_after(plans, n).carry,
        n < plans.len() ==> place_after(plans, n).pos + place_after(plans, n).carry
            <= plans[n].lhf_offset,
        n < plans.len() ==> place_after(plans, n).pos <= place_at(plans, n) <= plans[n].lhf_offset,
        n == plans.len() ==> place_after(plans, n).pos + place_after(plans, n).carry <= cd_offset,
    decreases n,
{
    if n < plans.len() {
        assert(entry_ok(plans[n]));
    }
    if n > 0 {
        lemma_place(plans, cd_offset, n - 1);
        assert(entry_ok(plans[n - 1]));
        assert(plans[n - 1].lhf_offset + plans[n - 1].span_size == span_end(
            plans,
            cd_offset,
            n - 1,
        ));
    }
}

/// Changes in two lots are changes in one.
proof fn lemma_applied_add(file: Seq<u8>, a: Seq<OpModel>, b: Seq<OpModel>)
    ensures
        applied(file, a + b) == applied(applied(file, a), b),
        all_fit(file, a + b) == (all_fit(file, a) && all_fit(applied(file, a), b)),
    decreases b.len(),
{
    if b.len() == 0 {
        assert(a + b =~= a);
    } else {
        lemma_applied_add(file, a, b.drop_last());
        assert((a + b).drop_last() =~= a + b.drop_last());
        assert((a + b).last() == b.last());
    }
}

proof fn lemma_applied_one(file: Seq<u8>, x: OpModel)
    ensures
        applied(file, seq![x]) == x.apply(file),
        all_fit(file, seq![x]) == x.fits(file),
{
    reveal_with_fuel(applied, 2);
    reveal_with_fuel(all_fit, 2);
    assert(seq![x].drop_last() =~= Seq::empty());
}

proof fn lemma_applied_two(file: Seq<u8>, x: OpModel, y: OpModel)
    ensures
        applied(file, seq![x, y]) == y.apply(x.apply(file)),
        all_fit(file, seq![x, y]) == (x.fits(file) && y.fits(x.apply(file))),
{
    lemma_applied_one(file, x);
    lemma_applied_one(x.apply(file), y);
    lemma_applied_add(file, seq![x], seq![y]);
    assert(seq![x] + seq![y] =~= seq![x, y]);
}

/// The size of a local header as it is written in place.
pub proof fn lemma_header_len(h: LocalHeaderModel, p: EntryPlanModel, carry: int)
    requires
        entry_ok(p),
        h.header.len() == 30,
        h.extra.len() == p.lhf_extra_len,
        0 <= carry,
    ensures
        inplace_header(h, p, carry).len() == p.lhf_header_size - p.fname_delta() + (if pads(
            p,
            carry,
        ) {
            absorbed(p, carry)
        } else {
            0
        }),
{
}

/// A header written over what is there, and data moved up to it.
proof fn lemma_write_and_move(
    content: Seq<u8>,
    out: Seq<u8>,
    to: int,
    header: Seq<u8>,
    src: int,
    len: int,
)
    requires
        out.len() <= to,
        to + header.len() <= src,
        0 <= len,
        src + len <= content.len(),
    ensures
        ({
            let file = out + content.subrange(out.len() as int, content.len() as int);
            let write = OpModel::Write { pos: to, bytes: header };
            let copy = OpModel::Copy { src, dst: to + header.len(), len };
            let end = to + header.len() + len;
            let next = out + content.subrange(out.len() as int, to) + (header + content.subrange(
                src,
                src + len,
            )) + content.subrange(end, content.len() as int);
            &&& write.fits(file)
            &&& copy.fits(write.apply(file))
            &&& copy.apply(write.apply(file)) == next
            &&& src == to + header.len() ==> write.apply(file) == next
        }),
{
    let file = out + content.subrange(out.len() as int, content.len() as int);
    let write = OpModel::Write { pos: to, bytes: header };
    let copy = OpModel::Copy { src, dst: to + header.len(), len };
    let end = to + header.len() + len;
    let next = out + content.subrange(out.len() as int, to) + (header + content.subrange(
        src,
        src + len,
    )) + content.subrange(end, content.len() as int);
    let mid = write.apply(file);
    assert(file.len() == content.len());
    assert(mid =~= out + content.subrange(out.len() as int, to) + header + content.subrange(
        to + header.len(),
        content.len() as int,
    ));
    assert(copy.apply(mid) =~= next);
    if src == to + header.len() {
        assert(mid =~= next);
    }
}

/// The fixed part of a local header whose lengths do not change.
pub proof fn lemma_fixed_part(content: Seq<u8>, p: EntryPlanModel, flags: u16)
    requires
        entry_ok(p),
        entry_on(content, p),
        p.fname_delta() == 0,
    ensures
        ({
            let h = header_of(content, p);
            &&& patched_local_header(
                h.header,
                flags,
                p.new_fname.len() as u16,
                h.extra.len() as u16,
            ) == patched(h.header, 6, u16_bytes(flags))
            &&& flags == u16_at(h.header, 6) ==> patched(h.header, 6, u16_bytes(flags)) == h.header
        }),
{
    let h = header_of(content, p);
    law_write_back_u16(h.header, 6);
    law_write_back_u16(h.header, 26);
    law_write_back_u16(h.header, 28);
    assert(u16_at(h.header, 26) == u16_at(content, p.lhf_offset + 26));
    assert(u16_at(h.header, 28) == u16_at(content, p.lhf_offset + 28));
    let flagged = patched(h.header, 6, u16_bytes(flags));
    assert(flagged.subrange(26, 28) =~= h.header.subrange(26, 28));
    assert(flagged.subrange(28, 30) =~= h.header.subrange(28, 30));
    assert(patched(flagged, 26, flagged.subrange(26, 28)) =~= flagged);
    assert(patched(flagged, 28, flagged.subrange(28, 30)) =~= flagged);
    if flags == u16_at(h.header, 6) {
        assert(flagged =~= h.header);
    }
}

/// New flags, written where the old ones stand.
proof fn lemma_flags_written(content: Seq<u8>, p: EntryPlanModel, out: Seq<u8>, flags: u16)
    requires
        entry_ok(p),
        entry_on(content, p),
        out.len() <= p.lhf_offset,
    ensures
        ({
            let file = out + content.subrange(out.len() as int, content.len() as int);
            let h = header_of(content, p);
            let write = OpModel::Write { pos: p.lhf_offset + 6, bytes: u16_bytes(flags) };
            &&& write.fits(file)
            &&& write.apply(file) == out + content.subrange(out.len() as int, p.lhf_offset)
                + patched(h.header, 6, u16_bytes(flags)) + content.subrange(
                p.lhf_offset + 30,
                content.len() as int,
            )
            &&& flags == u16_at(h.header, 6) ==> write.apply(file) == file
        }),
{
    let file = out + content.subrange(out.len() as int, content.len() as int);
    let h = header_of(content, p);
    let off = p.lhf_offset;
    let write = OpModel::Write { pos: off + 6, bytes: u16_bytes(flags) };
    let n = content.len() as int;
    assert(file.len() == n);
    assert(write.apply(file) =~= out + content.subrange(out.len() as int, off) + patched(
        h.header,
        6,
        u16_bytes(flags),
    ) + content.subrange(off + 30, n));
    if flags == u16_at(h.header, 6) {
        law_write_back_u16(h.header, 6);
        assert(h.header.subrange(6, 8) =~= content.subrange(off + 6, off + 8));
        assert(write.apply(file) =~= file);
    }
}

/// A new name of the same length, written where the old one stands, behind the fixed part of a
/// local header.
proof fn lemma_name_written(content: Seq<u8>, p: EntryPlanModel, out: Seq<u8>, fixed: Seq<u8>)
    requires
        entry_ok(p),
        entry_on(content, p),
        p.fname_delta() == 0,
        out.len() <= p.lhf_offset,
        fixed.len() == 30,
    ensures
        ({
            let h = header_of(content, p);
            let front = out + content.subrange(out.len() as int, p.lhf_offset);
            let file = front + fixed + content.subrange(p.lhf_offset + 30, content.len() as int);
            let write = OpModel::Write { pos: p.lhf_offset + 30, bytes: p.new_fname };
            &&& write.fits(file)
            &&& p.new_fname == p.orig_fname ==> write.apply(file) == file
            &&& write.apply(file) == front + (fixed + p.new_fname + h.extra + payload_of(
                content,
                p,
            )) + content.subrange(p.lhf_offset + p.span_size, content.len() as int)
        }),
{
    let h = header_of(content, p);
    let off = p.lhf_offset;
    let n = content.len() as int;
    let front = out + content.subrange(out.len() as int, off);
    let file = front + fixed + content.subrange(off + 30, n);
    let write = OpModel::Write { pos: off + 30, bytes: p.new_fname };
    assert(front.len() == off);
    assert(write.apply(file) =~= front + (fixed + p.new_fname + h.extra + payload_of(content, p))
        + content.subrange(off + p.span_size, n));
    if p.new_fname == p.orig_fname {
        assert(write.apply(file) =~= file);
    }
}

/// New flags and a new name of the same length, written where the old ones stand.
proof fn lemma_rewritten_still(content: Seq<u8>, p: EntryPlanModel, out: Seq<u8>, flags: u16)
    requires
        entry_ok(p),
        entry_on(content, p),
        p.fname_delta() == 0,
        out.len() <= p.lhf_offset,
    ensures
        ({
            let file = out + content.subrange(out.len() as int, content.len() as int);
            let h = header_of(content, p);
            let first = OpModel::Write { pos: p.lhf_offset + 6, bytes: u16_bytes(flags) };
            let second = OpModel::Write { pos: p.lhf_offset + 30, bytes: p.new_fname };
            &&& first.fits(file)
            &&& second.fits(file)
            &&& second.fits(first.apply(file))
            &&& flags == u16_at(h.header, 6) ==> first.apply(file) == file
            &&& p.new_fname == p.orig_fname ==> second.apply(first.apply(file)) == first.apply(file)
            &&& second.apply(first.apply(file)) == out + content.subrange(
                out.len() as int,
                p.lhf_offset,
            ) + (patched(h.header, 6, u16_bytes(flags)) + p.new_fname + h.extra + payload_of(
                content,
                p,
            )) + content.subrange(p.lhf_offset + p.span_size, content.len() as int)
        }),
{
    lemma_flags_written(content, p, out, flags);
    lemma_name_written(
        content,
        p,
        out,
        patched(header_of(content, p).header, 6, u16_bytes(flags)),
    );
}

/// Two changes, each of which may be left out where it changes nothing.
proof fn lemma_applied_optional(
    file: Seq<u8>,
    x: OpModel,
    y: OpModel,
    no_x: bool,
    no_y: bool,
)
    requires
        x.fits(file),
        y.fits(file),
        y.fits(x.apply(file)),
        no_x ==> x.apply(file) == file,
        no_y ==> y.apply(x.apply(file)) == x.apply(file),
    ensures
        ({
            let ops = (if no_x {
                Seq::empty()
            } else {
                seq![x]
            }) + (if no_y {
                Seq::empty()
            } else {
                seq![y]
            });
            &&& all_fit(file, ops)
            &&& applied(file, ops) == y.apply(x.apply(file))
        }),
{
    lemma_applied_one(file, x);
    lemma_applied_one(file, y);
    lemma_applied_two(file, x, y);
    assert(seq![x] + seq![y] =~= seq![x, y]);
    assert(seq![x] + Seq::<OpModel>::empty() =~= seq![x]);
    assert(Seq::<OpModel>::empty() + seq![y] =~= seq![y]);
    assert(Seq::<OpModel>::empty() + Seq::<OpModel>::empty() =~= Seq::<OpModel>::empty());
}

/// The file that the changes for one entry make of a file in which `out` is done.
spec fn entry_done(
    content: Seq<u8>,
    h: LocalHeaderModel,
    p: EntryPlanModel,
    at: Place,
    out: Seq<u8>,
) -> Seq<u8> {
    out + content.subrange(at.pos, place_of(p, at)) + inplace_entry(content, h, p, at.carry)
        + content.subrange(place_behind(p, at).pos, content.len() as int)
}

/// Whether the changes for an entry bring a file in which `out` is done one entry further.
spec fn brings_further(content: Seq<u8>, p: EntryPlanModel, at: Place, out: Seq<u8>) -> bool {
    let h = header_of(content, p);
    let file = out + content.subrange(at.pos, content.len() as int);
    &&& all_fit(file, entry_ops(h, p, at))
    &&& applied(file, entry_ops(h, p, at)) == entry_done(content, h, p, at, out)
}

/// An entry that is dropped.
proof fn lemma_excluded_entry(content: Seq<u8>, p: EntryPlanModel, at: Place, out: Seq<u8>)
    requires
        entry_ok(p),
        entry_on(content, p),
        0 <= at.carry,
        out.len() == at.pos,
        at.pos + at.carry <= p.lhf_offset,
        p.excluded,
    ensures
        brings_further(content, p, at, out),
{
    let h = header_of(content, p);
    let file = out + content.subrange(at.pos, content.len() as int);
    if at.carry == 0 {
        assert(entry_done(content, h, p, at, out) =~= file);
    } else {
        let copy = OpModel::Copy { src: p.lhf_offset, dst: place_of(p, at), len: p.span_size };
        lemma_applied_one(file, copy);
        assert(copy.apply(file) =~= entry_done(content, h, p, at, out));
    }
}

/// An entry that stays where it is.
proof fn lemma_still_entry(content: Seq<u8>, p: EntryPlanModel, at: Place, out: Seq<u8>)
    requires
        entry_ok(p),
        entry_on(content, p),
        0 <= at.carry,
        out.len() == at.pos,
        at.pos + at.carry <= p.lhf_offset,
        !p.excluded,
        at.carry == 0,
        p.fname_delta() == 0,
    ensures
        brings_further(content, p, at, out),
{
    let h = header_of(content, p);
    let file = out + content.subrange(at.pos, content.len() as int);
    let flags = flags_with_bit11(u16_at(h.header, 6), p.new_bit11_set);
    lemma_fixed_part(content, p, flags);
    lemma_rewritten_still(content, p, out, flags);
    lemma_applied_optional(
        file,
        OpModel::Write { pos: p.lhf_offset + 6, bytes: u16_bytes(flags) },
        OpModel::Write { pos: p.lhf_offset + 30, bytes: p.new_fname },
        flags == u16_at(h.header, 6),
        p.new_fname == p.orig_fname,
    );
    assert(inplace_header(h, p, 0) == patched(h.header, 6, u16_bytes(flags)) + p.new_fname
        + h.extra);
}

/// An entry that moves, or that gets a shorter name.
proof fn lemma_moved_entry(content: Seq<u8>, p: EntryPlanModel, at: Place, out: Seq<u8>)
    requires
        entry_ok(p),
        entry_on(content, p),
        0 <= at.carry,
        out.len() == at.pos,
        at.pos + at.carry <= p.lhf_offset,
        !p.excluded,
        at.carry != 0 || p.fname_delta() != 0,
    ensures
        brings_further(content, p, at, out),
{
    let h = header_of(content, p);
    let file = out + content.subrange(at.pos, content.len() as int);
    let to = place_of(p, at);
    let header = inplace_header(h, p, at.carry);
    let src = p.lhf_offset + p.lhf_header_size;
    let write = OpModel::Write { pos: to, bytes: header };
    let copy = OpModel::Copy { src, dst: to + header.len(), len: p.payload_size() };
    lemma_header_len(h, p, at.carry);
    lemma_write_and_move(content, out, to, header, src, p.payload_size());
    lemma_applied_one(file, write);
    lemma_applied_two(file, write, copy);
    assert(place_behind(p, at).pos == to + header.len() + p.payload_size());
    assert(src + p.payload_size() == p.lhf_offset + p.span_size);
    assert(entry_done(content, h, p, at, out) == out + content.subrange(at.pos, to) + (header
        + content.subrange(src, src + p.payload_size())) + content.subrange(
        to + header.len() + p.payload_size(),
        content.len() as int,
    ));
    if src == to + header.len() {
        assert(entry_ops(h, p, at) == seq![write]);
    } else {
        assert(entry_ops(h, p, at) == seq![write, copy]);
    }
}

/// The size of what stands for an entry in the changed file.
pub proof fn lemma_entry_len(content: Seq<u8>, p: EntryPlanModel, at: Place)
    requires
        entry_ok(p),
        entry_on(content, p),
        0 <= at.carry,
    ensures
        inplace_entry(content, header_of(content, p), p, at.carry).len() == place_behind(p, at).pos
            - place_of(p, at),
{
    lemma_header_len(header_of(content, p), p, at.carry);
}

/// The changes for the first `n` entries can be made, and they bring the file to the place behind
/// these entries.
pub proof fn lemma_front_ops(content: Seq<u8>, a: ArchiveModel, n: int)
    requires
        a.ok(),
        a.on(content),
        0 <= n <= a.plans.len(),
    ensures
        inplace_front(content, a, n).len() == place_after(a.plans, n).pos,
        all_fit(content, front_ops(a, n)),
        applied(content, front_ops(a, n)) == inplace_front(content, a, n) + content.subrange(
            place_after(a.plans, n).pos,
            content.len() as int,
        ),
    decreases n,
{
    if n <= 0 {
        if a.plans.len() > 0 {
            assert(entry_ok(a.plans[0]));
            assert(entry_on(content, a.plans[0]));
        }
        let pos = place_after(a.plans, 0).pos;
        assert(content =~= content.take(pos) + content.subrange(pos, content.len() as int));
    } else {
        let p = a.plans[n - 1];
        let at = place_after(a.plans, n - 1);
        lemma_front_ops(content, a, n - 1);
        lemma_place(a.plans, a.info.cd_offset as int, n - 1);
        assert(entry_ok(p));
        assert(entry_on(content, p));
        assert(a.headers[n - 1] == header_of(content, p));
        let out = inplace_front(content, a, n - 1);
        lemma_entry_len(content, p, at);
        if p.excluded {
            lemma_excluded_entry(content, p, at, out);
        } else if at.carry == 0 && p.fname_delta() == 0 {
            lemma_still_entry(content, p, at, out);
        } else {
            lemma_moved_entry(content, p, at, out);
        }
        assert(brings_further(content, p, at, out));
        lemma_applied_add(
            content,
            front_ops(a, n - 1),
            entry_ops(a.headers[n - 1], a.plans[n - 1], place_after(a.plans, n - 1)),
        );
    }
}

proof fn lemma_tail_ops(file: Seq<u8>, tail: Seq<u8>, pos: int)
    requires
        0 <= pos <= file.len(),
    ensures
        all_fit(file, tail_ops(tail, pos)),
        applied(file, tail_ops(tail, pos)) == file.take(pos) + tail,
{
    let write = OpModel::Write { pos, bytes: tail };
    let cut = OpModel::SetLen { len: pos + tail.len() };
    lemma_applied_two(file, write, cut);
    assert(cut.apply(write.apply(file)) =~= file.take(pos) + tail);
}

/// The changes in place can all be made, and they make of the file that holds the archive the file
/// with the cleaned archive.
pub proof fn law_inplace_ops(content: Seq<u8>, a: ArchiveModel)
    requires
        a.ok(),
        a.on(content),
    ensures
        all_fit(content, inplace_ops(a)),
        applied(content, inplace_ops(a)) == inplace_file(content, a),
{
    let n = a.plans.len() as int;
    let pos = place_after(a.plans, n).pos;
    let tail = inplace_tail(a, inplace_offsets(a.plans), pos);
    lemma_front_ops(content, a, n);
    lemma_place(a.plans, a.info.cd_offset as int, n);
    let file = applied(content, front_ops(a, n));
    lemma_tail_ops(file, tail, pos);
    lemma_applied_add(content, front_ops(a, n), tail_ops(tail, pos));
    assert(file.take(pos) =~= inplace_front(content, a, n));
}

/// The changes of the fast mode can be made, and they rewrite the central directory only.
pub proof fn law_fast_ops(content: Seq<u8>, a: ArchiveModel)
    requires
        a.ok(),
        a.on(content),
    ensures
        all_fit(content, fast_ops(a)),
        applied(content, fast_ops(a)) == fast_file(content, a),
{
    let cd_start = a.info.cd_offset as int;
    lemma_tail_ops(content, inplace_tail(a, old_offsets(a.plans), cd_start), cd_start);
}

/// Appends the identifier and the length of an extra field that takes up `absorb` bytes.
pub fn append_padding_extra_header(out: &mut Vec<u8>, absorb: u64) -> (r: core::result::Result<
    (),
    String,
>)
    requires
        absorb >= MIN_PADDING,
    ensures
        match r {
            Ok(()) => absorb - 4 <= 0xFFFF && final(out)@ == old(out)@ + (u16_bytes(
                PADDING_EXTRA_FIELD_ID,
            ) + u16_bytes((absorb - 4) as u16)),
            Err(e) => absorb - 4 > 0xFFFF && final(out)@ == old(out)@ && e@ == over_u16(
                "padding extra field exceeds ZIP limit"@,
                absorb - 4,
            ),
        },
{
    let data_len: u16 = match checked_u16(absorb - 4, "padding extra field exceeds ZIP limit") {
        Ok(data_len) => data_len,
        Err(e) => return Err(e),
    };
    push_u16(out, PADDING_EXTRA_FIELD_ID);
    push_u16(out, data_len);
    assert(out@ =~= old(out)@ + (u16_bytes(PADDING_EXTRA_FIELD_ID) + u16_bytes(data_len)));
    Ok(())
}

/// The local header of an entry that takes up `absorb` bytes.
fn pad_local_header(h: &LocalHeader, p: &EntryPlan, absorb: u64) -> (bytes: Vec<u8>)
    requires
        entry_ok(p@),
        h@.extra.len() == p@.lhf_extra_len,
        MIN_PADDING <= absorb,
        p.lhf_extra_len + absorb <= 0xFFFF,
    ensures
        bytes@ == padded_local_header(h@, p@, absorb as int),
{
    let flags: u16 = with_bit11(read_u16(&h.header, 6), p.new_bit11_set);
    let mut bytes: Vec<u8> = Vec::new();
    let extra_len: u16 = (p.lhf_extra_len as u64 + absorb) as u16;
    match h.patched_header(flags, p.new_fname.len(), extra_len) {
        Ok(header) => {
            push_bytes(&mut bytes, &header);
        },
        Err(_) => {
            assert(false);
        },
    }
    push_bytes(&mut bytes, p.new_fname.as_slice());
    let r = append_padding_extra_header(&mut bytes, absorb);
    assert(r is Ok);
    let ghost before = bytes@;
    let len: usize = bytes.len();
    assert(len <= 30 + 0xFFFF + 4);
    bytes.resize(len + (absorb - 4) as usize, 0);
    assert(bytes@ =~= before + zeros(absorb - 4));
    push_bytes(&mut bytes, h.extra.as_slice());
    assert(bytes@ =~= padded_local_header(h@, p@, absorb as int));
    bytes
}

/// Appends the changes for one entry.
fn push_entry_ops(
    ops: &mut Vec<FileOp>,
    h: &LocalHeader,
    p: &EntryPlan,
    pos: u64,
    carry: u64,
) -> (place: (u64, u64, u64))
    requires
        entry_ok(p@),
        h@.extra.len() == p@.lhf_extra_len,
        pos + carry <= p.lhf_offset,
        p.lhf_offset + p.span_size <= u64::MAX,
    ensures
        ({
            let at = Place { pos: pos as int, carry: carry as int };
            let behind = place_behind(p@, at);
            &&& op_models(final(ops)@) == op_models(old(ops)@) + entry_ops(h@, p@, at)
            &&& place.0 == place_of(p@, at)
            &&& place.1 == behind.pos
            &&& place.2 == behind.carry
        }),
{
    let ghost at = Place { pos: pos as int, carry: carry as int };
    let ghost before = op_models(ops@);
    if p.excluded {
        if carry > 0 {
            ops.push(
                FileOp::Copy { src: p.lhf_offset, dst: p.lhf_offset - carry, len: p.span_size },
            );
        }
        assert(op_models(ops@) =~= before + entry_ops(h@, p@, at));
        return (p.lhf_offset - carry, p.lhf_offset - carry + p.span_size, 0);
    }
    let delta: u64 = p.fname_delta();
    if carry == 0 && delta == 0 {
        let old_flags: u16 = read_u16(&h.header, 6);
        let flags: u16 = with_bit11(old_flags, p.new_bit11_set);
        if flags != old_flags {
            let mut bytes: Vec<u8> = Vec::new();
            push_u16(&mut bytes, flags);
            assert(bytes@ =~= u16_bytes(flags));
            ops.push(FileOp::Write { pos: p.lhf_offset + 6, bytes });
        }
        let ghost flagged = op_models(ops@);
        if !same_bytes(p.new_fname.as_slice(), p.orig_fname.as_slice()) {
            let bytes = slice_to_vec(p.new_fname.as_slice());
            assert(bytes@ =~= p.new_fname@);
            ops.push(FileOp::Write { pos: p.lhf_offset + 30, bytes });
        }
        assert(op_models(ops@) =~= before + entry_ops(h@, p@, at));
        return (p.lhf_offset, p.lhf_offset + p.span_size, 0);
    }
    proof {
        lemma_header_len(h@, p@, carry as int);
    }
    assert(delta <= 0xFFFF && p.lhf_offset >= carry);
    let data_src: u64 = p.lhf_offset + p.lhf_header_size;
    let payload: u64 = p.payload_size();
    if carry > 0xFFFF || delta + carry < MIN_PADDING || p.lhf_extra_len as u64 + delta + carry
        > 0xFFFF {
        let to: u64 = p.lhf_offset - carry;
        let bytes = rename_local_header(h, p);
        let data_dst: u64 = to + bytes.len() as u64;
        ops.push(FileOp::Write { pos: to, bytes });
        ops.push(FileOp::Copy { src: data_src, dst: data_dst, len: payload });
        assert(op_models(ops@) =~= before + entry_ops(h@, p@, at));
        return (to, data_dst + payload, carry + delta);
    }
    let bytes = pad_local_header(h, p, delta + carry);
    let data_dst: u64 = pos + bytes.len() as u64;
    ops.push(FileOp::Write { pos, bytes });
    if data_src != data_dst {
        ops.push(FileOp::Copy { src: data_src, dst: data_dst, len: payload });
    }
    assert(op_models(ops@) =~= before + entry_ops(h@, p@, at));
    (pos, data_dst + payload, 0)
}

/// The end of an archive: the central directory, at `cd_start`, and the end records.
fn build_tail(
    info: &ArchiveInfo,
    plans: &Vec<EntryPlan>,
    headers: &Vec<LocalHeader>,
    offs: &Vec<u64>,
    cd_start: u64,
) -> (tail: Vec<u8>)
    requires
        archive_of(*info, plans@, headers@).ok(),
        offs@.len() == plans@.len(),
        cd_start <= info.cd_offset,
        forall|k: int| 0 <= k < plans@.len() ==> #[trigger] offs@[k] <= plans@[k].lhf_offset,
    ensures
        tail@ == inplace_tail(archive_of(*info, plans@, headers@), offs@, cd_start as int),
        cd_start + tail@.len() <= u64::MAX,
{
    let ghost a = archive_of(*info, plans@, headers@);
    proof {
        assert forall|k: int|
            0 <= k < a.plans.len() && !(#[trigger] a.plans[k]).excluded implies offs@[k]
            <= a.plans[k].lhf_offset by {
            assert(a.plans[k] == plans@[k]@);
        }
        lemma_directory(a.plans, info.cd_offset as int, offs@);
    }
    let mut tail: Vec<u8> = Vec::new();
    match write_directory(plans.as_slice(), offs.as_slice(), &mut tail) {
        Ok(entries) => {
            assert(tail@ =~= directory_outcome(a.plans, offs@)->Ok_0);
            let cd_size: u64 = tail.len() as u64;
            let zip64: bool = info.is_zip64 || entries > 0xFFFF || cd_size > 0xFFFF_FFFF || cd_start
                > 0xFFFF_FFFF;
            let r = push_end_records(
                &mut tail,
                zip64,
                entries,
                cd_size,
                cd_start,
                info.archive_comment.as_slice(),
            );
            assert(r is Ok);
        },
        Err(_) => {
            assert(false);
        },
    }
    tail
}

/// No local header moves back.
pub proof fn law_no_header_moves_back(plans: Seq<EntryPlanModel>, cd_offset: int, k: int)
    requires
        layout_ok(plans, cd_offset),
        0 <= cd_offset,
        0 <= k < plans.len(),
    ensures
        inplace_offsets(plans)[k] == place_at(plans, k),
        0 <= place_at(plans, k) <= plans[k].lhf_offset,
{
    lemma_place(plans, cd_offset, k);
    assert(entry_ok(plans[k]));
}

/// The changes that clean an archive in place.
pub(crate) fn build_ops(
    info: &ArchiveInfo,
    plans: &Vec<EntryPlan>,
    headers: &Vec<LocalHeader>,
) -> (ops: Vec<FileOp>)
    requires
        archive_of(*info, plans@, headers@).ok(),
    ensures
        op_models(ops@) == inplace_ops(archive_of(*info, plans@, headers@)),
{
    let ghost a = archive_of(*info, plans@, headers@);
    let ghost cd_offset = info.cd_offset as int;
    let mut ops: Vec<FileOp> = Vec::new();
    let mut offs: Vec<u64> = Vec::new();
    let mut pos: u64 = if plans.len() > 0 {
        plans[0].lhf_offset
    } else {
        0
    };
    let mut carry: u64 = 0;
    let mut k: usize = 0;
    proof {
        if plans@.len() > 0 {
            assert(a.plans[0] == plans@[0]@);
        }
        assert(op_models(ops@) =~= Seq::empty());
    }
    while k < plans.len()
        invariant
            k <= plans.len(),
            a == archive_of(*info, plans@, headers@),
            a.ok(),
            cd_offset == info.cd_offset,
            pos == place_after(a.plans, k as int).pos,
            carry == place_after(a.plans, k as int).carry,
            offs@.len() == k,
            forall|i: int| 0 <= i < k ==> #[trigger] offs@[i] == place_at(a.plans, i),
            op_models(ops@) == front_ops(a, k as int),
        decreases plans.len() - k,
    {
        let p = &plans[k];
        let h = &headers[k];
        proof {
            assert(a.plans[k as int] == p@);
            assert(a.headers[k as int] == h@);
            assert(entry_ok(a.plans[k as int]));
            lemma_place(a.plans, cd_offset, k as int);
            lemma_offsets_rise(a.plans, cd_offset, k as int, k as int);
        }
        let place = push_entry_ops(&mut ops, h, p, pos, carry);
        offs.push(place.0);
        pos = place.1;
        carry = place.2;
        k += 1;
    }
    proof {
        lemma_place(a.plans, cd_offset, plans@.len() as int);
        assert forall|i: int| 0 <= i < plans@.len() implies #[trigger] offs@[i]
            <= plans@[i].lhf_offset && offs@[i] == inplace_offsets(a.plans)[i] by {
            law_no_header_moves_back(a.plans, cd_offset, i);
            assert(a.plans[i] == plans@[i]@);
        }
        assert(offs@ =~= inplace_offsets(a.plans));
    }
    let tail = build_tail(info, plans, headers, &offs, pos);
    push_tail_ops(&mut ops, tail, pos);
    ops
}

/// Appends the changes that write the end of an archive.
fn push_tail_ops(ops: &mut Vec<FileOp>, tail: Vec<u8>, pos: u64)
    requires
        pos + tail@.len() <= u64::MAX,
    ensures
        op_models(final(ops)@) == op_models(old(ops)@) + tail_ops(tail@, pos as int),
{
    let len: u64 = pos + tail.len() as u64;
    ops.push(FileOp::Write { pos, bytes: tail });
    ops.push(FileOp::SetLen { len });
    assert(op_models(ops@) =~= op_models(old(ops)@) + tail_ops(tail@, pos as int));
}

/// The changes that rewrite only the central directory.
pub(crate) fn build_fast_ops(
    info: &ArchiveInfo,
    plans: &Vec<EntryPlan>,
    headers: &Vec<LocalHeader>,
) -> (ops: Vec<FileOp>)
    requires
        archive_of(*info, plans@, headers@).ok(),
    ensures
        op_models(ops@) == fast_ops(archive_of(*info, plans@, headers@)),
{
    let ghost a = archive_of(*info, plans@, headers@);
    let mut offs: Vec<u64> = Vec::new();
    let mut k: usize = 0;
    while k < plans.len()
        invariant
            k <= plans.len(),
            offs@.len() == k,
            forall|i: int| 0 <= i < k ==> #[trigger] offs@[i] == plans@[i].lhf_offset,
        decreases plans.len() - k,
    {
        offs.push(plans[k].lhf_offset);
        k += 1;
    }
    assert(offs@ =~= old_offsets(a.plans));
    let tail = build_tail(info, plans, headers, &offs, info.cd_offset);
    let mut ops: Vec<FileOp> = Vec::new();
    push_tail_ops(&mut ops, tail, info.cd_offset);
    assert(op_models(ops@) =~= fast_ops(a));
    ops
}

/// The first changes fit where all do.
proof fn lemma_fit_prefix(file: Seq<u8>, ops: Seq<OpModel>, n: int)
    requires
        all_fit(file, ops),
        0 <= n <= ops.len(),
    ensures
        all_fit(file, ops.take(n)),
    decreases ops.len(),
{
    if n < ops.len() {
        lemma_fit_prefix(file, ops.drop_last(), n);
        assert(ops.drop_last().take(n) =~= ops.take(n));
    } else {
        assert(ops.take(n) =~= ops);
    }
}

/// Writes bytes at a position of a file.
pub fn write_all_at(f: &mut Vec<u8>, buf: &[u8], pos: usize)
    requires
        pos <= old(f).len(),
    ensures
        final(f)@ == (OpModel::Write { pos: pos as int, bytes: buf@ }).apply(old(f)@),
{
    if buf.len() <= f.len() - pos {
        store(f, pos, buf, buf.len());
        assert(buf@.take(buf@.len() as int) =~= buf@);
    } else {
        f.truncate(pos);
        push_bytes(f, buf);
        assert(f@ =~= old(f)@.take(pos as int) + buf@);
    }
}

/// Makes the changes in a file that is held in memory.
pub fn apply_ops(f: &mut Vec<u8>, ops: &Vec<FileOp>)
    requires
        all_fit(old(f)@, op_models(ops@)),
    ensures
        final(f)@ == applied(old(f)@, op_models(ops@)),
{
    let ghost all = op_models(ops@);
    let ghost start = f@;
    let mut buf: Vec<u8> = Vec::new();
    buf.resize(COPY_BUF_SIZE, 0);
    let mut i: usize = 0;
    assert(all.take(0) =~= Seq::empty());
    while i < ops.len()
        invariant
            i <= ops.len(),
            all == op_models(ops@),
            start == old(f)@,
            all_fit(start, all),
            buf@.len() == COPY_BUF_SIZE,
            f@ == applied(start, all.take(i as int)),
        decreases ops.len() - i,
    {
        proof {
            lemma_fit_prefix(start, all, i + 1);
            assert(all.take(i + 1).drop_last() =~= all.take(i as int));
            assert(all.take(i + 1).last() == ops@[i as int]@);
        }
        let len: usize = f.len();
        match &ops[i] {
            FileOp::Write { pos, bytes } => {
                write_all_at(f, bytes.as_slice(), *pos as usize);
            },
            FileOp::Copy { src, dst, len } => {
                let ghost before = f@;
                let r = copy_within_file_with_buf(f, *src, *dst, *len, &mut buf);
                assert(r is Ok);
                assert(f@ =~= moved(before, *src as int, *dst as int, *len as int));
            },
            FileOp::SetLen { len } => {
                let ghost before = f@;
                f.truncate(*len as usize);
                assert(f@ =~= before.take(*len as int));
            },
        }
        i += 1;
    }
    assert(all.take(i as int) =~= all);
}

} // verus!
