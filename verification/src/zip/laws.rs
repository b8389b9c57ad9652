//! What holds of a cleaned archive as a whole.

use super::bytes::{lemma_read_part, lemma_read_u16, u16_at, u16_bytes, u32_at};
use super::directory::{
    directory_outcome, end_records, entries_outcome, kept, law_kept_entries, lemma_directory,
};
use super::eocd::{archive_outcome, lemma_end_sizes, ArchiveInfoModel};
use super::error::ErrorModel;
use super::inplace::{
    absorbed, entry_ops, fast_file, inplace_entry, inplace_file, inplace_front, inplace_header,
    inplace_offsets, inplace_tail, law_no_header_moves_back, lemma_entry_len, lemma_front_ops,
    lemma_place, old_offsets, padding_field, pads, place_after, place_at, OpModel, Place,
};
use super::job::{job_outcome, law_job, leaves_alone};
use super::layout::{
    cd_entry_ok, entry_ok, entry_on, follows_options, header_of, law_archive_info, law_built_plans,
    layout_ok, lemma_offsets_rise, payload_of, ArchiveModel,
};
use super::local_header::{patched_local_header, LocalHeaderModel};
use super::names::{is_ascii_name, law_new_name};
use super::options::OptionsModel;
use super::plan::{
    cd_bytes_of, cd_entries_outcome, cd_indexed, lemma_cd_index_taken, plan_at_cd_index,
    plans_outcome, span_end, EntryPlanModel,
};
use super::process::{printed, processed_file, processed_new};
use super::reread::{
    all_keep_names, ends_with, last_end_record, law_end_records_read, lemma_raw_keeps_names,
    lemma_reread_entries, lemma_reread_plans, lemma_written_header, local_on, raw_options,
    reread_entries, reread_entry, reread_local, sayable, written_extra, Written,
};
use super::write_new::{
    body_len, emitted, entry_segments, lemma_body_len, lemma_new_offsets, new_archive,
    new_directory, new_needs_zip64, new_offsets, new_segments, new_tail, renamed_local_header,
    SegmentModel,
};
use super::{flags_with_bit11, has_bit11, law_with_bit11, LOCAL_FILE_HEADER_SIG};
use vstd::prelude::*;

verus! {

/// The fields of a local header whose flags and lengths were rewritten.
proof fn lemma_patched_fields(header: Seq<u8>, flags: u16, name_len: u16, extra_len: u16)
    requires
        header.len() == 30,
    ensures
        ({
            let h = patched_local_header(header, flags, name_len, extra_len);
            &&& h.len() == 30
            &&& u32_at(h, 0) == u32_at(header, 0)
            &&& u16_at(h, 6) == flags
            &&& u16_at(h, 26) == name_len
            &&& u16_at(h, 28) == extra_len
            &&& forall|i: int|
                0 <= i < 30 && !(6 <= i < 8) && !(26 <= i < 30) ==> #[trigger] h[i] == header[i]
        }),
{
    let h = patched_local_header(header, flags, name_len, extra_len);
    assert(h.subrange(6, 8) =~= u16_bytes(flags));
    assert(h.subrange(26, 28) =~= u16_bytes(name_len));
    assert(h.subrange(28, 30) =~= u16_bytes(extra_len));
    lemma_read_u16(h, 6, flags);
    lemma_read_u16(h, 26, name_len);
    lemma_read_u16(h, 28, extra_len);
}

/// Whether the local header `new` says what `old` says but for its flags, the length of the name
/// and the length of the extra area: the method, the times, the checksum and the sizes are the
/// same.
pub open spec fn same_local_fields(old_header: Seq<u8>, new_header: Seq<u8>) -> bool {
    &&& new_header.len() == 30
    &&& forall|i: int|
        0 <= i < 30 && !(6 <= i < 8) && !(26 <= i < 30) ==> #[trigger] new_header[i]
            == old_header[i]
}

/// Whether the entry `new` of a central directory says what `old` says but for its flags, the
/// length of the name and the offset: the method, the times, the checksum, the sizes and the
/// attributes are the same.
pub open spec fn same_cd_fields(old_header: Seq<u8>, new_header: Seq<u8>) -> bool {
    &&& new_header.len() == 46
    &&& forall|i: int|
        0 <= i < 46 && !(8 <= i < 10) && !(28 <= i < 30) && !(42 <= i < 46)
            ==> #[trigger] new_header[i] == old_header[i]
}

/// A local header and a name at `off` of a file.
proof fn lemma_local_on(
    file: Seq<u8>,
    off: int,
    p: EntryPlanModel,
    fixed: Seq<u8>,
    extra: Seq<u8>,
    entry: Seq<u8>,
)
    requires
        0 <= off,
        off + entry.len() <= file.len(),
        file.subrange(off, off + entry.len()) == entry,
        fixed.len() == 30,
        30 + p.new_fname.len() + extra.len() <= entry.len(),
        entry.take(30 + p.new_fname.len() + extra.len() as int) == fixed + p.new_fname + extra,
        u32_at(fixed, 0) == LOCAL_FILE_HEADER_SIG,
        u16_at(fixed, 26) == p.new_fname.len(),
        u16_at(fixed, 28) == extra.len(),
    ensures
        local_on(file, p, off, extra.len() as int),
        file.subrange(off, off + 30) == fixed,
        file.subrange(
            off + 30 + p.new_fname.len(),
            off + 30 + p.new_fname.len() + extra.len(),
        ) == extra,
{
    let n = p.new_fname.len();
    let whole = entry.take(30 + n + extra.len() as int);
    assert(file.subrange(off, off + 30) =~= fixed) by {
        assert(whole.subrange(0, 30) =~= fixed);
        assert(file.subrange(off, off + 30) =~= entry.subrange(0, 30));
        assert(entry.subrange(0, 30) =~= whole.subrange(0, 30));
    }
    assert(file.subrange(off + 30, off + 30 + n) =~= p.new_fname) by {
        assert(whole.subrange(30, 30 + n as int) =~= p.new_fname);
        assert(file.subrange(off + 30, off + 30 + n) =~= entry.subrange(30, 30 + n as int));
        assert(entry.subrange(30, 30 + n as int) =~= whole.subrange(30, 30 + n as int));
    }
    let e = 30 + n as int;
    assert(file.subrange(off + e, off + e + extra.len()) =~= extra) by {
        assert(whole.subrange(e, e + extra.len()) =~= extra);
        assert(file.subrange(off + e, off + e + extra.len()) =~= entry.subrange(
            e,
            e + extra.len(),
        ));
        assert(entry.subrange(e, e + extra.len()) =~= whole.subrange(e, e + extra.len()));
    }
    lemma_read_part(file, off, off + 30, 0);
    lemma_read_part(file, off, off + 30, 26);
    lemma_read_part(file, off, off + 30, 28);
}

/// Whether the entry of plan `p` stands at `off` of a file, with its new name and flag, with `ext`
/// bytes of extra fields, the last of which are the old ones, and with its data behind them.
pub open spec fn rewritten_at(
    content: Seq<u8>,
    p: EntryPlanModel,
    file: Seq<u8>,
    off: int,
    ext: int,
    size: int,
) -> bool {
    let e = off + 30 + p.new_fname.len();
    &&& local_on(file, p, off, ext)
    &&& size == 30 + p.new_fname.len() + ext + p.payload_size()
    &&& same_local_fields(header_of(content, p).header, file.subrange(off, off + 30))
    &&& u16_at(file, off + 6) == flags_with_bit11(
        u16_at(content, p.lhf_offset + 6),
        p.new_bit11_set,
    )
    &&& header_of(content, p).extra.is_suffix_of(file.subrange(e, e + ext))
    &&& file.subrange(e + ext, off + size) == payload_of(content, p)
}

/// An entry that was written with other extra fields before its own.
proof fn lemma_rewritten(
    content: Seq<u8>,
    p: EntryPlanModel,
    extra: Seq<u8>,
    file: Seq<u8>,
    off: int,
    size: int,
)
    requires
        entry_ok(p),
        entry_on(content, p),
        extra.len() <= 0xFFFF,
        header_of(content, p).extra.is_suffix_of(extra),
        0 <= off,
        off + size <= file.len(),
        size == 30 + p.new_fname.len() + extra.len() + p.payload_size(),
        file.subrange(off, off + size) == patched_local_header(
            header_of(content, p).header,
            flags_with_bit11(u16_at(header_of(content, p).header, 6), p.new_bit11_set),
            p.new_fname.len() as u16,
            extra.len() as u16,
        ) + p.new_fname + extra + payload_of(content, p),
    ensures
        rewritten_at(content, p, file, off, extra.len() as int, size),
        file.subrange(
            off + 30 + p.new_fname.len(),
            off + 30 + p.new_fname.len() + extra.len(),
        ) == extra,
{
    let h = header_of(content, p);
    let flags = flags_with_bit11(u16_at(h.header, 6), p.new_bit11_set);
    let fixed = patched_local_header(
        h.header,
        flags,
        p.new_fname.len() as u16,
        extra.len() as u16,
    );
    let entry = fixed + p.new_fname + extra + payload_of(content, p);
    assert(h.header.len() == 30);
    lemma_patched_fields(h.header, flags, p.new_fname.len() as u16, extra.len() as u16);
    lemma_read_part(content, p.lhf_offset, p.lhf_offset + 30, 0);
    lemma_read_part(content, p.lhf_offset, p.lhf_offset + 30, 6);
    assert(entry.take(30 + p.new_fname.len() + extra.len() as int) =~= fixed + p.new_fname
        + extra);
    lemma_local_on(file, off, p, fixed, extra, entry);
    lemma_read_part(file, off, off + 30, 6);
    let d = 30 + p.new_fname.len() + extra.len() as int;
    assert(entry.subrange(d, entry.len() as int) =~= payload_of(content, p));
    assert(file.subrange(off + d, off + size) =~= entry.subrange(d, entry.len() as int));
}

/// Whether the entry `q` of one file is the entry `p` of another with its new name and flag: the
/// other fields of both headers, the comment, the extra fields and the data are the same. Before
/// the extra fields of the local header there may be others, and behind the data other bytes.
pub open spec fn carried_over(
    content: Seq<u8>,
    p: EntryPlanModel,
    file: Seq<u8>,
    q: EntryPlanModel,
) -> bool {
    &&& q.orig_fname == p.new_fname
    &&& q.new_bit11_set == p.new_bit11_set
    &&& u16_at(q.cd_header, 8) == flags_with_bit11(u16_at(p.cd_header, 8), p.new_bit11_set)
    &&& u16_at(header_of(file, q).header, 6) == flags_with_bit11(
        u16_at(header_of(content, p).header, 6),
        p.new_bit11_set,
    )
    &&& same_cd_fields(p.cd_header, q.cd_header)
    &&& q.cd_comment == p.cd_comment
    &&& q.cd_extra == written_extra(p, q.lhf_offset as u64)
    &&& same_local_fields(header_of(content, p).header, header_of(file, q).header)
    &&& header_of(content, p).extra.is_suffix_of(header_of(file, q).extra)
    &&& payload_of(content, p).is_prefix_of(payload_of(file, q))
}

/// An entry that was written is read as the entry that it was, with its new name and flag.
proof fn lemma_carried(
    content: Seq<u8>,
    p: EntryPlanModel,
    file: Seq<u8>,
    off: u64,
    ext: int,
    size: int,
    q: EntryPlanModel,
)
    requires
        entry_ok(p),
        entry_on(content, p),
        off <= p.lhf_offset,
        rewritten_at(content, p, file, off as int, ext, size),
        q == (EntryPlanModel { span_size: q.span_size, ..reread_local(p, off, ext, q.cd_index) }),
        size <= q.span_size,
        off + q.span_size <= file.len(),
    ensures
        carried_over(content, p, file, q),
{
    lemma_written_header(p, off);
    lemma_read_part(content, p.lhf_offset, p.lhf_offset + 30, 6);
    lemma_read_part(file, off as int, off + 30, 6);
    let e = off + 30 + p.new_fname.len() + ext;
    let data = payload_of(file, q);
    assert(data.subrange(0, payload_of(content, p).len() as int) =~= file.subrange(e, off + size));
}

/// The entries that stay among the first `n`, as they stand in a new archive.
pub open spec fn new_body(content: Seq<u8>, a: ArchiveModel, n: int) -> Seq<u8> {
    emitted(content, entry_segments(a.plans, a.headers, n))
}

/// An entry as it stands in a new archive.
pub open spec fn new_entry(content: Seq<u8>, a: ArchiveModel, k: int) -> Seq<u8> {
    renamed_local_header(a.headers[k], a.plans[k]) + payload_of(content, a.plans[k])
}

/// The size of an entry in a new archive.
pub open spec fn new_size(p: EntryPlanModel) -> int {
    p.span_size - p.fname_delta()
}

pub proof fn lemma_new_body(content: Seq<u8>, a: ArchiveModel, n: int)
    requires
        a.ok(),
        a.on(content),
        0 <= n <= a.plans.len(),
    ensures
        new_body(content, a, n).len() == body_len(a.plans, n),
        n > 0 && !a.plans[n - 1].excluded ==> {
            &&& new_body(content, a, n) == new_body(content, a, n - 1) + new_entry(
                content,
                a,
                n - 1,
            )
            &&& new_entry(content, a, n - 1).len() == new_size(a.plans[n - 1])
        },
        n > 0 && a.plans[n - 1].excluded ==> new_body(content, a, n) == new_body(
            content,
            a,
            n - 1,
        ),
    decreases n,
{
    if n > 0 {
        lemma_new_body(content, a, n - 1);
        let p = a.plans[n - 1];
        let h = a.headers[n - 1];
        assert(entry_ok(p));
        assert(entry_on(content, p));
        if !p.excluded {
            let front = entry_segments(a.plans, a.headers, n - 1);
            let one = front.push(SegmentModel::Bytes(renamed_local_header(h, p)));
            let two = entry_segments(a.plans, a.headers, n);
            assert(two.drop_last() =~= one);
            assert(one.drop_last() =~= front);
            assert(emitted(content, one) == emitted(content, front) + renamed_local_header(h, p));
            assert(new_body(content, a, n) =~= new_body(content, a, n - 1) + new_entry(
                content,
                a,
                n - 1,
            ));
        }
    }
}

/// Where an entry stands in a new archive.
proof fn lemma_new_entry(content: Seq<u8>, a: ArchiveModel, k: int, n: int)
    requires
        a.ok(),
        a.on(content),
        0 <= k < n <= a.plans.len(),
        !a.plans[k].excluded,
    ensures
        body_len(a.plans, k) + new_size(a.plans[k]) == body_len(a.plans, k + 1),
        body_len(a.plans, k + 1) <= body_len(a.plans, n),
        new_entry(content, a, k).len() == new_size(a.plans[k]),
        new_body(content, a, n).subrange(body_len(a.plans, k), body_len(a.plans, k + 1))
            == new_entry(content, a, k),
    decreases n,
{
    lemma_new_body(content, a, n);
    lemma_new_body(content, a, n - 1);
    lemma_body_len(a.plans, a.info.cd_offset as int, k);
    let from = body_len(a.plans, k);
    let to = body_len(a.plans, k + 1);
    assert(entry_ok(a.plans[n - 1]));
    if k < n - 1 {
        lemma_new_entry(content, a, k, n - 1);
        assert(new_body(content, a, n).subrange(from, to) =~= new_body(
            content,
            a,
            n - 1,
        ).subrange(from, to));
    } else {
        assert(new_body(content, a, n).subrange(from, to) =~= new_entry(content, a, k));
    }
}

/// What comes before gets no shorter.
pub proof fn lemma_body_rises(plans: Seq<EntryPlanModel>, cd_offset: int, n: int, m: int)
    requires
        layout_ok(plans, cd_offset),
        0 <= n <= m <= plans.len(),
    ensures
        body_len(plans, n) <= body_len(plans, m),
    decreases m,
{
    if n < m {
        lemma_body_rises(plans, cd_offset, n, m - 1);
        assert(entry_ok(plans[m - 1]));
    }
}

/// The archive that a new file holds.
pub open spec fn new_info(a: ArchiveModel) -> ArchiveInfoModel {
    let cd_size = new_directory(a.plans).len() as int;
    let cd_start = body_len(a.plans, a.plans.len() as int);
    let entries = kept(a.plans).len() as int;
    ArchiveInfoModel {
        cd_offset: cd_start as u64,
        cd_size: cd_size as u64,
        total_entries: entries as u64,
        is_zip64: new_needs_zip64(entries, cd_size, cd_start),
        archive_comment: a.info.archive_comment,
    }
}

/// Whether the end records of an archive in a file are found and say with every number what it is:
/// nothing behind the end record looks like another one, and a plain end record has none of the
/// numbers that refer elsewhere.
pub open spec fn ends_are_plain(file: Seq<u8>, info: ArchiveInfoModel) -> bool {
    &&& file.len() <= u64::MAX
    &&& sayable(
        info.is_zip64,
        info.total_entries as int,
        info.cd_size as int,
        info.cd_offset as int,
    )
    &&& last_end_record(file, file.len() - 22 - info.archive_comment.len())
}

/// A new archive as a file with the entries that stay.
pub open spec fn new_written(content: Seq<u8>, a: ArchiveModel) -> Written {
    Written {
        file: new_archive(content, a),
        plans: a.plans,
        offs: new_offsets(a.plans),
        exts: a.plans.map_values(|p: EntryPlanModel| p.lhf_extra_len),
        sizes: a.plans.map_values(|p: EntryPlanModel| new_size(p)),
        cd_start: body_len(a.plans, a.plans.len() as int),
    }
}

/// A new archive is its entries and, behind them, its central directory and end records.
pub proof fn lemma_new_parts(content: Seq<u8>, a: ArchiveModel)
    requires
        a.ok(),
        a.on(content),
    ensures
        ({
            let n = a.plans.len() as int;
            let out = new_archive(content, a);
            &&& out == new_body(content, a, n) + new_tail(a)
            &&& out.take(body_len(a.plans, n)) == new_body(content, a, n)
            &&& out.subrange(body_len(a.plans, n), out.len() as int) == new_tail(a)
            &&& 0 <= body_len(a.plans, n) <= out.len()
        }),
{
    let n = a.plans.len() as int;
    let out = new_archive(content, a);
    let front = entry_segments(a.plans, a.headers, n);
    assert(new_segments(a).drop_last() =~= front);
    lemma_new_body(content, a, n);
    assert(out == new_body(content, a, n) + new_tail(a));
    assert(out.take(body_len(a.plans, n)) =~= new_body(content, a, n));
    assert(out.subrange(body_len(a.plans, n), out.len() as int) =~= new_tail(a));
}

/// An entry that stays, as it stands in a new archive.
pub proof fn lemma_new_local(content: Seq<u8>, a: ArchiveModel, k: int)
    requires
        a.ok(),
        a.on(content),
        0 <= k < a.plans.len(),
        !a.plans[k].excluded,
    ensures
        ({
            let p = a.plans[k];
            let out = new_archive(content, a);
            let off = body_len(a.plans, k);
            let e = off + 30 + p.new_fname.len();
            &&& rewritten_at(content, p, out, off, p.lhf_extra_len, new_size(p))
            &&& out.subrange(e, e + p.lhf_extra_len) == header_of(content, p).extra
            &&& off + new_size(p) <= body_len(a.plans, a.plans.len() as int) <= out.len()
        }),
{
    let n = a.plans.len() as int;
    let p = a.plans[k];
    let h = a.headers[k];
    let out = new_archive(content, a);
    let off = body_len(a.plans, k);
    let entry = new_entry(content, a, k);
    assert(entry_ok(p));
    assert(entry_on(content, p));
    assert(h == header_of(content, p));
    lemma_new_parts(content, a);
    lemma_new_entry(content, a, k, n);
    lemma_body_len(a.plans, a.info.cd_offset as int, k);
    assert(out.subrange(off, off + entry.len()) =~= entry) by {
        let body = new_body(content, a, n);
        assert(out.subrange(off, off + entry.len()) =~= body.subrange(off, off + entry.len()));
    }
    assert(h.extra.subrange(0, h.extra.len() as int) =~= h.extra);
    lemma_rewritten(content, p, h.extra, out, off, new_size(p));
}

/// A new archive is laid out as its central directory says.
proof fn lemma_new_laid_out(content: Seq<u8>, a: ArchiveModel)
    requires
        a.ok(),
        a.on(content),
    ensures
        new_written(content, a).laid_out(),
{
    let w = new_written(content, a);
    let cd_offset = a.info.cd_offset as int;
    law_kept_entries(a.plans);
    lemma_new_offsets(a.plans, cd_offset);
    let list = kept(a.plans);
    assert forall|c: int| 0 <= c < list.len() implies {
        let k = #[trigger] w.plan(c);
        &&& local_on(w.file, w.plans[k], w.offs[k] as int, w.exts[k])
        &&& 30 + w.plans[k].new_fname.len() + w.exts[k] <= w.sizes[k]
        &&& w.offs[k] + w.sizes[k] <= w.cd_start
        &&& cd_entry_ok(w.plans[k])
        &&& w.offs[k] <= w.plans[k].lhf_offset
    } by {
        let k = w.plan(c);
        assert(k == list[c]);
        assert(entry_ok(a.plans[k]));
        lemma_new_local(content, a, k);
        assert(new_offsets(a.plans)[k] == body_len(a.plans, k));
    }
    assert forall|i: int| 0 <= i < list.len() implies cd_entry_ok(w.plans[#[trigger] list[i]])
        && w.offs[list[i]] <= w.plans[list[i]].lhf_offset by {
        assert(w.plan(i) == list[i]);
    }
    assert forall|c: int, d: int|
        0 <= c < list.len() && 0 <= d < list.len() && c != d && w.offs[#[trigger] w.plan(c)]
            <= w.offs[#[trigger] w.plan(d)] implies w.offs[w.plan(c)] + w.sizes[w.plan(c)]
        <= w.offs[w.plan(d)] by {
        let k = w.plan(c);
        let l = w.plan(d);
        assert(k == list[c] && l == list[d]);
        assert(k != l);
        assert(new_offsets(a.plans)[k] == body_len(a.plans, k));
        assert(new_offsets(a.plans)[l] == body_len(a.plans, l));
        lemma_new_entry(content, a, k, a.plans.len() as int);
        lemma_new_entry(content, a, l, a.plans.len() as int);
        assert(entry_ok(a.plans[l]));
        assert(entry_ok(a.plans[k]));
        if l < k {
            lemma_body_rises(a.plans, cd_offset, l + 1, k);
        } else {
            lemma_body_rises(a.plans, cd_offset, k + 1, l);
        }
    }
}

/// The first entry behind the one with plan `k` that stays.
spec fn next_kept(plans: Seq<EntryPlanModel>, k: int) -> int
    decreases plans.len() - k,
{
    if k + 1 >= plans.len() {
        plans.len() as int
    } else if !plans[k + 1].excluded {
        k + 1
    } else {
        next_kept(plans, k + 1)
    }
}

proof fn lemma_next_kept(plans: Seq<EntryPlanModel>, k: int)
    requires
        -1 <= k < plans.len(),
    ensures
        k < next_kept(plans, k) <= plans.len(),
        next_kept(plans, k) < plans.len() ==> !plans[next_kept(plans, k)].excluded,
        body_len(plans, next_kept(plans, k)) == body_len(plans, k + 1),
    decreases plans.len() - k,
{
    if k + 1 < plans.len() && plans[k + 1].excluded {
        lemma_next_kept(plans, k + 1);
    }
}

/// In a new archive an entry ends where the next one starts.
proof fn lemma_new_span(content: Seq<u8>, a: ArchiveModel, qs: Seq<EntryPlanModel>, j: int)
    requires
        a.ok(),
        a.on(content),
        layout_ok(qs, body_len(a.plans, a.plans.len() as int)),
        qs.len() == kept(a.plans).len(),
        forall|i: int|
            0 <= i < qs.len() ==> {
                let k = kept(a.plans)[(#[trigger] qs[i]).cd_index];
                &&& qs[i].lhf_offset == body_len(a.plans, k)
                &&& qs[i].span_size >= new_size(a.plans[k])
            },
        0 <= j < qs.len(),
    ensures
        qs[j].span_size == new_size(a.plans[kept(a.plans)[qs[j].cd_index]]),
{
    let n = a.plans.len() as int;
    let cd_start = body_len(a.plans, n);
    let k = kept(a.plans)[qs[j].cd_index];
    law_kept_entries(a.plans);
    lemma_new_entry(content, a, k, n);
    lemma_next_kept(a.plans, k);
    let l = next_kept(a.plans, k);
    let end = body_len(a.plans, k + 1);
    assert(entry_ok(a.plans[k]));
    assert(qs[j].lhf_offset + qs[j].span_size == span_end(qs, cd_start, j));
    if l < n {
        assert(kept(a.plans).contains(l));
        let d = choose|d: int| 0 <= d < kept(a.plans).len() && kept(a.plans)[d] == l;
        lemma_cd_index_taken(qs, d);
        let i = plan_at_cd_index(qs, d);
        assert(qs[i].lhf_offset == end);
        if i <= j {
            lemma_offsets_rise(qs, cd_start, i, j);
        } else {
            lemma_offsets_rise(qs, cd_start, j + 1, i);
        }
    } else {
        lemma_offsets_rise(qs, cd_start, j, j);
    }
}

/// What a new archive starts with is its first entry or, without any, its central directory.
pub proof fn lemma_first_at_start(a: ArchiveModel, qs: Seq<EntryPlanModel>)
    requires
        a.ok(),
        layout_ok(qs, body_len(a.plans, a.plans.len() as int)),
        qs.len() == kept(a.plans).len(),
        forall|i: int|
            0 <= i < qs.len() ==> (#[trigger] qs[i]).lhf_offset == body_len(
                a.plans,
                kept(a.plans)[qs[i].cd_index],
            ),
    ensures
        (if qs.len() > 0 {
            qs[0].lhf_offset
        } else {
            body_len(a.plans, a.plans.len() as int)
        }) == 0,
{
    let n = a.plans.len() as int;
    let cd_start = body_len(a.plans, n);
    law_kept_entries(a.plans);
    lemma_body_len(a.plans, a.info.cd_offset as int, n);
    if n > 0 {
        lemma_next_kept(a.plans, -1);
        let l = next_kept(a.plans, -1);
        if l < n {
            assert(kept(a.plans).contains(l));
            let d = choose|d: int| 0 <= d < kept(a.plans).len() && kept(a.plans)[d] == l;
            lemma_cd_index_taken(qs, d);
            let i = plan_at_cd_index(qs, d);
            assert(qs[i].lhf_offset == 0);
            lemma_offsets_rise(qs, cd_start, 0, i);
        }
    }
    if qs.len() > 0 {
        assert(entry_ok(qs[0]));
        lemma_offsets_rise(qs, cd_start, 0, 0);
    }
}

/// Reading a new archive gives its end records and, of its entries, those that were written.
pub proof fn lemma_new_read(content: Seq<u8>, a: ArchiveModel, opts: OptionsModel)
    requires
        all_keep_names(a.plans, opts),
        a.ok(),
        a.on(content),
        a.plans.len() <= usize::MAX,
        ends_are_plain(new_archive(content, a), new_info(a)),
    ensures
        ({
            let out = new_archive(content, a);
            &&& archive_outcome(out, out.len() as u64) == Ok::<ArchiveInfoModel, ErrorModel>(
                new_info(a),
            )
            &&& plans_outcome(out, new_info(a), opts) matches Ok(qs) && new_written(
                content,
                a,
            ).reads_as(qs)
        }),
{
    let out = new_archive(content, a);
    let info = new_info(a);
    let cd = new_directory(a.plans);
    let cd_start = body_len(a.plans, a.plans.len() as int);
    lemma_new_offsets(a.plans, a.info.cd_offset as int);
    lemma_new_parts(content, a);
    lemma_new_laid_out(content, a);
    assert(ends_with(
        out,
        cd,
        cd_start,
        info.is_zip64,
        kept(a.plans).len() as int,
        a.info.archive_comment,
    ));
    law_end_records_read(
        out,
        cd,
        cd_start,
        info.is_zip64,
        kept(a.plans).len() as int,
        a.info.archive_comment,
    );
    assert(cd_bytes_of(out, info) =~= cd) by {
        let tail = out.subrange(cd_start, out.len() as int);
        assert(tail == new_tail(a));
        assert(tail.take(cd.len() as int) =~= cd);
    }
    assert(entries_outcome(a.plans, new_offsets(a.plans), kept(a.plans)) == Ok::<
        Seq<u8>,
        Seq<char>,
    >(cd));
    law_kept_entries(a.plans);
    lemma_reread_plans(new_written(content, a), info, opts);
}

/// Where the entries that are read from a new archive stand.
pub proof fn lemma_new_places(content: Seq<u8>, a: ArchiveModel, qs: Seq<EntryPlanModel>)
    requires
        a.ok(),
        new_written(content, a).reads_as(qs),
    ensures
        forall|i: int|
            0 <= i < qs.len() ==> {
                let k = kept(a.plans)[(#[trigger] qs[i]).cd_index];
                &&& qs[i].lhf_offset == body_len(a.plans, k)
                &&& qs[i].span_size >= new_size(a.plans[k])
            },
{
    let w = new_written(content, a);
    law_kept_entries(a.plans);
    lemma_new_offsets(a.plans, a.info.cd_offset as int);
    assert forall|i: int| 0 <= i < qs.len() implies {
        let k = kept(a.plans)[(#[trigger] qs[i]).cd_index];
        &&& qs[i].lhf_offset == body_len(a.plans, k)
        &&& qs[i].span_size >= new_size(a.plans[k])
    } by {
        let k = w.plan(qs[i].cd_index);
        assert(k == kept(a.plans)[qs[i].cd_index]);
        assert(new_offsets(a.plans)[k] == body_len(a.plans, k));
    }
}

/// An entry that is read from a new archive is one of those that were to stay.
pub proof fn lemma_new_carried(content: Seq<u8>, a: ArchiveModel, qs: Seq<EntryPlanModel>, j: int)
    requires
        a.ok(),
        a.on(content),
        layout_ok(qs, body_len(a.plans, a.plans.len() as int)),
        new_written(content, a).reads_as(qs),
        0 <= j < qs.len(),
    ensures
        ({
            let out = new_archive(content, a);
            let p = a.plans[kept(a.plans)[qs[j].cd_index]];
            &&& !p.excluded
            &&& carried_over(content, p, out, qs[j])
            &&& header_of(out, qs[j]).extra == header_of(content, p).extra
            &&& payload_of(out, qs[j]) == payload_of(content, p)
        }),
{
    let out = new_archive(content, a);
    let w = new_written(content, a);
    law_kept_entries(a.plans);
    lemma_new_offsets(a.plans, a.info.cd_offset as int);
    lemma_new_places(content, a, qs);
    let q = qs[j];
    let k = w.plan(q.cd_index);
    assert(k == kept(a.plans)[q.cd_index]);
    let p = a.plans[k];
    lemma_new_span(content, a, qs, j);
    lemma_new_local(content, a, k);
    assert(entry_ok(p));
    assert(entry_on(content, p));
    assert(new_offsets(a.plans)[k] == body_len(a.plans, k));
    lemma_carried(content, p, out, w.offs[k], w.exts[k], new_size(p), q);
}

/// Reading a new archive gives back the entries that were to stay, each once, in their order, with
/// its new name and flag and with nothing else changed, and the archive comment.
pub proof fn law_new_archive_reads_back(
    content: Seq<u8>,
    file_len: u64,
    opts: OptionsModel,
    a: ArchiveModel,
)
    requires
        job_outcome(content, file_len, opts) == Ok::<ArchiveModel, ErrorModel>(a),
        ends_are_plain(new_archive(content, a), new_info(a)),
    ensures
        ({
            let out = new_archive(content, a);
            job_outcome(out, out.len() as u64, raw_options()) matches Ok(b) && {
                &&& b.info == new_info(a)
                &&& b.plans.len() == kept(a.plans).len()
                &&& cd_indexed(b.plans)
                &&& forall|j: int|
                    0 <= j < b.plans.len() ==> {
                        let q = #[trigger] b.plans[j];
                        let p = a.plans[kept(a.plans)[q.cd_index]];
                        &&& !p.excluded
                        &&& carried_over(content, p, out, q)
                        &&& header_of(out, q).extra == header_of(content, p).extra
                        &&& payload_of(out, q) == payload_of(content, p)
                    }
            }
        }),
{
    let out = new_archive(content, a);
    law_job(content, file_len, opts);
    lemma_new_offsets(a.plans, a.info.cd_offset as int);
    lemma_raw_keeps_names(a.plans);
    lemma_new_read(content, a, raw_options());
    law_job(out, out.len() as u64, raw_options());
    let qs = plans_outcome(out, new_info(a), raw_options())->Ok_0;
    assert forall|j: int| 0 <= j < qs.len() implies {
        let q = #[trigger] qs[j];
        let p = a.plans[kept(a.plans)[q.cd_index]];
        &&& !p.excluded
        &&& carried_over(content, p, out, q)
        &&& header_of(out, q).extra == header_of(content, p).extra
        &&& payload_of(out, q) == payload_of(content, p)
    } by {
        lemma_new_carried(content, a, qs, j);
    }
}

/// A new archive has no gaps: its first entry stands at its start, each takes no more than its
/// local header and its data, and behind the last one stands the central directory.
pub proof fn law_new_archive_is_compact(
    content: Seq<u8>,
    file_len: u64,
    opts: OptionsModel,
    a: ArchiveModel,
)
    requires
        job_outcome(content, file_len, opts) == Ok::<ArchiveModel, ErrorModel>(a),
        ends_are_plain(new_archive(content, a), new_info(a)),
    ensures
        ({
            let out = new_archive(content, a);
            job_outcome(out, out.len() as u64, raw_options()) matches Ok(b) && {
                &&& (if b.plans.len() > 0 {
                    b.plans[0].lhf_offset
                } else {
                    b.info.cd_offset as int
                }) == 0
                &&& forall|j: int|
                    0 <= j < b.plans.len() ==> {
                        let q = #[trigger] b.plans[j];
                        let p = a.plans[kept(a.plans)[q.cd_index]];
                        &&& q.span_size == 30 + p.new_fname.len() + p.lhf_extra_len
                            + p.payload_size()
                        &&& q.lhf_offset + q.span_size == span_end(
                            b.plans,
                            b.info.cd_offset as int,
                            j,
                        )
                    }
            }
        }),
{
    let n = a.plans.len() as int;
    let out = new_archive(content, a);
    let cd_start = body_len(a.plans, n);
    law_job(content, file_len, opts);
    law_kept_entries(a.plans);
    lemma_new_offsets(a.plans, a.info.cd_offset as int);
    lemma_raw_keeps_names(a.plans);
    lemma_new_read(content, a, raw_options());
    law_job(out, out.len() as u64, raw_options());
    let qs = plans_outcome(out, new_info(a), raw_options())->Ok_0;
    lemma_new_places(content, a, qs);
    lemma_first_at_start(a, qs);
    assert forall|j: int| 0 <= j < qs.len() implies {
        let q = #[trigger] qs[j];
        let p = a.plans[kept(a.plans)[q.cd_index]];
        &&& q.span_size == 30 + p.new_fname.len() + p.lhf_extra_len + p.payload_size()
        &&& q.lhf_offset + q.span_size == span_end(qs, cd_start, j)
    } by {
        lemma_new_span(content, a, qs, j);
        assert(entry_ok(a.plans[kept(a.plans)[qs[j].cd_index]]));
    }
}

/// The archive that a file holds after it was changed in place, with its central directory at
/// `cd_start` and these offsets in it.
pub open spec fn changed_info(a: ArchiveModel, offs: Seq<u64>, cd_start: int) -> ArchiveInfoModel {
    let cd_size = directory_outcome(a.plans, offs)->Ok_0.len() as int;
    let entries = kept(a.plans).len() as int;
    ArchiveInfoModel {
        cd_offset: cd_start as u64,
        cd_size: cd_size as u64,
        total_entries: entries as u64,
        is_zip64: a.info.is_zip64,
        archive_comment: a.info.archive_comment,
    }
}

/// The archive that a file holds after it was cleaned in place.
pub open spec fn inplace_info(a: ArchiveModel) -> ArchiveInfoModel {
    changed_info(
        a,
        inplace_offsets(a.plans),
        place_after(a.plans, a.plans.len() as int).pos,
    )
}

/// The end of a file that was changed in place: the archive has ZIP64 end records where it had
/// them before.
proof fn lemma_changed_tail(a: ArchiveModel, offs: Seq<u64>, cd_start: int)
    requires
        a.ok(),
        0 <= cd_start <= a.info.cd_offset,
        forall|k: int|
            0 <= k < a.plans.len() && !(#[trigger] a.plans[k]).excluded ==> offs[k]
                <= a.plans[k].lhf_offset,
    ensures
        ({
            let info = changed_info(a, offs, cd_start);
            let cd = directory_outcome(a.plans, offs)->Ok_0;
            &&& directory_outcome(a.plans, offs) == Ok::<Seq<u8>, Seq<char>>(cd)
            &&& cd.len() <= a.info.cd_size
            &&& inplace_tail(a, offs, cd_start) == cd + end_records(
                info.is_zip64,
                kept(a.plans).len() as int,
                cd.len() as int,
                cd_start,
                a.info.archive_comment,
            )
            &&& inplace_tail(a, offs, cd_start).len() == cd.len() + (if info.is_zip64 {
                98int
            } else {
                22
            }) + a.info.archive_comment.len()
            &&& sayable(
                info.is_zip64,
                kept(a.plans).len() as int,
                cd.len() as int,
                cd_start,
            )
        }),
{
    lemma_directory(a.plans, a.info.cd_offset as int, offs);
    let cd = directory_outcome(a.plans, offs)->Ok_0;
    lemma_end_sizes(
        kept(a.plans).len() as u64,
        cd.len() as u64,
        cd_start as u64,
        (cd_start + cd.len()) as u64,
        a.info.archive_comment,
    );
}

/// A file never gets longer when its archive is cleaned in place.
pub proof fn law_inplace_never_grows(content: Seq<u8>, file_len: u64, opts: OptionsModel)
    ensures
        job_outcome(content, file_len, opts) matches Ok(a) ==> inplace_file(content, a).len()
            <= file_len && fast_file(content, a).len() <= file_len,
{
    if let Ok(a) = job_outcome(content, file_len, opts) {
        law_job(content, file_len, opts);
        law_archive_info(content, file_len);
        let n = a.plans.len() as int;
        let cd_start = place_after(a.plans, n).pos;
        let offs = inplace_offsets(a.plans);
        lemma_place(a.plans, a.info.cd_offset as int, n);
        assert forall|k: int| 0 <= k < a.plans.len() && !(
        #[trigger] a.plans[k]).excluded implies offs[k] <= a.plans[k].lhf_offset by {
            law_no_header_moves_back(a.plans, a.info.cd_offset as int, k);
        }
        lemma_changed_tail(a, offs, cd_start);
        lemma_front_ops(content, a, n);
        assert forall|k: int| 0 <= k < a.plans.len() && !(
        #[trigger] a.plans[k]).excluded implies old_offsets(a.plans)[k]
            <= a.plans[k].lhf_offset by {
            assert(entry_ok(a.plans[k]));
        }
        lemma_changed_tail(a, old_offsets(a.plans), a.info.cd_offset as int);
    }
}

/// The file that was changed in place, one entry further.
pub proof fn lemma_front_step(content: Seq<u8>, a: ArchiveModel, n: int)
    requires
        a.ok(),
        a.on(content),
        0 < n <= a.plans.len(),
    ensures
        ({
            let at = place_after(a.plans, n - 1);
            let from = place_at(a.plans, n - 1);
            let to = place_after(a.plans, n).pos;
            let before = inplace_front(content, a, n - 1);
            let entry = inplace_entry(content, a.headers[n - 1], a.plans[n - 1], at.carry);
            &&& 0 <= at.pos <= from <= to
            &&& n < a.plans.len() ==> to <= place_at(a.plans, n)
            &&& before.len() == at.pos
            &&& entry.len() == to - from
            &&& content.subrange(at.pos, from).len() == from - at.pos
            &&& inplace_front(content, a, n) == before + content.subrange(at.pos, from) + entry
        }),
{
    let cd_offset = a.info.cd_offset as int;
    lemma_front_ops(content, a, n - 1);
    lemma_place(a.plans, cd_offset, n - 1);
    lemma_place(a.plans, cd_offset, n);
    let p = a.plans[n - 1];
    assert(entry_ok(p));
    assert(entry_on(content, p));
    assert(a.headers[n - 1] == header_of(content, p));
    lemma_entry_len(content, p, place_after(a.plans, n - 1));
}

/// Parts of a byte string that was put together of three.
proof fn lemma_three_parts(a: Seq<u8>, b: Seq<u8>, c: Seq<u8>, from: int, to: int)
    requires
        0 <= from <= to,
    ensures
        to <= a.len() ==> (a + b + c).subrange(from, to) == a.subrange(from, to),
        (a + b + c).subrange((a + b).len() as int, (a + b + c).len() as int) == c,
{
    if to <= a.len() {
        assert((a + b + c).subrange(from, to) =~= a.subrange(from, to));
    }
    assert((a + b + c).subrange((a + b).len() as int, (a + b + c).len() as int) =~= c);
}

/// Where an entry stands in a file that was changed in place.
pub proof fn lemma_inplace_entry(content: Seq<u8>, a: ArchiveModel, k: int, n: int)
    requires
        a.ok(),
        a.on(content),
        0 <= k < n <= a.plans.len(),
    ensures
        ({
            let carry = place_after(a.plans, k).carry;
            let from = place_at(a.plans, k);
            let to = place_after(a.plans, k + 1).pos;
            &&& 0 <= from <= to <= place_after(a.plans, n).pos
            &&& n < a.plans.len() ==> to <= place_at(a.plans, n)
            &&& inplace_front(content, a, n).subrange(from, to) == inplace_entry(
                content,
                a.headers[k],
                a.plans[k],
                carry,
            )
        }),
    decreases n,
{
    let from = place_at(a.plans, k);
    let to = place_after(a.plans, k + 1).pos;
    let at = place_after(a.plans, n - 1);
    lemma_front_step(content, a, n);
    if k < n - 1 {
        lemma_inplace_entry(content, a, k, n - 1);
    }
    lemma_three_parts(
        inplace_front(content, a, n - 1),
        content.subrange(at.pos, place_at(a.plans, n - 1)),
        inplace_entry(content, a.headers[n - 1], a.plans[n - 1], at.carry),
        from,
        to,
    );
}

/// The length of the extra area of an entry that was changed in place.
pub open spec fn inplace_ext(plans: Seq<EntryPlanModel>, k: int) -> int {
    let carry = place_after(plans, k).carry;
    plans[k].lhf_extra_len + if pads(plans[k], carry) {
        absorbed(plans[k], carry)
    } else {
        0
    }
}

/// The size of an entry that was changed in place.
pub open spec fn inplace_size(plans: Seq<EntryPlanModel>, k: int) -> int {
    place_after(plans, k + 1).pos - place_at(plans, k)
}

/// A file that was changed in place, with the entries that stay.
pub open spec fn inplace_written(content: Seq<u8>, a: ArchiveModel) -> Written {
    Written {
        file: inplace_file(content, a),
        plans: a.plans,
        offs: inplace_offsets(a.plans),
        exts: Seq::new(a.plans.len(), |k: int| inplace_ext(a.plans, k)),
        sizes: Seq::new(a.plans.len(), |k: int| inplace_size(a.plans, k)),
        cd_start: place_after(a.plans, a.plans.len() as int).pos,
    }
}

/// The extra fields of an entry that was changed in place.
pub open spec fn inplace_extra(h: LocalHeaderModel, p: EntryPlanModel, carry: int) -> Seq<u8> {
    if pads(p, carry) {
        padding_field(absorbed(p, carry)) + h.extra
    } else {
        h.extra
    }
}

/// The parts of a local header that was changed in place.
pub proof fn lemma_inplace_header(h: LocalHeaderModel, p: EntryPlanModel, carry: int)
    requires
        entry_ok(p),
        h.header.len() == 30,
        h.extra.len() == p.lhf_extra_len,
        0 <= carry,
    ensures
        ({
            let flags = flags_with_bit11(u16_at(h.header, 6), p.new_bit11_set);
            let extra = inplace_extra(h, p, carry);
            let fixed = patched_local_header(
                h.header,
                flags,
                p.new_fname.len() as u16,
                extra.len() as u16,
            );
            &&& inplace_header(h, p, carry) == fixed + p.new_fname + extra
            &&& extra.len() == p.lhf_extra_len + (if pads(p, carry) {
                absorbed(p, carry)
            } else {
                0
            })
            &&& extra.len() <= 0xFFFF
            &&& h.extra.is_suffix_of(extra)
        }),
{
    let extra = inplace_extra(h, p, carry);
    let flags = flags_with_bit11(u16_at(h.header, 6), p.new_bit11_set);
    let fixed = patched_local_header(
        h.header,
        flags,
        p.new_fname.len() as u16,
        extra.len() as u16,
    );
    assert(extra.subrange(extra.len() - h.extra.len(), extra.len() as int) =~= h.extra);
    assert(inplace_header(h, p, carry) =~= fixed + p.new_fname + extra);
}

/// The bytes of an entry that stays, in a file that was changed in place.
pub proof fn lemma_inplace_bytes(content: Seq<u8>, a: ArchiveModel, k: int)
    requires
        a.ok(),
        a.on(content),
        0 <= k < a.plans.len(),
        !a.plans[k].excluded,
    ensures
        ({
            let p = a.plans[k];
            let out = inplace_file(content, a);
            let off = place_at(a.plans, k);
            let carry = place_after(a.plans, k).carry;
            let size = inplace_size(a.plans, k);
            let entry = inplace_header(header_of(content, p), p, carry) + payload_of(content, p);
            &&& 0 <= carry
            &&& 0 <= off
            &&& off + size <= place_after(a.plans, a.plans.len() as int).pos <= out.len()
            &&& entry.len() == size
            &&& out.subrange(off, off + size) == entry
        }),
{
    let n = a.plans.len() as int;
    let p = a.plans[k];
    let off = place_at(a.plans, k);
    let size = inplace_size(a.plans, k);
    assert(entry_ok(p));
    assert(entry_on(content, p));
    assert(a.headers[k] == header_of(content, p));
    lemma_place(a.plans, a.info.cd_offset as int, k);
    lemma_front_ops(content, a, n);
    lemma_inplace_entry(content, a, k, n);
    lemma_entry_len(content, p, place_after(a.plans, k));
    let front = inplace_front(content, a, n);
    assert(inplace_file(content, a).subrange(off, off + size) =~= front.subrange(off, off + size));
}

/// An entry that stays, as it stands in a file that was changed in place.
proof fn lemma_inplace_local(content: Seq<u8>, a: ArchiveModel, k: int)
    requires
        a.ok(),
        a.on(content),
        0 <= k < a.plans.len(),
        !a.plans[k].excluded,
    ensures
        ({
            let p = a.plans[k];
            let out = inplace_file(content, a);
            let off = place_at(a.plans, k);
            let ext = inplace_ext(a.plans, k);
            let size = inplace_size(a.plans, k);
            &&& off + size <= place_after(a.plans, a.plans.len() as int).pos <= out.len()
            &&& rewritten_at(content, p, out, off, ext, size)
        }),
{
    let p = a.plans[k];
    let h = header_of(content, p);
    let carry = place_after(a.plans, k).carry;
    assert(entry_ok(p));
    assert(entry_on(content, p));
    lemma_inplace_bytes(content, a, k);
    assert(h.header.len() == 30 && h.extra.len() == p.lhf_extra_len);
    lemma_inplace_header(h, p, carry);
    lemma_rewritten(
        content,
        p,
        inplace_extra(h, p, carry),
        inplace_file(content, a),
        place_at(a.plans, k),
        inplace_size(a.plans, k),
    );
}

/// A file that was changed in place is laid out as its central directory says.
proof fn lemma_inplace_laid_out(content: Seq<u8>, a: ArchiveModel)
    requires
        a.ok(),
        a.on(content),
    ensures
        inplace_written(content, a).laid_out(),
{
    let w = inplace_written(content, a);
    let n = a.plans.len() as int;
    let cd_offset = a.info.cd_offset as int;
    law_kept_entries(a.plans);
    let list = kept(a.plans);
    assert forall|c: int| 0 <= c < list.len() implies {
        let k = #[trigger] w.plan(c);
        &&& local_on(w.file, w.plans[k], w.offs[k] as int, w.exts[k])
        &&& 30 + w.plans[k].new_fname.len() + w.exts[k] <= w.sizes[k]
        &&& w.offs[k] + w.sizes[k] <= w.cd_start
        &&& cd_entry_ok(w.plans[k])
        &&& w.offs[k] <= w.plans[k].lhf_offset
    } by {
        let k = w.plan(c);
        assert(k == list[c]);
        assert(entry_ok(a.plans[k]));
        lemma_inplace_local(content, a, k);
        law_no_header_moves_back(a.plans, cd_offset, k);
    }
    assert forall|i: int| 0 <= i < list.len() implies cd_entry_ok(w.plans[#[trigger] list[i]])
        && w.offs[list[i]] <= w.plans[list[i]].lhf_offset by {
        assert(w.plan(i) == list[i]);
    }
    assert forall|c: int, d: int|
        0 <= c < list.len() && 0 <= d < list.len() && c != d && w.offs[#[trigger] w.plan(c)]
            <= w.offs[#[trigger] w.plan(d)] implies w.offs[w.plan(c)] + w.sizes[w.plan(c)]
        <= w.offs[w.plan(d)] by {
        let k = w.plan(c);
        let l = w.plan(d);
        assert(k == list[c] && l == list[d]);
        assert(k != l);
        law_no_header_moves_back(a.plans, cd_offset, k);
        law_no_header_moves_back(a.plans, cd_offset, l);
        lemma_inplace_local(content, a, l);
        if l < k {
            lemma_inplace_entry(content, a, l, k);
        } else {
            lemma_inplace_entry(content, a, k, l);
        }
    }
}

/// Reading a file that was cleaned in place gives its end records and, of its entries, those that
/// were written.
pub proof fn lemma_inplace_read(content: Seq<u8>, a: ArchiveModel, opts: OptionsModel)
    requires
        all_keep_names(a.plans, opts),
        a.ok(),
        a.on(content),
        a.plans.len() <= usize::MAX,
        inplace_file(content, a).len() <= u64::MAX,
        last_end_record(
            inplace_file(content, a),
            inplace_file(content, a).len() - 22 - a.info.archive_comment.len(),
        ),
    ensures
        ({
            let out = inplace_file(content, a);
            &&& archive_outcome(out, out.len() as u64) == Ok::<ArchiveInfoModel, ErrorModel>(
                inplace_info(a),
            )
            &&& plans_outcome(out, inplace_info(a), opts) matches Ok(qs)
                && inplace_written(content, a).reads_as(qs)
        }),
{
    let n = a.plans.len() as int;
    let cd_offset = a.info.cd_offset as int;
    let out = inplace_file(content, a);
    let info = inplace_info(a);
    let offs = inplace_offsets(a.plans);
    let cd = directory_outcome(a.plans, offs)->Ok_0;
    let cd_start = place_after(a.plans, n).pos;
    lemma_place(a.plans, cd_offset, n);
    assert forall|k: int| 0 <= k < n && !(#[trigger] a.plans[k]).excluded implies offs[k]
        <= a.plans[k].lhf_offset by {
        law_no_header_moves_back(a.plans, cd_offset, k);
    }
    lemma_changed_tail(a, offs, cd_start);
    lemma_directory(a.plans, cd_offset, offs);
    lemma_front_ops(content, a, n);
    lemma_inplace_laid_out(content, a);
    let tail = inplace_tail(a, offs, cd_start);
    assert(out.subrange(cd_start, out.len() as int) =~= tail);
    law_end_records_read(
        out,
        cd,
        cd_start,
        info.is_zip64,
        kept(a.plans).len() as int,
        a.info.archive_comment,
    );
    assert(cd_bytes_of(out, info) =~= cd) by {
        assert(tail.take(cd.len() as int) =~= cd);
    }
    assert(entries_outcome(a.plans, offs, kept(a.plans)) == Ok::<Seq<u8>, Seq<char>>(cd));
    law_kept_entries(a.plans);
    lemma_reread_plans(inplace_written(content, a), info, opts);
}

/// An entry that is read from a file that was cleaned in place is one of those that were to stay.
proof fn lemma_inplace_carried(content: Seq<u8>, a: ArchiveModel, qs: Seq<EntryPlanModel>, j: int)
    requires
        a.ok(),
        a.on(content),
        inplace_written(content, a).reads_as(qs),
        0 <= j < qs.len(),
        entry_on(inplace_file(content, a), qs[j]),
    ensures
        ({
            let p = a.plans[kept(a.plans)[qs[j].cd_index]];
            &&& !p.excluded
            &&& carried_over(content, p, inplace_file(content, a), qs[j])
        }),
{
    let out = inplace_file(content, a);
    let w = inplace_written(content, a);
    let q = qs[j];
    law_kept_entries(a.plans);
    let k = w.plan(q.cd_index);
    assert(k == kept(a.plans)[q.cd_index]);
    let p = a.plans[k];
    assert(entry_ok(p));
    assert(entry_on(content, p));
    lemma_inplace_local(content, a, k);
    law_no_header_moves_back(a.plans, a.info.cd_offset as int, k);
    lemma_carried(content, p, out, w.offs[k], w.exts[k], w.sizes[k], q);
}

/// Reading a file that was cleaned in place gives back the entries that were to stay, each once,
/// in their order, with its new name and flag and with nothing else changed but for padding, and
/// the archive comment.
pub proof fn law_inplace_file_reads_back(
    content: Seq<u8>,
    opts: OptionsModel,
    a: ArchiveModel,
)
    requires
        content.len() <= u64::MAX,
        job_outcome(content, content.len() as u64, opts) == Ok::<ArchiveModel, ErrorModel>(a),
        last_end_record(
            inplace_file(content, a),
            inplace_file(content, a).len() - 22 - a.info.archive_comment.len(),
        ),
    ensures
        ({
            let out = inplace_file(content, a);
            job_outcome(out, out.len() as u64, raw_options()) matches Ok(b) && {
                &&& b.info == inplace_info(a)
                &&& b.plans.len() == kept(a.plans).len()
                &&& cd_indexed(b.plans)
                &&& forall|j: int|
                    0 <= j < b.plans.len() ==> {
                        let q = #[trigger] b.plans[j];
                        let p = a.plans[kept(a.plans)[q.cd_index]];
                        &&& !p.excluded
                        &&& carried_over(content, p, out, q)
                    }
            }
        }),
{
    let file_len = content.len() as u64;
    let out = inplace_file(content, a);
    law_job(content, file_len, opts);
    law_inplace_never_grows(content, file_len, opts);
    lemma_raw_keeps_names(a.plans);
    lemma_inplace_read(content, a, raw_options());
    law_job(out, out.len() as u64, raw_options());
    let qs = plans_outcome(out, inplace_info(a), raw_options())->Ok_0;
    assert forall|j: int| 0 <= j < qs.len() implies {
        let q = #[trigger] qs[j];
        let p = a.plans[kept(a.plans)[q.cd_index]];
        &&& !p.excluded
        &&& carried_over(content, p, out, q)
    } by {
        assert(entry_on(out, qs[j]));
        lemma_inplace_carried(content, a, qs, j);
    }
}

/// The fast mode leaves every byte before the central directory as it is. The central directory
/// that is then read holds the entries that were to stay, each once, in their order, with its new
/// name and flag and with nothing else changed, and the archive comment is the same.
pub proof fn law_fast_file_reads_back(
    content: Seq<u8>,
    opts: OptionsModel,
    a: ArchiveModel,
)
    requires
        content.len() <= u64::MAX,
        job_outcome(content, content.len() as u64, opts) == Ok::<ArchiveModel, ErrorModel>(a),
        last_end_record(
            fast_file(content, a),
            fast_file(content, a).len() - 22 - a.info.archive_comment.len(),
        ),
    ensures
        ({
            let out = fast_file(content, a);
            let offs = old_offsets(a.plans);
            let info = changed_info(a, offs, a.info.cd_offset as int);
            &&& out.take(a.info.cd_offset as int) == content.take(a.info.cd_offset as int)
            &&& archive_outcome(out, out.len() as u64) == Ok::<ArchiveInfoModel, ErrorModel>(info)
            &&& cd_entries_outcome(
                cd_bytes_of(out, info),
                0,
                0,
                info.total_entries as int,
                info.cd_size as int,
                raw_options(),
            ) == Ok::<Seq<EntryPlanModel>, ErrorModel>(
                reread_entries(a.plans, offs, kept(a.plans), 0),
            )
        }),
{
    let file_len = content.len() as u64;
    let cd_start = a.info.cd_offset as int;
    let out = fast_file(content, a);
    let offs = old_offsets(a.plans);
    let info = changed_info(a, offs, cd_start);
    let cd = directory_outcome(a.plans, offs)->Ok_0;
    let list = kept(a.plans);
    law_job(content, file_len, opts);
    law_inplace_never_grows(content, file_len, opts);
    law_kept_entries(a.plans);
    assert forall|k: int|
        0 <= k < a.plans.len() && !(#[trigger] a.plans[k]).excluded implies offs[k]
        <= a.plans[k].lhf_offset by {
        assert(entry_ok(a.plans[k]));
    }
    lemma_changed_tail(a, offs, cd_start);
    lemma_directory(a.plans, cd_start, offs);
    let tail = inplace_tail(a, offs, cd_start);
    assert(out.take(cd_start) =~= content.take(cd_start));
    assert(out.subrange(cd_start, out.len() as int) =~= tail);
    law_end_records_read(
        out,
        cd,
        cd_start,
        info.is_zip64,
        list.len() as int,
        a.info.archive_comment,
    );
    assert(cd_bytes_of(out, info) =~= cd) by {
        assert(tail.take(cd.len() as int) =~= cd);
    }
    assert forall|i: int| 0 <= i < list.len() implies cd_entry_ok(a.plans[#[trigger] list[i]])
        && offs[list[i]] <= a.plans[list[i]].lhf_offset by {
        assert(entry_ok(a.plans[list[i]]));
    }
    lemma_raw_keeps_names(a.plans);
    lemma_reread_entries(a.plans, offs, list, 0, raw_options());
    assert(list.take(0) =~= Seq::empty());
}

/// An entry of a central directory that was written and read again says what it said, with its new
/// name and flag.
pub proof fn law_reread_entry(p: EntryPlanModel, off: u64, c: int)
    requires
        cd_entry_ok(p),
        off <= p.lhf_offset,
    ensures
        ({
            let q = reread_entry(p, off, c);
            &&& q.orig_fname == p.new_fname
            &&& q.lhf_offset == off
            &&& u16_at(q.cd_header, 8) == flags_with_bit11(u16_at(p.cd_header, 8), p.new_bit11_set)
            &&& same_cd_fields(p.cd_header, q.cd_header)
            &&& q.cd_comment == p.cd_comment
            &&& q.cd_extra == written_extra(p, off)
        }),
{
    lemma_written_header(p, off);
}

/// A dry run changes no file and writes none, and only a dry run prints anything.
pub proof fn law_dry_run(content: Seq<u8>, file_len: u64, opts: OptionsModel)
    ensures
        opts.dry_run ==> processed_file(content, opts) == content,
        opts.dry_run ==> processed_new(content, file_len, opts) == Seq::<u8>::empty(),
        !opts.dry_run ==> printed(content, file_len, opts) == Seq::<char>::empty(),
{
}

/// A file whose names are all ASCII, without junk and without backslashes that are to be replaced,
/// is left untouched.
pub proof fn law_ascii_file_is_untouched(content: Seq<u8>, opts: OptionsModel)
    requires
        job_outcome(content, content.len() as u64, opts) matches Ok(a) && forall|k: int|
            0 <= k < a.plans.len() ==> {
                let name = (#[trigger] a.plans[k]).orig_fname;
                &&& is_ascii_name(name)
                &&& !opts.excludes(name)
                &&& opts.not_utf8 || opts.keep_backslashes || !name.contains(0x5C)
            },
    ensures
        processed_file(content, opts) == content,
{
    let file_len = content.len() as u64;
    let a = job_outcome(content, file_len, opts)->Ok_0;
    law_built_plans(content, a.info, opts);
    assert forall|k: int| 0 <= k < a.plans.len() implies leaves_alone(#[trigger] a.plans[k]) by {
        let p = a.plans[k];
        assert(follows_options(p, opts));
        law_new_name(p.orig_fname, u16_at(p.cd_header, 8), p.entry_no() as u64, opts);
    }
}

/// An entry that is left alone, with nothing to take up and the same flag in both its headers, is
/// not written at all.
pub proof fn law_untouched_entry_is_not_written(
    h: LocalHeaderModel,
    p: EntryPlanModel,
    at: Place,
)
    requires
        leaves_alone(p),
        at.carry == 0,
        has_bit11(u16_at(h.header, 6)) == p.new_bit11_set,
    ensures
        entry_ops(h, p, at) == Seq::<OpModel>::empty(),
{
    law_with_bit11(u16_at(h.header, 6), p.new_bit11_set);
    assert(entry_ops(h, p, at) =~= Seq::<OpModel>::empty());
}

} // verus!
