//! What a second run does with a cleaned archive: nothing.

use super::bytes::{law_write_back_u16, law_write_back_u32, patched, u16_at, u32_bytes};
use super::cd_entry::{cd_entry_bytes_outcome, law_patched_offset_is_read, renamed_header};
use super::directory::{entries_outcome, kept, kept_among, law_kept_entries};
use super::error::ErrorModel;
use super::inplace::{inplace_file, lemma_fixed_part};
use super::job::{is_clean, job_outcome, law_job, leaves_alone};
use super::laws::{
    ends_are_plain, inplace_info, inplace_written, law_inplace_never_grows, lemma_first_at_start,
    lemma_inplace_read, lemma_new_body, lemma_new_carried, lemma_new_parts, lemma_new_places,
    lemma_new_read, new_body, new_entry, new_info, new_written,
};
use super::layout::{
    cd_entry_ok, entry_ok, entry_on, follows_options, header_of, law_built_plans, payload_of,
    ArchiveModel,
};
use super::names::{is_settled_name, law_settled_name, new_name_outcome};
use super::options::OptionsModel;
use super::plan::{
    cd_positions, lemma_cd_index_taken, plan_at_cd_index, plans_outcome, span_end, EntryPlanModel,
};
use super::process::{processed_file, processed_new};
use super::reread::{all_keep_names, keeps_name, last_end_record, lemma_written_bytes, Written};
use super::write_new::{
    body_len, lemma_body_len, lemma_new_offsets, new_archive, new_directory, new_offsets, new_tail,
};
use super::{flags_with_bit11, has_bit11, law_with_bit11};
use vstd::prelude::*;

verus! {

/// Whether each entry that stays keeps its new name when names are changed once more.
pub open spec fn names_settle(plans: Seq<EntryPlanModel>, opts: OptionsModel) -> bool {
    forall|k: int|
        0 <= k < plans.len() && !(#[trigger] plans[k]).excluded ==> is_settled_name(
            plans[k].new_fname,
            opts,
        )
}

/// Names that are settled are read as they were written.
proof fn lemma_settled_names_stay(
    content: Seq<u8>,
    file_len: u64,
    opts: OptionsModel,
    a: ArchiveModel,
)
    requires
        job_outcome(content, file_len, opts) == Ok::<ArchiveModel, ErrorModel>(a),
        names_settle(a.plans, opts),
    ensures
        all_keep_names(a.plans, opts),
{
    law_built_plans(content, a.info, opts);
    assert forall|k: int| 0 <= k < a.plans.len() && !(
    #[trigger] a.plans[k]).excluded implies keeps_name(a.plans[k], opts) by {
        let p = a.plans[k];
        let flags = u16_at(p.cd_header, 8);
        let next_flags = flags_with_bit11(flags, p.new_bit11_set);
        assert(follows_options(p, opts));
        law_with_bit11(flags, p.new_bit11_set);
        assert forall|entry_no: u64|
            #[trigger] new_name_outcome(
                p.new_fname,
                next_flags,
                entry_no,
                opts,
            ) == Ok::<(Seq<u8>, bool), ErrorModel>((p.new_fname, p.new_bit11_set)) by {
            law_settled_name(
                p.orig_fname,
                flags,
                p.entry_no() as u64,
                next_flags,
                entry_no,
                opts,
            );
        }
    }
}

/// Whether there is nothing to do with an entry, and its two headers say so.
pub open spec fn is_settled_entry(file: Seq<u8>, q: EntryPlanModel) -> bool {
    &&& leaves_alone(q)
    &&& has_bit11(u16_at(q.cd_header, 8)) == q.new_bit11_set
    &&& has_bit11(u16_at(header_of(file, q).header, 6)) == q.new_bit11_set
}

/// An entry with nothing to do is written to a new archive as it stands in the file.
pub proof fn lemma_settled_entry(file: Seq<u8>, b: ArchiveModel, k: int)
    requires
        b.ok(),
        b.on(file),
        0 <= k < b.plans.len(),
        is_settled_entry(file, b.plans[k]),
    ensures
        new_entry(file, b, k) == file.subrange(
            b.plans[k].lhf_offset,
            b.plans[k].lhf_offset + b.plans[k].span_size,
        ),
{
    let q = b.plans[k];
    let h = header_of(file, q);
    let flags = flags_with_bit11(u16_at(h.header, 6), q.new_bit11_set);
    let off = q.lhf_offset;
    assert(entry_ok(q));
    assert(entry_on(file, q));
    assert(b.headers[k] == h);
    law_with_bit11(u16_at(h.header, 6), q.new_bit11_set);
    lemma_fixed_part(file, q, flags);
    assert(new_entry(file, b, k) == h.header + q.new_fname + h.extra + payload_of(file, q));
    assert(file.subrange(off, off + q.span_size) =~= h.header + q.orig_fname + h.extra
        + payload_of(file, q));
}

/// Where nothing is to be done and there are no gaps, the entries of a new archive are those of the
/// file.
proof fn lemma_settled_body(file: Seq<u8>, b: ArchiveModel, n: int)
    requires
        b.ok(),
        b.on(file),
        forall|k: int| 0 <= k < b.plans.len() ==> is_settled_entry(file, #[trigger] b.plans[k]),
        span_end(b.plans, b.info.cd_offset as int, -1) == 0,
        0 <= n <= b.plans.len(),
    ensures
        ({
            let end = span_end(b.plans, b.info.cd_offset as int, n - 1);
            &&& body_len(b.plans, n) == end
            &&& 0 <= end <= file.len()
            &&& new_body(file, b, n) == file.take(end)
        }),
    decreases n,
{
    let cd_offset = b.info.cd_offset as int;
    lemma_new_body(file, b, n);
    lemma_body_len(b.plans, cd_offset, n);
    if n > 0 {
        let q = b.plans[n - 1];
        lemma_settled_body(file, b, n - 1);
        assert(is_settled_entry(file, q));
        assert(entry_ok(q));
        assert(entry_on(file, q));
        lemma_settled_entry(file, b, n - 1);
        assert(q.lhf_offset == span_end(b.plans, cd_offset, n - 2));
        assert(q.lhf_offset + q.span_size == span_end(b.plans, cd_offset, n - 1));
        assert(file.take(q.lhf_offset) + file.subrange(q.lhf_offset, q.lhf_offset + q.span_size)
            =~= file.take(q.lhf_offset + q.span_size));
    } else {
        assert(new_body(file, b, 0) =~= file.take(0));
    }
}

/// An entry of a central directory with nothing to do is written as it was read.
proof fn lemma_settled_cd_entry(q: EntryPlanModel)
    requires
        cd_entry_ok(q),
        leaves_alone(q),
        has_bit11(u16_at(q.cd_header, 8)) == q.new_bit11_set,
    ensures
        cd_entry_bytes_outcome(q, q.lhf_offset as u64) == Ok::<Seq<u8>, Seq<char>>(
            q.cd_header + q.orig_fname + q.cd_extra + q.cd_comment,
        ),
{
    let h = q.cd_header;
    let flags = u16_at(h, 8);
    law_with_bit11(flags, q.new_bit11_set);
    law_write_back_u16(h, 8);
    law_write_back_u16(h, 28);
    assert(renamed_header(q) == h);
    if q.lhf_offset_in_zip64_extra {
        law_patched_offset_is_read(q.cd_extra, q.lhf_offset as u64, q, q.entry_no());
    } else {
        law_write_back_u32(h, 42);
        assert(patched(h, 42, u32_bytes(q.lhf_offset as u32)) == h);
    }
}

/// Where nothing is dropped, every entry is kept.
pub proof fn lemma_nothing_dropped(plans: Seq<EntryPlanModel>, list: Seq<int>)
    requires
        forall|i: int| 0 <= i < list.len() ==> !plans[#[trigger] list[i]].excluded,
    ensures
        kept_among(plans, list) == list,
    decreases list.len(),
{
    if list.len() > 0 {
        let front = list.drop_last();
        assert forall|i: int| 0 <= i < front.len() implies !plans[#[trigger] front[i]].excluded by {
            assert(front[i] == list[i]);
        }
        lemma_nothing_dropped(plans, front);
        assert(list[list.len() - 1] == list.last());
        assert(front.push(list.last()) =~= list);
    }
}

/// Two lists of entries with the same bytes make the same central directory.
proof fn lemma_same_entries(
    plans: Seq<EntryPlanModel>,
    offs: Seq<u64>,
    list: Seq<int>,
    others: Seq<EntryPlanModel>,
    other_offs: Seq<u64>,
    other_list: Seq<int>,
)
    requires
        list.len() == other_list.len(),
        forall|i: int|
            0 <= i < list.len() ==> cd_entry_bytes_outcome(
                plans[#[trigger] list[i]],
                offs[list[i]],
            ) == cd_entry_bytes_outcome(others[other_list[i]], other_offs[other_list[i]]),
    ensures
        entries_outcome(plans, offs, list) == entries_outcome(others, other_offs, other_list),
    decreases list.len(),
{
    if list.len() > 0 {
        let front = list.drop_last();
        let other_front = other_list.drop_last();
        assert forall|i: int| 0 <= i < front.len() implies cd_entry_bytes_outcome(
            plans[#[trigger] front[i]],
            offs[front[i]],
        ) == cd_entry_bytes_outcome(others[other_front[i]], other_offs[other_front[i]]) by {
            assert(front[i] == list[i]);
        }
        lemma_same_entries(plans, offs, front, others, other_offs, other_front);
        assert(list[list.len() - 1] == list.last());
    }
}

/// The entries that are read from a file that was written are clean.
proof fn lemma_reads_clean(w: Written, qs: Seq<EntryPlanModel>)
    requires
        w.reads_as(qs),
    ensures
        is_clean(qs),
{
    assert forall|j: int| 0 <= j < qs.len() implies leaves_alone(#[trigger] qs[j]) by {}
}

/// The entries of a new archive that is read again are those that were written, with nothing to
/// do.
proof fn lemma_new_settled(content: Seq<u8>, a: ArchiveModel, b: ArchiveModel)
    requires
        a.ok(),
        a.on(content),
        b.ok(),
        b.on(new_archive(content, a)),
        b.info == new_info(a),
        new_written(content, a).reads_as(b.plans),
        0 <= body_len(a.plans, a.plans.len() as int) <= u64::MAX,
    ensures
        forall|j: int|
            0 <= j < b.plans.len() ==> is_settled_entry(
                new_archive(content, a),
                #[trigger] b.plans[j],
            ),
        span_end(b.plans, b.info.cd_offset as int, -1) == 0,
{
    let out = new_archive(content, a);
    lemma_reads_clean(new_written(content, a), b.plans);
    lemma_new_places(content, a, b.plans);
    lemma_first_at_start(a, b.plans);
    assert forall|j: int| 0 <= j < b.plans.len() implies is_settled_entry(
        out,
        #[trigger] b.plans[j],
    ) by {
        lemma_new_carried(content, a, b.plans, j);
        let p = a.plans[kept(a.plans)[b.plans[j].cd_index]];
        law_with_bit11(u16_at(p.cd_header, 8), p.new_bit11_set);
        law_with_bit11(u16_at(header_of(content, p).header, 6), p.new_bit11_set);
        assert(leaves_alone(b.plans[j]));
    }
}

/// The central directory of a new archive that is read again is the one that was written.
proof fn lemma_new_directory_stays(content: Seq<u8>, a: ArchiveModel, b: ArchiveModel)
    requires
        a.ok(),
        a.on(content),
        b.ok(),
        b.on(new_archive(content, a)),
        new_written(content, a).reads_as(b.plans),
        forall|j: int|
            0 <= j < b.plans.len() ==> is_settled_entry(
                new_archive(content, a),
                #[trigger] b.plans[j],
            ),
        forall|j: int|
            0 <= j < b.plans.len() ==> #[trigger] new_offsets(b.plans)[j]
                == b.plans[j].lhf_offset,
    ensures
        new_directory(b.plans) == new_directory(a.plans),
        kept(b.plans).len() == kept(a.plans).len(),
{
    let w = new_written(content, a);
    let qs = b.plans;
    let list = kept(a.plans);
    let all = cd_positions(qs);
    law_kept_entries(a.plans);
    lemma_new_offsets(a.plans, a.info.cd_offset as int);
    lemma_new_offsets(qs, b.info.cd_offset as int);
    assert forall|c: int| 0 <= c < all.len() implies !qs[#[trigger] all[c]].excluded by {
        lemma_cd_index_taken(qs, c);
        assert(is_settled_entry(new_archive(content, a), qs[all[c]]));
    }
    lemma_nothing_dropped(qs, all);
    assert(all.len() == list.len());
    assert forall|c: int| 0 <= c < list.len() implies cd_entry_bytes_outcome(
        a.plans[#[trigger] list[c]],
        new_offsets(a.plans)[list[c]],
    ) == cd_entry_bytes_outcome(qs[all[c]], new_offsets(qs)[all[c]]) by {
        lemma_cd_index_taken(qs, c);
        let k = list[c];
        let j = plan_at_cd_index(qs, c);
        let p = a.plans[k];
        let q = qs[j];
        let off = new_offsets(a.plans)[k];
        assert(all[c] == j);
        assert(w.plan(q.cd_index) == k);
        assert(entry_ok(p));
        assert(entry_ok(q));
        assert(is_settled_entry(new_archive(content, a), q));
        assert(new_offsets(qs)[j] == q.lhf_offset);
        lemma_written_bytes(p, off);
        lemma_settled_cd_entry(q);
    }
    lemma_same_entries(a.plans, new_offsets(a.plans), list, qs, new_offsets(qs), all);
}

/// Cleaning a new archive anew writes the same bytes, where every new name is settled: it is not
/// one of those that are dropped, and its text is composed.
pub proof fn law_new_archive_stays(
    content: Seq<u8>,
    file_len: u64,
    opts: OptionsModel,
    a: ArchiveModel,
)
    requires
        !opts.dry_run,
        job_outcome(content, file_len, opts) == Ok::<ArchiveModel, ErrorModel>(a),
        names_settle(a.plans, opts),
        ends_are_plain(new_archive(content, a), new_info(a)),
    ensures
        ({
            let out = processed_new(content, file_len, opts);
            &&& job_outcome(out, out.len() as u64, opts) is Ok
            &&& processed_new(out, out.len() as u64, opts) == out
        }),
{
    let n = a.plans.len() as int;
    let out = new_archive(content, a);
    let cd_start = body_len(a.plans, n);
    law_job(content, file_len, opts);
    lemma_settled_names_stay(content, file_len, opts, a);
    lemma_new_offsets(a.plans, a.info.cd_offset as int);
    lemma_new_read(content, a, opts);
    law_job(out, out.len() as u64, opts);
    let b = job_outcome(out, out.len() as u64, opts)->Ok_0;
    let m = b.plans.len() as int;
    lemma_new_settled(content, a, b);
    lemma_settled_body(out, b, m);
    lemma_new_offsets(b.plans, b.info.cd_offset as int);
    assert forall|j: int| 0 <= j < m implies #[trigger] new_offsets(b.plans)[j]
        == b.plans[j].lhf_offset by {
        lemma_settled_body(out, b, j);
    }
    lemma_new_directory_stays(content, a, b);
    assert(new_tail(b) == new_tail(a));
    lemma_new_parts(content, a);
    lemma_new_parts(out, b);
    assert(new_archive(out, b) =~= out);
}

/// Cleaning a file in place a second time changes nothing, where every new name is settled: it is
/// not one of those that are dropped, and its text is composed.
pub proof fn law_cleaned_file_stays(content: Seq<u8>, opts: OptionsModel)
    requires
        content.len() <= u64::MAX,
        !opts.fast,
        job_outcome(content, content.len() as u64, opts) matches Ok(a) ==> opts.dry_run
            || is_clean(a.plans) || {
            &&& names_settle(a.plans, opts)
            &&& last_end_record(
                inplace_file(content, a),
                inplace_file(content, a).len() - 22 - a.info.archive_comment.len(),
            )
        },
    ensures
        ({
            let out = processed_file(content, opts);
            &&& processed_file(out, opts) == out
            &&& job_outcome(content, content.len() as u64, opts) is Ok ==> job_outcome(
                out,
                out.len() as u64,
                opts,
            ) is Ok
        }),
{
    let file_len = content.len() as u64;
    if let Ok(a) = job_outcome(content, file_len, opts) {
        if !opts.dry_run && !is_clean(a.plans) {
            let out = inplace_file(content, a);
            law_job(content, file_len, opts);
            law_inplace_never_grows(content, file_len, opts);
            lemma_settled_names_stay(content, file_len, opts, a);
            lemma_inplace_read(content, a, opts);
            let qs = plans_outcome(out, inplace_info(a), opts)->Ok_0;
            lemma_reads_clean(inplace_written(content, a), qs);
        }
    }
}

} // verus!
