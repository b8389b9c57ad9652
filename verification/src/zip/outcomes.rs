//! What comes of a run: every entry of the result is one that was to stay, under the name and with
//! the flag that were asked for, whichever way the archive was cleaned.

use super::bytes::{u16_at, u32_at};
use super::cd_entry::law_patched_offset_is_read;
use super::directory::{kept, kept_among, law_kept_entries};
use super::eocd::{archive_outcome, ArchiveInfoModel};
use super::error::ErrorModel;
use super::inplace::{
    all_fit, applied, law_fast_ops, law_inplace_ops, old_offsets, op_models, FileOp,
};
use super::job::{is_clean, job_outcome, law_job, leaves_alone, Job};
use super::laws::{
    carried_over, ends_are_plain, law_fast_file_reads_back, law_inplace_file_reads_back,
    law_new_archive_reads_back, law_reread_entry, new_info, same_cd_fields, same_local_fields,
};
use super::layout::{
    cd_entry_ok, entry_ok, follows_options, header_of, law_archive_info, law_built_plans, lemma_cd_entries,
    lemma_local_plans, lemma_spans, payload_of, ArchiveModel,
};
use super::names::{law_new_name, lossy_text, new_name_outcome};
use super::options::{Options, OptionsModel};
use super::order::{lemma_stable_order, stable_order};
use super::plan::{
    cd_bytes_of, cd_entries_outcome, cd_entry_outcome, cd_indexed, cd_positions, from_offset,
    in_file_order, lemma_cd_index_taken, local_plan_outcome, local_plans_outcome, offsets,
    plan_at_cd_index, plans_outcome, span_end, spans_outcome, with_span, EntryPlanModel,
};
use super::process::{printed, processed_file, processed_new};
use super::report::{
    count, law_report_shows_dropped, law_report_shows_flagged, law_report_shows_renamed,
    law_summary_counts_entries,
};
use super::reread::{last_end_record, raw_options, reread_entries, written_extra};
use super::second_run::lemma_nothing_dropped;
use super::write_new::{emitted, lemma_segments_within, segment_models, Segment};
use super::{has_bit11, law_with_bit11};
use crate::text::{decimal, occurs};
use vstd::prelude::*;

verus! {

/// A plan for the same entry, read as it is.
spec fn raw_plan(p: EntryPlanModel) -> EntryPlanModel {
    EntryPlanModel {
        excluded: false,
        new_fname: p.orig_fname,
        needs_bit11: false,
        new_bit11_set: has_bit11(u16_at(p.cd_header, 8)),
        ..p
    }
}

spec fn raw_plans(plans: Seq<EntryPlanModel>) -> Seq<EntryPlanModel> {
    plans.map_values(|p: EntryPlanModel| raw_plan(p))
}

proof fn lemma_raw_entry(cd: Seq<u8>, pos: int, c: int, opts: OptionsModel)
    ensures
        cd_entry_outcome(cd, pos, c, opts) matches Ok(e) ==> cd_entry_outcome(
            cd,
            pos,
            c,
            raw_options(),
        ) == Ok::<EntryPlanModel, ErrorModel>(raw_plan(e)),
{
    reveal(cd_entry_outcome);
    if let Ok(e) = cd_entry_outcome(cd, pos, c, opts) {
        assert(!raw_options().excludes(e.orig_fname));
    }
}

proof fn lemma_raw_entries(
    cd: Seq<u8>,
    pos: int,
    index: int,
    n: int,
    cd_size: int,
    opts: OptionsModel,
)
    ensures
        cd_entries_outcome(cd, pos, index, n, cd_size, opts) matches Ok(es) ==> cd_entries_outcome(
            cd,
            pos,
            index,
            n,
            cd_size,
            raw_options(),
        ) == Ok::<Seq<EntryPlanModel>, ErrorModel>(raw_plans(es)),
    decreases n - index,
{
    if index < n {
        lemma_raw_entry(cd, pos, index, opts);
        if let Ok(e) = cd_entry_outcome(cd, pos, index, opts) {
            lemma_raw_entries(cd, pos + e.cd_len(), index + 1, n, cd_size, opts);
            if let Ok(rest) = cd_entries_outcome(
                cd,
                pos + e.cd_len(),
                index + 1,
                n,
                cd_size,
                opts,
            ) {
                assert(raw_plans(seq![e] + rest) =~= seq![raw_plan(e)] + raw_plans(rest));
            }
        }
    } else {
        assert(raw_plans(Seq::empty()) =~= Seq::empty());
    }
}

proof fn lemma_raw_locals(content: Seq<u8>, entries: Seq<EntryPlanModel>, n: int)
    requires
        0 <= n <= entries.len(),
    ensures
        local_plans_outcome(content, entries, n) matches Ok(ps) ==> local_plans_outcome(
            content,
            raw_plans(entries),
            n,
        ) == Ok::<Seq<EntryPlanModel>, ErrorModel>(raw_plans(ps)),
    decreases n,
{
    if n > 0 {
        lemma_raw_locals(content, entries, n - 1);
        if let Ok(ps) = local_plans_outcome(content, entries, n) {
            let front = local_plans_outcome(content, entries, n - 1)->Ok_0;
            let at = from_offset(content, entries[n - 1].lhf_offset);
            let p = local_plan_outcome(entries[n - 1], at)->Ok_0;
            assert(local_plan_outcome(raw_plan(entries[n - 1]), at) == Ok::<
                EntryPlanModel,
                ErrorModel,
            >(raw_plan(p)));
            assert(raw_plans(front.push(p)) =~= raw_plans(front).push(raw_plan(p)));
        }
    } else {
        assert(raw_plans(Seq::empty()) =~= Seq::empty());
    }
}

proof fn lemma_raw_spans(plans: Seq<EntryPlanModel>, cd_offset: int, n: int)
    requires
        0 <= n <= plans.len(),
    ensures
        spans_outcome(plans, cd_offset, n) matches Ok(qs) ==> spans_outcome(
            raw_plans(plans),
            cd_offset,
            n,
        ) == Ok::<Seq<EntryPlanModel>, ErrorModel>(raw_plans(qs)),
    decreases n,
{
    if n > 0 {
        lemma_raw_spans(plans, cd_offset, n - 1);
        if let Ok(qs) = spans_outcome(plans, cd_offset, n) {
            let front = spans_outcome(plans, cd_offset, n - 1)->Ok_0;
            assert(span_end(raw_plans(plans), cd_offset, n - 1) == span_end(
                plans,
                cd_offset,
                n - 1,
            ));
            assert(with_span(raw_plans(plans), cd_offset, n - 1) == raw_plan(
                with_span(plans, cd_offset, n - 1),
            ));
            assert(raw_plans(front.push(with_span(plans, cd_offset, n - 1))) =~= raw_plans(
                front,
            ).push(raw_plan(with_span(plans, cd_offset, n - 1))));
        }
    } else {
        assert(raw_plans(Seq::empty()) =~= Seq::empty());
    }
}

/// An archive that can be read can be read as it is, and has the same entries.
proof fn lemma_raw_job(content: Seq<u8>, file_len: u64, opts: OptionsModel, a: ArchiveModel)
    requires
        job_outcome(content, file_len, opts) == Ok::<ArchiveModel, ErrorModel>(a),
    ensures
        job_outcome(content, file_len, raw_options()) matches Ok(b) && b.info == a.info && b.plans
            == raw_plans(a.plans),
{
    let info = a.info;
    let cd = cd_bytes_of(content, info);
    let n = info.total_entries as int;
    lemma_raw_entries(cd, 0, 0, n, info.cd_size as int, opts);
    let es = cd_entries_outcome(cd, 0, 0, n, info.cd_size as int, opts)->Ok_0;
    let sorted = in_file_order(es);
    lemma_stable_order(offsets(es));
    assert(offsets(raw_plans(es)) =~= offsets(es));
    assert(in_file_order(raw_plans(es)) =~= raw_plans(sorted));
    lemma_raw_locals(content, sorted, es.len() as int);
    let ps = local_plans_outcome(content, sorted, es.len() as int)->Ok_0;
    lemma_raw_spans(ps, info.cd_offset as int, ps.len() as int);
}

/// The plans are made of the entries of the central directory, each with its own place.
proof fn lemma_plans_of_entries(content: Seq<u8>, info: ArchiveInfoModel, opts: OptionsModel)
    requires
        plans_outcome(content, info, opts) is Ok,
    ensures
        ({
            let plans = plans_outcome(content, info, opts)->Ok_0;
            cd_entries_outcome(
                cd_bytes_of(content, info),
                0,
                0,
                info.total_entries as int,
                info.cd_size as int,
                opts,
            ) matches Ok(es) && {
                &&& es.len() == plans.len()
                &&& es.len() == info.total_entries
                &&& forall|k: int|
                    0 <= k < plans.len() ==> {
                        let p = #[trigger] plans[k];
                        &&& 0 <= p.cd_index < es.len()
                        &&& p == (EntryPlanModel {
                            lhf_header_size: p.lhf_header_size,
                            lhf_extra_len: p.lhf_extra_len,
                            span_size: p.span_size,
                            ..es[p.cd_index]
                        })
                    }
            }
        }),
{
    let plans = plans_outcome(content, info, opts)->Ok_0;
    let cd = cd_bytes_of(content, info);
    let n = info.total_entries as int;
    let cd_offset = info.cd_offset as int;
    lemma_cd_entries(cd, 0, 0, n, info.cd_size as int, opts);
    let es = cd_entries_outcome(cd, 0, 0, n, info.cd_size as int, opts)->Ok_0;
    let sorted = in_file_order(es);
    let order = stable_order(offsets(es));
    lemma_stable_order(offsets(es));
    lemma_local_plans(content, sorted, es.len() as int);
    let ps = local_plans_outcome(content, sorted, es.len() as int)->Ok_0;
    lemma_spans(ps, cd_offset, ps.len() as int);
    assert forall|k: int| 0 <= k < plans.len() implies {
        let p = #[trigger] plans[k];
        &&& 0 <= p.cd_index < es.len()
        &&& p == (EntryPlanModel {
            lhf_header_size: p.lhf_header_size,
            lhf_extra_len: p.lhf_extra_len,
            span_size: p.span_size,
            ..es[p.cd_index]
        })
    } by {
        assert(plans[k] == with_span(ps, cd_offset, k));
        assert(local_plan_outcome(sorted[k], from_offset(content, sorted[k].lhf_offset)) == Ok::<
            EntryPlanModel,
            ErrorModel,
        >(ps[k]));
        assert(sorted[k] == es[order[k]]);
        assert(es[order[k]].cd_index == order[k]);
    }
}

/// Where as many entries are kept as there are, none is dropped.
proof fn lemma_all_kept(plans: Seq<EntryPlanModel>, list: Seq<int>)
    ensures
        kept_among(plans, list).len() <= list.len(),
        kept_among(plans, list).len() == list.len() ==> forall|i: int|
            0 <= i < list.len() ==> !plans[#[trigger] list[i]].excluded,
    decreases list.len(),
{
    if list.len() > 0 {
        let front = list.drop_last();
        lemma_all_kept(plans, front);
        if kept_among(plans, list).len() == list.len() {
            assert forall|i: int|
                0 <= i < list.len() implies !plans[#[trigger] list[i]].excluded by {
                if i < front.len() {
                    assert(front[i] == list[i]);
                }
            }
        }
    }
}

/// Where no entry is dropped, the entry at place `c` of the new directory is the one that has that
/// place.
proof fn lemma_kept_in_place(plans: Seq<EntryPlanModel>, k: int)
    requires
        cd_indexed(plans),
        forall|i: int| 0 <= i < plans.len() ==> !(#[trigger] plans[i]).excluded,
        0 <= k < plans.len(),
    ensures
        kept(plans).len() == plans.len(),
        kept(plans)[plans[k].cd_index] == k,
{
    let all = cd_positions(plans);
    assert forall|c: int| 0 <= c < all.len() implies !plans[#[trigger] all[c]].excluded by {
        lemma_cd_index_taken(plans, c);
    }
    lemma_nothing_dropped(plans, all);
    let c = plans[k].cd_index;
    lemma_cd_index_taken(plans, c);
    assert(all[c] == plan_at_cd_index(plans, c));
}

/// The flag that a plan asks for and the flag in the central directory agree where nothing is to
/// be done.
proof fn lemma_clean_flag(p: EntryPlanModel, opts: OptionsModel)
    requires
        follows_options(p, opts),
        leaves_alone(p),
    ensures
        has_bit11(u16_at(p.cd_header, 8)) == p.new_bit11_set,
{
    law_new_name(p.orig_fname, u16_at(p.cd_header, 8), p.entry_no() as u64, opts);
}

/// Whether an extra area is that of a plan, but for the offset in its ZIP64 field where it has one
/// there, and the same where the offset is.
pub open spec fn same_cd_extra(p: EntryPlanModel, extra: Seq<u8>, offset: int) -> bool {
    &&& extra.len() == p.cd_extra.len()
    &&& u32_at(p.cd_header, 42) != 0xFFFF_FFFF || offset == p.lhf_offset ==> extra == p.cd_extra
}

proof fn lemma_same_cd_extra(p: EntryPlanModel, off: u64)
    requires
        cd_entry_ok(p),
    ensures
        same_cd_extra(p, written_extra(p, off), off as int),
        same_cd_extra(p, p.cd_extra, p.lhf_offset),
{
    if p.lhf_offset_in_zip64_extra {
        law_patched_offset_is_read(p.cd_extra, off, p, p.entry_no());
    }
}

/// An entry that was carried over is as it was asked for.
proof fn lemma_as_asked(
    content: Seq<u8>,
    p: EntryPlanModel,
    file: Seq<u8>,
    q: EntryPlanModel,
    opts: OptionsModel,
)
    requires
        follows_options(p, opts),
        entry_ok(p),
        0 <= q.lhf_offset <= u64::MAX,
        carried_over(content, p, file, q),
    ensures
        ({
            let bit11 = u16_at(q.cd_header, 8) & 0x0800 != 0;
            &&& new_name_outcome(
                p.orig_fname,
                u16_at(p.cd_header, 8),
                p.entry_no() as u64,
                opts,
            ) == Ok::<(Seq<u8>, bool), ErrorModel>((q.orig_fname, bit11))
            &&& (u16_at(header_of(file, q).header, 6) & 0x0800 != 0) == bit11
            &&& same_cd_extra(p, q.cd_extra, q.lhf_offset)
        }),
{
    lemma_same_cd_extra(p, q.lhf_offset as u64);
    law_with_bit11(u16_at(p.cd_header, 8), p.new_bit11_set);
    law_with_bit11(u16_at(header_of(content, p).header, 6), p.new_bit11_set);
}

/// What a run that changes a file in place leaves in it. Read as it is, the file holds each entry
/// that the options do not drop, once, and no other. It has the name that was asked for, and the
/// UTF-8 flag in the central directory is the one that was asked for; where the file was changed at
/// all, so is the one in the local header. Everything else of it is as it was.
pub proof fn law_cleaned_file_is_as_asked(content: Seq<u8>, opts: OptionsModel, a: ArchiveModel)
    requires
        content.len() <= u64::MAX,
        !opts.dry_run,
        !opts.fast,
        job_outcome(content, content.len() as u64, opts) == Ok::<ArchiveModel, ErrorModel>(a),
        last_end_record(
            processed_file(content, opts),
            processed_file(content, opts).len() - 22 - a.info.archive_comment.len(),
        ),
    ensures
        ({
            let out = processed_file(content, opts);
            job_outcome(out, out.len() as u64, raw_options()) matches Ok(b) && {
                &&& b.info.archive_comment == a.info.archive_comment
                &&& b.info.is_zip64 == a.info.is_zip64
                &&& b.plans.len() == kept(a.plans).len()
                &&& cd_indexed(b.plans)
                &&& forall|k: int|
                    0 <= k < a.plans.len() && !opts.excludes((#[trigger] a.plans[k]).orig_fname)
                        ==> kept(a.plans).contains(k)
                &&& forall|j: int|
                    0 <= j < b.plans.len() ==> {
                        let q = #[trigger] b.plans[j];
                        let p = a.plans[kept(a.plans)[q.cd_index]];
                        let bit11 = u16_at(q.cd_header, 8) & 0x0800 != 0;
                        &&& !opts.excludes(p.orig_fname)
                        &&& new_name_outcome(
                            p.orig_fname,
                            u16_at(p.cd_header, 8),
                            p.entry_no() as u64,
                            opts,
                        ) == Ok::<(Seq<u8>, bool), ErrorModel>((q.orig_fname, bit11))
                        &&& out != content ==> (u16_at(header_of(out, q).header, 6) & 0x0800 != 0)
                            == bit11
                        &&& same_cd_fields(p.cd_header, q.cd_header)
                        &&& same_local_fields(
                            header_of(content, p).header,
                            header_of(out, q).header,
                        )
                        &&& q.cd_comment == p.cd_comment
                        &&& same_cd_extra(p, q.cd_extra, q.lhf_offset)
                        &&& header_of(content, p).extra.is_suffix_of(header_of(out, q).extra)
                        &&& payload_of(content, p).is_prefix_of(payload_of(out, q))
                    }
            }
        }),
{
    let file_len = content.len() as u64;
    let out = processed_file(content, opts);
    law_job(content, file_len, opts);
    law_built_plans(content, a.info, opts);
    law_kept_entries(a.plans);
    assert forall|k: int| 0 <= k < a.plans.len() && !opts.excludes(
        (#[trigger] a.plans[k]).orig_fname,
    ) implies kept(a.plans).contains(k) by {
        assert(follows_options(a.plans[k], opts));
    }
    if is_clean(a.plans) {
        lemma_raw_job(content, file_len, opts, a);
        law_job(content, file_len, raw_options());
        let b = job_outcome(content, file_len, raw_options())->Ok_0;
        assert forall|i: int| 0 <= i < a.plans.len() implies !(#[trigger] a.plans[i]).excluded by {
            assert(leaves_alone(a.plans[i]));
        }
        if a.plans.len() > 0 {
            lemma_kept_in_place(a.plans, 0);
        } else {
            lemma_all_kept(a.plans, cd_positions(a.plans));
        }
        assert forall|j: int| 0 <= j < b.plans.len() implies {
            let q = #[trigger] b.plans[j];
            let p = a.plans[kept(a.plans)[q.cd_index]];
            &&& q == raw_plan(p)
            &&& follows_options(p, opts)
            &&& has_bit11(u16_at(p.cd_header, 8)) == p.new_bit11_set
            &&& leaves_alone(p)
            &&& header_of(content, p) == header_of(content, q)
            &&& payload_of(content, p) == payload_of(content, q)
            &&& header_of(content, p).extra.is_suffix_of(header_of(content, p).extra)
            &&& payload_of(content, p).is_prefix_of(payload_of(content, p))
            &&& p.cd_header.len() == 46
            &&& header_of(content, p).header.len() == 30
            &&& same_cd_extra(p, q.cd_extra, q.lhf_offset)
        } by {
            let p = a.plans[j];
            assert(b.plans[j] == raw_plan(p));
            lemma_kept_in_place(a.plans, j);
            assert(leaves_alone(p));
            assert(follows_options(p, opts));
            lemma_clean_flag(p, opts);
            assert(entry_ok(p));
            lemma_same_cd_extra(p, p.lhf_offset as u64);
            let x = header_of(content, p).extra;
            let y = payload_of(content, p);
            assert(x.subrange(0, x.len() as int) =~= x);
            assert(y.subrange(0, y.len() as int) =~= y);
        }
    } else {
        law_inplace_file_reads_back(content, opts, a);
        law_job(out, out.len() as u64, raw_options());
        let b = job_outcome(out, out.len() as u64, raw_options())->Ok_0;
        assert forall|j: int| 0 <= j < b.plans.len() implies {
            let q = #[trigger] b.plans[j];
            let p = a.plans[kept(a.plans)[q.cd_index]];
            let bit11 = u16_at(q.cd_header, 8) & 0x0800 != 0;
            &&& !opts.excludes(p.orig_fname)
            &&& new_name_outcome(
                p.orig_fname,
                u16_at(p.cd_header, 8),
                p.entry_no() as u64,
                opts,
            ) == Ok::<(Seq<u8>, bool), ErrorModel>((q.orig_fname, bit11))
            &&& (u16_at(header_of(out, q).header, 6) & 0x0800 != 0) == bit11
            &&& same_cd_extra(p, q.cd_extra, q.lhf_offset)
        } by {
            let q = b.plans[j];
            let p = a.plans[kept(a.plans)[q.cd_index]];
            assert(entry_ok(p));
            assert(entry_ok(q));
            assert(follows_options(p, opts));
            lemma_as_asked(content, p, out, q, opts);
        }
    }
}

/// A file is left as it is only where there was nothing to do: no entry is one that the options
/// drop, every name is the one that was asked for, and so is every flag in the central directory.
pub proof fn law_only_clean_files_are_left(
    content: Seq<u8>,
    opts: OptionsModel,
    a: ArchiveModel,
    k: int,
)
    requires
        content.len() <= u64::MAX,
        !opts.dry_run,
        !opts.fast,
        job_outcome(content, content.len() as u64, opts) == Ok::<ArchiveModel, ErrorModel>(a),
        last_end_record(content, content.len() - 22 - a.info.archive_comment.len()),
        processed_file(content, opts) == content,
        0 <= k < a.plans.len(),
    ensures
        ({
            let p = a.plans[k];
            let flags = u16_at(p.cd_header, 8);
            &&& !opts.excludes(p.orig_fname)
            &&& new_name_outcome(p.orig_fname, flags, p.entry_no() as u64, opts) == Ok::<
                (Seq<u8>, bool),
                ErrorModel,
            >((p.orig_fname, flags & 0x0800 != 0))
        }),
{
    let file_len = content.len() as u64;
    law_cleaned_file_is_as_asked(content, opts, a);
    lemma_raw_job(content, file_len, opts, a);
    law_built_plans(content, a.info, opts);
    let b = job_outcome(content, file_len, raw_options())->Ok_0;
    let all = cd_positions(a.plans);
    lemma_all_kept(a.plans, all);
    assert forall|i: int| 0 <= i < a.plans.len() implies !(#[trigger] a.plans[i]).excluded by {
        let c = a.plans[i].cd_index;
        lemma_cd_index_taken(a.plans, c);
        assert(all[c] == i);
    }
    lemma_kept_in_place(a.plans, k);
    assert(b.plans[k] == raw_plan(a.plans[k]));
}

/// What a run in the fast mode leaves in the file. All bytes before the central directory are as
/// they were. The central directory holds each entry that the options do not drop, once, in order,
/// and no other, with the name and the flag that were asked for and with the offset that it had.
pub proof fn law_fast_file_is_as_asked(content: Seq<u8>, opts: OptionsModel, a: ArchiveModel)
    requires
        content.len() <= u64::MAX,
        !opts.dry_run,
        opts.fast,
        job_outcome(content, content.len() as u64, opts) == Ok::<ArchiveModel, ErrorModel>(a),
        last_end_record(
            processed_file(content, opts),
            processed_file(content, opts).len() - 22 - a.info.archive_comment.len(),
        ),
    ensures
        ({
            let out = processed_file(content, opts);
            &&& out.take(a.info.cd_offset as int) == content.take(a.info.cd_offset as int)
            &&& forall|k: int|
                0 <= k < a.plans.len() && !opts.excludes((#[trigger] a.plans[k]).orig_fname)
                    ==> kept(a.plans).contains(k)
            &&& archive_outcome(out, out.len() as u64) matches Ok(info) && {
                &&& info.cd_offset == a.info.cd_offset
                &&& info.archive_comment == a.info.archive_comment
                &&& info.is_zip64 == a.info.is_zip64
                &&& cd_entries_outcome(
                    cd_bytes_of(out, info),
                    0,
                    0,
                    info.total_entries as int,
                    info.cd_size as int,
                    raw_options(),
                ) matches Ok(es) && {
                    &&& es.len() == kept(a.plans).len()
                    &&& forall|c: int|
                        0 <= c < es.len() ==> {
                            let e = #[trigger] es[c];
                            let p = a.plans[kept(a.plans)[c]];
                            &&& !opts.excludes(p.orig_fname)
                            &&& new_name_outcome(
                                p.orig_fname,
                                u16_at(p.cd_header, 8),
                                p.entry_no() as u64,
                                opts,
                            ) == Ok::<(Seq<u8>, bool), ErrorModel>(
                                (e.orig_fname, u16_at(e.cd_header, 8) & 0x0800 != 0),
                            )
                            &&& e.lhf_offset == p.lhf_offset
                            &&& same_cd_fields(p.cd_header, e.cd_header)
                            &&& e.cd_comment == p.cd_comment
                            &&& e.cd_extra == p.cd_extra
                        }
                }
            }
        }),
{
    let file_len = content.len() as u64;
    let out = processed_file(content, opts);
    let list = kept(a.plans);
    law_job(content, file_len, opts);
    law_archive_info(content, file_len);
    law_built_plans(content, a.info, opts);
    law_kept_entries(a.plans);
    assert forall|k: int| 0 <= k < a.plans.len() && !opts.excludes(
        (#[trigger] a.plans[k]).orig_fname,
    ) implies list.contains(k) by {
        assert(follows_options(a.plans[k], opts));
    }
    if is_clean(a.plans) {
        lemma_plans_of_entries(content, a.info, opts);
        let cd = cd_bytes_of(content, a.info);
        let n = a.info.total_entries as int;
        let es = cd_entries_outcome(cd, 0, 0, n, a.info.cd_size as int, opts)->Ok_0;
        lemma_raw_entries(cd, 0, 0, n, a.info.cd_size as int, opts);
        assert forall|i: int| 0 <= i < a.plans.len() implies !(#[trigger] a.plans[i]).excluded by {
            assert(leaves_alone(a.plans[i]));
        }
        if a.plans.len() > 0 {
            lemma_kept_in_place(a.plans, 0);
        } else {
            lemma_all_kept(a.plans, cd_positions(a.plans));
        }
        assert forall|c: int| 0 <= c < es.len() implies {
            let p = a.plans[list[c]];
            let e = #[trigger] raw_plans(es)[c];
            &&& e.orig_fname == p.orig_fname
            &&& e.cd_header == p.cd_header
            &&& e.lhf_offset == p.lhf_offset
            &&& e.cd_comment == p.cd_comment
            &&& e.cd_extra == p.cd_extra
            &&& follows_options(p, opts)
            &&& leaves_alone(p)
            &&& has_bit11(u16_at(p.cd_header, 8)) == p.new_bit11_set
            &&& p.cd_header.len() == 46
        } by {
            lemma_cd_index_taken(a.plans, c);
            let k = plan_at_cd_index(a.plans, c);
            lemma_kept_in_place(a.plans, k);
            let p = a.plans[k];
            assert(p.cd_index == c);
            assert(leaves_alone(p));
            assert(follows_options(p, opts));
            assert(entry_ok(p));
            lemma_clean_flag(p, opts);
        }
    } else {
        law_fast_file_reads_back(content, opts, a);
        let offs = old_offsets(a.plans);
        let es = reread_entries(a.plans, offs, list, 0);
        assert forall|c: int| 0 <= c < es.len() implies {
            let p = a.plans[list[c]];
            let e = #[trigger] es[c];
            &&& e.orig_fname == p.new_fname
            &&& (u16_at(e.cd_header, 8) & 0x0800 != 0) == p.new_bit11_set
            &&& e.lhf_offset == p.lhf_offset
            &&& same_cd_fields(p.cd_header, e.cd_header)
            &&& e.cd_comment == p.cd_comment
            &&& e.cd_extra == p.cd_extra
            &&& follows_options(p, opts)
        } by {
            let p = a.plans[list[c]];
            assert(!a.plans[list[c]].excluded);
            assert(entry_ok(p));
            assert(follows_options(p, opts));
            law_reread_entry(p, offs[list[c]], c);
            lemma_same_cd_extra(p, offs[list[c]]);
            law_with_bit11(u16_at(p.cd_header, 8), p.new_bit11_set);
        }
    }
}

/// What a run that writes a new archive writes. Read as it is, it holds each entry that the options
/// do not drop, once, and no other, with the name that was asked for and the flag that was asked
/// for in both its headers, its extra fields and its data, and everything else as it was. It has
/// ZIP64 end records exactly where its numbers need them.
pub proof fn law_new_archive_is_as_asked(
    content: Seq<u8>,
    file_len: u64,
    opts: OptionsModel,
    a: ArchiveModel,
)
    requires
        !opts.dry_run,
        job_outcome(content, file_len, opts) == Ok::<ArchiveModel, ErrorModel>(a),
        ends_are_plain(processed_new(content, file_len, opts), new_info(a)),
    ensures
        ({
            let out = processed_new(content, file_len, opts);
            job_outcome(out, out.len() as u64, raw_options()) matches Ok(b) && {
                &&& b.info.archive_comment == a.info.archive_comment
                &&& b.info.is_zip64 <==> b.info.total_entries > 0xFFFF || b.info.cd_offset
                    + b.info.cd_size > 0xFFFF_FFFF
                &&& b.plans.len() == kept(a.plans).len()
                &&& cd_indexed(b.plans)
                &&& forall|k: int|
                    0 <= k < a.plans.len() && !opts.excludes((#[trigger] a.plans[k]).orig_fname)
                        ==> kept(a.plans).contains(k)
                &&& forall|j: int|
                    0 <= j < b.plans.len() ==> {
                        let q = #[trigger] b.plans[j];
                        let p = a.plans[kept(a.plans)[q.cd_index]];
                        let bit11 = u16_at(q.cd_header, 8) & 0x0800 != 0;
                        &&& !opts.excludes(p.orig_fname)
                        &&& new_name_outcome(
                            p.orig_fname,
                            u16_at(p.cd_header, 8),
                            p.entry_no() as u64,
                            opts,
                        ) == Ok::<(Seq<u8>, bool), ErrorModel>((q.orig_fname, bit11))
                        &&& (u16_at(header_of(out, q).header, 6) & 0x0800 != 0) == bit11
                        &&& same_cd_fields(p.cd_header, q.cd_header)
                        &&& same_local_fields(
                            header_of(content, p).header,
                            header_of(out, q).header,
                        )
                        &&& q.cd_comment == p.cd_comment
                        &&& same_cd_extra(p, q.cd_extra, q.lhf_offset)
                        &&& header_of(out, q).extra == header_of(content, p).extra
                        &&& payload_of(out, q) == payload_of(content, p)
                    }
            }
        }),
{
    let out = processed_new(content, file_len, opts);
    law_job(content, file_len, opts);
    law_built_plans(content, a.info, opts);
    law_kept_entries(a.plans);
    assert forall|k: int| 0 <= k < a.plans.len() && !opts.excludes(
        (#[trigger] a.plans[k]).orig_fname,
    ) implies kept(a.plans).contains(k) by {
        assert(follows_options(a.plans[k], opts));
    }
    law_new_archive_reads_back(content, file_len, opts, a);
    law_job(out, out.len() as u64, raw_options());
    super::write_new::lemma_new_offsets(a.plans, a.info.cd_offset as int);
    let b = job_outcome(out, out.len() as u64, raw_options())->Ok_0;
    assert forall|j: int| 0 <= j < b.plans.len() implies {
        let q = #[trigger] b.plans[j];
        let p = a.plans[kept(a.plans)[q.cd_index]];
        let bit11 = u16_at(q.cd_header, 8) & 0x0800 != 0;
        &&& !opts.excludes(p.orig_fname)
        &&& new_name_outcome(
            p.orig_fname,
            u16_at(p.cd_header, 8),
            p.entry_no() as u64,
            opts,
        ) == Ok::<(Seq<u8>, bool), ErrorModel>((q.orig_fname, bit11))
        &&& (u16_at(header_of(out, q).header, 6) & 0x0800 != 0) == bit11
        &&& same_cd_extra(p, q.cd_extra, q.lhf_offset)
    } by {
        let q = b.plans[j];
        let p = a.plans[kept(a.plans)[q.cd_index]];
        assert(entry_ok(p));
        assert(entry_ok(q));
        assert(follows_options(p, opts));
        lemma_as_asked(content, p, out, q, opts);
    }
}

/// A run that fails, or that is a dry run, changes no file and writes no archive; a run that is no
/// dry run and succeeds prints nothing.
pub proof fn law_failed_run_changes_nothing(content: Seq<u8>, file_len: u64, opts: OptionsModel)
    ensures
        opts.dry_run || job_outcome(content, content.len() as u64, opts) is Err ==> processed_file(
            content,
            opts,
        ) == content,
        opts.dry_run || job_outcome(content, file_len, opts) is Err ==> processed_new(
            content,
            file_len,
            opts,
        ).len() == 0,
        !opts.dry_run || job_outcome(content, file_len, opts) is Err ==> printed(
            content,
            file_len,
            opts,
        ).len() == 0,
{
}

/// A dry run shows every change that a run makes: a line for each entry that the options drop, one
/// for each entry that stays and gets another name, and one for each entry that stays, has no
/// UTF-8 flag in the central directory and is to get it.
pub proof fn law_dry_run_shows_every_change(
    content: Seq<u8>,
    file_len: u64,
    opts: OptionsModel,
    a: ArchiveModel,
    k: int,
)
    requires
        opts.dry_run,
        job_outcome(content, file_len, opts) == Ok::<ArchiveModel, ErrorModel>(a),
        0 <= k < a.plans.len(),
    ensures
        ({
            let text = printed(content, file_len, opts);
            let p = a.plans[k];
            let old_name = p.orig_fname;
            let flags = u16_at(p.cd_header, 8);
            &&& opts.excludes(old_name) ==> occurs(
                text,
                "[exclude]  "@ + lossy_text(old_name) + "  ("@ + decimal(p.span_size) + " B)\n"@,
            )
            &&& !opts.excludes(old_name) ==> {
                &&& new_name_outcome(old_name, flags, p.entry_no() as u64, opts) matches Ok(
                    (name, bit11),
                ) && {
                    &&& name.len() < old_name.len() ==> occurs(
                        text,
                        "[nfc]      "@ + (lossy_text(old_name) + "  →  "@ + lossy_text(name))
                            + "  ("@ + decimal(old_name.len() - name.len()) + " B shorter)\n"@,
                    )
                    &&& name.len() == old_name.len() && name != old_name ==> occurs(
                        text,
                        "[rename]   "@ + (lossy_text(old_name) + "  →  "@ + lossy_text(name))
                            + "\n"@,
                    )
                    &&& flags & 0x0800 == 0 && bit11 ==> occurs(
                        text,
                        "[bit11]    "@ + lossy_text(old_name) + "\n"@,
                    )
                }
            }
        }),
{
    law_job(content, file_len, opts);
    law_built_plans(content, a.info, opts);
    let p = a.plans[k];
    assert(follows_options(p, opts));
    assert(entry_ok(p));
    if p.excluded {
        law_report_shows_dropped(a.plans, k);
    } else {
        if p.new_fname != p.orig_fname {
            law_report_shows_renamed(a.plans, k);
        }
        if p.needs_bit11 {
            law_report_shows_flagged(a.plans, k);
        }
    }
}

/// Counts of the same entries are the same.
proof fn lemma_same_count(
    plans: Seq<EntryPlanModel>,
    f: spec_fn(EntryPlanModel) -> bool,
    g: spec_fn(EntryPlanModel) -> bool,
)
    requires
        forall|k: int| 0 <= k < plans.len() ==> f(#[trigger] plans[k]) == g(plans[k]),
    ensures
        count(plans, f) == count(plans, g),
    decreases plans.len(),
{
    if plans.len() > 0 {
        let front = plans.drop_last();
        assert forall|k: int| 0 <= k < front.len() implies f(#[trigger] front[k]) == g(
            front[k],
        ) by {
            assert(front[k] == plans[k]);
        }
        lemma_same_count(front, f, g);
        assert(f(plans[plans.len() - 1]) == g(plans[plans.len() - 1]));
    }
}

/// The summary of a dry run counts what a run does: it ends with the number of the entries that
/// stay, have no UTF-8 flag in the central directory and are to get it, and says how many entries
/// the options drop.
pub proof fn law_dry_run_counts_changes(
    content: Seq<u8>,
    file_len: u64,
    opts: OptionsModel,
    a: ArchiveModel,
)
    requires
        opts.dry_run,
        job_outcome(content, file_len, opts) == Ok::<ArchiveModel, ErrorModel>(a),
    ensures
        ({
            let text = printed(content, file_len, opts);
            let flagged = count(
                a.plans,
                |p: EntryPlanModel|
                    !opts.excludes(p.orig_fname) && u16_at(p.cd_header, 8) & 0x0800 == 0
                        && new_name_outcome(
                        p.orig_fname,
                        u16_at(p.cd_header, 8),
                        p.entry_no() as u64,
                        opts,
                    )->Ok_0.1,
            );
            let dropped = count(a.plans, |p: EntryPlanModel| opts.excludes(p.orig_fname));
            &&& ("  bit11 set:    "@ + decimal(flagged) + " entries\n"@).is_suffix_of(text)
            &&& occurs(
                text,
                "\nSummary:\n  Excluded:     "@ + decimal(dropped) + " entries (orphan data: "@,
            )
        }),
{
    law_job(content, file_len, opts);
    law_built_plans(content, a.info, opts);
    let text = printed(content, file_len, opts);
    assert forall|k: int| 0 <= k < a.plans.len() implies {
        let p = #[trigger] a.plans[k];
        &&& p.new_fname.len() <= p.orig_fname.len()
        &&& p.excluded == opts.excludes(p.orig_fname)
        &&& (!p.excluded && p.needs_bit11) == (!opts.excludes(p.orig_fname) && u16_at(
            p.cd_header,
            8,
        ) & 0x0800 == 0 && new_name_outcome(
            p.orig_fname,
            u16_at(p.cd_header, 8),
            p.entry_no() as u64,
            opts,
        )->Ok_0.1)
    } by {
        assert(follows_options(a.plans[k], opts));
        assert(entry_ok(a.plans[k]));
    }
    law_summary_counts_entries(a.plans);
    lemma_same_count(
        a.plans,
        |p: EntryPlanModel| !p.excluded && p.needs_bit11,
        |p: EntryPlanModel|
            !opts.excludes(p.orig_fname) && u16_at(p.cd_header, 8) & 0x0800 == 0
                && new_name_outcome(
                p.orig_fname,
                u16_at(p.cd_header, 8),
                p.entry_no() as u64,
                opts,
            )->Ok_0.1,
    );
    lemma_same_count(
        a.plans,
        |p: EntryPlanModel| p.excluded,
        |p: EntryPlanModel| opts.excludes(p.orig_fname),
    );
    lemma_summary_parts(a.plans);
}

/// Where the two numbers stand in a report.
proof fn lemma_summary_parts(plans: Seq<EntryPlanModel>)
    requires
        forall|k: int|
            0 <= k < plans.len() ==> (#[trigger] plans[k]).new_fname.len()
                <= plans[k].orig_fname.len(),
    ensures
        ({
            let text = super::report::report_text(plans);
            let flagged = count(plans, |p: EntryPlanModel| !p.excluded && p.needs_bit11);
            let dropped = count(plans, |p: EntryPlanModel| p.excluded);
            &&& ("  bit11 set:    "@ + decimal(flagged) + " entries\n"@).is_suffix_of(text)
            &&& occurs(
                text,
                "\nSummary:\n  Excluded:     "@ + decimal(dropped) + " entries (orphan data: "@,
            )
        }),
{
    law_summary_counts_entries(plans);
    super::report::lemma_totals(plans, plans.len() as int);
    assert(plans.take(plans.len() as int) =~= plans);
    super::report::lemma_summary_shape(plans);
}

/// There is nothing to do exactly where no entry is one that the options drop, and each has the
/// name and, in the central directory, the flag that are asked for.
pub proof fn law_nothing_to_do(
    content: Seq<u8>,
    file_len: u64,
    opts: OptionsModel,
    job: &Job,
    r: bool,
)
    requires
        job_outcome(content, file_len, opts) == Ok::<ArchiveModel, ErrorModel>(job@),
        call_ensures(Job::nothing_to_do, (job,), r),
    ensures
        r <==> forall|k: int|
            0 <= k < job@.plans.len() ==> {
                let p = #[trigger] job@.plans[k];
                let flags = u16_at(p.cd_header, 8);
                &&& !opts.excludes(p.orig_fname)
                &&& new_name_outcome(p.orig_fname, flags, p.entry_no() as u64, opts) == Ok::<
                    (Seq<u8>, bool),
                    ErrorModel,
                >((p.orig_fname, flags & 0x0800 != 0))
            },
{
    let plans = job@.plans;
    law_built_plans(content, job@.info, opts);
    assert forall|k: int| 0 <= k < plans.len() implies leaves_alone(#[trigger] plans[k]) == ({
        let p = plans[k];
        let flags = u16_at(p.cd_header, 8);
        &&& !opts.excludes(p.orig_fname)
        &&& new_name_outcome(p.orig_fname, flags, p.entry_no() as u64, opts) == Ok::<
            (Seq<u8>, bool),
            ErrorModel,
        >((p.orig_fname, flags & 0x0800 != 0))
    }) by {
        let p = plans[k];
        assert(follows_options(p, opts));
        law_new_name(p.orig_fname, u16_at(p.cd_header, 8), p.entry_no() as u64, opts);
    }
}

/// The changes that a job asks for can all be made, one after another, and make of the file what a
/// run in place makes of it; the parts of a new archive lie in the file, and put together they are
/// what a run that writes a new archive writes.
pub proof fn law_job_does_the_run(
    content: Seq<u8>,
    opts: &Options,
    job: &Job,
    ops: Vec<FileOp>,
    segments: Vec<Segment>,
)
    requires
        content.len() <= u64::MAX,
        job_outcome(content, content.len() as u64, opts@) == Ok::<ArchiveModel, ErrorModel>(job@),
        call_ensures(Job::changes, (job, opts), ops),
        call_ensures(Job::segments, (job,), segments),
    ensures
        all_fit(content, op_models(ops@)),
        applied(content, op_models(ops@)) == processed_file(content, opts@),
        forall|i: int|
            0 <= i < segments@.len() ==> #[trigger] segments@[i]@.within(content),
        !opts.dry_run ==> emitted(content, segment_models(segments@)) == processed_new(
            content,
            content.len() as u64,
            opts@,
        ),
{
    law_job(content, content.len() as u64, opts@);
    law_inplace_ops(content, job@);
    law_fast_ops(content, job@);
    lemma_segments_within(content, job@);
    assert forall|i: int| 0 <= i < segments@.len() implies #[trigger] segments@[i]@.within(
        content,
    ) by {
        assert(segment_models(segments@)[i] == segments@[i]@);
    }
}

} // verus!
