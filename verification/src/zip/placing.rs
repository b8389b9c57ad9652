//! Where the entries of a cleaned archive stand: in the order in which they stood, and in a file
//! that was changed in place next to where they were.

use super::bytes::{lemma_read_part, u16_at};
use super::directory::{kept, law_kept_entries};
use super::error::ErrorModel;
use super::inplace::{
    absorbed, inplace_entry, inplace_file, inplace_front, inplace_header, law_no_header_moves_back,
    lemma_front_ops, lemma_place, padding_field, pads, place_after, place_at,
};
use super::job::{job_outcome, law_job};
use super::laws::{
    ends_are_plain, inplace_ext, inplace_extra, inplace_info, inplace_written,
    law_inplace_never_grows, lemma_body_rises, lemma_front_step, lemma_inplace_bytes,
    lemma_inplace_entry, lemma_inplace_header, lemma_inplace_read, lemma_new_places, lemma_new_read,
    new_info, new_written,
};
use super::layout::{
    entry_ok, entry_on, follows_options, header_of, law_built_plans, layout_ok, lemma_offsets_rise,
    payload_of, ArchiveModel,
};
use super::local_header::patched_local_header;
use super::names::new_name_outcome;
use super::options::OptionsModel;
use super::plan::{plans_outcome, span_end, EntryPlanModel};
use super::reread::{last_end_record, lemma_raw_keeps_names, raw_options};
use super::second_run::{is_settled_entry, lemma_settled_entry};
use super::write_new::{lemma_new_offsets, new_archive};
use super::flags_with_bit11;
use vstd::prelude::*;

verus! {

/// The field that takes up `n` bytes is an extra field of its own, with the identifier 0xFFFF and
/// nothing but zeros in it.
pub proof fn law_padding_field(n: int, i: int)
    requires
        4 <= n <= 0xFFFF,
    ensures
        padding_field(n).len() == n,
        padding_field(n)[0] == 0xFF,
        padding_field(n)[1] == 0xFF,
        padding_field(n)[2] + 0x100 * padding_field(n)[3] == n - 4,
        4 <= i < n ==> padding_field(n)[i] == 0,
{
}

/// Whether the extra area of each local header has room for what its name and three more bytes
/// take.
pub open spec fn has_room(plans: Seq<EntryPlanModel>) -> bool {
    forall|k: int|
        0 <= k < plans.len() ==> (#[trigger] plans[k]).lhf_extra_len + plans[k].orig_fname.len() + 3
            <= 0xFFFF
}

/// Never more than three bytes are left to take up.
proof fn lemma_little_is_left(plans: Seq<EntryPlanModel>, cd_offset: int, n: int)
    requires
        layout_ok(plans, cd_offset),
        0 <= cd_offset,
        0 <= n <= plans.len(),
        plans.len() > 0,
        has_room(plans),
    ensures
        ({
            let at = place_after(plans, n);
            let next = if n < plans.len() {
                plans[n].lhf_offset
            } else {
                cd_offset
            };
            0 <= at.carry && at.pos + at.carry <= next <= at.pos + 3
        }),
    decreases n,
{
    lemma_place(plans, cd_offset, n);
    if n > 0 {
        lemma_little_is_left(plans, cd_offset, n - 1);
        let p = plans[n - 1];
        assert(entry_ok(p));
        assert(p.lhf_offset + p.span_size == span_end(plans, cd_offset, n - 1));
    }
}

/// Whether an extra area begins with one field of `n` bytes that has the identifier 0xFFFF and
/// nothing but zeros in it.
pub open spec fn begins_with_padding(extra: Seq<u8>, n: int) -> bool {
    &&& 4 <= n <= extra.len()
    &&& extra[0] == 0xFF
    &&& extra[1] == 0xFF
    &&& extra[2] + 0x100 * extra[3] == n - 4
    &&& forall|i: int| 4 <= i < n ==> #[trigger] extra[i] == 0
}

/// The entries of a file that was cleaned in place.
proof fn lemma_inplace_plans(content: Seq<u8>, opts: OptionsModel, a: ArchiveModel)
    requires
        content.len() <= u64::MAX,
        job_outcome(content, content.len() as u64, opts) == Ok::<ArchiveModel, ErrorModel>(a),
        last_end_record(
            inplace_file(content, a),
            inplace_file(content, a).len() - 22 - a.info.archive_comment.len(),
        ),
    ensures
        a.ok(),
        a.on(content),
        ({
            let out = inplace_file(content, a);
            job_outcome(out, out.len() as u64, raw_options()) matches Ok(b) && {
                &&& b.ok()
                &&& b.on(out)
                &&& b.info == inplace_info(a)
                &&& inplace_written(content, a).reads_as(b.plans)
            }
        }),
{
    let file_len = content.len() as u64;
    let out = inplace_file(content, a);
    law_job(content, file_len, opts);
    law_inplace_never_grows(content, file_len, opts);
    lemma_raw_keeps_names(a.plans);
    lemma_inplace_read(content, a, raw_options());
    law_job(out, out.len() as u64, raw_options());
}

/// The data of an entry that stays moves by at most three bytes, towards the start of the file,
/// and so does the central directory, where the extra areas have room. No local header moves
/// towards the end. The end records are of the kind that they were.
pub proof fn law_data_hardly_moves(content: Seq<u8>, opts: OptionsModel, a: ArchiveModel)
    requires
        content.len() <= u64::MAX,
        job_outcome(content, content.len() as u64, opts) == Ok::<ArchiveModel, ErrorModel>(a),
        a.plans.len() > 0,
        has_room(a.plans),
        last_end_record(
            inplace_file(content, a),
            inplace_file(content, a).len() - 22 - a.info.archive_comment.len(),
        ),
    ensures
        ({
            let out = inplace_file(content, a);
            job_outcome(out, out.len() as u64, raw_options()) matches Ok(b) && {
                &&& b.info.is_zip64 == a.info.is_zip64
                &&& b.info.cd_offset <= a.info.cd_offset <= b.info.cd_offset + 3
                &&& forall|j: int|
                    0 <= j < b.plans.len() ==> {
                        let q = #[trigger] b.plans[j];
                        let p = a.plans[kept(a.plans)[q.cd_index]];
                        let old_data = p.lhf_offset + p.lhf_header_size;
                        let new_data = q.lhf_offset + q.lhf_header_size;
                        &&& new_data <= old_data <= new_data + 3
                        &&& q.lhf_offset <= p.lhf_offset
                    }
            }
        }),
{
    let n = a.plans.len() as int;
    let cd_offset = a.info.cd_offset as int;
    let out = inplace_file(content, a);
    lemma_inplace_plans(content, opts, a);
    let qs = job_outcome(out, out.len() as u64, raw_options())->Ok_0.plans;
    lemma_place(a.plans, cd_offset, n);
    lemma_little_is_left(a.plans, cd_offset, n);
    assert forall|j: int| 0 <= j < qs.len() implies {
        let q = #[trigger] qs[j];
        let p = a.plans[kept(a.plans)[q.cd_index]];
        let old_data = p.lhf_offset + p.lhf_header_size;
        let new_data = q.lhf_offset + q.lhf_header_size;
        &&& new_data <= old_data <= new_data + 3
        &&& q.lhf_offset <= p.lhf_offset
    } by {
        lemma_moved_data(content, a, qs, j);
    }
}

/// How far the data of an entry has moved.
#[verifier::spinoff_prover]
proof fn lemma_moved_data(content: Seq<u8>, a: ArchiveModel, qs: Seq<EntryPlanModel>, j: int)
    requires
        a.ok(),
        a.on(content),
        has_room(a.plans),
        inplace_written(content, a).reads_as(qs),
        0 <= j < qs.len(),
    ensures
        ({
            let q = qs[j];
            let p = a.plans[kept(a.plans)[q.cd_index]];
            let old_data = p.lhf_offset + p.lhf_header_size;
            let new_data = q.lhf_offset + q.lhf_header_size;
            &&& new_data <= old_data <= new_data + 3
            &&& q.lhf_offset <= p.lhf_offset
        }),
{
    let cd_offset = a.info.cd_offset as int;
    let k = kept(a.plans)[qs[j].cd_index];
    lemma_read_place(content, a, qs, j);
    assert(entry_ok(a.plans[k]));
    law_no_header_moves_back(a.plans, cd_offset, k);
    lemma_little_is_left(a.plans, cd_offset, k);
}

/// All that the local header of an entry gets in addition, in a file that is cleaned in place, is
/// one field of zeros with the identifier 0xFFFF, before its other extra fields.
pub proof fn law_only_padding_is_added(content: Seq<u8>, opts: OptionsModel, a: ArchiveModel)
    requires
        content.len() <= u64::MAX,
        job_outcome(content, content.len() as u64, opts) == Ok::<ArchiveModel, ErrorModel>(a),
        last_end_record(
            inplace_file(content, a),
            inplace_file(content, a).len() - 22 - a.info.archive_comment.len(),
        ),
    ensures
        ({
            let out = inplace_file(content, a);
            job_outcome(out, out.len() as u64, raw_options()) matches Ok(b) && forall|j: int|
                0 <= j < b.plans.len() ==> {
                    let q = #[trigger] b.plans[j];
                    let extra = header_of(
                        content,
                        a.plans[kept(a.plans)[q.cd_index]],
                    ).extra;
                    let new_extra = header_of(out, q).extra;
                    let added = new_extra.len() - extra.len();
                    &&& new_extra.skip(added) == extra
                    &&& added == 0 || begins_with_padding(new_extra, added)
                }
        }),
{
    let out = inplace_file(content, a);
    lemma_inplace_plans(content, opts, a);
    let qs = job_outcome(out, out.len() as u64, raw_options())->Ok_0.plans;
    assert forall|j: int| 0 <= j < qs.len() implies {
        let q = #[trigger] qs[j];
        let extra = header_of(content, a.plans[kept(a.plans)[q.cd_index]]).extra;
        let new_extra = header_of(out, q).extra;
        let added = new_extra.len() - extra.len();
        &&& new_extra.skip(added) == extra
        &&& added == 0 || begins_with_padding(new_extra, added)
    } by {
        assert(entry_on(out, qs[j]));
        lemma_extra_written(content, a, qs, j);
        lemma_padding_added(content, a, kept(a.plans)[qs[j].cd_index]);
    }
}

/// The extra area of a local header as it is read.
#[verifier::rlimit(20)]
proof fn lemma_extra_written(content: Seq<u8>, a: ArchiveModel, qs: Seq<EntryPlanModel>, j: int)
    requires
        a.ok(),
        a.on(content),
        inplace_written(content, a).reads_as(qs),
        0 <= j < qs.len(),
        entry_on(inplace_file(content, a), qs[j]),
    ensures
        ({
            let k = kept(a.plans)[qs[j].cd_index];
            let p = a.plans[k];
            &&& 0 <= k < a.plans.len()
            &&& header_of(inplace_file(content, a), qs[j]).extra == inplace_extra(
                header_of(content, p),
                p,
                place_after(a.plans, k).carry,
            )
        }),
{
    let k = kept(a.plans)[qs[j].cd_index];
    lemma_read_place(content, a, qs, j);
    lemma_extra_at(content, a, k);
}

/// Where an entry is read.
proof fn lemma_read_place(content: Seq<u8>, a: ArchiveModel, qs: Seq<EntryPlanModel>, j: int)
    requires
        a.ok(),
        inplace_written(content, a).reads_as(qs),
        0 <= j < qs.len(),
    ensures
        ({
            let q = qs[j];
            let k = kept(a.plans)[q.cd_index];
            &&& 0 <= k < a.plans.len()
            &&& !a.plans[k].excluded
            &&& q.lhf_offset == place_at(a.plans, k)
            &&& q.orig_fname == a.plans[k].new_fname
            &&& q.lhf_extra_len == inplace_ext(a.plans, k)
            &&& q.lhf_header_size == 30 + a.plans[k].new_fname.len() + inplace_ext(a.plans, k)
        }),
{
    let w = inplace_written(content, a);
    law_kept_entries(a.plans);
    let k = w.plan(qs[j].cd_index);
    assert(k == kept(a.plans)[qs[j].cd_index]);
    law_no_header_moves_back(a.plans, a.info.cd_offset as int, k);
}

/// The extra area of a local header as it is written.
proof fn lemma_extra_at(content: Seq<u8>, a: ArchiveModel, k: int)
    requires
        a.ok(),
        a.on(content),
        0 <= k < a.plans.len(),
        !a.plans[k].excluded,
    ensures
        ({
            let p = a.plans[k];
            let from = place_at(a.plans, k) + 30 + p.new_fname.len();
            let extra = inplace_extra(
                header_of(content, p),
                p,
                place_after(a.plans, k).carry,
            );
            &&& extra.len() == inplace_ext(a.plans, k)
            &&& inplace_file(content, a).subrange(from, from + extra.len()) == extra
        }),
{
    let out = inplace_file(content, a);
    let p = a.plans[k];
    let carry = place_after(a.plans, k).carry;
    assert(entry_ok(p));
    assert(entry_on(content, p));
    lemma_inplace_bytes(content, a, k);
    let h = header_of(content, p);
    assert(h.header.len() == 30 && h.extra.len() == p.lhf_extra_len);
    lemma_inplace_header(h, p, carry);
    let extra = inplace_extra(h, p, carry);
    let fixed = patched_local_header(
        h.header,
        flags_with_bit11(u16_at(h.header, 6), p.new_bit11_set),
        p.new_fname.len() as u16,
        extra.len() as u16,
    );
    assert(fixed.len() == 30);
    lemma_middle(
        out,
        place_at(a.plans, k),
        inplace_header(h, p, carry) + payload_of(content, p),
        fixed,
        p.new_fname,
        extra,
        payload_of(content, p),
    );
}

/// The third of four parts that stand in a file.
proof fn lemma_middle(
    file: Seq<u8>,
    off: int,
    all: Seq<u8>,
    first: Seq<u8>,
    second: Seq<u8>,
    third: Seq<u8>,
    fourth: Seq<u8>,
)
    requires
        0 <= off,
        off + all.len() <= file.len(),
        file.subrange(off, off + all.len()) == all,
        all == first + second + third + fourth,
    ensures
        file.subrange(
            off + first.len() + second.len(),
            off + first.len() + second.len() + third.len(),
        ) == third,
{
    let from = (first.len() + second.len()) as int;
    assert(file.subrange(off + from, off + from + third.len()) =~= all.subrange(
        from,
        from + third.len(),
    ));
    assert(all.subrange(from, from + third.len()) =~= third);
}

proof fn lemma_padding_added(content: Seq<u8>, a: ArchiveModel, k: int)
    requires
        a.ok(),
        a.on(content),
        0 <= k < a.plans.len(),
    ensures
        ({
            let p = a.plans[k];
            let extra = header_of(content, p).extra;
            let new_extra = inplace_extra(
                header_of(content, p),
                p,
                place_after(a.plans, k).carry,
            );
            let added = new_extra.len() - extra.len();
            &&& new_extra.skip(added) == extra
            &&& added == 0 || begins_with_padding(new_extra, added)
        }),
{
    let p = a.plans[k];
    let carry = place_after(a.plans, k).carry;
    let h = header_of(content, p);
    assert(entry_ok(p));
    assert(entry_on(content, p));
    lemma_place(a.plans, a.info.cd_offset as int, k);
    let extra = inplace_extra(h, p, carry);
    if pads(p, carry) {
        let absorb = absorbed(p, carry);
        assert forall|i: int| 4 <= i < absorb implies #[trigger] extra[i] == 0 by {
            law_padding_field(absorb, i);
            assert(extra[i] == padding_field(absorb)[i]);
        }
        law_padding_field(absorb, 0);
        assert(extra.skip(absorb) =~= h.extra);
    } else {
        assert(extra.skip(0) =~= h.extra);
    }
}

/// The entries of a file that was cleaned in place stand in the order in which they stood.
pub proof fn law_cleaned_file_keeps_the_order(content: Seq<u8>, opts: OptionsModel, a: ArchiveModel)
    requires
        content.len() <= u64::MAX,
        job_outcome(content, content.len() as u64, opts) == Ok::<ArchiveModel, ErrorModel>(a),
        last_end_record(
            inplace_file(content, a),
            inplace_file(content, a).len() - 22 - a.info.archive_comment.len(),
        ),
    ensures
        ({
            let out = inplace_file(content, a);
            job_outcome(out, out.len() as u64, raw_options()) matches Ok(b) && forall|
                i: int,
                j: int,
            |
                0 <= i < j < b.plans.len() ==> a.plans[kept(
                    a.plans,
                )[(#[trigger] b.plans[i]).cd_index]].lhf_offset < a.plans[kept(
                    a.plans,
                )[(#[trigger] b.plans[j]).cd_index]].lhf_offset
        }),
{
    let out = inplace_file(content, a);
    lemma_inplace_plans(content, opts, a);
    let qs = job_outcome(out, out.len() as u64, raw_options())->Ok_0.plans;
    assert forall|i: int, j: int| 0 <= i < j < qs.len() implies a.plans[kept(
        a.plans,
    )[(#[trigger] qs[i]).cd_index]].lhf_offset < a.plans[kept(
        a.plans,
    )[(#[trigger] qs[j]).cd_index]].lhf_offset by {
        lemma_places_in_order(content, a, qs, i, j);
    }
}

/// The entries that stay keep their order in the file.
proof fn lemma_places_in_order(
    content: Seq<u8>,
    a: ArchiveModel,
    qs: Seq<EntryPlanModel>,
    i: int,
    j: int,
)
    requires
        a.ok(),
        a.on(content),
        inplace_written(content, a).reads_as(qs),
        layout_ok(qs, inplace_info(a).cd_offset as int),
        0 <= i < j < qs.len(),
    ensures
        a.plans[kept(a.plans)[qs[i].cd_index]].lhf_offset < a.plans[kept(
            a.plans,
        )[qs[j].cd_index]].lhf_offset,
{
    let w = inplace_written(content, a);
    let cd_offset = a.info.cd_offset as int;
    law_kept_entries(a.plans);
    let k = w.plan(qs[i].cd_index);
    let l = w.plan(qs[j].cd_index);
    assert(k == kept(a.plans)[qs[i].cd_index] && l == kept(a.plans)[qs[j].cd_index]);
    assert(entry_ok(qs[i]));
    lemma_offsets_rise(qs, inplace_info(a).cd_offset as int, i, j);
    law_no_header_moves_back(a.plans, cd_offset, k);
    law_no_header_moves_back(a.plans, cd_offset, l);
    if l < k {
        lemma_inplace_entry(content, a, l, k);
        lemma_place(a.plans, cd_offset, k);
    } else if k < l {
        assert(entry_ok(a.plans[k]));
        lemma_offsets_rise(a.plans, cd_offset, k, l);
    }
}

/// The entries of a new archive stand in the order in which they stood.
#[verifier::spinoff_prover]
pub proof fn law_new_archive_keeps_the_order(
    content: Seq<u8>,
    file_len: u64,
    opts: OptionsModel,
    a: ArchiveModel,
)
    requires
        job_outcome(content, file_len, opts) == Ok::<ArchiveModel, ErrorModel>(a),
        ends_are_plain(new_archive(content, a), new_info(a)),
    ensures
        ({
            let out = new_archive(content, a);
            job_outcome(out, out.len() as u64, raw_options()) matches Ok(b) && forall|
                i: int,
                j: int,
            |
                0 <= i < j < b.plans.len() ==> a.plans[kept(
                    a.plans,
                )[(#[trigger] b.plans[i]).cd_index]].lhf_offset < a.plans[kept(
                    a.plans,
                )[(#[trigger] b.plans[j]).cd_index]].lhf_offset
        }),
{
    let cd_offset = a.info.cd_offset as int;
    let out = new_archive(content, a);
    law_job(content, file_len, opts);
    law_kept_entries(a.plans);
    lemma_new_offsets(a.plans, cd_offset);
    lemma_raw_keeps_names(a.plans);
    lemma_new_read(content, a, raw_options());
    law_job(out, out.len() as u64, raw_options());
    let qs = plans_outcome(out, new_info(a), raw_options())->Ok_0;
    assert forall|i: int, j: int| 0 <= i < j < qs.len() implies a.plans[kept(
        a.plans,
    )[(#[trigger] qs[i]).cd_index]].lhf_offset < a.plans[kept(
        a.plans,
    )[(#[trigger] qs[j]).cd_index]].lhf_offset by {
        lemma_new_in_order(content, a, qs, i, j);
    }
}

/// The entries of a new archive keep their order.
proof fn lemma_new_in_order(
    content: Seq<u8>,
    a: ArchiveModel,
    qs: Seq<EntryPlanModel>,
    i: int,
    j: int,
)
    requires
        a.ok(),
        new_written(content, a).reads_as(qs),
        layout_ok(qs, new_info(a).cd_offset as int),
        0 <= i < j < qs.len(),
    ensures
        a.plans[kept(a.plans)[qs[i].cd_index]].lhf_offset < a.plans[kept(
            a.plans,
        )[qs[j].cd_index]].lhf_offset,
{
    let cd_offset = a.info.cd_offset as int;
    law_kept_entries(a.plans);
    lemma_new_places(content, a, qs);
    let k = kept(a.plans)[qs[i].cd_index];
    let l = kept(a.plans)[qs[j].cd_index];
    assert(entry_ok(qs[i]));
    lemma_offsets_rise(qs, new_info(a).cd_offset as int, i, j);
    if l <= k {
        lemma_body_rises(a.plans, cd_offset, l, k);
    } else {
        assert(entry_ok(a.plans[k]));
        lemma_offsets_rise(a.plans, cd_offset, k, l);
    }
}

/// The bytes of an entry that is dropped stay in a file that is changed in place, at most three
/// bytes before where they stood.
#[verifier::spinoff_prover]
pub proof fn law_dropped_bytes_stay(
    content: Seq<u8>,
    file_len: u64,
    opts: OptionsModel,
    a: ArchiveModel,
    k: int,
)
    requires
        job_outcome(content, file_len, opts) == Ok::<ArchiveModel, ErrorModel>(a),
        has_room(a.plans),
        0 <= k < a.plans.len(),
        opts.excludes(a.plans[k].orig_fname),
    ensures
        exists|at: int|
            a.plans[k].lhf_offset - 3 <= at <= a.plans[k].lhf_offset && 0 <= at
                && #[trigger] inplace_file(content, a).subrange(at, at + a.plans[k].span_size)
                == content.subrange(
                a.plans[k].lhf_offset,
                a.plans[k].lhf_offset + a.plans[k].span_size,
            ),
{
    let n = a.plans.len() as int;
    let p = a.plans[k];
    let at = place_at(a.plans, k);
    let cd_offset = a.info.cd_offset as int;
    law_job(content, file_len, opts);
    law_built_plans(content, a.info, opts);
    assert(follows_options(p, opts));
    assert(entry_ok(p));
    assert(entry_on(content, p));
    lemma_place(a.plans, cd_offset, k);
    lemma_little_is_left(a.plans, cd_offset, k);
    lemma_front_ops(content, a, n);
    lemma_inplace_entry(content, a, k, n);
    let front = inplace_front(content, a, n);
    assert(inplace_file(content, a).subrange(at, at + p.span_size) =~= front.subrange(
        at,
        at + p.span_size,
    ));
}

/// Up to the first entry that gets another name or another flag, a file that is changed in place
/// stays as it is, byte for byte, whatever entries are dropped there.
#[verifier::spinoff_prover]
pub proof fn law_front_stays(
    content: Seq<u8>,
    file_len: u64,
    opts: OptionsModel,
    a: ArchiveModel,
    k: int,
)
    requires
        job_outcome(content, file_len, opts) == Ok::<ArchiveModel, ErrorModel>(a),
        0 <= k < a.plans.len(),
        forall|i: int|
            0 <= i < k ==> {
                let p = #[trigger] a.plans[i];
                let flags = u16_at(p.cd_header, 8);
                opts.excludes(p.orig_fname) || {
                    &&& new_name_outcome(p.orig_fname, flags, p.entry_no() as u64, opts) == Ok::<
                        (Seq<u8>, bool),
                        ErrorModel,
                    >((p.orig_fname, flags & 0x0800 != 0))
                    &&& (u16_at(content, p.lhf_offset + 6) & 0x0800 != 0) == (flags & 0x0800 != 0)
                }
            },
    ensures
        inplace_file(content, a).take(a.plans[k].lhf_offset) == content.take(
            a.plans[k].lhf_offset,
        ),
{
    let n = a.plans.len() as int;
    let off = a.plans[k].lhf_offset;
    law_job(content, file_len, opts);
    law_built_plans(content, a.info, opts);
    assert forall|i: int| 0 <= i < k implies (#[trigger] a.plans[i]).excluded || is_settled_entry(
        content,
        a.plans[i],
    ) by {
        let p = a.plans[i];
        assert(follows_options(p, opts));
        assert(entry_ok(p));
        assert(entry_on(content, p));
        lemma_read_part(content, p.lhf_offset, p.lhf_offset + 30, 6);
    }
    assert(entry_ok(a.plans[k]));
    assert(entry_on(content, a.plans[k]));
    lemma_places_stay(content, a, k);
    lemma_front_stays(content, a, k);
    lemma_front_grows(content, a, k, n);
    lemma_front_ops(content, a, n);
    let front = inplace_front(content, a, n);
    assert(inplace_file(content, a).take(off) =~= front.take(off));
}

/// An entry with nothing to do, and one that is dropped, stand in the changed file as they were.
proof fn lemma_entry_stays(content: Seq<u8>, a: ArchiveModel, k: int)
    requires
        a.ok(),
        a.on(content),
        0 <= k < a.plans.len(),
        a.plans[k].excluded || is_settled_entry(content, a.plans[k]),
    ensures
        inplace_entry(content, a.headers[k], a.plans[k], 0) == content.subrange(
            a.plans[k].lhf_offset,
            a.plans[k].lhf_offset + a.plans[k].span_size,
        ),
{
    if !a.plans[k].excluded {
        lemma_settled_entry(content, a, k);
    }
}

/// Nothing moves before the first change.
proof fn lemma_places_stay(content: Seq<u8>, a: ArchiveModel, k: int)
    requires
        a.ok(),
        0 <= k < a.plans.len(),
        forall|i: int|
            0 <= i < k ==> (#[trigger] a.plans[i]).excluded || is_settled_entry(
                content,
                a.plans[i],
            ),
    ensures
        place_after(a.plans, k).pos == a.plans[k].lhf_offset,
        place_after(a.plans, k).carry == 0,
        k > 0 ==> place_at(a.plans, k - 1) == a.plans[k - 1].lhf_offset,
    decreases k,
{
    if k > 0 {
        let p = a.plans[k - 1];
        lemma_places_stay(content, a, k - 1);
        assert(p.lhf_offset + p.span_size == span_end(a.plans, a.info.cd_offset as int, k - 1));
    }
}

/// Where an entry ends, the next one begins.
proof fn lemma_next_entry(content: Seq<u8>, a: ArchiveModel, k: int)
    requires
        a.ok(),
        a.on(content),
        0 < k < a.plans.len(),
    ensures
        0 <= a.plans[k - 1].lhf_offset <= a.plans[k].lhf_offset <= content.len(),
        a.plans[k - 1].lhf_offset + a.plans[k - 1].span_size == a.plans[k].lhf_offset,
{
    let p = a.plans[k - 1];
    assert(entry_ok(p));
    assert(entry_on(content, p));
    assert(p.lhf_offset + p.span_size == span_end(a.plans, a.info.cd_offset as int, k - 1));
}

proof fn lemma_append(file: Seq<u8>, off: int, end: int)
    requires
        0 <= off <= end <= file.len(),
    ensures
        file.take(off) + file.subrange(off, off) + file.subrange(off, end) == file.take(end),
{
    assert(file.take(off) + file.subrange(off, off) + file.subrange(off, end) =~= file.take(end));
}

/// The bytes before the first change stay.
#[verifier::spinoff_prover]
proof fn lemma_front_stays(content: Seq<u8>, a: ArchiveModel, k: int)
    requires
        a.ok(),
        a.on(content),
        0 <= k < a.plans.len(),
        forall|i: int|
            0 <= i < k ==> (#[trigger] a.plans[i]).excluded || is_settled_entry(
                content,
                a.plans[i],
            ),
    ensures
        inplace_front(content, a, k) == content.take(a.plans[k].lhf_offset),
    decreases k,
{
    lemma_places_stay(content, a, k);
    if k > 0 {
        lemma_places_stay(content, a, k - 1);
        lemma_front_stays(content, a, k - 1);
        lemma_front_step(content, a, k);
        assert(a.plans[k - 1].excluded || is_settled_entry(content, a.plans[k - 1]));
        lemma_entry_stays(content, a, k - 1);
        lemma_next_entry(content, a, k);
        lemma_append(content, a.plans[k - 1].lhf_offset, a.plans[k].lhf_offset);
    }
}

/// What stands at the front of a file that is changed in place stands there to the end.
proof fn lemma_front_grows(content: Seq<u8>, a: ArchiveModel, k: int, n: int)
    requires
        a.ok(),
        a.on(content),
        0 <= k <= n <= a.plans.len(),
    ensures
        inplace_front(content, a, k).len() <= inplace_front(content, a, n).len(),
        inplace_front(content, a, n).take(inplace_front(content, a, k).len() as int)
            == inplace_front(content, a, k),
    decreases n,
{
    let first = inplace_front(content, a, k);
    if k < n {
        lemma_front_grows(content, a, k, n - 1);
        lemma_front_step(content, a, n);
        let before = inplace_front(content, a, n - 1);
        assert(inplace_front(content, a, n).take(first.len() as int) =~= before.take(
            first.len() as int,
        ));
    } else {
        assert(first.take(first.len() as int) =~= first);
    }
}

} // verus!
