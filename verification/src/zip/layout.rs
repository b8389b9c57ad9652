//! What holds of the plans that are made for an archive.

use super::bytes::{lemma_read_part, u16_at, u32_at};
use super::eocd::{
    archive_outcome, eocd_outcome, last_eocd, lemma_last_eocd, search_from, ArchiveInfoModel,
};
use super::local_header::{local_header_outcome, LocalHeaderModel};
use super::names::{law_new_name, new_name_outcome};
use super::options::OptionsModel;
use super::order::{lemma_stable_order, stable_order};
use super::plan::{
    cd_bytes_of, cd_entries_outcome, cd_entry_outcome, cd_indexed, cd_positions, from_offset,
    in_file_order, lemma_cd_index_taken, lfh_offset_outcome, local_plan_outcome,
    local_plans_outcome, offsets, plan_at_cd_index, plans_outcome, span_end, spans_outcome,
    with_span, EntryPlanModel,
};
use super::{has_bit11, CENTRAL_DIR_SIG, LOCAL_FILE_HEADER_SIG};
use vstd::prelude::*;

verus! {

/// Whether the parts of an entry of the central directory fit together.
pub open spec fn cd_entry_ok(p: EntryPlanModel) -> bool {
    &&& 0 <= p.cd_index
    &&& 0 <= p.lhf_offset <= u64::MAX
    &&& p.cd_header.len() == 46
    &&& u32_at(p.cd_header, 0) == CENTRAL_DIR_SIG
    &&& u16_at(p.cd_header, 28) == p.orig_fname.len()
    &&& u16_at(p.cd_header, 30) == p.cd_extra.len()
    &&& u16_at(p.cd_header, 32) == p.cd_comment.len()
    &&& p.new_fname.len() <= p.orig_fname.len()
    &&& lfh_offset_outcome(
        u32_at(p.cd_header, 20),
        u32_at(p.cd_header, 24),
        u32_at(p.cd_header, 42),
        p.cd_extra,
        p.entry_no(),
    ) == Ok::<(u64, bool), Seq<char>>((p.lhf_offset as u64, p.lhf_offset_in_zip64_extra))
}

/// Whether an entry is dropped, and named, as the options say.
pub open spec fn follows_options(p: EntryPlanModel, opts: OptionsModel) -> bool {
    let flags = u16_at(p.cd_header, 8);
    &&& p.excluded == opts.excludes(p.orig_fname)
    &&& new_name_outcome(p.orig_fname, flags, p.entry_no() as u64, opts) == Ok::<
        (Seq<u8>, bool),
        super::error::ErrorModel,
    >((p.new_fname, p.new_bit11_set))
    &&& p.needs_bit11 == (!has_bit11(flags) && p.new_bit11_set)
}

/// Whether the sizes in a plan fit together.
pub open spec fn entry_ok(p: EntryPlanModel) -> bool {
    &&& cd_entry_ok(p)
    &&& 0 <= p.lhf_extra_len <= 0xFFFF
    &&& p.lhf_header_size == 30 + p.orig_fname.len() + p.lhf_extra_len
    &&& p.lhf_header_size <= p.span_size
}

/// Whether the entries stand one behind another up to the central directory, and each has a place
/// of its own in it.
pub open spec fn layout_ok(plans: Seq<EntryPlanModel>, cd_offset: int) -> bool {
    &&& cd_indexed(plans)
    &&& forall|k: int| 0 <= k < plans.len() ==> #[trigger] entry_ok(plans[k])
    &&& forall|k: int|
        0 <= k < plans.len() ==> (#[trigger] plans[k]).lhf_offset + plans[k].span_size == span_end(
            plans,
            cd_offset,
            k,
        )
}

/// The local header that a plan speaks of.
pub open spec fn header_of(content: Seq<u8>, p: EntryPlanModel) -> LocalHeaderModel {
    LocalHeaderModel {
        header: content.subrange(p.lhf_offset, p.lhf_offset + 30),
        extra: content.subrange(
            p.lhf_offset + 30 + p.orig_fname.len(),
            p.lhf_offset + p.lhf_header_size,
        ),
    }
}

/// The local headers of an archive.
pub open spec fn headers_of(content: Seq<u8>, plans: Seq<EntryPlanModel>) -> Seq<LocalHeaderModel> {
    plans.map_values(|p: EntryPlanModel| header_of(content, p))
}

/// The data of an entry, with what follows it up to the next local header.
pub open spec fn payload_of(content: Seq<u8>, p: EntryPlanModel) -> Seq<u8> {
    content.subrange(p.lhf_offset + p.lhf_header_size, p.lhf_offset + p.span_size)
}

/// Whether the file holds the entry that a plan speaks of.
pub open spec fn entry_on(content: Seq<u8>, p: EntryPlanModel) -> bool {
    &&& p.lhf_offset + p.span_size <= content.len()
    &&& u32_at(content, p.lhf_offset) == LOCAL_FILE_HEADER_SIG
    &&& u16_at(content, p.lhf_offset + 26) == p.orig_fname.len()
    &&& u16_at(content, p.lhf_offset + 28) == p.lhf_extra_len
    &&& content.subrange(p.lhf_offset + 30, p.lhf_offset + 30 + p.orig_fname.len()) == p.orig_fname
}

/// Whether the plans are laid out up to the central directory, and the file holds their entries.
pub open spec fn layout_on(content: Seq<u8>, plans: Seq<EntryPlanModel>, cd_offset: int) -> bool {
    &&& layout_ok(plans, cd_offset)
    &&& 0 <= cd_offset <= content.len()
    &&& forall|k: int| 0 <= k < plans.len() ==> entry_on(content, #[trigger] plans[k])
}

/// The number of bytes that the entries take in the central directory.
pub open spec fn cd_len_sum(entries: Seq<EntryPlanModel>) -> int
    decreases entries.len(),
{
    if entries.len() == 0 {
        0
    } else {
        cd_len_sum(entries.drop_last()) + entries.last().cd_len()
    }
}

/// The number of bytes that the planned entries take in the central directory.
pub open spec fn cd_total(plans: Seq<EntryPlanModel>) -> int {
    cd_len_sum(cd_positions(plans).map_values(|k: int| plans[k]))
}

/// Whether an archive with these end records can be written again.
pub open spec fn info_ok(info: ArchiveInfoModel) -> bool {
    &&& info.archive_comment.len() <= 0xFFFF
    &&& if info.is_zip64 {
        info.cd_offset + info.cd_size + 98 + info.archive_comment.len() <= u64::MAX
    } else {
        info.cd_offset < 0xFFFF_FFFF && info.cd_size < 0xFFFF_FFFF && info.total_entries < 0xFFFF
    }
}

/// An archive: where its central directory stands, its plans and its local headers.
#[verifier::ext_equal]
pub struct ArchiveModel {
    pub info: ArchiveInfoModel,
    pub plans: Seq<EntryPlanModel>,
    pub headers: Seq<LocalHeaderModel>,
}

impl ArchiveModel {
    /// Whether the parts fit together.
    pub open spec fn ok(self) -> bool {
        &&& layout_ok(self.plans, self.info.cd_offset as int)
        &&& self.plans.len() == self.info.total_entries
        &&& cd_total(self.plans) == self.info.cd_size
        &&& info_ok(self.info)
        &&& self.headers.len() == self.plans.len()
        &&& forall|k: int|
            0 <= k < self.plans.len() ==> (#[trigger] self.headers[k]).header.len() == 30
                && self.headers[k].extra.len() == self.plans[k].lhf_extra_len
    }

    /// Whether the file holds this archive.
    pub open spec fn on(self, content: Seq<u8>) -> bool {
        &&& layout_on(content, self.plans, self.info.cd_offset as int)
        &&& self.headers == headers_of(content, self.plans)
    }
}

/// The end records of a file speak of a central directory within it, and of a comment behind it
/// that they can hold.
pub proof fn law_archive_info(content: Seq<u8>, file_len: u64)
    ensures
        archive_outcome(content, file_len) matches Ok(info) ==> {
            &&& info_ok(info)
            &&& file_len <= content.len()
            &&& info.cd_offset + info.cd_size + (if info.is_zip64 {
                98int
            } else {
                22
            }) + info.archive_comment.len() <= file_len
        },
{
    reveal(eocd_outcome);
    if let Ok(info) = archive_outcome(content, file_len) {
        let from = search_from(file_len as int);
        let tail = content.subrange(from, file_len as int);
        lemma_last_eocd(tail, tail.len() - 21);
        let p = last_eocd(tail, tail.len() - 21)->0;
        let eocd = tail.subrange(p, p + 22);
        lemma_read_part(tail, p, p + 22, 20);
        assert(u16_at(eocd, 20) == u16_at(tail, p + 20));
    }
}

pub proof fn lemma_cd_entry(cd: Seq<u8>, pos: int, cd_index: int, opts: OptionsModel)
    requires
        0 <= pos,
        0 <= cd_index,
    ensures
        cd_entry_outcome(cd, pos, cd_index, opts) matches Ok(e) ==> cd_entry_ok(e)
            && follows_options(e, opts) && e.cd_index == cd_index && pos + e.cd_len() <= cd.len(),
{
    reveal(cd_entry_outcome);
    if let Ok(e) = cd_entry_outcome(cd, pos, cd_index, opts) {
        law_new_name(e.orig_fname, u16_at(e.cd_header, 8), (cd_index + 1) as u64, opts);
    }
}

proof fn lemma_sum_front(front: EntryPlanModel, rest: Seq<EntryPlanModel>)
    ensures
        cd_len_sum(seq![front] + rest) == front.cd_len() + cd_len_sum(rest),
    decreases rest.len(),
{
    if rest.len() == 0 {
        reveal_with_fuel(cd_len_sum, 2);
        assert((seq![front] + rest).drop_last() =~= Seq::empty());
    } else {
        lemma_sum_front(front, rest.drop_last());
        assert((seq![front] + rest).drop_last() =~= seq![front] + rest.drop_last());
    }
}

pub proof fn lemma_cd_entries(
    cd: Seq<u8>,
    pos: int,
    index: int,
    total: int,
    cd_size: int,
    opts: OptionsModel,
)
    requires
        0 <= pos,
        0 <= index <= total,
    ensures
        cd_entries_outcome(cd, pos, index, total, cd_size, opts) matches Ok(es) ==> {
            &&& es.len() == total - index
            &&& pos + cd_len_sum(es) == cd_size
            &&& es.len() > 0 ==> pos + 46 <= cd.len()
            &&& forall|j: int|
                0 <= j < es.len() ==> cd_entry_ok(#[trigger] es[j]) && follows_options(es[j], opts)
                    && es[j].cd_index == index + j
        },
    decreases total - index,
{
    if index < total {
        lemma_cd_entry(cd, pos, index, opts);
        if let Ok(e) = cd_entry_outcome(cd, pos, index, opts) {
            lemma_cd_entries(cd, pos + e.cd_len(), index + 1, total, cd_size, opts);
            if let Ok(rest) = cd_entries_outcome(
                cd,
                pos + e.cd_len(),
                index + 1,
                total,
                cd_size,
                opts,
            ) {
                lemma_sum_front(e, rest);
            }
        }
    }
}

/// What reading the local headers of some entries gives for each of them.
pub proof fn lemma_local_plans(content: Seq<u8>, entries: Seq<EntryPlanModel>, n: int)
    requires
        0 <= n <= entries.len(),
    ensures
        local_plans_outcome(content, entries, n) matches Ok(ps) ==> ps.len() == n && forall|k: int|
            0 <= k < n ==> local_plan_outcome(
                entries[k],
                from_offset(content, entries[k].lhf_offset),
            ) == Ok::<EntryPlanModel, super::error::ErrorModel>(#[trigger] ps[k]),
    decreases n,
{
    if n > 0 {
        lemma_local_plans(content, entries, n - 1);
    }
}

/// What giving plans their numbers of bytes does to each of them.
pub proof fn lemma_spans(plans: Seq<EntryPlanModel>, cd_offset: int, n: int)
    requires
        0 <= n <= plans.len(),
    ensures
        spans_outcome(plans, cd_offset, n) matches Ok(qs) ==> {
            &&& qs.len() == n
            &&& forall|k: int|
                0 <= k < n ==> #[trigger] qs[k] == with_span(plans, cd_offset, k)
                    && plans[k].lhf_offset + plans[k].lhf_header_size <= span_end(
                    plans,
                    cd_offset,
                    k,
                )
        },
    decreases n,
{
    if n > 0 {
        lemma_spans(plans, cd_offset, n - 1);
        if let Ok(qs) = spans_outcome(plans, cd_offset, n) {
            let front = spans_outcome(plans, cd_offset, n - 1)->Ok_0;
            assert forall|k: int| 0 <= k < n implies plans[k].lhf_offset + plans[k].lhf_header_size
                <= span_end(plans, cd_offset, k) && #[trigger] qs[k] == with_span(
                plans,
                cd_offset,
                k,
            ) by {
                if k < n - 1 {
                    assert(qs[k] == front[k]);
                }
            }
        }
    }
}

/// The offsets of local headers rise, by at least the size of a header.
pub proof fn lemma_offsets_rise(plans: Seq<EntryPlanModel>, cd_offset: int, k: int, l: int)
    requires
        layout_ok(plans, cd_offset),
        0 <= k <= l < plans.len(),
    ensures
        plans[k].lhf_offset <= plans[l].lhf_offset,
        plans[l].lhf_offset + plans[l].span_size <= cd_offset,
        k < l ==> plans[k].lhf_offset + plans[k].span_size <= plans[l].lhf_offset,
    decreases plans.len() - k,
{
    assert(entry_ok(plans[k]));
    assert(entry_ok(plans[l]));
    if k < l {
        assert(entry_ok(plans[k + 1]));
        lemma_offsets_rise(plans, cd_offset, k + 1, l);
    } else if l + 1 < plans.len() {
        lemma_offsets_rise(plans, cd_offset, l + 1, plans.len() - 1);
        assert(entry_ok(plans[l + 1]));
        assert(plans[l].lhf_offset + plans[l].span_size == span_end(plans, cd_offset, l));
        lemma_last_before(plans, cd_offset, l + 1);
    }
}

proof fn lemma_last_before(plans: Seq<EntryPlanModel>, cd_offset: int, k: int)
    requires
        layout_ok(plans, cd_offset),
        0 <= k < plans.len(),
    ensures
        plans[k].lhf_offset + plans[k].span_size <= cd_offset,
    decreases plans.len() - k,
{
    assert(entry_ok(plans[k]));
    if k + 1 < plans.len() {
        lemma_last_before(plans, cd_offset, k + 1);
        assert(entry_ok(plans[k + 1]));
    }
}

/// What is true of an entry of the central directory stays true when its local header is read.
proof fn lemma_read_local(content: Seq<u8>, e: EntryPlanModel, opts: OptionsModel)
    requires
        cd_entry_ok(e),
        follows_options(e, opts),
    ensures
        local_plan_outcome(e, from_offset(content, e.lhf_offset)) matches Ok(p) ==> {
            &&& cd_entry_ok(p)
            &&& follows_options(p, opts)
            &&& p.cd_index == e.cd_index
            &&& p.lhf_offset == e.lhf_offset
            &&& p.cd_len() == e.cd_len()
            &&& 0 <= p.lhf_extra_len <= 0xFFFF
            &&& p.lhf_header_size == 30 + p.orig_fname.len() + p.lhf_extra_len
            &&& p.lhf_offset + p.span_size <= content.len() && p.lhf_header_size <= p.span_size
                ==> entry_on(content, p)
            &&& forall|span: int|
                p.lhf_offset + span <= content.len() && p.lhf_header_size <= span ==> entry_on(
                    content,
                    #[trigger] respanned(p, span),
                )
        },
{
    let at = from_offset(content, e.lhf_offset);
    if let Ok(p) = local_plan_outcome(e, at) {
        assert(at.subrange(30, 30 + u16_at(at, 26)) =~= content.subrange(
            e.lhf_offset + 30,
            e.lhf_offset + 30 + u16_at(at, 26),
        ));
    }
}

/// A plan with another number of bytes.
spec fn respanned(p: EntryPlanModel, span: int) -> EntryPlanModel {
    EntryPlanModel { span_size: span, ..p }
}

/// The plans that are made for an archive fit together, follow the options, and speak of what the
/// file holds.
pub proof fn law_built_plans(content: Seq<u8>, info: ArchiveInfoModel, opts: OptionsModel)
    ensures
        plans_outcome(content, info, opts) matches Ok(plans) ==> {
            &&& plans.len() == info.total_entries
            &&& cd_total(plans) == info.cd_size
            &&& layout_ok(plans, info.cd_offset as int)
            &&& plans.len() > 0 || info.cd_offset <= content.len() ==> layout_on(
                content,
                plans,
                info.cd_offset as int,
            )
            &&& forall|k: int| 0 <= k < plans.len() ==> follows_options(#[trigger] plans[k], opts)
        },
{
    if let Ok(plans) = plans_outcome(content, info, opts) {
        let cd = cd_bytes_of(content, info);
        let total = info.total_entries as int;
        let cd_offset = info.cd_offset as int;
        lemma_cd_entries(cd, 0, 0, total, info.cd_size as int, opts);
        let entries = cd_entries_outcome(cd, 0, 0, total, info.cd_size as int, opts)->Ok_0;
        let sorted = in_file_order(entries);
        lemma_stable_order(offsets(entries));
        let order = stable_order(offsets(entries));
        lemma_local_plans(content, sorted, entries.len() as int);
        let ps = local_plans_outcome(content, sorted, entries.len() as int)->Ok_0;
        lemma_spans(ps, cd_offset, ps.len() as int);
        assert(plans.len() > 0 ==> cd_offset <= content.len());
        assert(plans.len() == total && ps.len() == total && order.len() == total);
        assert forall|k: int| 0 <= k < plans.len() implies {
            &&& ps[k].cd_index == order[k]
            &&& ps[k].lhf_offset == sorted[k].lhf_offset
            &&& cd_entry_ok(#[trigger] ps[k])
            &&& follows_options(ps[k], opts)
            &&& 0 <= ps[k].lhf_extra_len <= 0xFFFF
            &&& ps[k].lhf_header_size == 30 + ps[k].orig_fname.len() + ps[k].lhf_extra_len
            &&& forall|span: int|
                ps[k].lhf_offset + span <= content.len() && ps[k].lhf_header_size <= span
                    ==> entry_on(content, #[trigger] respanned(ps[k], span))
        } by {
            assert(sorted[k] == entries[order[k]]);
            lemma_read_local(content, sorted[k], opts);
        }
        lemma_spanned(content, ps, cd_offset, opts, order);
        let by_index = cd_positions(plans).map_values(|k: int| plans[k]);
        assert forall|c: int| 0 <= c < total implies (#[trigger] by_index[c]).cd_len()
            == entries[c].cd_len() by {
            lemma_cd_index_taken(plans, c);
            let k = plan_at_cd_index(plans, c);
            assert(plans[k] == with_span(ps, cd_offset, k));
            assert(cd_entry_ok(ps[k]));
            assert(order[k] == c);
            lemma_read_local(content, sorted[k], opts);
        }
        lemma_same_sum(by_index, entries);
    }
}

/// Lists of entries with the same sizes have the same sum.
proof fn lemma_same_sum(a: Seq<EntryPlanModel>, b: Seq<EntryPlanModel>)
    requires
        a.len() == b.len(),
        forall|k: int| 0 <= k < a.len() ==> (#[trigger] a[k]).cd_len() == b[k].cd_len(),
    ensures
        cd_len_sum(a) == cd_len_sum(b),
    decreases a.len(),
{
    if a.len() > 0 {
        assert forall|k: int| 0 <= k < a.drop_last().len() implies (
        #[trigger] a.drop_last()[k]).cd_len() == b.drop_last()[k].cd_len() by {
            assert(a[k].cd_len() == b[k].cd_len());
        }
        lemma_same_sum(a.drop_last(), b.drop_last());
        assert(a[a.len() - 1].cd_len() == b[a.len() - 1].cd_len());
    }
}

/// Plans with their numbers of bytes fit together where the plans without do.
proof fn lemma_spanned(
    content: Seq<u8>,
    ps: Seq<EntryPlanModel>,
    cd_offset: int,
    opts: OptionsModel,
    order: Seq<int>,
)
    requires
        order.len() == ps.len(),
        order.no_duplicates(),
        forall|k: int| 0 <= k < ps.len() ==> 0 <= #[trigger] order[k] < ps.len(),
        0 <= cd_offset,
        ps.len() > 0 ==> cd_offset <= content.len(),
        forall|k: int|
            0 <= k < ps.len() ==> {
                &&& ps[k].cd_index == order[k]
                &&& cd_entry_ok(#[trigger] ps[k])
                &&& follows_options(ps[k], opts)
                &&& 0 <= ps[k].lhf_extra_len <= 0xFFFF
                &&& ps[k].lhf_header_size == 30 + ps[k].orig_fname.len() + ps[k].lhf_extra_len
                &&& forall|span: int|
                    ps[k].lhf_offset + span <= content.len() && ps[k].lhf_header_size <= span
                        ==> entry_on(content, #[trigger] respanned(ps[k], span))
            },
    ensures
        spans_outcome(ps, cd_offset, ps.len() as int) matches Ok(plans) ==> {
            &&& layout_ok(plans, cd_offset)
            &&& plans.len() > 0 || cd_offset <= content.len() ==> layout_on(
                content,
                plans,
                cd_offset,
            )
            &&& forall|k: int| 0 <= k < plans.len() ==> follows_options(#[trigger] plans[k], opts)
        },
{
    lemma_spans(ps, cd_offset, ps.len() as int);
    if let Ok(plans) = spans_outcome(ps, cd_offset, ps.len() as int) {
        assert forall|k: int| 0 <= k < plans.len() implies {
            &&& #[trigger] entry_ok(plans[k])
            &&& follows_options(plans[k], opts)
            &&& plans[k].lhf_offset + plans[k].span_size == span_end(plans, cd_offset, k)
            &&& plans[k].cd_index == order[k]
        } by {
            assert(plans[k] == with_span(ps, cd_offset, k));
            assert(cd_entry_ok(ps[k]));
            if k + 1 < plans.len() {
                assert(plans[k + 1] == with_span(ps, cd_offset, k + 1));
            }
        }
        assert(cd_indexed(plans)) by {
            assert forall|k: int| 0 <= k < plans.len() implies 0 <= #[trigger] plans[k].cd_index
                < plans.len() by {
                assert(entry_ok(plans[k]));
            }
            assert forall|k: int, l: int| 0 <= k < l < plans.len() implies #[trigger] plans[k].cd_index
                != #[trigger] plans[l].cd_index by {
                assert(entry_ok(plans[k]));
                assert(entry_ok(plans[l]));
            }
        }
        assert forall|k: int| 0 <= k < plans.len() implies (#[trigger] plans[k]).lhf_offset
            + plans[k].span_size == span_end(plans, cd_offset, k) by {
            assert(entry_ok(plans[k]));
        }
        assert(layout_ok(plans, cd_offset));
        if plans.len() > 0 || cd_offset <= content.len() {
            assert forall|k: int| 0 <= k < plans.len() implies entry_on(
                content,
                #[trigger] plans[k],
            ) by {
                assert(entry_ok(plans[k]));
                lemma_last_before(plans, cd_offset, k);
                assert(plans[k] == with_span(ps, cd_offset, k));
                assert(plans[k] == respanned(ps[k], plans[k].span_size));
                assert(cd_entry_ok(ps[k]));
            }
        }
    }
}

/// Where the file holds the entry of a plan, its local header can be read.
pub proof fn lemma_header_read(content: Seq<u8>, p: EntryPlanModel)
    requires
        entry_ok(p),
        entry_on(content, p),
    ensures
        local_header_outcome(from_offset(content, p.lhf_offset), p.lhf_offset, p.entry_no()) == Ok::<
            LocalHeaderModel,
            super::error::ErrorModel,
        >(header_of(content, p)),
        header_of(content, p).header.len() == 30,
        header_of(content, p).extra.len() == p.lhf_extra_len,
{
    let at = from_offset(content, p.lhf_offset);
    let h = header_of(content, p);
    assert(at.take(30) =~= h.header);
    assert(u16_at(at, 26) == u16_at(content, p.lhf_offset + 26));
    assert(u16_at(at, 28) == u16_at(content, p.lhf_offset + 28));
    assert(u32_at(at, 0) == u32_at(content, p.lhf_offset));
    if p.lhf_extra_len == 0 {
        assert(h.extra =~= Seq::empty());
    } else {
        assert(at.subrange(
            30 + p.orig_fname.len() as int,
            30 + p.orig_fname.len() + p.lhf_extra_len,
        ) =~= h.extra);
    }
}

} // verus!
