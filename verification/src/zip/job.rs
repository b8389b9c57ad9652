//! An archive with a plan for each of its entries, ready to be rewritten.

use super::bytes::{read_u16, read_u32};
use super::eocd::{archive_outcome, find_archive_info, ArchiveInfo};
use super::error::{outcome, ErrorModel, Result};
use super::inplace::{build_fast_ops, build_ops, fast_ops, inplace_ops, op_models, FileOp, OpModel};
use super::layout::{
    cd_len_sum, cd_total, entry_ok, entry_on, header_of, headers_of, info_ok, law_archive_info,
    law_built_plans, lemma_header_read, ArchiveModel,
};
use super::local_header::LocalHeader;
use super::options::{Options, OptionsModel};
use super::order::ints;
use super::plan::{
    build_plans, cd_order, cd_positions, lemma_cd_index_faults, models, plans_outcome,
    resolve_lfh_offset, span_end, EntryPlan, EntryPlanModel,
};
use super::report::{dry_run_report, report_text};
use super::write_new::{archive_of, build_segments, new_segments, segment_models, Segment};
use super::CENTRAL_DIR_SIG;
use crate::text::same_bytes;
use vstd::prelude::*;
use vstd::utf8::encode_utf8;

verus! {

/// An archive whose end records, central directory and local headers have been read.
#[derive(Debug)]
pub struct Job {
    info: ArchiveInfo,
    plans: Vec<EntryPlan>,
    headers: Vec<LocalHeader>,
}

impl View for Job {
    type V = ArchiveModel;

    closed spec fn view(&self) -> ArchiveModel {
        archive_of(self.info, self.plans@, self.headers@)
    }
}

/// The archive that the first `file_len` bytes of `content` hold, with its plans.
pub open spec fn job_outcome(
    content: Seq<u8>,
    file_len: u64,
    opts: OptionsModel,
) -> core::result::Result<ArchiveModel, ErrorModel> {
    match archive_outcome(content, file_len) {
        Err(e) => Err(e),
        Ok(info) => match plans_outcome(content, info, opts) {
            Err(e) => Err(e),
            Ok(plans) => Ok(
                ArchiveModel { info, plans, headers: headers_of(content, plans) },
            ),
        },
    }
}

/// Whether a plan leaves its entry as it is.
pub open spec fn leaves_alone(p: EntryPlanModel) -> bool {
    !p.excluded && p.new_fname == p.orig_fname && !p.needs_bit11
}

/// Whether there is nothing to do.
pub open spec fn is_clean(plans: Seq<EntryPlanModel>) -> bool {
    forall|k: int| 0 <= k < plans.len() ==> leaves_alone(#[trigger] plans[k])
}

/// The changes of a file in place: none in a dry run or where there is nothing to do, and in the
/// fast mode those that rewrite only the central directory.
pub open spec fn file_changes(a: ArchiveModel, opts: OptionsModel) -> Seq<OpModel> {
    if opts.dry_run || is_clean(a.plans) {
        Seq::empty()
    } else if opts.fast {
        fast_ops(a)
    } else {
        inplace_ops(a)
    }
}

/// An archive that was read from a file fits together, and the file holds it.
pub proof fn law_job(content: Seq<u8>, file_len: u64, opts: OptionsModel)
    ensures
        job_outcome(content, file_len, opts) matches Ok(a) ==> a.ok() && a.on(content),
{
    if let Ok(a) = job_outcome(content, file_len, opts) {
        law_archive_info(content, file_len);
        law_built_plans(content, a.info, opts);
        assert forall|k: int| 0 <= k < a.plans.len() implies (
        #[trigger] a.headers[k]).header.len() == 30 && a.headers[k].extra.len()
            == a.plans[k].lhf_extra_len by {
            assert(entry_ok(a.plans[k]));
            assert(entry_on(content, a.plans[k]));
            lemma_header_read(content, a.plans[k]);
        }
    }
}

impl Job {
    #[verifier::type_invariant]
    spec fn fits_together(self) -> bool {
        self@.ok()
    }

    /// Reads the archive that the first `file_len` bytes of `content` hold.
    pub fn open(content: &[u8], file_len: u64, opts: &Options) -> (r: Result<Job>)
        ensures
            outcome(r) == job_outcome(content@, file_len, opts@),
            r matches Ok(job) ==> job@.ok() && job@.on(content@),
    {
        let info = match find_archive_info(content, file_len) {
            Ok(info) => info,
            Err(e) => return Err(e),
        };
        let plans = match build_plans(content, &info, opts) {
            Ok(plans) => plans,
            Err(e) => return Err(e),
        };
        proof {
            law_job(content@, file_len, opts@);
        }
        let headers = read_headers(content, &plans);
        assert(archive_of(info, plans@, headers@) == job_outcome(content@, file_len, opts@)->Ok_0);
        Ok(Job { info, plans, headers })
    }

    /// Puts an archive together from its parts, if they fit together.
    pub fn assemble(info: ArchiveInfo, plans: Vec<EntryPlan>, headers: Vec<LocalHeader>) -> (r:
        Option<Job>)
        ensures
            match r {
                Some(job) => job@ == archive_of(info, plans@, headers@) && job@.ok(),
                None => !archive_of(info, plans@, headers@).ok(),
            },
    {
        if parts_fit(&info, &plans, &headers) {
            Some(Job { info, plans, headers })
        } else {
            None
        }
    }

    /// The plans, in the order in which the entries stand in the file.
    pub fn plans(&self) -> (plans: &Vec<EntryPlan>)
        ensures
            models(plans@) == self@.plans,
    {
        &self.plans
    }

    /// Whether there is nothing to do.
    pub fn nothing_to_do(&self) -> (r: bool)
        ensures
            r == is_clean(self@.plans),
    {
        let mut k: usize = 0;
        while k < self.plans.len()
            invariant
                k <= self.plans.len(),
                forall|i: int| 0 <= i < k ==> leaves_alone(#[trigger] self@.plans[i]),
            decreases self.plans.len() - k,
        {
            let p = &self.plans[k];
            assert(self@.plans[k as int] == p@);
            if p.excluded || p.needs_bit11 || !same_bytes(
                p.new_fname.as_slice(),
                p.orig_fname.as_slice(),
            ) {
                return false;
            }
            k += 1;
        }
        true
    }

    /// Writes to `out` what would be done.
    pub fn report(&self, out: &mut Vec<u8>)
        ensures
            final(out)@ == old(out)@ + encode_utf8(report_text(self@.plans)),
    {
        proof {
            use_type_invariant(&*self);
            assert forall|k: int| 0 <= k < self.plans@.len() implies (
            #[trigger] self.plans@[k]).excluded || self.plans@[k].new_fname@.len()
                <= self.plans@[k].orig_fname@.len() by {
                assert(self@.plans[k] == self.plans@[k]@);
                assert(entry_ok(self@.plans[k]));
            }
        }
        let r = dry_run_report(self.plans.as_slice(), out);
        assert(r is Ok);
    }

    /// The parts of a new archive of the entries that stay.
    pub fn segments(&self) -> (segments: Vec<Segment>)
        ensures
            segment_models(segments@) == new_segments(self@),
    {
        proof {
            use_type_invariant(&*self);
        }
        build_segments(&self.info, &self.plans, &self.headers)
    }

    /// The changes of the file that are to be made.
    pub fn changes(&self, opts: &Options) -> (ops: Vec<FileOp>)
        ensures
            op_models(ops@) == file_changes(self@, opts@),
    {
        proof {
            use_type_invariant(&*self);
        }
        if opts.dry_run || self.nothing_to_do() {
            let ops: Vec<FileOp> = Vec::new();
            assert(op_models(ops@) =~= Seq::empty());
            ops
        } else if opts.fast {
            build_fast_ops(&self.info, &self.plans, &self.headers)
        } else {
            build_ops(&self.info, &self.plans, &self.headers)
        }
    }
}

/// Whether the parts of an archive fit together.
fn parts_fit(info: &ArchiveInfo, plans: &Vec<EntryPlan>, headers: &Vec<LocalHeader>) -> (r: bool)
    ensures
        r == archive_of(*info, plans@, headers@).ok(),
{
    let ghost a = archive_of(*info, plans@, headers@);
    if !end_fits(info) || plans.len() as u64 != info.total_entries || headers.len()
        != plans.len() {
        return false;
    }
    let mut k: usize = 0;
    while k < plans.len()
        invariant
            k <= plans.len(),
            headers@.len() == plans@.len(),
            a == archive_of(*info, plans@, headers@),
            forall|i: int| 0 <= i < k ==> #[trigger] entry_ok(a.plans[i]),
            forall|i: int|
                0 <= i < k ==> (#[trigger] a.plans[i]).lhf_offset + a.plans[i].span_size
                    == span_end(a.plans, info.cd_offset as int, i),
            forall|i: int|
                0 <= i < k ==> (#[trigger] a.headers[i]).header.len() == 30
                    && a.headers[i].extra.len() == a.plans[i].lhf_extra_len,
        decreases plans.len() - k,
    {
        let p = &plans[k];
        let end: u64 = if k + 1 < plans.len() {
            plans[k + 1].lhf_offset
        } else {
            info.cd_offset
        };
        proof {
            assert(a.plans[k as int] == p@);
            assert(a.headers[k as int] == headers@[k as int]@);
            if k + 1 < plans.len() {
                assert(a.plans[k + 1] == plans@[k + 1]@);
            }
        }
        if !entry_fits(p) || end < p.lhf_offset || end - p.lhf_offset != p.span_size
            || headers[k].extra.len() != p.lhf_extra_len as usize {
            assert(!(entry_ok(a.plans[k as int]) && a.plans[k as int].lhf_offset
                + a.plans[k as int].span_size == span_end(a.plans, info.cd_offset as int, k as int)
                && a.headers[k as int].extra.len() == a.plans[k as int].lhf_extra_len));
            return false;
        }
        k += 1;
    }
    proof {
        lemma_cd_index_faults(a.plans, a.plans.len() as int);
    }
    match cd_order(plans.as_slice()) {
        Err(_) => false,
        Ok(order) => {
            assert(ints(order@).len() == order@.len());
            directory_size(plans, &order) == info.cd_size as u128
        },
    }
}

/// Whether an archive with these end records can be written again.
fn end_fits(info: &ArchiveInfo) -> (r: bool)
    ensures
        r == info_ok(info@),
{
    let comment_len: usize = info.archive_comment.len();
    comment_len <= 0xFFFF && if info.is_zip64 {
        info.cd_offset as u128 + info.cd_size as u128 + 98 + comment_len as u128
            <= u64::MAX as u128
    } else {
        info.cd_offset < 0xFFFF_FFFF && info.cd_size < 0xFFFF_FFFF && info.total_entries < 0xFFFF
    }
}

/// Whether the parts of an entry fit together.
fn entry_fits(p: &EntryPlan) -> (r: bool)
    ensures
        r == entry_ok(p@),
{
    if read_u32(&p.cd_header, 0) != CENTRAL_DIR_SIG || read_u16(&p.cd_header, 28) as usize
        != p.orig_fname.len() || read_u16(&p.cd_header, 30) as usize != p.cd_extra.len()
        || read_u16(&p.cd_header, 32) as usize != p.cd_comment.len() || p.new_fname.len()
        > p.orig_fname.len() {
        return false;
    }
    if p.lhf_header_size != 30 + p.orig_fname.len() as u64 + p.lhf_extra_len as u64
        || p.lhf_header_size > p.span_size {
        return false;
    }
    match resolve_lfh_offset(
        read_u32(&p.cd_header, 20),
        read_u32(&p.cd_header, 24),
        read_u32(&p.cd_header, 42),
        p.cd_extra.as_slice(),
        0,
    ) {
        Ok((offset, in_zip64)) => offset == p.lhf_offset && in_zip64 == p.lhf_offset_in_zip64_extra,
        Err(_) => false,
    }
}

/// The number of bytes that the entries take in the central directory.
fn directory_size(plans: &Vec<EntryPlan>, order: &Vec<usize>) -> (size: u128)
    requires
        ints(order@) == cd_positions(models(plans@)),
        order@.len() == plans@.len(),
        forall|c: int| 0 <= c < order@.len() ==> #[trigger] order@[c] < plans@.len(),
        forall|k: int| 0 <= k < plans@.len() ==> #[trigger] entry_ok(models(plans@)[k]),
    ensures
        size == cd_total(models(plans@)),
{
    let ghost ms = models(plans@);
    let ghost all = cd_positions(ms).map_values(|k: int| ms[k]);
    let mut size: u128 = 0;
    let mut c: usize = 0;
    assert(all.take(0) =~= Seq::empty());
    while c < order.len()
        invariant
            c <= order.len(),
            ms == models(plans@),
            all == cd_positions(ms).map_values(|k: int| ms[k]),
            ints(order@) == cd_positions(ms),
            order@.len() == plans@.len(),
            forall|c: int| 0 <= c < order@.len() ==> #[trigger] order@[c] < plans@.len(),
            forall|k: int| 0 <= k < plans@.len() ==> #[trigger] entry_ok(ms[k]),
            size == cd_len_sum(all.take(c as int)),
            size <= c * 0x4_0000,
        decreases order.len() - c,
    {
        let k: usize = order[c];
        let p = &plans[k];
        proof {
            assert(ints(order@)[c as int] == k);
            assert(all[c as int] == p@);
            assert(entry_ok(ms[k as int]));
            assert(all.take(c + 1).drop_last() =~= all.take(c as int));
        }
        size = size + 46 + p.orig_fname.len() as u128 + p.cd_extra.len() as u128
            + p.cd_comment.len() as u128;
        c += 1;
    }
    assert(all.take(c as int) =~= all);
    size
}

/// Reads the local headers of an archive.
fn read_headers(content: &[u8], plans: &Vec<EntryPlan>) -> (headers: Vec<LocalHeader>)
    requires
        forall|k: int| 0 <= k < plans@.len() ==> #[trigger] entry_ok(models(plans@)[k]),
        forall|k: int| 0 <= k < plans@.len() ==> entry_on(content@, #[trigger] models(plans@)[k]),
    ensures
        headers@.map_values(|h: LocalHeader| h@) == headers_of(content@, models(plans@)),
{
    let ghost ms = models(plans@);
    let mut headers: Vec<LocalHeader> = Vec::new();
    let mut k: usize = 0;
    while k < plans.len()
        invariant
            k <= plans.len(),
            ms == models(plans@),
            forall|k: int| 0 <= k < plans@.len() ==> #[trigger] entry_ok(ms[k]),
            forall|k: int| 0 <= k < plans@.len() ==> entry_on(content@, #[trigger] ms[k]),
            headers@.len() == k,
            forall|i: int| 0 <= i < k ==> (#[trigger] headers@[i])@ == header_of(content@, ms[i]),
        decreases plans.len() - k,
    {
        let p = &plans[k];
        proof {
            assert(ms[k as int] == p@);
            assert(entry_ok(ms[k as int]));
            lemma_header_read(content@, p@);
        }
        match LocalHeader::read(content, p.lhf_offset, p.cd_index as u128 + 1) {
            Ok(header) => {
                headers.push(header);
            },
            Err(_) => {
                assert(false);
            },
        }
        k += 1;
    }
    assert(headers@.map_values(|h: LocalHeader| h@) =~= headers_of(content@, ms));
    headers
}

} // verus!
