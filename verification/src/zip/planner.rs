//! The plan for an archive in a file that is read piece by piece.

use super::bytes::{array_30, lemma_read_part, read_u16, read_u32, u16_at, u32_at};
use super::eocd::{
    archive_outcome, bytes_at, eocd_multi_disk, eocd_outcome, find_eocd, is_eocd_at, last_eocd,
    lemma_last_eocd, locator_outcome, parse_end_record, parse_zip64_eocd, parse_zip64_locator,
    search_from, search_start, zip64_outcome, ArchiveInfo, ArchiveInfoModel, EndRecord,
};
use super::error::{
    end_of_input, invalid, outcome, ArchiveError, ArchiveErrorModel, Error, ErrorModel, Result,
    UnsupportedModel,
};
use super::job::{job_outcome, law_job, Job};
use super::layout::{header_of, headers_of, lemma_local_plans, lemma_spans, ArchiveModel};
use super::local_header::{LocalHeader, LocalHeaderModel};
use super::options::{Options, OptionsModel};
use super::order::{ints, lemma_stable_order};
use super::plan::{
    assign_spans, cd_bytes_of, entry_error, file_order, from_offset, in_file_order,
    lemma_local_plans_fail, lfh_outcome, local_plan_outcome, local_plans_outcome, models, offsets,
    plan_entry, plans_outcome, read_cd_entries, spans_outcome, tail_from, with_span, EntryPlan,
    EntryPlanModel,
};
use super::write_new::archive_of;
use super::LOCAL_FILE_HEADER_SIG;
use vstd::prelude::*;
use vstd::slice::{slice_subrange, slice_to_vec};

verus! {

/// As many of the `len` bytes of a file from `offset` on as it has.
pub open spec fn window(content: Seq<u8>, offset: int, len: int) -> Seq<u8> {
    let rest = from_offset(content, offset);
    if len <= rest.len() {
        rest.take(len)
    } else {
        rest
    }
}

/// How far the reading has come.
#[derive(Debug)]
enum Stage {
    /// The end of the file is next.
    Tail,
    /// The ZIP64 locator is next.
    Locator { comment: Vec<u8>, offset: u64 },
    /// The ZIP64 end record is next.
    Zip64 { comment: Vec<u8>, locator_offset: u64, offset: u64 },
    /// The central directory is next.
    Directory { info: ArchiveInfo },
    /// The fixed part of a local header is next.
    Fixed {
        info: ArchiveInfo,
        entries: Vec<EntryPlan>,
        plans: Vec<EntryPlan>,
        headers: Vec<LocalHeader>,
    },
    /// A local header of `len` bytes is next.
    Full {
        info: ArchiveInfo,
        entries: Vec<EntryPlan>,
        plans: Vec<EntryPlan>,
        headers: Vec<LocalHeader>,
        len: u64,
    },
    /// All has been read.
    Done { info: ArchiveInfo, plans: Vec<EntryPlan>, headers: Vec<LocalHeader> },
}

/// Reads an archive from a file of which it asks for one piece after another.
#[derive(Debug)]
pub struct Planner {
    file_len: u64,
    opts: Options,
    stage: Stage,
}

/// The archive with these end records, with its plans.
pub open spec fn planned(
    info: core::result::Result<ArchiveInfoModel, ErrorModel>,
    content: Seq<u8>,
    opts: OptionsModel,
) -> core::result::Result<ArchiveModel, ErrorModel> {
    match info {
        Err(e) => Err(e),
        Ok(info) => match plans_outcome(content, info, opts) {
            Err(e) => Err(e),
            Ok(plans) => Ok(ArchiveModel { info, plans, headers: headers_of(content, plans) }),
        },
    }
}

/// The archive with these entries, in the order in which they stand in the file.
pub open spec fn planned_entries(
    info: ArchiveInfoModel,
    entries: Seq<EntryPlanModel>,
    content: Seq<u8>,
) -> core::result::Result<ArchiveModel, ErrorModel> {
    match local_plans_outcome(content, entries, entries.len() as int) {
        Err(e) => Err(e),
        Ok(ps) => match spans_outcome(ps, info.cd_offset as int, ps.len() as int) {
            Err(e) => Err(e),
            Ok(plans) => Ok(ArchiveModel { info, plans, headers: headers_of(content, plans) }),
        },
    }
}

/// The end records behind a ZIP64 end record at `offset`.
spec fn zip64_at(
    content: Seq<u8>,
    offset: u64,
    locator_offset: u64,
    comment: Seq<u8>,
    file_len: u64,
) -> core::result::Result<ArchiveInfoModel, ErrorModel> {
    match bytes_at(content, offset as int, 56) {
        None => Err(end_of_input()),
        Some(rec) => zip64_outcome(rec, offset, locator_offset, comment, file_len),
    }
}

/// The end records behind a ZIP64 locator at `offset`.
spec fn locator_at(
    content: Seq<u8>,
    offset: u64,
    comment: Seq<u8>,
    file_len: u64,
) -> core::result::Result<ArchiveInfoModel, ErrorModel> {
    match bytes_at(content, offset as int, 20) {
        None => Err(end_of_input()),
        Some(loc) => match locator_outcome(loc) {
            Err(e) => Err(e),
            Ok(z64_offset) => zip64_at(content, z64_offset, offset, comment, file_len),
        },
    }
}

/// Whether a local header was read from a file: as much of it as the file has.
spec fn header_from(content: Seq<u8>, p: EntryPlanModel, h: LocalHeaderModel) -> bool {
    &&& h.header == window(content, p.lhf_offset, 30)
    &&& h.extra == window(
        content,
        p.lhf_offset + 30 + p.orig_fname.len(),
        p.lhf_extra_len,
    )
}

/// Whether the local headers that have been read are those of the file.
spec fn locals_from(
    content: Seq<u8>,
    entries: Seq<EntryPlanModel>,
    plans: Seq<EntryPlanModel>,
    headers: Seq<LocalHeaderModel>,
) -> bool {
    &&& plans.len() <= entries.len()
    &&& headers.len() == plans.len()
    &&& local_plans_outcome(content, entries, plans.len() as int) == Ok::<
        Seq<EntryPlanModel>,
        ErrorModel,
    >(plans)
    &&& forall|k: int|
        0 <= k < plans.len() ==> header_from(content, plans[k], #[trigger] headers[k])
}

spec fn header_models(headers: Seq<LocalHeader>) -> Seq<LocalHeaderModel> {
    headers.map_values(|h: LocalHeader| h@)
}

impl Stage {
    spec fn fate(self, content: Seq<u8>, file_len: u64, opts: OptionsModel) -> core::result::Result<
        ArchiveModel,
        ErrorModel,
    > {
        match self {
            Stage::Tail => job_outcome(content, file_len, opts),
            Stage::Locator { comment, offset } => planned(
                locator_at(content, offset, comment@, file_len),
                content,
                opts,
            ),
            Stage::Zip64 { comment, locator_offset, offset } => planned(
                zip64_at(content, offset, locator_offset, comment@, file_len),
                content,
                opts,
            ),
            Stage::Directory { info } => planned(Ok(info@), content, opts),
            Stage::Fixed { info, entries, .. } => planned_entries(
                info@,
                models(entries@),
                content,
            ),
            Stage::Full { info, entries, .. } => planned_entries(info@, models(entries@), content),
            Stage::Done { info, plans, headers } => Ok(archive_of(info, plans@, headers@)),
        }
    }

    spec fn sound(self, content: Seq<u8>, file_len: u64) -> bool {
        &&& content.len() == file_len
        &&& match self {
            Stage::Directory { info } => info.cd_offset <= file_len,
            Stage::Fixed { info, entries, plans, headers } => info.cd_offset <= file_len
                && locals_from(
                content,
                models(entries@),
                models(plans@),
                header_models(headers@),
            ),
            Stage::Full { info, entries, plans, headers, len } => {
                let off = models(entries@)[plans@.len() as int].lhf_offset;
                let at = from_offset(content, off);
                &&& info.cd_offset <= file_len
                &&& locals_from(content, models(entries@), models(plans@), header_models(headers@))
                &&& at.len() >= 30
                &&& u32_at(at, 0) == LOCAL_FILE_HEADER_SIG
                &&& len == 30 + u16_at(at, 26) + u16_at(at, 28)
            },
            _ => true,
        }
    }

    spec fn wants(self, file_len: u64) -> Option<(int, int)> {
        match self {
            Stage::Tail => Some(
                (search_from(file_len as int), file_len - search_from(file_len as int)),
            ),
            Stage::Locator { offset, .. } => Some((offset as int, 20int)),
            Stage::Zip64 { offset, .. } => Some((offset as int, 56int)),
            Stage::Directory { info } => Some((info.cd_offset as int, info.cd_size as int)),
            Stage::Fixed { entries, plans, .. } => Some(
                (entries@[plans@.len() as int].lhf_offset as int, 30int),
            ),
            Stage::Full { entries, plans, len, .. } => Some(
                (entries@[plans@.len() as int].lhf_offset as int, len as int),
            ),
            Stage::Done { .. } => None,
        }
    }

    /// Whether a local header is left to be read where one is to be read.
    spec fn in_order(self) -> bool {
        match self {
            Stage::Fixed { entries, plans, .. } => plans@.len() < entries@.len(),
            Stage::Full { entries, plans, .. } => plans@.len() < entries@.len(),
            _ => true,
        }
    }

    /// The number of pieces of other kinds that may be left, and the number of pieces of local
    /// headers.
    spec fn left(self) -> (int, int) {
        match self {
            Stage::Tail => (5, 0),
            Stage::Locator { .. } => (4, 0),
            Stage::Zip64 { .. } => (3, 0),
            Stage::Directory { .. } => (2, 0),
            Stage::Fixed { entries, plans, .. } => (1, 2 * (entries@.len() - plans@.len())),
            Stage::Full { entries, plans, .. } => (1, 2 * (entries@.len() - plans@.len()) - 1),
            Stage::Done { .. } => (0, 0),
        }
    }
}

/// Whether a step of the reading comes to what was to come, for this file.
spec fn step_ok(
    fate: core::result::Result<ArchiveModel, ErrorModel>,
    r: Result<Stage>,
    content: Seq<u8>,
    file_len: u64,
    opts: OptionsModel,
) -> bool {
    match r {
        Ok(stage) => stage.sound(content, file_len) && stage.fate(content, file_len, opts) == fate,
        Err(e) => fate == Err::<ArchiveModel, ErrorModel>(e@),
    }
}

/// A piece has its full length exactly where the file reaches that far.
proof fn lemma_window(content: Seq<u8>, offset: int, len: int)
    requires
        0 <= offset,
        0 < len,
    ensures
        window(content, offset, len).len() <= len,
        window(content, offset, len).len() == len <==> offset + len <= content.len(),
        offset + len <= content.len() ==> window(content, offset, len) == content.subrange(
            offset,
            offset + len,
        ),
{
    if offset + len <= content.len() {
        assert(from_offset(content, offset).take(len) =~= content.subrange(offset, offset + len));
    }
}

/// Reads the end of a file.
fn after_tail(file_len: u64, tail: &[u8]) -> (r: Result<Stage>)
    requires
        file_len >= 22,
    ensures
        r matches Ok(stage) ==> stage.in_order() && stage.left().0 < 5,
        forall|content: Seq<u8>, opts: OptionsModel|
            content.len() == file_len && tail@ == window(
                content,
                search_from(file_len as int),
                file_len - search_from(file_len as int),
            ) ==> step_ok(
                #[trigger] job_outcome(content, file_len, opts),
                r,
                content,
                file_len,
                opts,
            ),
{
    let from: u64 = search_start(file_len);
    if tail.len() as u64 != file_len - from {
        proof {
            assert forall|content: Seq<u8>| content.len() == file_len implies tail@ != window(
                content,
                from as int,
                file_len - from,
            ) by {
                lemma_window(content, from as int, file_len - from);
            }
        }
        return Err(Error::end_of_input());
    }
    let found = find_eocd(tail);
    proof {
        lemma_last_eocd(tail@, tail@.len() - 21);
        assert forall|content: Seq<u8>|
            content.len() == file_len && tail@ == window(
                content,
                from as int,
                file_len - from,
            ) implies #[trigger] archive_outcome(content, file_len) == tail_outcome(
            content,
            tail@,
            from,
            file_len,
        ) by {
            lemma_window(content, from as int, file_len - from);
        }
    }
    let p: usize = match found {
        Some(p) => p,
        None => return Err(Error::InvalidArchive(ArchiveError::EocdNotFound)),
    };
    let eocd = slice_subrange(tail, p, p + 22);
    let eocd_offset: u64 = from + p as u64;
    proof {
        lemma_read_part(tail@, p as int, p + 22, 20);
        assert forall|content: Seq<u8>|
            content.len() == file_len && tail@ == window(
                content,
                from as int,
                file_len - from,
            ) implies #[trigger] archive_outcome(content, file_len) == found_outcome(
            content,
            eocd@,
            eocd_offset,
            tail@.subrange(p + 22, tail@.len() as int),
            file_len,
        ) by {
            lemma_window(content, from as int, file_len - from);
            lemma_found_outcome(content, tail@, from, p as int, file_len);
        }
    }
    let record = match parse_end_record(eocd) {
        Ok(record) => record,
        Err(e) => return Err(e),
    };
    let comment = slice_to_vec(slice_subrange(tail, p + 22, tail.len()));
    assert(comment@ =~= tail@.subrange(p + 22, tail@.len() as int));
    if !record.needs_zip64() {
        return match record.plain_info(comment, eocd_offset, file_len) {
            Ok(info) => Ok(Stage::Directory { info }),
            Err(e) => Err(e),
        };
    }
    if eocd_offset < 20 {
        return Err(Error::invalid_archive("ZIP64 EOCD locator not found before EOCD"));
    }
    Ok(Stage::Locator { comment, offset: eocd_offset - 20 })
}

/// The end records that the end of a file leads to.
spec fn tail_outcome(
    content: Seq<u8>,
    tail: Seq<u8>,
    from: u64,
    file_len: u64,
) -> core::result::Result<ArchiveInfoModel, ErrorModel> {
    match last_eocd(tail, tail.len() - 21) {
        None => Err(ErrorModel::InvalidArchive(ArchiveErrorModel::EocdNotFound)),
        Some(p) => eocd_outcome(content, tail.subrange(p, p + 22), (from + p) as u64, file_len),
    }
}

/// The end records that an end record with its comment leads to.
spec fn found_outcome(
    content: Seq<u8>,
    eocd: Seq<u8>,
    eocd_offset: u64,
    comment: Seq<u8>,
    file_len: u64,
) -> core::result::Result<ArchiveInfoModel, ErrorModel> {
    let record = EndRecord::of(eocd);
    if eocd_multi_disk(eocd) {
        Err(ErrorModel::Unsupported(UnsupportedModel::MultiDisk))
    } else if !record.refers_to_zip64() {
        record.plain_outcome(comment, eocd_offset, file_len)
    } else if eocd_offset < 20 {
        Err(invalid("ZIP64 EOCD locator not found before EOCD"@))
    } else {
        locator_at(content, (eocd_offset - 20) as u64, comment, file_len)
    }
}

/// The comment of an end record that is found stands behind it in the end of the file.
proof fn lemma_found_outcome(content: Seq<u8>, tail: Seq<u8>, from: u64, p: int, file_len: u64)
    requires
        content.len() == file_len,
        tail == content.subrange(from as int, file_len as int),
        from <= file_len,
        is_eocd_at(tail, p),
    ensures
        eocd_outcome(content, tail.subrange(p, p + 22), (from + p) as u64, file_len)
            == found_outcome(
            content,
            tail.subrange(p, p + 22),
            (from + p) as u64,
            tail.subrange(p + 22, tail.len() as int),
            file_len,
        ),
{
    reveal(eocd_outcome);
    lemma_read_part(tail, p, p + 22, 20);
    let n = u16_at(tail, p + 20) as int;
    let comment = tail.subrange(p + 22, tail.len() as int);
    assert(content.subrange(from + p + 22, from + p + 22 + n) =~= comment);
    assert(n == 0 ==> comment =~= Seq::empty());
}

/// Reads a ZIP64 locator, which stands at `offset`.
fn after_locator(file_len: u64, comment: Vec<u8>, offset: u64, loc: &[u8]) -> (r: Result<Stage>)
    ensures
        r matches Ok(stage) ==> stage.in_order() && stage.left().0 < 4,
        forall|content: Seq<u8>, opts: OptionsModel|
            content.len() == file_len && loc@ == window(content, offset as int, 20) ==> step_ok(
                #[trigger] planned(
                    locator_at(content, offset, comment@, file_len),
                    content,
                    opts,
                ),
                r,
                content,
                file_len,
                opts,
            ),
{
    proof {
        assert forall|content: Seq<u8>|
            content.len() == file_len && loc@ == window(
                content,
                offset as int,
                20,
            ) implies #[trigger] bytes_at(content, offset as int, 20) == whole_piece(loc@, 20) by {
            lemma_window(content, offset as int, 20);
        }
    }
    if loc.len() != 20 {
        return Err(Error::end_of_input());
    }
    match parse_zip64_locator(loc) {
        Ok(z64_offset) => Ok(Stage::Zip64 { comment, locator_offset: offset, offset: z64_offset }),
        Err(e) => Err(e),
    }
}

/// A piece, if it has its full length.
spec fn whole_piece(piece: Seq<u8>, len: int) -> Option<Seq<u8>> {
    if piece.len() == len {
        Some(piece)
    } else {
        None
    }
}

/// Reads a ZIP64 end record, which stands at `offset`.
fn after_zip64(
    file_len: u64,
    comment: Vec<u8>,
    locator_offset: u64,
    offset: u64,
    rec: &[u8],
) -> (r: Result<Stage>)
    ensures
        r matches Ok(stage) ==> stage.in_order() && stage.left().0 < 3,
        forall|content: Seq<u8>, opts: OptionsModel|
            content.len() == file_len && rec@ == window(content, offset as int, 56) ==> step_ok(
                #[trigger] planned(
                    zip64_at(content, offset, locator_offset, comment@, file_len),
                    content,
                    opts,
                ),
                r,
                content,
                file_len,
                opts,
            ),
{
    proof {
        assert forall|content: Seq<u8>|
            content.len() == file_len && rec@ == window(
                content,
                offset as int,
                56,
            ) implies #[trigger] bytes_at(content, offset as int, 56) == whole_piece(rec@, 56) by {
            lemma_window(content, offset as int, 56);
        }
    }
    if rec.len() != 56 {
        return Err(Error::end_of_input());
    }
    match parse_zip64_eocd(rec, offset, locator_offset, comment, file_len) {
        Ok(info) => Ok(Stage::Directory { info }),
        Err(e) => Err(e),
    }
}

/// The listed entries.
fn pick(entries: &Vec<EntryPlan>, order: &Vec<usize>) -> (picked: Vec<EntryPlan>)
    requires
        forall|k: int| 0 <= k < order@.len() ==> #[trigger] order@[k] < entries@.len(),
    ensures
        models(picked@) == ints(order@).map_values(|i: int| models(entries@)[i]),
{
    let mut picked: Vec<EntryPlan> = Vec::new();
    let mut k: usize = 0;
    while k < order.len()
        invariant
            k <= order.len(),
            picked@.len() == k,
            forall|k: int| 0 <= k < order@.len() ==> #[trigger] order@[k] < entries@.len(),
            forall|j: int|
                0 <= j < k ==> (#[trigger] picked@[j])@ == models(entries@)[order@[j] as int],
        decreases order.len() - k,
    {
        picked.push(entries[order[k]].clone());
        k += 1;
    }
    assert(models(picked@) =~= ints(order@).map_values(|i: int| models(entries@)[i]));
    picked
}

/// Reads the central directory.
fn after_directory(file_len: u64, info: ArchiveInfo, cd: &[u8], opts: &Options) -> (r: Result<
    Stage,
>)
    ensures
        r matches Ok(stage) ==> stage.in_order() && stage.left().0 < 2,
        forall|content: Seq<u8>|
            content.len() == file_len && info.cd_offset <= file_len && cd@ == window(
                content,
                info.cd_offset as int,
                info.cd_size as int,
            ) ==> step_ok(
                #[trigger] planned(Ok(info@), content, opts@),
                r,
                content,
                file_len,
                opts@,
            ),
{
    if info.total_entries > usize::MAX as u64 {
        return Err(
            entry_error("too many Central Directory entries: ", info.total_entries as u128),
        );
    }
    proof {
        assert forall|content: Seq<u8>|
            content.len() == file_len && cd@ == window(
                content,
                info.cd_offset as int,
                info.cd_size as int,
            ) implies cd@ == #[trigger] cd_bytes_of(content, info@) by {}
    }
    let entries = match read_cd_entries(cd, info.cd_size, info.total_entries as usize, opts) {
        Ok(entries) => entries,
        Err(e) => return Err(e),
    };
    let order = file_order(&entries);
    let sorted = pick(&entries, &order);
    assert(models(sorted@) == in_file_order(models(entries@)));
    proof {
        lemma_stable_order(offsets(models(entries@)));
        assert(models(sorted@).len() == models(entries@).len());
        assert forall|content: Seq<u8>|
            content.len() == file_len && cd@ == window(
                content,
                info.cd_offset as int,
                info.cd_size as int,
            ) implies #[trigger] planned(Ok(info@), content, opts@) == planned_entries(
            info@,
            models(sorted@),
            content,
        ) by {}
    }
    let plans: Vec<EntryPlan> = Vec::new();
    let headers: Vec<LocalHeader> = Vec::new();
    assert(models(plans@) =~= Seq::empty());
    assert(header_models(headers@) =~= Seq::empty());
    after_header(file_len, info, sorted, plans, headers)
}

/// Goes on behind a local header: to the next one, or to the end where there is none.
fn after_header(
    file_len: u64,
    info: ArchiveInfo,
    entries: Vec<EntryPlan>,
    plans: Vec<EntryPlan>,
    headers: Vec<LocalHeader>,
) -> (r: Result<Stage>)
    ensures
        r matches Ok(stage) ==> stage.in_order() && (stage.left().0 == 0 || stage.left() == (
            1int,
            2 * (entries@.len() - plans@.len()),
        )),
        forall|content: Seq<u8>, opts: OptionsModel|
            content.len() == file_len && info.cd_offset <= file_len && locals_from(
                content,
                models(entries@),
                models(plans@),
                header_models(headers@),
            ) ==> #[trigger] step_ok(
                planned_entries(info@, models(entries@), content),
                r,
                content,
                file_len,
                opts,
            ),
{
    if plans.len() < entries.len() {
        return Ok(Stage::Fixed { info, entries, plans, headers });
    }
    let ghost ps = models(plans@);
    match assign_spans(plans, info.cd_offset) {
        Ok(done) => {
            proof {
                assert forall|content: Seq<u8>|
                    content.len() == file_len && info.cd_offset <= file_len
                        && #[trigger] locals_from(
                        content,
                        models(entries@),
                        ps,
                        header_models(headers@),
                    ) implies headers_of(content, models(done@)) == header_models(headers@) by {
                    lemma_headers_read(
                        content,
                        models(entries@),
                        ps,
                        header_models(headers@),
                        info.cd_offset as int,
                    );
                }
            }
            Ok(Stage::Done { info, plans: done, headers })
        },
        Err(e) => Err(e),
    }
}

/// Where every entry ends within the file, its whole local header has been read.
proof fn lemma_headers_read(
    content: Seq<u8>,
    entries: Seq<EntryPlanModel>,
    ps: Seq<EntryPlanModel>,
    headers: Seq<LocalHeaderModel>,
    cd_offset: int,
)
    requires
        locals_from(content, entries, ps, headers),
        cd_offset <= content.len(),
        spans_outcome(ps, cd_offset, ps.len() as int) is Ok,
        ps.len() == entries.len(),
        forall|k: int| 0 <= k < entries.len() ==> 0 <= (#[trigger] entries[k]).lhf_offset,
    ensures
        headers_of(content, spans_outcome(ps, cd_offset, ps.len() as int)->Ok_0) == headers,
{
    let qs = spans_outcome(ps, cd_offset, ps.len() as int)->Ok_0;
    lemma_local_plans(content, entries, ps.len() as int);
    lemma_spans(ps, cd_offset, ps.len() as int);
    assert forall|k: int| 0 <= k < ps.len() implies #[trigger] headers_of(content, qs)[k]
        == headers[k] by {
        assert(qs[k] == with_span(ps, cd_offset, k));
        assert(header_from(content, ps[k], headers[k]));
        assert(local_plan_outcome(
            entries[k],
            from_offset(content, entries[k].lhf_offset),
        ) == Ok::<EntryPlanModel, ErrorModel>(ps[k]));
        let p = ps[k];
        if k + 1 < ps.len() {
            assert(local_plan_outcome(
                entries[k + 1],
                from_offset(content, entries[k + 1].lhf_offset),
            ) == Ok::<EntryPlanModel, ErrorModel>(ps[k + 1]));
        }
        assert(p.lhf_offset + p.lhf_header_size <= content.len());
        lemma_window(content, p.lhf_offset, 30);
        let e = p.lhf_offset + 30 + p.orig_fname.len();
        if p.lhf_extra_len > 0 {
            lemma_window(content, e, p.lhf_extra_len);
        } else {
            assert(window(content, e, 0) =~= content.subrange(e, e));
        }
        assert(header_of(content, qs[k]) =~= headers[k]);
    }
    assert(headers_of(content, qs) =~= headers);
}

/// A failure to read one local header is the failure to read all of them.
proof fn lemma_local_fails(
    content: Seq<u8>,
    info: ArchiveInfoModel,
    entries: Seq<EntryPlanModel>,
    n: int,
)
    requires
        0 <= n < entries.len(),
        local_plans_outcome(content, entries, n) is Ok,
        local_plan_outcome(entries[n], from_offset(content, entries[n].lhf_offset)) is Err,
    ensures
        planned_entries(info, entries, content) == Err::<ArchiveModel, ErrorModel>(
            local_plan_outcome(
                entries[n],
                from_offset(content, entries[n].lhf_offset),
            )->Err_0,
        ),
{
    lemma_local_plans_fail(content, entries, n + 1, entries.len() as int);
}

/// What a local header says can be read from a piece that holds its fixed part and its name, and a
/// piece that does not hold its fixed part shows that it cannot be read.
proof fn lemma_lfh_window(content: Seq<u8>, offset: int, len: int, entry_no: int)
    requires
        0 <= offset,
        30 <= len,
    ensures
        ({
            let at = from_offset(content, offset);
            let piece = window(content, offset, len);
            &&& piece.len() >= 30 <==> at.len() >= 30
            &&& at.len() >= 30 ==> {
                &&& piece.take(30) == at.take(30)
                &&& u32_at(piece, 0) == u32_at(at, 0)
                &&& u16_at(piece, 26) == u16_at(at, 26)
                &&& u16_at(piece, 28) == u16_at(at, 28)
            }
            &&& at.len() < 30 || u32_at(at, 0) != LOCAL_FILE_HEADER_SIG || len >= 30 + u16_at(
                at,
                26,
            ) ==> lfh_outcome(piece, offset, entry_no) == lfh_outcome(at, offset, entry_no)
        }),
{
    let at = from_offset(content, offset);
    let piece = window(content, offset, len);
    if at.len() >= 30 {
        assert(piece.take(30) =~= at.take(30));
        let n = u16_at(at, 26) as int;
        if len >= 30 + n && at.len() >= 30 + n {
            assert(piece.subrange(30, 30 + n) =~= at.subrange(30, 30 + n));
        }
    }
}

/// Reads the fixed part of a local header.
fn after_fixed(
    file_len: u64,
    info: ArchiveInfo,
    entries: Vec<EntryPlan>,
    plans: Vec<EntryPlan>,
    headers: Vec<LocalHeader>,
    fixed: &[u8],
) -> (r: Result<Stage>)
    requires
        plans@.len() < entries@.len(),
    ensures
        r matches Ok(stage) ==> stage.in_order() && stage.left() == (
            1int,
            2 * (entries@.len() - plans@.len()) - 1,
        ),
        forall|content: Seq<u8>, opts: OptionsModel|
            content.len() == file_len && info.cd_offset <= file_len && locals_from(
                content,
                models(entries@),
                models(plans@),
                header_models(headers@),
            ) && fixed@ == window(
                content,
                entries@[plans@.len() as int].lhf_offset as int,
                30,
            ) ==> #[trigger] step_ok(
                planned_entries(info@, models(entries@), content),
                r,
                content,
                file_len,
                opts,
            ),
{
    let k: usize = plans.len();
    let entry = &entries[k];
    let ghost es = models(entries@);
    proof {
        assert(es[k as int] == entry@);
        assert forall|content: Seq<u8>|
            fixed@ == #[trigger] window(content, entry.lhf_offset as int, 30) implies {
            let at = from_offset(content, entry.lhf_offset as int);
            &&& fixed@.len() >= 30 <==> at.len() >= 30
            &&& at.len() >= 30 ==> {
                &&& u32_at(fixed@, 0) == u32_at(at, 0)
                &&& u16_at(fixed@, 26) == u16_at(at, 26)
                &&& u16_at(fixed@, 28) == u16_at(at, 28)
            }
            &&& at.len() < 30 || u32_at(at, 0) != LOCAL_FILE_HEADER_SIG ==> local_plan_outcome(
                entry@,
                fixed@,
            ) == local_plan_outcome(entry@, at)
        } by {
            lemma_lfh_window(content, entry.lhf_offset as int, 30, entry@.entry_no());
        }
    }
    if fixed.len() < 30 || read_u32(fixed, 0) != LOCAL_FILE_HEADER_SIG {
        match plan_entry(entry, fixed) {
            Err(e) => {
                proof {
                    assert forall|content: Seq<u8>|
                        #[trigger] locals_from(
                            content,
                            es,
                            models(plans@),
                            header_models(headers@),
                        ) && fixed@ == window(
                            content,
                            entry.lhf_offset as int,
                            30,
                        ) implies planned_entries(info@, es, content) == Err::<
                        ArchiveModel,
                        ErrorModel,
                    >(e@) by {
                        lemma_local_fails(content, info@, es, k as int);
                    }
                }
                return Err(e);
            },
            Ok(_) => {
                assert(false);
            },
        }
    }
    let len: u64 = 30 + read_u16(fixed, 26) as u64 + read_u16(fixed, 28) as u64;
    Ok(Stage::Full { info, entries, plans, headers, len })
}

/// Reads a local header, as far as the file holds it.
fn header_in(piece: &[u8], name_len: usize, extra_len: usize) -> (h: LocalHeader)
    requires
        30 + name_len <= piece.len(),
        name_len <= 0xFFFF,
        extra_len <= 0xFFFF,
    ensures
        h@.header == piece@.take(30),
        h@.extra == piece@.subrange(
            30 + name_len as int,
            if 30 + name_len + extra_len <= piece@.len() {
                30 + name_len + extra_len
            } else {
                piece@.len() as int
            },
        ),
{
    let from: usize = 30 + name_len;
    let to: usize = if extra_len <= piece.len() - from {
        from + extra_len
    } else {
        piece.len()
    };
    let header = array_30(piece, 0);
    let extra = slice_to_vec(slice_subrange(piece, from, to));
    assert(header@ =~= piece@.take(30));
    assert(extra@ =~= piece@.subrange(from as int, to as int));
    LocalHeader { header, extra }
}

/// The local header in a piece is the one of the file.
proof fn lemma_header_in(content: Seq<u8>, p: EntryPlanModel, piece: Seq<u8>, h: LocalHeaderModel)
    requires
        0 <= p.lhf_offset,
        0 <= p.lhf_extra_len,
        p.orig_fname.len() + 30 <= piece.len(),
        piece == window(
            content,
            p.lhf_offset,
            30 + p.orig_fname.len() + p.lhf_extra_len,
        ),
        h.header == piece.take(30),
        h.extra == piece.subrange(
            30 + p.orig_fname.len() as int,
            if 30 + p.orig_fname.len() + p.lhf_extra_len <= piece.len() {
                30 + p.orig_fname.len() + p.lhf_extra_len
            } else {
                piece.len() as int
            },
        ),
    ensures
        header_from(content, p, h),
{
    let n = 30 + p.orig_fname.len();
    assert(h.header =~= window(content, p.lhf_offset, 30));
    assert(h.extra =~= window(content, p.lhf_offset + n, p.lhf_extra_len));
}

/// Reads a local header of `len` bytes.
fn after_full(
    file_len: u64,
    info: ArchiveInfo,
    entries: Vec<EntryPlan>,
    done_plans: Vec<EntryPlan>,
    done_headers: Vec<LocalHeader>,
    len: u64,
    piece: &[u8],
) -> (r: Result<Stage>)
    requires
        done_plans@.len() < entries@.len(),
    ensures
        r matches Ok(stage) ==> stage.in_order() && (stage.left().0 == 0 || stage.left() == (
            1int,
            2 * (entries@.len() - done_plans@.len()) - 2,
        )),
        forall|content: Seq<u8>, opts: OptionsModel|
            (Stage::Full {
                info,
                entries,
                plans: done_plans,
                headers: done_headers,
                len,
            }).sound(content, file_len) && piece@ == window(
                content,
                entries@[done_plans@.len() as int].lhf_offset as int,
                len as int,
            ) ==> #[trigger] step_ok(
                planned_entries(info@, models(entries@), content),
                r,
                content,
                file_len,
                opts,
            ),
{
    let mut plans = done_plans;
    let mut headers = done_headers;
    let k: usize = plans.len();
    let entry = &entries[k];
    let ghost es = models(entries@);
    let ghost before = models(plans@);
    let ghost read = header_models(headers@);
    let ghost stage = Stage::Full { info, entries, plans, headers, len };
    proof {
        assert(es[k as int] == entry@);
        assert forall|content: Seq<u8>|
            #[trigger] stage.sound(content, file_len) && piece@ == window(
                content,
                entry.lhf_offset as int,
                len as int,
            ) implies local_plan_outcome(entry@, piece@) == local_plan_outcome(
            entry@,
            from_offset(content, entry.lhf_offset as int),
        ) && piece@.len() >= 30 && len == 30 + u16_at(piece@, 26) + u16_at(piece@, 28) by {
            lemma_lfh_window(content, entry.lhf_offset as int, len as int, entry@.entry_no());
        }
    }
    match plan_entry(entry, piece) {
        Err(e) => {
            proof {
                assert forall|content: Seq<u8>|
                    #[trigger] stage.sound(content, file_len) && piece@ == window(
                        content,
                        entry.lhf_offset as int,
                        len as int,
                    ) implies planned_entries(info@, es, content) == Err::<
                    ArchiveModel,
                    ErrorModel,
                >(e@) by {
                    lemma_local_fails(content, info@, es, k as int);
                }
            }
            Err(e)
        },
        Ok(plan) => {
            let header = header_in(piece, plan.orig_fname.len(), plan.lhf_extra_len as usize);
            let ghost p = plan@;
            let ghost h = header@;
            plans.push(plan);
            headers.push(header);
            proof {
                assert(models(plans@) =~= before.push(p));
                assert(header_models(headers@) =~= read.push(h));
                assert forall|content: Seq<u8>|
                    #[trigger] stage.sound(content, file_len) && piece@ == window(
                        content,
                        entry.lhf_offset as int,
                        len as int,
                    ) implies locals_from(
                    content,
                    es,
                    models(plans@),
                    header_models(headers@),
                ) by {
                    lemma_header_in(content, p, piece@, h);
                    assert forall|i: int| 0 <= i < k + 1 implies header_from(
                        content,
                        models(plans@)[i],
                        #[trigger] header_models(headers@)[i],
                    ) by {
                        if i < k {
                            assert(header_from(content, before[i], read[i]));
                        }
                    }
                }
            }
            after_header(file_len, info, entries, plans, headers)
        },
    }
}

impl Planner {
    /// The archive that the reading of this file comes to.
    pub closed spec fn fate(self, content: Seq<u8>) -> core::result::Result<
        ArchiveModel,
        ErrorModel,
    > {
        self.stage.fate(content, self.file_len, self.opts@)
    }

    /// Whether what has been read so far is what this file holds.
    pub closed spec fn sound(self, content: Seq<u8>) -> bool {
        self.stage.sound(content, self.file_len)
    }

    /// The piece that is to be read next, by its offset and its length; none where all has been
    /// read.
    pub closed spec fn request(self) -> Option<(int, int)> {
        self.stage.wants(self.file_len)
    }

    /// What gets smaller with every piece that is read: first the first number, then the second.
    pub closed spec fn left(self) -> (int, int) {
        self.stage.left()
    }

    #[verifier::type_invariant]
    spec fn in_order(self) -> bool {
        self.file_len >= 22 && self.stage.in_order()
    }

    /// Starts to read an archive from a file of `file_len` bytes.
    pub fn new(file_len: u64, opts: Options) -> (r: Result<Planner>)
        ensures
            match r {
                Ok(planner) => file_len >= 22 && planner.request() is Some && forall|
                    content: Seq<u8>,
                |
                    content.len() == file_len ==> planner.sound(content)
                        && #[trigger] planner.fate(content) == job_outcome(
                        content,
                        file_len,
                        opts@,
                    ),
                Err(e) => file_len < 22 && e@ == ErrorModel::InvalidArchive(
                    ArchiveErrorModel::TooSmall,
                ),
            },
    {
        if file_len < 22 {
            return Err(Error::InvalidArchive(ArchiveError::TooSmall));
        }
        Ok(Planner { file_len, opts, stage: Stage::Tail })
    }

    /// The piece that is to be read next, by its offset and its length.
    pub fn wants(&self) -> (r: Option<(u64, u64)>)
        ensures
            match r {
                Some((offset, len)) => self.request() == Some((offset as int, len as int)),
                None => self.request() is None,
            },
    {
        proof {
            use_type_invariant(&*self);
        }
        match &self.stage {
            Stage::Tail => {
                let from: u64 = search_start(self.file_len);
                Some((from, self.file_len - from))
            },
            Stage::Locator { offset, .. } => Some((*offset, 20)),
            Stage::Zip64 { offset, .. } => Some((*offset, 56)),
            Stage::Directory { info } => Some((info.cd_offset, info.cd_size)),
            Stage::Fixed { entries, plans, .. } => Some((entries[plans.len()].lhf_offset, 30)),
            Stage::Full { entries, plans, len, .. } => Some(
                (entries[plans.len()].lhf_offset, *len),
            ),
            Stage::Done { .. } => None,
        }
    }

    /// Goes on with the piece that was asked for, or with as much of it as the file has.
    pub fn read(self, piece: &[u8]) -> (r: Result<Planner>)
        ensures
            self.request() matches Some((offset, len)) ==> {
                &&& r matches Ok(next) ==> next.left().0 < self.left().0 || (next.left().0
                    == self.left().0 && 0 <= next.left().1 < self.left().1)
                &&& forall|content: Seq<u8>|
                    #[trigger] self.sound(content) && piece@ == window(content, offset, len)
                        ==> match r {
                        Ok(next) => next.sound(content) && next.fate(content) == self.fate(
                            content,
                        ),
                        Err(e) => self.fate(content) == Err::<ArchiveModel, ErrorModel>(e@),
                    }
            },
            self.request() is None ==> r == Ok::<Planner, Error>(self),
    {
        proof {
            use_type_invariant(&self);
        }
        let ghost before = self;
        let file_len: u64 = self.file_len;
        let opts = self.opts;
        let r = match self.stage {
            Stage::Tail => after_tail(file_len, piece),
            Stage::Locator { comment, offset } => after_locator(file_len, comment, offset, piece),
            Stage::Zip64 { comment, locator_offset, offset } => after_zip64(
                file_len,
                comment,
                locator_offset,
                offset,
                piece,
            ),
            Stage::Directory { info } => after_directory(file_len, info, piece, &opts),
            Stage::Fixed { info, entries, plans, headers } => after_fixed(
                file_len,
                info,
                entries,
                plans,
                headers,
                piece,
            ),
            Stage::Full { info, entries, plans, headers, len } => after_full(
                file_len,
                info,
                entries,
                plans,
                headers,
                len,
                piece,
            ),
            Stage::Done { info, plans, headers } => Ok(Stage::Done { info, plans, headers }),
        };
        proof {
            if let Some((offset, len)) = before.request() {
                assert forall|content: Seq<u8>|
                    #[trigger] before.sound(content) && piece@ == window(
                        content,
                        offset,
                        len,
                    ) implies step_ok(before.fate(content), r, content, file_len, opts@) by {}
            }
        }
        match r {
            Ok(stage) => Ok(Planner { file_len, opts, stage }),
            Err(e) => Err(e),
        }
    }

    /// The archive, where all has been read and its parts fit together.
    pub fn finish(self) -> (r: Option<Job>)
        ensures
            match r {
                Some(job) => self.request() is None && forall|content: Seq<u8>|
                    #[trigger] self.fate(content) == Ok::<ArchiveModel, ErrorModel>(job@),
                None => self.request() is Some || forall|content: Seq<u8>|
                    #[trigger] self.fate(content) matches Ok(a) && !a.ok(),
            },
    {
        match self.stage {
            Stage::Done { info, plans, headers } => Job::assemble(info, plans, headers),
            _ => None,
        }
    }
}

/// The piece of a file that is held in memory.
fn piece_of(content: &[u8], offset: u64, len: u64) -> (piece: &[u8])
    ensures
        piece@ == window(content@, offset as int, len as int),
{
    let rest = tail_from(content, offset);
    if len <= rest.len() as u64 {
        slice_subrange(rest, 0, len as usize)
    } else {
        rest
    }
}

/// Reads the archive in a file that is held in memory piece by piece. The pieces come to what the
/// whole file comes to.
pub fn plan_in_pieces(content: &[u8], opts: Options) -> (r: Result<Job>)
    ensures
        outcome(r) == job_outcome(content@, content@.len() as u64, opts@),
{
    let file_len: u64 = content.len() as u64;
    let ghost fate = job_outcome(content@, file_len, opts@);
    proof {
        law_job(content@, file_len, opts@);
    }
    let mut planner = match Planner::new(file_len, opts) {
        Ok(planner) => planner,
        Err(e) => return Err(e),
    };
    loop
        invariant
            fate == job_outcome(content@, content@.len() as u64, opts@),
            fate matches Ok(a) ==> a.ok(),
            planner.sound(content@),
            planner.fate(content@) == fate,
        decreases planner.left().0, planner.left().1,
    {
        match planner.wants() {
            Some((offset, len)) => match planner.read(piece_of(content, offset, len)) {
                Ok(next) => {
                    planner = next;
                },
                Err(e) => return Err(e),
            },
            None => {
                return match planner.finish() {
                    Some(job) => Ok(job),
                    None => {
                        assert(planner.fate(content@) == fate);
                        assert(false);
                        Err(Error::end_of_input())
                    },
                };
            },
        }
    }
}

} // verus!
