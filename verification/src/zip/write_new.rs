//! A new archive, without gaps, of the entries that stay.

use super::bytes::{push_bytes, read_u16, u16_at};
use super::copy::stream_copy;
use super::directory::{
    directory_outcome, end_records, kept, lemma_directory, push_end_records, write_directory,
};
use super::eocd::ArchiveInfo;
use super::layout::{entry_ok, layout_ok, ArchiveModel};
use super::local_header::{LocalHeader, LocalHeaderModel};
use super::plan::{models, span_end, tail_from, EntryPlan, EntryPlanModel};
use super::{flags_with_bit11, with_bit11};
use vstd::prelude::*;

verus! {

/// A part of a new archive: bytes, or a range of the input.
#[derive(Debug)]
pub enum Segment {
    Bytes(Vec<u8>),
    Input { offset: u64, len: u64 },
}

#[verifier::ext_equal]
pub enum SegmentModel {
    Bytes(Seq<u8>),
    Input { offset: int, len: int },
}

impl View for Segment {
    type V = SegmentModel;

    open spec fn view(&self) -> SegmentModel {
        match *self {
            Segment::Bytes(bytes) => SegmentModel::Bytes(bytes@),
            Segment::Input { offset, len } => SegmentModel::Input {
                offset: offset as int,
                len: len as int,
            },
        }
    }
}

pub open spec fn segment_models(segments: Seq<Segment>) -> Seq<SegmentModel> {
    segments.map_values(|s: Segment| s@)
}

impl SegmentModel {
    /// The bytes of the part.
    pub open spec fn bytes(self, input: Seq<u8>) -> Seq<u8> {
        match self {
            SegmentModel::Bytes(bytes) => bytes,
            SegmentModel::Input { offset, len } => input.subrange(offset, offset + len),
        }
    }

    /// Whether the input has the range that the part names.
    pub open spec fn within(self, input: Seq<u8>) -> bool {
        match self {
            SegmentModel::Bytes(_) => true,
            SegmentModel::Input { offset, len } => 0 <= offset && 0 <= len && offset + len
                <= input.len(),
        }
    }
}

/// The parts one behind another.
pub open spec fn emitted(input: Seq<u8>, segments: Seq<SegmentModel>) -> Seq<u8>
    decreases segments.len(),
{
    if segments.len() == 0 {
        Seq::empty()
    } else {
        emitted(input, segments.drop_last()) + segments.last().bytes(input)
    }
}

/// The local header of an entry with its new name and its new flag.
pub open spec fn renamed_local_header(header: LocalHeaderModel, p: EntryPlanModel) -> Seq<u8> {
    header.bytes(
        p.new_fname,
        flags_with_bit11(u16_at(header.header, 6), p.new_bit11_set),
        header.extra.len() as u16,
    )
}

/// The size of the entries that stay among the first `n`.
pub open spec fn body_len(plans: Seq<EntryPlanModel>, n: int) -> int
    decreases n,
{
    if n <= 0 {
        0
    } else if plans[n - 1].excluded {
        body_len(plans, n - 1)
    } else {
        body_len(plans, n - 1) + plans[n - 1].span_size - plans[n - 1].fname_delta()
    }
}

/// Where the local headers of a new archive stand.
pub open spec fn new_offsets(plans: Seq<EntryPlanModel>) -> Seq<u64> {
    Seq::new(plans.len(), |k: int| body_len(plans, k) as u64)
}

/// The entries that stay among the first `n`, each as its local header and its data.
pub open spec fn entry_segments(
    plans: Seq<EntryPlanModel>,
    headers: Seq<LocalHeaderModel>,
    n: int,
) -> Seq<SegmentModel>
    decreases n,
{
    if n <= 0 {
        Seq::empty()
    } else {
        let p = plans[n - 1];
        let front = entry_segments(plans, headers, n - 1);
        if p.excluded {
            front
        } else {
            front.push(SegmentModel::Bytes(renamed_local_header(headers[n - 1], p))).push(
                SegmentModel::Input {
                    offset: p.lhf_offset + p.lhf_header_size,
                    len: p.payload_size(),
                },
            )
        }
    }
}

/// Whether a new archive needs ZIP64 end records.
pub open spec fn new_needs_zip64(entries: int, cd_size: int, cd_start: int) -> bool {
    entries > 0xFFFF || cd_size > 0xFFFF_FFFF || cd_start > 0xFFFF_FFFF || cd_start + cd_size
        > 0xFFFF_FFFF
}

/// The central directory of a new archive.
pub open spec fn new_directory(plans: Seq<EntryPlanModel>) -> Seq<u8> {
    directory_outcome(plans, new_offsets(plans))->Ok_0
}

/// The central directory of a new archive and the end records behind it.
pub open spec fn new_tail(a: ArchiveModel) -> Seq<u8> {
    let cd = new_directory(a.plans);
    let cd_start = body_len(a.plans, a.plans.len() as int);
    let entries = kept(a.plans).len() as int;
    cd + end_records(
        new_needs_zip64(entries, cd.len() as int, cd_start),
        entries,
        cd.len() as int,
        cd_start,
        a.info.archive_comment,
    )
}

/// The parts of a new archive.
pub open spec fn new_segments(a: ArchiveModel) -> Seq<SegmentModel> {
    entry_segments(a.plans, a.headers, a.plans.len() as int).push(
        SegmentModel::Bytes(new_tail(a)),
    )
}

/// A new archive of the entries that stay.
pub open spec fn new_archive(content: Seq<u8>, a: ArchiveModel) -> Seq<u8> {
    emitted(content, new_segments(a))
}

/// No entry moves back: what comes before it gets no longer.
pub proof fn lemma_body_len(plans: Seq<EntryPlanModel>, cd_offset: int, n: int)
    requires
        layout_ok(plans, cd_offset),
        0 <= n <= plans.len(),
    ensures
        0 <= body_len(plans, n),
        n < plans.len() ==> body_len(plans, n) <= plans[n].lhf_offset,
        n > 0 ==> body_len(plans, n) <= plans[n - 1].lhf_offset + plans[n - 1].span_size,
    decreases n,
{
    if n > 0 {
        lemma_body_len(plans, cd_offset, n - 1);
        assert(entry_ok(plans[n - 1]));
        assert(plans[n - 1].lhf_offset + plans[n - 1].span_size == span_end(
            plans,
            cd_offset,
            n - 1,
        ));
    } else if n < plans.len() {
        assert(entry_ok(plans[0]));
    }
}

/// The local headers of a new archive stand no further back than before, so that its central
/// directory can be written.
pub proof fn lemma_new_offsets(plans: Seq<EntryPlanModel>, cd_offset: int)
    requires
        layout_ok(plans, cd_offset),
        0 <= cd_offset,
    ensures
        forall|k: int|
            0 <= k < plans.len() ==> #[trigger] new_offsets(plans)[k] == body_len(plans, k)
                && new_offsets(plans)[k] <= plans[k].lhf_offset,
        directory_outcome(plans, new_offsets(plans)) == Ok::<Seq<u8>, Seq<char>>(
            new_directory(plans),
        ),
        new_directory(plans).len() <= super::layout::cd_total(plans),
        0 <= body_len(plans, plans.len() as int) <= cd_offset,
        kept(plans).len() <= plans.len(),
{
    assert forall|k: int| 0 <= k < plans.len() implies #[trigger] new_offsets(plans)[k] == body_len(
        plans,
        k,
    ) && new_offsets(plans)[k] <= plans[k].lhf_offset by {
        lemma_body_len(plans, cd_offset, k);
        assert(entry_ok(plans[k]));
    }
    lemma_directory(plans, cd_offset, new_offsets(plans));
    lemma_body_len(plans, cd_offset, plans.len() as int);
}

/// The parts of a new archive.
pub(crate) fn build_segments(
    info: &ArchiveInfo,
    plans: &Vec<EntryPlan>,
    headers: &Vec<LocalHeader>,
) -> (segments: Vec<Segment>)
    requires
        archive_of(*info, plans@, headers@).ok(),
    ensures
        segment_models(segments@) == new_segments(archive_of(*info, plans@, headers@)),
{
    let ghost a = archive_of(*info, plans@, headers@);
    let ghost cd_offset = info.cd_offset as int;
    proof {
        lemma_new_offsets(a.plans, cd_offset);
    }
    let mut segments: Vec<Segment> = Vec::new();
    let mut offs: Vec<u64> = Vec::new();
    let mut pos: u64 = 0;
    let mut k: usize = 0;
    assert(segment_models(segments@) =~= Seq::empty());
    while k < plans.len()
        invariant
            k <= plans.len(),
            a == archive_of(*info, plans@, headers@),
            a.ok(),
            cd_offset == info.cd_offset,
            pos == body_len(a.plans, k as int),
            offs@.len() == k,
            forall|i: int| 0 <= i < k ==> #[trigger] offs@[i] == body_len(a.plans, i),
            segment_models(segments@) == entry_segments(a.plans, a.headers, k as int),
        decreases plans.len() - k,
    {
        let p = &plans[k];
        let h = &headers[k];
        offs.push(pos);
        proof {
            assert(a.plans[k as int] == p@);
            assert(a.headers[k as int] == h@);
            assert(entry_ok(a.plans[k as int]));
            lemma_body_len(a.plans, cd_offset, k as int);
            lemma_body_len(a.plans, cd_offset, k + 1);
            super::layout::lemma_offsets_rise(a.plans, cd_offset, k as int, k as int);
        }
        if !p.excluded {
            let bytes = rename_local_header(h, p);
            let len: u64 = p.payload_size();
            pos = pos + bytes.len() as u64 + len;
            segments.push(Segment::Bytes(bytes));
            segments.push(Segment::Input { offset: p.lhf_offset + p.lhf_header_size, len });
            assert(segment_models(segments@) =~= entry_segments(a.plans, a.headers, k + 1));
        }
        k += 1;
    }
    let mut tail: Vec<u8> = Vec::new();
    proof {
        assert(offs@ =~= new_offsets(a.plans));
    }
    match write_directory(plans.as_slice(), offs.as_slice(), &mut tail) {
        Ok(entries) => {
            assert(tail@ =~= new_directory(a.plans));
            let cd_size: u64 = tail.len() as u64;
            let zip64: bool = entries > 0xFFFF || cd_size > 0xFFFF_FFFF || pos > 0xFFFF_FFFF || pos
                + cd_size > 0xFFFF_FFFF;
            let r = push_end_records(
                &mut tail,
                zip64,
                entries,
                cd_size,
                pos,
                info.archive_comment.as_slice(),
            );
            assert(r is Ok);
        },
        Err(_) => {
            assert(false);
        },
    }
    let ghost before = segment_models(segments@);
    segments.push(Segment::Bytes(tail));
    assert(segment_models(segments@) =~= before.push(SegmentModel::Bytes(tail@)));
    segments
}

/// The model of an archive.
pub open spec fn archive_of(
    info: ArchiveInfo,
    plans: Seq<EntryPlan>,
    headers: Seq<LocalHeader>,
) -> ArchiveModel {
    ArchiveModel {
        info: info@,
        plans: models(plans),
        headers: headers.map_values(|h: LocalHeader| h@),
    }
}

/// The local header of an entry with its new name and its new flag.
pub(crate) fn rename_local_header(h: &LocalHeader, p: &EntryPlan) -> (bytes: Vec<u8>)
    requires
        entry_ok(p@),
        h@.extra.len() == p@.lhf_extra_len,
    ensures
        bytes@ == renamed_local_header(h@, p@),
        bytes@.len() == 30 + p@.new_fname.len() + p@.lhf_extra_len,
{
    let flags: u16 = with_bit11(read_u16(&h.header, 6), p.new_bit11_set);
    let mut bytes: Vec<u8> = Vec::new();
    let r = h.write(&mut bytes, p.new_fname.as_slice(), flags, h.extra_len() as u16);
    assert(r is Ok);
    assert(bytes@ =~= renamed_local_header(h@, p@));
    bytes
}

/// Appends the parts of a new archive to `w`.
pub(crate) fn emit(input: &[u8], segments: &Vec<Segment>, w: &mut Vec<u8>)
    requires
        forall|i: int|
            0 <= i < segments@.len() ==> (#[trigger] segment_models(segments@)[i]).within(input@),
    ensures
        final(w)@ == old(w)@ + emitted(input@, segment_models(segments@)),
{
    let ghost all = segment_models(segments@);
    let mut i: usize = 0;
    assert(w@ =~= old(w)@ + emitted(input@, all.take(0)));
    while i < segments.len()
        invariant
            i <= segments.len(),
            all == segment_models(segments@),
            forall|i: int| 0 <= i < segments@.len() ==> (#[trigger] all[i]).within(input@),
            w@ == old(w)@ + emitted(input@, all.take(i as int)),
        decreases segments.len() - i,
    {
        let ghost before = emitted(input@, all.take(i as int));
        proof {
            assert(all[i as int] == segments@[i as int]@);
            assert(all[i as int].within(input@));
            assert(all.take(i + 1).drop_last() =~= all.take(i as int));
        }
        match &segments[i] {
            Segment::Bytes(bytes) => {
                push_bytes(w, bytes.as_slice());
            },
            Segment::Input { offset, len } => {
                let rest = tail_from(input, *offset);
                let r = stream_copy(rest, w, *len);
                assert(r is Ok);
                assert(rest@.take(*len as int) =~= all[i as int].bytes(input@));
            },
        }
        assert(w@ =~= old(w)@ + (before + all[i as int].bytes(input@)));
        i += 1;
    }
    assert(all.take(i as int) =~= all);
}

/// The parts of a new archive lie within the file that holds the old one.
pub proof fn lemma_segments_within(content: Seq<u8>, a: ArchiveModel)
    requires
        a.ok(),
        a.on(content),
    ensures
        forall|i: int|
            0 <= i < new_segments(a).len() ==> (#[trigger] new_segments(a)[i]).within(content),
{
    lemma_entry_segments_within(content, a, a.plans.len() as int);
}

proof fn lemma_entry_segments_within(content: Seq<u8>, a: ArchiveModel, n: int)
    requires
        a.ok(),
        a.on(content),
        0 <= n <= a.plans.len(),
    ensures
        forall|i: int|
            0 <= i < entry_segments(a.plans, a.headers, n).len() ==> (#[trigger] entry_segments(
                a.plans,
                a.headers,
                n,
            )[i]).within(content),
    decreases n,
{
    if n > 0 {
        lemma_entry_segments_within(content, a, n - 1);
        assert(entry_ok(a.plans[n - 1]));
        assert(super::layout::entry_on(content, a.plans[n - 1]));
        let front = entry_segments(a.plans, a.headers, n - 1);
        let now = entry_segments(a.plans, a.headers, n);
        assert forall|i: int| 0 <= i < now.len() implies (#[trigger] now[i]).within(content) by {
            if i < front.len() {
                assert(now[i] == front[i]);
            }
        }
    }
}

} // verus!
