//! What is read from an archive that was written.

use super::bytes::{
    law_read_back, lemma_read_part, patched, u16_at, u16_bytes, u32_at, u32_bytes, u64_at,
};
use super::cd_entry::{
    cd_entry_bytes_outcome, law_patched_offset_is_read, patch_outcome, renamed_header,
};
use super::directory::{end_records, entries_outcome, kept, lemma_entry_writable, new_cd_len};
use super::eocd::{
    archive_outcome, bytes_at, eocd_bytes, eocd_multi_disk, eocd_outcome, is_eocd_at, last_eocd,
    law_eocd_fields, law_zip64_fields, lemma_end_sizes, lemma_last_eocd, locator_outcome,
    search_from, zip64_eocd_bytes, zip64_outcome, ArchiveInfoModel, EndRecord,
};
use super::error::ErrorModel;
use super::layout::cd_entry_ok;
use super::names::new_name_outcome;
use super::options::OptionsModel;
use super::order::{comes_before, lemma_stable_order, stable_order};
use super::plan::{
    cd_bytes_of, cd_entries_outcome, cd_entry_outcome, cd_indexed, from_offset, in_file_order,
    lfh_offset_outcome, local_plan_outcome, local_plans_outcome, offsets, plans_outcome, span_end,
    spans_outcome, with_span, EntryPlanModel,
};
use super::{flags_with_bit11, law_with_bit11, CENTRAL_DIR_SIG, LOCAL_FILE_HEADER_SIG};
use vstd::prelude::*;

verus! {

/// The options with which an archive is read as it is.
pub open spec fn raw_options() -> OptionsModel {
    OptionsModel {
        dry_run: false,
        fast: false,
        not_utf8: true,
        keep_backslashes: true,
        no_default_exclude: true,
        extra_excludes: Seq::empty(),
    }
}

/// Whether an entry that was written is read, with these options, under the name and with the flag
/// that it was written with.
pub open spec fn keeps_name(p: EntryPlanModel, opts: OptionsModel) -> bool {
    let flags = flags_with_bit11(u16_at(p.cd_header, 8), p.new_bit11_set);
    &&& !opts.excludes(p.new_fname)
    &&& forall|entry_no: u64|
        #[trigger] new_name_outcome(p.new_fname, flags, entry_no, opts) == Ok::<
            (Seq<u8>, bool),
            ErrorModel,
        >((p.new_fname, p.new_bit11_set))
}

/// Whether this holds of each entry that stays.
pub open spec fn all_keep_names(plans: Seq<EntryPlanModel>, opts: OptionsModel) -> bool {
    forall|k: int|
        0 <= k < plans.len() && !(#[trigger] plans[k]).excluded ==> keeps_name(plans[k], opts)
}

/// Read as it is, every entry keeps its name and its flag.
pub proof fn lemma_raw_keeps_names(plans: Seq<EntryPlanModel>)
    ensures
        all_keep_names(plans, raw_options()),
{
    assert forall|k: int|
        0 <= k < plans.len() && !(#[trigger] plans[k]).excluded implies keeps_name(
        plans[k],
        raw_options(),
    ) by {
        law_with_bit11(u16_at(plans[k].cd_header, 8), plans[k].new_bit11_set);
    }
}

/// The fixed part of an entry that was written.
pub open spec fn written_header(p: EntryPlanModel, off: u64) -> Seq<u8> {
    if p.lhf_offset_in_zip64_extra {
        renamed_header(p)
    } else {
        patched(renamed_header(p), 42, u32_bytes(off as u32))
    }
}

/// The extra area of an entry that was written.
pub open spec fn written_extra(p: EntryPlanModel, off: u64) -> Seq<u8> {
    if p.lhf_offset_in_zip64_extra {
        patch_outcome(p.cd_extra, off, p)->Ok_0
    } else {
        p.cd_extra
    }
}

/// The entry that is read where the one of plan `p` was written, with its local header at `off`
/// and place `c` in the central directory.
pub open spec fn reread_entry(p: EntryPlanModel, off: u64, c: int) -> EntryPlanModel {
    EntryPlanModel {
        cd_index: c,
        lhf_offset: off as int,
        excluded: false,
        orig_fname: p.new_fname,
        new_fname: p.new_fname,
        needs_bit11: false,
        new_bit11_set: p.new_bit11_set,
        span_size: 0,
        lhf_header_size: 0,
        lhf_extra_len: 0,
        lhf_offset_in_zip64_extra: p.lhf_offset_in_zip64_extra,
        cd_header: written_header(p, off),
        cd_extra: written_extra(p, off),
        cd_comment: p.cd_comment,
    }
}

/// The fields of the fixed part that was written.
pub proof fn lemma_written_header(p: EntryPlanModel, off: u64)
    requires
        cd_entry_ok(p),
        off <= p.lhf_offset,
    ensures
        ({
            let h = written_header(p, off);
            &&& h.len() == 46
            &&& u32_at(h, 0) == CENTRAL_DIR_SIG
            &&& u16_at(h, 8) == flags_with_bit11(u16_at(p.cd_header, 8), p.new_bit11_set)
            &&& u32_at(h, 20) == u32_at(p.cd_header, 20)
            &&& u32_at(h, 24) == u32_at(p.cd_header, 24)
            &&& u16_at(h, 28) == p.new_fname.len()
            &&& u16_at(h, 30) == p.cd_extra.len()
            &&& u16_at(h, 32) == p.cd_comment.len()
            &&& u32_at(h, 42) == if p.lhf_offset_in_zip64_extra {
                0xFFFF_FFFF
            } else {
                off as u32
            }
            &&& forall|i: int|
                0 <= i < 46 && !(8 <= i < 10) && !(28 <= i < 30) && !(42 <= i < 46)
                    ==> #[trigger] h[i] == p.cd_header[i]
        }),
{
    let flags = u16_bytes(flags_with_bit11(u16_at(p.cd_header, 8), p.new_bit11_set));
    let len = u16_bytes(p.new_fname.len() as u16);
    let r = renamed_header(p);
    let h = written_header(p, off);
    law_read_back(
        flags_with_bit11(u16_at(p.cd_header, 8), p.new_bit11_set),
        off as u32,
        0,
    );
    law_read_back(p.new_fname.len() as u16, 0, 0);
    assert(r.len() == 46);
    assert(r[8] == flags[0] && r[9] == flags[1]);
    assert(r[28] == len[0] && r[29] == len[1]);
    assert(h[8] == flags[0] && h[9] == flags[1]);
    assert(h[28] == len[0] && h[29] == len[1]);
    assert(u16_at(h, 8) == u16_at(flags, 0));
    assert(u16_at(h, 28) == u16_at(len, 0));
    if !p.lhf_offset_in_zip64_extra {
        let o = u32_bytes(off as u32);
        assert(h[42] == o[0] && h[43] == o[1] && h[44] == o[2] && h[45] == o[3]);
        assert(u32_at(h, 42) == u32_at(o, 0));
    }
}

/// The bytes of an entry that was written are its parts, one behind another.
pub proof fn lemma_written_bytes(p: EntryPlanModel, off: u64)
    requires
        cd_entry_ok(p),
        off <= p.lhf_offset,
    ensures
        cd_entry_bytes_outcome(p, off) == Ok::<Seq<u8>, Seq<char>>(
            written_header(p, off) + p.new_fname + written_extra(p, off) + p.cd_comment,
        ),
{
    lemma_entry_writable(p, off);
}

/// Where the parts of an entry that was written stand.
proof fn lemma_written_parts(cd: Seq<u8>, pos: int, p: EntryPlanModel, off: u64)
    requires
        cd_entry_ok(p),
        off <= p.lhf_offset,
        0 <= pos,
        pos + new_cd_len(p) <= cd.len(),
        cd.subrange(pos, pos + new_cd_len(p)) == cd_entry_bytes_outcome(p, off)->Ok_0,
    ensures
        ({
            let n = pos + 46 + p.new_fname.len();
            let e = n + p.cd_extra.len();
            let m = e + p.cd_comment.len();
            &&& written_extra(p, off).len() == p.cd_extra.len()
            &&& cd.subrange(pos, pos + 46) == written_header(p, off)
            &&& cd.subrange(pos + 46, n) == p.new_fname
            &&& cd.subrange(n, e) == written_extra(p, off)
            &&& cd.subrange(e, m) == p.cd_comment
        }),
{
    lemma_entry_writable(p, off);
    law_patched_offset_is_read(p.cd_extra, off, p, 0);
    let bytes = cd_entry_bytes_outcome(p, off)->Ok_0;
    let h = written_header(p, off);
    let x = written_extra(p, off);
    let n = 46 + p.new_fname.len();
    let e = n + x.len();
    let m = e + p.cd_comment.len();
    assert(h.len() == 46);
    assert(bytes =~= h + p.new_fname + x + p.cd_comment);
    assert(forall|i: int| 0 <= i < bytes.len() ==> #[trigger] cd[pos + i] == bytes[i]) by {
        assert forall|i: int| 0 <= i < bytes.len() implies #[trigger] cd[pos + i] == bytes[i] by {
            assert(cd.subrange(pos, pos + new_cd_len(p))[i] == cd[pos + i]);
        }
    }
    assert(cd.subrange(pos, pos + 46) =~= h);
    assert forall|i: int| 0 <= i < p.new_fname.len() implies cd.subrange(pos + 46, pos + n)[i]
        == p.new_fname[i] by {
        assert(cd[pos + (46 + i)] == bytes[46 + i]);
    }
    assert(cd.subrange(pos + 46, pos + n) =~= p.new_fname);
    assert forall|i: int| 0 <= i < x.len() implies cd.subrange(pos + n, pos + e)[i] == x[i] by {
        assert(cd[pos + (n + i)] == bytes[n + i]);
    }
    assert(cd.subrange(pos + n, pos + e) =~= x);
    assert forall|i: int| 0 <= i < p.cd_comment.len() implies cd.subrange(pos + e, pos + m)[i]
        == p.cd_comment[i] by {
        assert(cd[pos + (e + i)] == bytes[e + i]);
    }
    assert(cd.subrange(pos + e, pos + m) =~= p.cd_comment);
}

/// The offset that is read from an entry is the one that was written.
proof fn lemma_written_offset(p: EntryPlanModel, off: u64, entry_no: int)
    requires
        cd_entry_ok(p),
        off <= p.lhf_offset,
    ensures
        ({
            let h = written_header(p, off);
            lfh_offset_outcome(
                u32_at(h, 20),
                u32_at(h, 24),
                u32_at(h, 42),
                written_extra(p, off),
                entry_no,
            ) == Ok::<(u64, bool), Seq<char>>((off, p.lhf_offset_in_zip64_extra))
        }),
{
    lemma_written_header(p, off);
    law_patched_offset_is_read(p.cd_extra, off, p, entry_no);
}

/// An entry that was written is read as it was written.
proof fn lemma_reread_entry(
    cd: Seq<u8>,
    pos: int,
    p: EntryPlanModel,
    off: u64,
    c: int,
    opts: OptionsModel,
)
    requires
        cd_entry_ok(p),
        keeps_name(p, opts),
        off <= p.lhf_offset,
        0 <= pos,
        0 <= c,
        pos + new_cd_len(p) <= cd.len(),
        cd.subrange(pos, pos + new_cd_len(p)) == cd_entry_bytes_outcome(p, off)->Ok_0,
    ensures
        cd_entry_outcome(cd, pos, c, opts) == Ok::<EntryPlanModel, ErrorModel>(
            reread_entry(p, off, c),
        ),
        reread_entry(p, off, c).cd_len() == new_cd_len(p),
{
    lemma_written_parts(cd, pos, p, off);
    lemma_written_header(p, off);
    lemma_written_offset(p, off, c + 1);
    law_with_bit11(u16_at(p.cd_header, 8), p.new_bit11_set);
    let h = written_header(p, off);
    assert(new_name_outcome(p.new_fname, u16_at(h, 8), (c + 1) as u64, opts) == Ok::<
        (Seq<u8>, bool),
        ErrorModel,
    >((p.new_fname, p.new_bit11_set)));
    reveal(cd_entry_outcome);
}

/// The size of the listed entries in the new central directory.
pub open spec fn list_len(plans: Seq<EntryPlanModel>, list: Seq<int>) -> int
    decreases list.len(),
{
    if list.len() == 0 {
        0
    } else {
        list_len(plans, list.drop_last()) + new_cd_len(plans[list.last()])
    }
}

/// Whether the listed entries can be written with these offsets.
pub open spec fn list_writable(
    plans: Seq<EntryPlanModel>,
    offs: Seq<u64>,
    list: Seq<int>,
) -> bool {
    forall|i: int|
        0 <= i < list.len() ==> cd_entry_ok(plans[#[trigger] list[i]]) && offs[list[i]]
            <= plans[list[i]].lhf_offset
}

/// The listed entries, and where each of them stands.
proof fn lemma_list_written(plans: Seq<EntryPlanModel>, offs: Seq<u64>, list: Seq<int>, c: int)
    requires
        list_writable(plans, offs, list),
        0 <= c <= list.len(),
    ensures
        ({
            let from = list_len(plans, list.take(c));
            &&& entries_outcome(plans, offs, list) matches Ok(cd) && {
                &&& cd.len() == list_len(plans, list)
                &&& 0 <= from <= cd.len()
                &&& c < list.len() ==> {
                    let to = from + new_cd_len(plans[list[c]]);
                    &&& to == list_len(plans, list.take(c + 1))
                    &&& to <= cd.len()
                    &&& cd.subrange(from, to) == cd_entry_bytes_outcome(
                        plans[list[c]],
                        offs[list[c]],
                    )->Ok_0
                }
            }
        }),
    decreases list.len(),
{
    if list.len() > 0 {
        let front = list.drop_last();
        let k = list.last();
        assert(list[list.len() - 1] == k);
        assert(list_writable(plans, offs, front)) by {
            assert forall|i: int| 0 <= i < front.len() implies cd_entry_ok(
                plans[#[trigger] front[i]],
            ) && offs[front[i]] <= plans[front[i]].lhf_offset by {
                assert(front[i] == list[i]);
            }
        }
        lemma_entry_writable(plans[k], offs[k]);
        let cd = entries_outcome(plans, offs, list)->Ok_0;
        let f = entries_outcome(plans, offs, front)->Ok_0;
        let last = cd_entry_bytes_outcome(plans[k], offs[k])->Ok_0;
        if c < front.len() {
            lemma_list_written(plans, offs, front, c);
            assert(front.take(c) =~= list.take(c));
            assert(front.take(c + 1) =~= list.take(c + 1));
            let from = list_len(plans, list.take(c));
            let to = from + new_cd_len(plans[list[c]]);
            assert(cd == f + last);
            assert(cd.subrange(from, to) =~= f.subrange(from, to));
        } else {
            lemma_list_written(plans, offs, front, front.len() as int);
            assert(front.take(front.len() as int) =~= front);
            assert(list.take(list.len() as int) =~= list);
            assert(cd == f + last);
            if c == front.len() {
                assert(list.take(c) =~= front);
                assert(list.take(c + 1) =~= list);
                assert(cd.subrange(f.len() as int, cd.len() as int) =~= last);
            }
        }
    } else {
        assert(list.take(0) =~= list);
    }
}

/// The entries that are read where the listed ones were written, from place `c` on.
pub open spec fn reread_entries(
    plans: Seq<EntryPlanModel>,
    offs: Seq<u64>,
    list: Seq<int>,
    c: int,
) -> Seq<EntryPlanModel> {
    Seq::new(
        (list.len() - c) as nat,
        |i: int| reread_entry(plans[list[c + i]], offs[list[c + i]], c + i),
    )
}

/// The listed entries are read as they were written.
pub proof fn lemma_reread_entries(
    plans: Seq<EntryPlanModel>,
    offs: Seq<u64>,
    list: Seq<int>,
    c: int,
    opts: OptionsModel,
)
    requires
        list_writable(plans, offs, list),
        forall|i: int| 0 <= i < list.len() ==> keeps_name(plans[#[trigger] list[i]], opts),
        0 <= c <= list.len(),
    ensures
        entries_outcome(plans, offs, list) matches Ok(cd) && cd_entries_outcome(
            cd,
            list_len(plans, list.take(c)),
            c,
            list.len() as int,
            cd.len() as int,
            opts,
        ) == Ok::<Seq<EntryPlanModel>, ErrorModel>(reread_entries(plans, offs, list, c)),
    decreases list.len() - c,
{
    lemma_list_written(plans, offs, list, c);
    let cd = entries_outcome(plans, offs, list)->Ok_0;
    if c < list.len() {
        let k = list[c];
        lemma_reread_entry(cd, list_len(plans, list.take(c)), plans[k], offs[k], c, opts);
        lemma_reread_entries(plans, offs, list, c + 1, opts);
        assert(seq![reread_entry(plans[k], offs[k], c)] + reread_entries(plans, offs, list, c + 1)
            =~= reread_entries(plans, offs, list, c));
    } else {
        assert(list.take(c) =~= list);
        assert(reread_entries(plans, offs, list, c) =~= Seq::empty());
    }
}

/// Whether a file holds, at `off`, a local header with the new name of a plan and with `ext` bytes
/// of extra fields.
pub open spec fn local_on(file: Seq<u8>, p: EntryPlanModel, off: int, ext: int) -> bool {
    &&& 0 <= off
    &&& 0 <= ext <= 0xFFFF
    &&& off + 30 + p.new_fname.len() + ext <= file.len()
    &&& u32_at(file, off) == LOCAL_FILE_HEADER_SIG
    &&& u16_at(file, off + 26) == p.new_fname.len()
    &&& u16_at(file, off + 28) == ext
    &&& file.subrange(off + 30, off + 30 + p.new_fname.len()) == p.new_fname
}

/// An entry that was read, with what its local header adds.
pub open spec fn reread_local(p: EntryPlanModel, off: u64, ext: int, c: int) -> EntryPlanModel {
    EntryPlanModel {
        lhf_header_size: 30 + p.new_fname.len() + ext,
        lhf_extra_len: ext,
        ..reread_entry(p, off, c)
    }
}

/// The local header that was written is read as it was written.
proof fn lemma_reread_local(file: Seq<u8>, p: EntryPlanModel, off: u64, ext: int, c: int)
    requires
        local_on(file, p, off as int, ext),
    ensures
        local_plan_outcome(reread_entry(p, off, c), from_offset(file, off as int)) == Ok::<
            EntryPlanModel,
            ErrorModel,
        >(reread_local(p, off, ext, c)),
{
    let at = from_offset(file, off as int);
    assert(u32_at(at, 0) == u32_at(file, off as int));
    assert(u16_at(at, 26) == u16_at(file, off + 26));
    assert(u16_at(at, 28) == u16_at(file, off + 28));
    assert(at.subrange(30, 30 + u16_at(at, 26)) =~= p.new_fname) by {
        assert(file.subrange(off + 30, off + 30 + p.new_fname.len()) =~= at.subrange(
            30,
            30 + u16_at(at, 26),
        ));
    }
}

/// Where each local header can be read, all can be.
proof fn lemma_all_locals(
    file: Seq<u8>,
    entries: Seq<EntryPlanModel>,
    ps: Seq<EntryPlanModel>,
    n: int,
)
    requires
        0 <= n <= entries.len(),
        ps.len() == entries.len(),
        forall|j: int|
            0 <= j < entries.len() ==> local_plan_outcome(
                entries[j],
                from_offset(file, entries[j].lhf_offset),
            ) == Ok::<EntryPlanModel, ErrorModel>(#[trigger] ps[j]),
    ensures
        local_plans_outcome(file, entries, n) == Ok::<Seq<EntryPlanModel>, ErrorModel>(ps.take(n)),
    decreases n,
{
    if n > 0 {
        lemma_all_locals(file, entries, ps, n - 1);
        assert(local_plan_outcome(
            entries[n - 1],
            from_offset(file, entries[n - 1].lhf_offset),
        ) == Ok::<EntryPlanModel, ErrorModel>(ps[n - 1]));
        assert(ps.take(n) =~= ps.take(n - 1).push(ps[n - 1]));
    } else {
        assert(ps.take(n) =~= Seq::empty());
    }
}

/// Where each entry ends before the next one, all have their numbers of bytes.
proof fn lemma_all_spans(ps: Seq<EntryPlanModel>, cd_start: int, n: int)
    requires
        0 <= n <= ps.len(),
        forall|j: int|
            0 <= j < ps.len() ==> (#[trigger] ps[j]).lhf_offset + ps[j].lhf_header_size <= span_end(
                ps,
                cd_start,
                j,
            ),
    ensures
        spans_outcome(ps, cd_start, n) == Ok::<Seq<EntryPlanModel>, ErrorModel>(
            Seq::new(n as nat, |j: int| with_span(ps, cd_start, j)),
        ),
    decreases n,
{
    if n > 0 {
        lemma_all_spans(ps, cd_start, n - 1);
        assert(ps[n - 1].lhf_offset + ps[n - 1].lhf_header_size <= span_end(ps, cd_start, n - 1));
        assert(Seq::new(n as nat, |j: int| with_span(ps, cd_start, j)) =~= Seq::new(
            (n - 1) as nat,
            |j: int| with_span(ps, cd_start, j),
        ).push(with_span(ps, cd_start, n - 1)));
    } else {
        assert(Seq::new(n as nat, |j: int| with_span(ps, cd_start, j)) =~= Seq::empty());
    }
}

/// A file with an archive in it: for each plan the offset of the local header, the length of its
/// extra area and the size of the entry, and where the central directory starts.
pub struct Written {
    pub file: Seq<u8>,
    pub plans: Seq<EntryPlanModel>,
    pub offs: Seq<u64>,
    pub exts: Seq<int>,
    pub sizes: Seq<int>,
    pub cd_start: int,
}

impl Written {
    /// The plan of the entry at place `c` in the new central directory.
    pub open spec fn plan(self, c: int) -> int {
        kept(self.plans)[c]
    }

    /// Whether the file holds the local header of each entry that stays, and the entries do not
    /// overlap.
    pub open spec fn laid_out(self) -> bool {
        &&& list_writable(self.plans, self.offs, kept(self.plans))
        &&& forall|c: int|
            0 <= c < kept(self.plans).len() ==> {
                let k = #[trigger] self.plan(c);
                &&& local_on(self.file, self.plans[k], self.offs[k] as int, self.exts[k])
                &&& 30 + self.plans[k].new_fname.len() + self.exts[k] <= self.sizes[k]
                &&& self.offs[k] + self.sizes[k] <= self.cd_start
            }
        &&& forall|c: int, d: int|
            0 <= c < kept(self.plans).len() && 0 <= d < kept(self.plans).len() && c != d
                && self.offs[#[trigger] self.plan(c)] <= self.offs[#[trigger] self.plan(d)]
                ==> self.offs[self.plan(c)] + self.sizes[self.plan(c)] <= self.offs[self.plan(d)]
    }

    /// The entry that is read at place `c` of the central directory, without its number of bytes.
    pub open spec fn reread(self, c: int) -> EntryPlanModel {
        let k = self.plan(c);
        reread_local(self.plans[k], self.offs[k], self.exts[k], c)
    }

    /// Whether these are the entries that stay, in the order in which they stand in the file, each
    /// with at least the number of bytes that was written of it.
    pub open spec fn reads_as(self, qs: Seq<EntryPlanModel>) -> bool {
        &&& qs.len() == kept(self.plans).len()
        &&& cd_indexed(qs)
        &&& forall|j: int|
            0 <= j < qs.len() ==> {
                let c = (#[trigger] qs[j]).cd_index;
                &&& qs[j] == (EntryPlanModel { span_size: qs[j].span_size, ..self.reread(c) })
                &&& qs[j].span_size >= self.sizes[self.plan(c)]
                &&& qs[j].lhf_offset + qs[j].span_size == span_end(qs, self.cd_start, j)
            }
    }
}

/// The entries that stay are read as they were written.
pub proof fn lemma_reread_plans(w: Written, info: ArchiveInfoModel, opts: OptionsModel)
    requires
        w.laid_out(),
        forall|c: int|
            0 <= c < kept(w.plans).len() ==> keeps_name(w.plans[#[trigger] kept(w.plans)[c]], opts),
        info.cd_offset == w.cd_start,
        info.total_entries == kept(w.plans).len(),
        info.total_entries <= usize::MAX,
        entries_outcome(w.plans, w.offs, kept(w.plans)) matches Ok(cd) && cd == cd_bytes_of(
            w.file,
            info,
        ) && cd.len() == info.cd_size,
    ensures
        plans_outcome(w.file, info, opts) matches Ok(qs) && w.reads_as(qs),
{
    let list = kept(w.plans);
    let n = list.len() as int;
    lemma_reread_entries(w.plans, w.offs, list, 0, opts);
    assert(list.take(0) =~= Seq::empty());
    let es = reread_entries(w.plans, w.offs, list, 0);
    let keys = offsets(es);
    let order = stable_order(keys);
    lemma_stable_order(keys);
    let sorted = in_file_order(es);
    let ps = Seq::new(n as nat, |j: int| w.reread(order[j]));
    assert forall|j: int| 0 <= j < n implies {
        &&& local_plan_outcome(sorted[j], from_offset(w.file, sorted[j].lhf_offset)) == Ok::<
            EntryPlanModel,
            ErrorModel,
        >(#[trigger] ps[j])
        &&& keys[order[j]] == w.offs[w.plan(order[j])]
    } by {
        let c = order[j];
        let k = w.plan(c);
        assert(0 <= c < n);
        assert(es[c] == reread_entry(w.plans[k], w.offs[k], c));
        assert(sorted[j] == es[c]);
        lemma_reread_local(w.file, w.plans[k], w.offs[k], w.exts[k], c);
    }
    lemma_all_locals(w.file, sorted, ps, n);
    assert(ps.take(n) =~= ps);
    assert forall|j: int| 0 <= j < n implies (#[trigger] ps[j]).lhf_offset
        + w.sizes[w.plan(order[j])] <= span_end(ps, w.cd_start, j) by {
        let c = order[j];
        assert(ps[j] == w.reread(c));
        assert(0 <= c < n);
        assert(w.plan(c) == list[c]);
        if j + 1 < n {
            let d = order[j + 1];
            assert(ps[j + 1] == w.reread(d));
            assert(0 <= d < n);
            assert(c != d);
            assert(w.plan(d) == list[d]);
            assert(comes_before(keys, order[j], order[j + 1]));
            assert(keys[order[j]] == w.offs[w.plan(c)]);
            assert(keys[order[j + 1]] == w.offs[w.plan(d)]);
        }
    }
    assert forall|j: int| 0 <= j < n implies (#[trigger] ps[j]).lhf_offset + ps[j].lhf_header_size
        <= span_end(ps, w.cd_start, j) by {
        let c = order[j];
        assert(ps[j] == w.reread(c));
        assert(ps[j].lhf_offset + w.sizes[w.plan(c)] <= span_end(ps, w.cd_start, j));
        assert(w.plan(c) == list[c]);
    }
    lemma_all_spans(ps, w.cd_start, n);
    let qs = Seq::new(n as nat, |j: int| with_span(ps, w.cd_start, j));
    assert forall|j: int| 0 <= j < n implies (#[trigger] qs[j]).cd_index == order[j] by {
        assert(qs[j] == with_span(ps, w.cd_start, j));
        assert(ps[j] == w.reread(order[j]));
    }
    assert forall|j: int| 0 <= j < n implies {
        let c = (#[trigger] qs[j]).cd_index;
        &&& qs[j] == (EntryPlanModel { span_size: qs[j].span_size, ..w.reread(c) })
        &&& qs[j].span_size >= w.sizes[w.plan(c)]
        &&& qs[j].lhf_offset + qs[j].span_size == span_end(qs, w.cd_start, j)
    } by {
        assert(qs[j] == with_span(ps, w.cd_start, j));
        assert(ps[j] == w.reread(order[j]));
        assert(ps[j].lhf_offset + w.sizes[w.plan(order[j])] <= span_end(ps, w.cd_start, j));
        if j + 1 < n {
            assert(qs[j + 1] == with_span(ps, w.cd_start, j + 1));
        }
    }
    assert(es.len() == n);
}

/// Whether no end record stands in a file behind index `p`.
pub open spec fn last_end_record(file: Seq<u8>, p: int) -> bool {
    forall|q: int| p < q ==> !#[trigger] is_eocd_at(file, q)
}

/// An end record in the tail of a file is an end record of the file.
pub proof fn lemma_eocd_in_tail(file: Seq<u8>, from: int, i: int)
    requires
        0 <= from <= file.len(),
        0 <= i <= file.len() - from - 22,
    ensures
        is_eocd_at(file.subrange(from, file.len() as int), i) == is_eocd_at(file, from + i),
{
    lemma_read_part(file, from, file.len() as int, i);
    lemma_read_part(file, from, file.len() as int, i + 20);
}

/// The end record behind which there is no other is the one that is found.
pub proof fn lemma_found(file: Seq<u8>, p: int)
    requires
        file.len() <= u64::MAX,
        is_eocd_at(file, p),
        last_end_record(file, p),
    ensures
        archive_outcome(file, file.len() as u64) == eocd_outcome(
            file,
            file.subrange(p, p + 22),
            p as u64,
            file.len() as u64,
        ),
{
    let n = file.len() as int;
    let from = search_from(n);
    let tail = file.subrange(from, n);
    lemma_last_eocd(tail, tail.len() - 21);
    lemma_eocd_in_tail(file, from, p - from);
    if let Some(i) = last_eocd(tail, tail.len() - 21) {
        lemma_eocd_in_tail(file, from, i);
    }
    assert(last_eocd(tail, tail.len() - 21) == Some(p - from));
    assert(tail.subrange(p - from, p - from + 22) =~= file.subrange(p, p + 22));
}

/// A file that ends with a central directory at `cd_start` and the end records for it.
pub open spec fn ends_with(
    file: Seq<u8>,
    cd: Seq<u8>,
    cd_start: int,
    zip64: bool,
    entries: int,
    comment: Seq<u8>,
) -> bool {
    &&& 0 <= cd_start <= file.len()
    &&& file.subrange(cd_start, file.len() as int) == cd + end_records(
        zip64,
        entries,
        cd.len() as int,
        cd_start,
        comment,
    )
}

/// Whether the end records say with every number what it is. A plain end record says with its
/// highest numbers that the number stands elsewhere.
pub open spec fn sayable(zip64: bool, entries: int, cd_size: int, cd_start: int) -> bool {
    zip64 || (entries < 0xFFFF && cd_size < 0xFFFF_FFFF && cd_start < 0xFFFF_FFFF)
}

/// The end record in a part of a file.
proof fn lemma_end_record(file: Seq<u8>, p: int, entries: u16, size: u32, off: u32, comment: Seq<u8>)
    requires
        0 <= p,
        comment.len() <= 0xFFFF,
        p + 22 + comment.len() == file.len(),
        file.subrange(p, file.len() as int) == eocd_bytes(entries, size, off, comment),
    ensures
        is_eocd_at(file, p),
        EndRecord::of(file.subrange(p, p + 22)) == (EndRecord {
            entries_this: entries,
            total_entries: entries,
            cd_size: size,
            cd_offset: off,
            comment_len: comment.len() as u16,
        }),
        !eocd_multi_disk(file.subrange(p, p + 22)),
        file.subrange(p + 22, file.len() as int) == comment,
{
    let b = eocd_bytes(entries, size, off, comment);
    let n = file.len() as int;
    law_eocd_fields(entries, size, off, comment);
    let r = file.subrange(p, p + 22);
    assert(r =~= b.subrange(0, 22));
    lemma_read_part(file, p, n, 0);
    lemma_read_part(file, p, n, 20);
    lemma_read_part(b, 0, 22, 4);
    lemma_read_part(b, 0, 22, 6);
    lemma_read_part(b, 0, 22, 8);
    lemma_read_part(b, 0, 22, 10);
    lemma_read_part(b, 0, 22, 12);
    lemma_read_part(b, 0, 22, 16);
    lemma_read_part(b, 0, 22, 20);
    assert(file.subrange(p + 22, n) =~= b.subrange(22, b.len() as int));
}

/// The end records that were written are read as they were written, where the numbers can be said
/// and nothing behind the end record looks like another one.
pub proof fn law_end_records_read(
    file: Seq<u8>,
    cd: Seq<u8>,
    cd_start: int,
    zip64: bool,
    entries: int,
    comment: Seq<u8>,
)
    requires
        ends_with(file, cd, cd_start, zip64, entries, comment),
        file.len() <= u64::MAX,
        0 <= entries <= u64::MAX,
        comment.len() <= 0xFFFF,
        sayable(zip64, entries, cd.len() as int, cd_start),
        last_end_record(file, file.len() - 22 - comment.len()),
    ensures
        archive_outcome(file, file.len() as u64) == Ok::<ArchiveInfoModel, ErrorModel>(
            ArchiveInfoModel {
                cd_offset: cd_start as u64,
                cd_size: cd.len() as u64,
                total_entries: entries as u64,
                is_zip64: zip64,
                archive_comment: comment,
            },
        ),
{
    let n = file.len() as int;
    let p = n - 22 - comment.len();
    let ends = end_records(zip64, entries, cd.len() as int, cd_start, comment);
    let cd_end = cd_start + cd.len();
    let rest = file.subrange(cd_start, n);
    lemma_end_sizes(
        entries as u64,
        cd.len() as u64,
        cd_start as u64,
        cd_end as u64,
        comment,
    );
    assert(rest.len() == n - cd_start);
    assert(file.subrange(cd_end, n) =~= ends) by {
        assert(rest.subrange(cd.len() as int, rest.len() as int) =~= ends);
        assert(file.subrange(cd_end, n) =~= rest.subrange(cd.len() as int, rest.len() as int));
    }
    if zip64 {
        lemma_zip64_read(file, cd_end, entries as u64, cd.len() as u64, cd_start as u64, comment);
    } else {
        lemma_plain_read(file, cd_end, entries as u16, cd.len() as u32, cd_start as u32, comment);
    }
}

/// A plain end record at `at`.
proof fn lemma_plain_read(
    file: Seq<u8>,
    at: int,
    entries: u16,
    cd_size: u32,
    cd_start: u32,
    comment: Seq<u8>,
)
    requires
        0 <= at <= file.len() <= u64::MAX,
        comment.len() <= 0xFFFF,
        file.subrange(at, file.len() as int) == eocd_bytes(entries, cd_size, cd_start, comment),
        at == cd_start + cd_size,
        entries < 0xFFFF,
        cd_size < 0xFFFF_FFFF,
        cd_start < 0xFFFF_FFFF,
        last_end_record(file, file.len() - 22 - comment.len()),
    ensures
        archive_outcome(file, file.len() as u64) == Ok::<ArchiveInfoModel, ErrorModel>(
            ArchiveInfoModel {
                cd_offset: cd_start as u64,
                cd_size: cd_size as u64,
                total_entries: entries as u64,
                is_zip64: false,
                archive_comment: comment,
            },
        ),
{
    lemma_end_sizes(entries as u64, cd_size as u64, cd_start as u64, 0, comment);
    assert(file.subrange(at, file.len() as int).len() == 22 + comment.len());
    lemma_end_record(file, at, entries, cd_size, cd_start, comment);
    lemma_found(file, at);
    reveal(eocd_outcome);
    assert(comment.len() == 0 ==> comment =~= Seq::empty());
}

/// ZIP64 end records at `at`.
proof fn lemma_zip64_read(
    file: Seq<u8>,
    at: int,
    entries: u64,
    cd_size: u64,
    cd_start: u64,
    comment: Seq<u8>,
)
    requires
        0 <= at <= file.len() <= u64::MAX,
        comment.len() <= 0xFFFF,
        file.subrange(at, file.len() as int) == zip64_eocd_bytes(
            at as u64,
            entries,
            cd_size,
            cd_start,
            comment,
        ),
        at == cd_start + cd_size,
        last_end_record(file, file.len() - 22 - comment.len()),
    ensures
        archive_outcome(file, file.len() as u64) == Ok::<ArchiveInfoModel, ErrorModel>(
            ArchiveInfoModel {
                cd_offset: cd_start,
                cd_size,
                total_entries: entries,
                is_zip64: true,
                archive_comment: comment,
            },
        ),
{
    let n = file.len() as int;
    let p = n - 22 - comment.len();
    let ends = zip64_eocd_bytes(at as u64, entries, cd_size, cd_start, comment);
    law_zip64_fields(at as u64, entries, cd_size, cd_start, comment);
    lemma_zip64_parts(file, at, ends, comment.len() as int);
    let loc = file.subrange(p - 20, p);
    let rec = file.subrange(at, at + 56);
    lemma_zip64_records(loc, rec, at as u64, entries, cd_size, cd_start, comment, n as u64);
    lemma_end_record(file, p, 0xFFFF, 0xFFFF_FFFF, 0xFFFF_FFFF, comment);
    lemma_found(file, p);
    assert(comment.len() == 0 ==> comment =~= Seq::empty());
    assert(EndRecord::of(file.subrange(p, p + 22)).refers_to_zip64());
    assert(bytes_at(file, p - 20, 20) == Some(loc));
    assert(bytes_at(file, at, 56) == Some(rec));
    reveal(eocd_outcome);
}

/// Where the three ZIP64 end records stand.
proof fn lemma_zip64_parts(file: Seq<u8>, at: int, ends: Seq<u8>, comment_len: int)
    requires
        0 <= at <= file.len(),
        file.subrange(at, file.len() as int) == ends,
        ends.len() == 98 + comment_len,
        0 <= comment_len,
    ensures
        ({
            let p = file.len() - 22 - comment_len;
            &&& p == at + 76
            &&& file.subrange(p, file.len() as int) == ends.subrange(76, ends.len() as int)
            &&& file.subrange(p - 20, p) == ends.subrange(56, 76)
            &&& file.subrange(at, at + 56) == ends.subrange(0, 56)
        }),
{
    let p = file.len() - 22 - comment_len;
    assert(file.subrange(p, file.len() as int) =~= ends.subrange(76, ends.len() as int));
    assert(file.subrange(p - 20, p) =~= ends.subrange(56, 76));
    assert(file.subrange(at, at + 56) =~= ends.subrange(0, 56));
}

/// The locator and the ZIP64 end record that were written are read as they were written.
proof fn lemma_zip64_records(
    loc: Seq<u8>,
    rec: Seq<u8>,
    at: u64,
    entries: u64,
    cd_size: u64,
    cd_start: u64,
    comment: Seq<u8>,
    file_len: u64,
)
    requires
        loc == zip64_eocd_bytes(at, entries, cd_size, cd_start, comment).subrange(56, 76),
        rec == zip64_eocd_bytes(at, entries, cd_size, cd_start, comment).subrange(0, 56),
        at == cd_start + cd_size,
        at + 98 <= file_len,
    ensures
        locator_outcome(loc) == Ok::<u64, ErrorModel>(at),
        zip64_outcome(rec, at, (at + 56) as u64, comment, file_len) == Ok::<
            ArchiveInfoModel,
            ErrorModel,
        >(
            ArchiveInfoModel {
                cd_offset: cd_start,
                cd_size,
                total_entries: entries,
                is_zip64: true,
                archive_comment: comment,
            },
        ),
{
    law_zip64_fields(at, entries, cd_size, cd_start, comment);
    lemma_locator_read(zip64_eocd_bytes(at, entries, cd_size, cd_start, comment), loc, rec);
}

proof fn lemma_locator_read(ends: Seq<u8>, loc: Seq<u8>, rec: Seq<u8>)
    requires
        ends.len() >= 76,
        loc == ends.subrange(56, 76),
        rec == ends.subrange(0, 56),
    ensures
        u32_at(loc, 0) == u32_at(ends, 56),
        u32_at(loc, 4) == u32_at(ends, 60),
        u64_at(loc, 8) == u64_at(ends, 64),
        u32_at(loc, 16) == u32_at(ends, 72),
        u32_at(rec, 0) == u32_at(ends, 0),
        u64_at(rec, 4) == u64_at(ends, 4),
        u32_at(rec, 16) == u32_at(ends, 16),
        u32_at(rec, 20) == u32_at(ends, 20),
        u64_at(rec, 24) == u64_at(ends, 24),
        u64_at(rec, 32) == u64_at(ends, 32),
        u64_at(rec, 40) == u64_at(ends, 40),
        u64_at(rec, 48) == u64_at(ends, 48),
{
    lemma_read_part(ends, 56, 76, 0);
    lemma_read_part(ends, 56, 76, 4);
    lemma_read_part(ends, 56, 76, 8);
    lemma_read_part(ends, 56, 76, 16);
    lemma_read_part(ends, 0, 56, 0);
    lemma_read_part(ends, 0, 56, 4);
    lemma_read_part(ends, 0, 56, 16);
    lemma_read_part(ends, 0, 56, 20);
    lemma_read_part(ends, 0, 56, 24);
    lemma_read_part(ends, 0, 56, 32);
    lemma_read_part(ends, 0, 56, 40);
    lemma_read_part(ends, 0, 56, 48);
}

} // verus!
