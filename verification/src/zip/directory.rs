//! The central directory and the end records as they are written.

use super::bytes::push_bytes;
use super::cd_entry::{build_cd_entry_into, cd_entry_bytes_outcome, law_patched_offset_is_read};
use super::eocd::{
    build_eocd_into, build_zip64_eocd_into, eocd_bytes, lemma_end_sizes, zip64_eocd_bytes,
    zip64_record_bytes,
};
use super::error::{limit, Result};
use super::layout::{cd_entry_ok, cd_len_sum, cd_total, entry_ok, layout_ok};
use super::order::ints;
use super::plan::{
    cd_indexed, cd_order, cd_positions, first_cd_index_fault, lemma_cd_index_faults,
    lemma_cd_index_taken, models, EntryPlan, EntryPlanModel,
};
use vstd::prelude::*;
use vstd::string::*;

verus! {

/// The plans of the entries that stay, in the order of the central directory.
pub open spec fn kept(plans: Seq<EntryPlanModel>) -> Seq<int> {
    kept_among(plans, cd_positions(plans))
}

/// Those of the listed plans whose entries stay.
pub open spec fn kept_among(plans: Seq<EntryPlanModel>, list: Seq<int>) -> Seq<int>
    decreases list.len(),
{
    if list.len() == 0 {
        Seq::empty()
    } else if plans[list.last()].excluded {
        kept_among(plans, list.drop_last())
    } else {
        kept_among(plans, list.drop_last()).push(list.last())
    }
}

/// The listed entries of a central directory, one behind another; the local header of the entry
/// with plan `k` stands at `offs[k]`.
pub open spec fn entries_outcome(
    plans: Seq<EntryPlanModel>,
    offs: Seq<u64>,
    list: Seq<int>,
) -> core::result::Result<Seq<u8>, Seq<char>>
    decreases list.len(),
{
    if list.len() == 0 {
        Ok(Seq::empty())
    } else {
        match entries_outcome(plans, offs, list.drop_last()) {
            Err(text) => Err(text),
            Ok(front) => match cd_entry_bytes_outcome(plans[list.last()], offs[list.last()]) {
                Err(text) => Err(text),
                Ok(entry) => Ok(front + entry),
            },
        }
    }
}

/// The central directory of the entries that stay.
pub open spec fn directory_outcome(
    plans: Seq<EntryPlanModel>,
    offs: Seq<u64>,
) -> core::result::Result<Seq<u8>, Seq<char>> {
    match first_cd_index_fault(plans, plans.len() as int) {
        Some(text) => Err(text),
        None => entries_outcome(plans, offs, kept(plans)),
    }
}

/// The end records behind a central directory of `cd_size` bytes at `cd_start`.
pub open spec fn end_records(
    zip64: bool,
    entries: int,
    cd_size: int,
    cd_start: int,
    comment: Seq<u8>,
) -> Seq<u8> {
    if zip64 {
        zip64_eocd_bytes(
            (cd_start + cd_size) as u64,
            entries as u64,
            cd_size as u64,
            cd_start as u64,
            comment,
        )
    } else {
        eocd_bytes(entries as u16, cd_size as u32, cd_start as u32, comment)
    }
}

/// What is kept of a list: those whose entries stay, each once, in the order of the list.
proof fn lemma_kept_among(plans: Seq<EntryPlanModel>, list: Seq<int>)
    requires
        list.no_duplicates(),
    ensures
        forall|c: int|
            0 <= c < kept_among(plans, list).len() ==> list.contains(
                #[trigger] kept_among(plans, list)[c],
            ) && !plans[kept_among(plans, list)[c]].excluded,
        forall|i: int|
            0 <= i < list.len() && !plans[#[trigger] list[i]].excluded ==> kept_among(
                plans,
                list,
            ).contains(list[i]),
        kept_among(plans, list).no_duplicates(),
    decreases list.len(),
{
    let all = kept_among(plans, list);
    if list.len() > 0 {
        let front = list.drop_last();
        let k = list.last();
        lemma_kept_among(plans, front);
        let before = kept_among(plans, front);
        assert forall|c: int| 0 <= c < all.len() implies list.contains(#[trigger] all[c])
            && !plans[all[c]].excluded by {
            if c < before.len() {
                assert(all[c] == before[c]);
                let i = choose|i: int| 0 <= i < front.len() && front[i] == before[c];
                assert(list[i] == before[c]);
            } else {
                assert(list[list.len() - 1] == k);
            }
        }
        assert forall|i: int|
            0 <= i < list.len() && !plans[#[trigger] list[i]].excluded implies all.contains(
            list[i],
        ) by {
            if i < front.len() {
                assert(front[i] == list[i]);
                assert(before.contains(front[i]));
                let c = choose|c: int| 0 <= c < before.len() && before[c] == front[i];
                assert(all[c] == front[i]);
            } else {
                assert(all[all.len() - 1] == k);
            }
        }
        assert(all.no_duplicates()) by {
            assert forall|c: int, d: int|
                0 <= c < all.len() && 0 <= d < all.len() && c != d implies all[c] != all[d] by {
                if c < before.len() && d < before.len() {
                    assert(all[c] == before[c] && all[d] == before[d]);
                } else {
                    let e = if c < before.len() {
                        c
                    } else {
                        d
                    };
                    if e < before.len() {
                        assert(front.contains(before[e]));
                        let i = choose|i: int| 0 <= i < front.len() && front[i] == before[e];
                        assert(list[i] == before[e] && list[list.len() - 1] == k);
                    }
                }
            }
        }
    }
}

/// The entries that stay are all those that are not dropped, each once.
pub proof fn law_kept_entries(plans: Seq<EntryPlanModel>)
    requires
        cd_indexed(plans),
    ensures
        forall|c: int|
            0 <= c < kept(plans).len() ==> 0 <= #[trigger] kept(plans)[c] && kept(plans)[c]
                < plans.len() && !plans[kept(plans)[c]].excluded,
        forall|k: int|
            0 <= k < plans.len() && !(#[trigger] plans[k]).excluded ==> kept(plans).contains(k),
        kept(plans).no_duplicates(),
{
    let all = cd_positions(plans);
    assert forall|c: int| 0 <= c < plans.len() implies 0 <= #[trigger] all[c] < plans.len()
        && plans[all[c]].cd_index == c by {
        lemma_cd_index_taken(plans, c);
    }
    assert(all.no_duplicates());
    lemma_kept_among(plans, all);
    assert forall|c: int| 0 <= c < kept(plans).len() implies 0 <= #[trigger] kept(plans)[c]
        && kept(plans)[c] < plans.len() && !plans[kept(plans)[c]].excluded by {
        assert(all.contains(kept(plans)[c]));
    }
    assert forall|k: int| 0 <= k < plans.len() && !(#[trigger] plans[k]).excluded implies kept(
        plans,
    ).contains(k) by {
        let c = plans[k].cd_index;
        assert(all[c] == k) by {
            assert(plans[all[c]].cd_index == c);
        }
        assert(kept(plans).contains(all[c]));
    }
}

/// The entries that stay keep their order in the central directory.
pub proof fn law_order_is_kept(plans: Seq<EntryPlanModel>, c: int, d: int)
    requires
        cd_indexed(plans),
        0 <= c < d < kept(plans).len(),
    ensures
        plans[kept(plans)[c]].cd_index < plans[kept(plans)[d]].cd_index,
{
    let all = cd_positions(plans);
    assert forall|c: int| 0 <= c < plans.len() implies 0 <= #[trigger] all[c] < plans.len()
        && plans[all[c]].cd_index == c by {
        lemma_cd_index_taken(plans, c);
    }
    assert(all.take(all.len() as int) =~= all);
    lemma_order_among(plans, all, all.len() as int, c, d);
}

proof fn lemma_order_among(
    plans: Seq<EntryPlanModel>,
    all: Seq<int>,
    n: int,
    c: int,
    d: int,
)
    requires
        0 <= n <= all.len(),
        forall|i: int| 0 <= i < all.len() ==> plans[#[trigger] all[i]].cd_index == i,
        0 <= c < d < kept_among(plans, all.take(n)).len(),
    ensures
        plans[kept_among(plans, all.take(n))[c]].cd_index < plans[kept_among(
            plans,
            all.take(n),
        )[d]].cd_index,
        plans[kept_among(plans, all.take(n))[d]].cd_index < n,
    decreases n,
{
    let now = kept_among(plans, all.take(n));
    if n > 0 {
        let before = kept_among(plans, all.take(n - 1));
        assert(all.take(n).drop_last() =~= all.take(n - 1));
        assert(all.take(n).last() == all[n - 1]);
        if d < before.len() {
            lemma_order_among(plans, all, n - 1, c, d);
            assert(now[c] == before[c] && now[d] == before[d]);
        } else {
            lemma_index_among(plans, all, n - 1, c);
            assert(now[c] == before[c] && now[d] == all[n - 1]);
        }
    } else {
        assert(all.take(n) =~= Seq::empty());
    }
}

proof fn lemma_index_among(plans: Seq<EntryPlanModel>, all: Seq<int>, n: int, c: int)
    requires
        0 <= n <= all.len(),
        forall|i: int| 0 <= i < all.len() ==> plans[#[trigger] all[i]].cd_index == i,
        0 <= c < kept_among(plans, all.take(n)).len(),
    ensures
        plans[kept_among(plans, all.take(n))[c]].cd_index < n,
    decreases n,
{
    if n > 0 {
        let before = kept_among(plans, all.take(n - 1));
        assert(all.take(n).drop_last() =~= all.take(n - 1));
        assert(all.take(n).last() == all[n - 1]);
        if c < before.len() {
            lemma_index_among(plans, all, n - 1, c);
        }
    } else {
        assert(all.take(n) =~= Seq::empty());
    }
}

/// Appends the central directory of the entries that stay to `out` and returns their number.
/// Where an entry cannot be written, `out` stays as it is.
pub fn write_directory(plans: &[EntryPlan], offs: &[u64], out: &mut Vec<u8>) -> (r:
    core::result::Result<u64, String>)
    requires
        offs@.len() == plans@.len(),
    ensures
        match r {
            Ok(n) => directory_outcome(models(plans@), offs@) matches Ok(cd) && final(out)@ == old(
                out,
            )@ + cd && n == kept(models(plans@)).len(),
            Err(e) => directory_outcome(models(plans@), offs@) == Err::<Seq<u8>, Seq<char>>(e@)
                && final(out)@ == old(out)@,
        },
{
    let order = match cd_order(plans) {
        Ok(order) => order,
        Err(e) => return Err(e),
    };
    let ghost ms = models(plans@);
    let ghost all = cd_positions(ms);
    let mut cd: Vec<u8> = Vec::new();
    let mut n: u64 = 0;
    let mut c: usize = 0;
    assert(all.take(0) =~= Seq::empty());
    while c < order.len()
        invariant
            c <= order.len(),
            n <= c,
            offs@.len() == plans@.len(),
            ms == models(plans@),
            all == cd_positions(ms),
            ints(order@) == all,
            order@.len() == all.len(),
            first_cd_index_fault(ms, ms.len() as int) is None,
            forall|i: int| 0 <= i < order@.len() ==> #[trigger] order@[i] < plans@.len(),
            n == kept_among(ms, all.take(c as int)).len(),
            entries_outcome(ms, offs@, kept_among(ms, all.take(c as int))) == Ok::<
                Seq<u8>,
                Seq<char>,
            >(cd@),
        decreases order.len() - c,
    {
        let k: usize = order[c];
        proof {
            assert(all[c as int] == k) by {
                assert(ints(order@)[c as int] == order@[c as int] as int);
            }
            assert(all.take(c + 1).drop_last() =~= all.take(c as int));
            let front = kept_among(ms, all.take(c as int));
            assert(front.push(k as int).drop_last() =~= front);
        }
        if !plans[k].excluded {
            match build_cd_entry_into(&plans[k], offs[k], &mut cd) {
                Ok(_) => {},
                Err(e) => {
                    proof {
                        let list = kept_among(ms, all.take(c + 1));
                        assert(entries_outcome(ms, offs@, list) == Err::<Seq<u8>, Seq<char>>(e@));
                        lemma_kept_extends(ms, all, c + 1, all.len() as int);
                        assert(all.take(all.len() as int) =~= all);
                        lemma_entries_fail(ms, offs@, list, kept(ms));
                    }
                    return Err(e);
                },
            }
            n += 1;
        }
        c += 1;
    }
    assert(all.take(c as int) =~= all);
    push_bytes(out, cd.as_slice());
    Ok(n)
}

/// A longer list keeps what a shorter one keeps.
proof fn lemma_kept_extends(plans: Seq<EntryPlanModel>, list: Seq<int>, n: int, m: int)
    requires
        0 <= n <= m <= list.len(),
    ensures
        kept_among(plans, list.take(n)).is_prefix_of(kept_among(plans, list.take(m))),
    decreases m - n,
{
    if n < m {
        lemma_kept_extends(plans, list, n, m - 1);
        assert(list.take(m).drop_last() =~= list.take(m - 1));
    }
}

/// Where a list of entries cannot be written, no longer list can be.
proof fn lemma_entries_fail(
    plans: Seq<EntryPlanModel>,
    offs: Seq<u64>,
    short: Seq<int>,
    long: Seq<int>,
)
    requires
        short.is_prefix_of(long),
        entries_outcome(plans, offs, short) is Err,
    ensures
        entries_outcome(plans, offs, long) == entries_outcome(plans, offs, short),
    decreases long.len(),
{
    if short.len() == long.len() {
        assert(short =~= long);
    } else {
        assert(short.is_prefix_of(long.drop_last()));
        lemma_entries_fail(plans, offs, short, long.drop_last());
    }
}

/// The bytes that an entry takes in the new central directory.
pub open spec fn new_cd_len(p: EntryPlanModel) -> int {
    46int + p.new_fname.len() + p.cd_extra.len() + p.cd_comment.len()
}

/// An entry whose local header does not move back can be written.
pub proof fn lemma_entry_writable(p: EntryPlanModel, off: u64)
    requires
        cd_entry_ok(p),
        off <= p.lhf_offset,
    ensures
        cd_entry_bytes_outcome(p, off) matches Ok(bytes) && bytes.len() == new_cd_len(p),
{
    law_patched_offset_is_read(p.cd_extra, off, p, p.entry_no());
}

proof fn lemma_entries_writable(plans: Seq<EntryPlanModel>, offs: Seq<u64>, list: Seq<int>)
    requires
        forall|i: int| 0 <= i < list.len() ==> 0 <= #[trigger] list[i] < plans.len(),
        forall|k: int| 0 <= k < plans.len() ==> cd_entry_ok(#[trigger] plans[k]),
        forall|k: int|
            0 <= k < plans.len() && !(#[trigger] plans[k]).excluded ==> offs[k]
                <= plans[k].lhf_offset,
    ensures
        entries_outcome(plans, offs, kept_among(plans, list)) matches Ok(cd) && cd.len()
            <= cd_len_sum(list.map_values(|k: int| plans[k])),
        kept_among(plans, list).len() <= list.len(),
    decreases list.len(),
{
    let mapped = list.map_values(|k: int| plans[k]);
    if list.len() > 0 {
        let front = list.drop_last();
        let k = list.last();
        assert(list[list.len() - 1] == k);
        assert forall|i: int| 0 <= i < front.len() implies 0 <= #[trigger] front[i]
            < plans.len() by {
            assert(front[i] == list[i]);
        }
        lemma_entries_writable(plans, offs, front);
        assert(mapped.drop_last() =~= front.map_values(|k: int| plans[k]));
        assert(mapped.last() == plans[k]);
        assert(cd_entry_ok(plans[k]));
        if !plans[k].excluded {
            lemma_entry_writable(plans[k], offs[k]);
            assert(kept_among(plans, list).drop_last() =~= kept_among(plans, front));
        }
    }
}

/// The central directory of plans that fit together can be written where no local header moves
/// back, and it is no longer than the old one.
pub proof fn lemma_directory(plans: Seq<EntryPlanModel>, cd_offset: int, offs: Seq<u64>)
    requires
        layout_ok(plans, cd_offset),
        forall|k: int|
            0 <= k < plans.len() && !(#[trigger] plans[k]).excluded ==> offs[k]
                <= plans[k].lhf_offset,
    ensures
        directory_outcome(plans, offs) matches Ok(cd) && cd.len() <= cd_total(plans),
        kept(plans).len() <= plans.len(),
{
    lemma_cd_index_faults(plans, plans.len() as int);
    let list = cd_positions(plans);
    assert forall|c: int| 0 <= c < list.len() implies 0 <= #[trigger] list[c] < plans.len() by {
        lemma_cd_index_taken(plans, c);
    }
    assert forall|k: int| 0 <= k < plans.len() implies cd_entry_ok(#[trigger] plans[k]) by {
        assert(entry_ok(plans[k]));
    }
    lemma_entries_writable(plans, offs, list);
}

/// Appends the end records to `out`. Where the comment is too long, the ZIP64 records before the
/// end record that would hold it have been appended.
pub fn push_end_records(
    out: &mut Vec<u8>,
    zip64: bool,
    entries: u64,
    cd_size: u64,
    cd_start: u64,
    comment: &[u8],
) -> (r: Result<()>)
    requires
        cd_start + cd_size <= u64::MAX,
        !zip64 ==> entries <= 0xFFFF && cd_size <= 0xFFFF_FFFF && cd_start <= 0xFFFF_FFFF,
    ensures
        match r {
            Ok(()) => comment@.len() <= 0xFFFF && final(out)@ == old(out)@ + end_records(
                zip64,
                entries as int,
                cd_size as int,
                cd_start as int,
                comment@,
            ) && final(out)@.len() == old(out)@.len() + (if zip64 {
                98int
            } else {
                22
            }) + comment@.len(),
            Err(e) => comment@.len() > 0xFFFF && final(out)@ == old(out)@ + (if zip64 {
                zip64_record_bytes(
                    (cd_start + cd_size) as u64,
                    entries,
                    cd_size,
                    cd_start,
                )
            } else {
                Seq::empty()
            }) && e@ == limit("archive comment is too long for EOCD"@),
        },
{
    proof {
        lemma_end_sizes(entries, cd_size, cd_start, (cd_start + cd_size) as u64, comment@);
        assert(out@ + Seq::<u8>::empty() =~= out@);
    }
    if zip64 {
        build_zip64_eocd_into(out, cd_start + cd_size, entries, cd_size, cd_start, comment)
    } else {
        build_eocd_into(out, entries as u16, cd_size as u32, cd_start as u32, comment)
    }
}

} // verus!
