//! Extra fields: records of an identifier, a length and data, one behind another.

use super::bytes::{patched, read_u16, u16_at};
use vstd::prelude::*;

verus! {

/// What the search for an extra field finds.
#[derive(Debug, Clone, Copy)]
pub enum FieldSearch {
    /// Where the data of the field starts, and its length.
    Found { start: usize, size: usize },
    /// A field before it is longer than the rest.
    Truncated,
    /// There is no such field.
    Missing,
}

/// The result of the search from index `cursor` on.
pub open spec fn search_outcome(extra: Seq<u8>, id: u16, cursor: int) -> FieldSearch
    decreases extra.len() - cursor,
{
    if cursor < 0 || cursor + 4 > extra.len() {
        FieldSearch::Missing
    } else {
        let size = u16_at(extra, cursor + 2);
        if cursor + 4 + size > extra.len() {
            FieldSearch::Truncated
        } else if u16_at(extra, cursor) == id {
            FieldSearch::Found { start: (cursor + 4) as usize, size: size as usize }
        } else {
            search_outcome(extra, id, cursor + 4 + size)
        }
    }
}

/// The distance of the local header offset from the start of the data of a ZIP64 field: the
/// sizes stand before it where the header refers to them.
pub open spec fn offset_slot(comp32: u32, uncomp32: u32) -> int {
    (if uncomp32 == 0xFFFF_FFFF {
        8int
    } else {
        0
    }) + (if comp32 == 0xFFFF_FFFF {
        8int
    } else {
        0
    })
}

/// Searches an extra area for a field.
pub fn find_field(extra: &[u8], id: u16) -> (r: FieldSearch)
    ensures
        r == search_outcome(extra@, id, 0),
        r matches FieldSearch::Found { start, size } ==> 4 <= start && start + size <= extra.len(),
{
    let mut cursor: usize = 0;
    while extra.len() - cursor >= 4
        invariant
            cursor <= extra.len(),
            search_outcome(extra@, id, 0) == search_outcome(extra@, id, cursor as int),
        decreases extra.len() - cursor,
    {
        let size: usize = read_u16(extra, cursor + 2) as usize;
        if extra.len() - cursor - 4 < size {
            return FieldSearch::Truncated;
        }
        if read_u16(extra, cursor) == id {
            return FieldSearch::Found { start: cursor + 4, size };
        }
        cursor = cursor + 4 + size;
    }
    FieldSearch::Missing
}

/// Where the local header offset stands behind the start of the data of a ZIP64 field.
pub fn slot_of_offset(comp32: u32, uncomp32: u32) -> (slot: usize)
    ensures
        slot == offset_slot(comp32, uncomp32),
{
    let mut slot: usize = 0;
    if uncomp32 == 0xFFFF_FFFF {
        slot += 8;
    }
    if comp32 == 0xFFFF_FFFF {
        slot += 8;
    }
    slot
}

/// What the search finds lies within the extra area.
pub proof fn lemma_search_bounds(extra: Seq<u8>, id: u16, cursor: int)
    requires
        0 <= cursor,
        extra.len() <= usize::MAX,
    ensures
        search_outcome(extra, id, cursor) matches FieldSearch::Found { start, size } ==> cursor + 4
            <= start && start + size <= extra.len() && size <= 0xFFFF,
    decreases extra.len() - cursor,
{
    if cursor + 4 <= extra.len() && cursor + 4 + u16_at(extra, cursor + 2) <= extra.len() {
        lemma_search_bounds(extra, id, cursor + 4 + u16_at(extra, cursor + 2));
    }
}

/// A change inside the data of a field does not change where the field is found.
pub proof fn lemma_search_patched(extra: Seq<u8>, id: u16, cursor: int, at: int, v: Seq<u8>)
    requires
        0 <= cursor,
        extra.len() <= usize::MAX,
        search_outcome(extra, id, cursor) matches FieldSearch::Found { start, size } && start <= at
            && at + v.len() <= start + size,
    ensures
        search_outcome(patched(extra, at, v), id, cursor) == search_outcome(extra, id, cursor),
    decreases extra.len() - cursor,
{
    lemma_search_bounds(extra, id, cursor);
    let next = patched(extra, at, v);
    assert(next.len() == extra.len());
    assert(forall|i: int| 0 <= i < at ==> next[i] == extra[i]);
    assert(u16_at(next, cursor) == u16_at(extra, cursor));
    assert(u16_at(next, cursor + 2) == u16_at(extra, cursor + 2));
    if u16_at(extra, cursor) != id {
        lemma_search_patched(extra, id, cursor + 4 + u16_at(extra, cursor + 2), at, v);
    }
}

/// Behind another field that is whole, the search goes on as if the area began there.
pub proof fn law_other_fields_are_skipped(first: Seq<u8>, rest: Seq<u8>, id: u16)
    requires
        first.len() >= 4,
        first[0] + 0x100 * first[1] != id,
        first[2] + 0x100 * first[3] == first.len() - 4,
        first.len() + rest.len() <= usize::MAX,
    ensures
        search_outcome(first + rest, id, 0) == match search_outcome(rest, id, 0) {
            FieldSearch::Found { start, size } => FieldSearch::Found {
                start: (first.len() + start) as usize,
                size,
            },
            r => r,
        },
{
    let all = first + rest;
    assert(all[0] == first[0] && all[1] == first[1]);
    assert(all[2] == first[2] && all[3] == first[3]);
    assert(search_outcome(all, id, 0) == search_outcome(all, id, first.len() as int));
    lemma_search_shifted(first, rest, id, 0);
}

proof fn lemma_search_shifted(first: Seq<u8>, rest: Seq<u8>, id: u16, cursor: int)
    requires
        0 <= cursor,
        first.len() + rest.len() <= usize::MAX,
    ensures
        search_outcome(first + rest, id, first.len() + cursor) == match search_outcome(
            rest,
            id,
            cursor,
        ) {
            FieldSearch::Found { start, size } => FieldSearch::Found {
                start: (first.len() + start) as usize,
                size,
            },
            r => r,
        },
    decreases rest.len() - cursor,
{
    let all = first + rest;
    if cursor + 4 <= rest.len() {
        assert(u16_at(all, first.len() + cursor) == u16_at(rest, cursor));
        assert(u16_at(all, first.len() + cursor + 2) == u16_at(rest, cursor + 2));
        let size = u16_at(rest, cursor + 2);
        if cursor + 4 + size <= rest.len() {
            lemma_search_shifted(first, rest, id, cursor + 4 + size);
        }
    }
}

/// The first field is found by its identifier, whatever stands behind it; a field that is longer
/// than the rest ends the search, and so does the end of the area.
pub proof fn law_first_field(area: Seq<u8>, id: u16)
    requires
        area.len() <= usize::MAX,
    ensures
        area.len() < 4 ==> search_outcome(area, id, 0) is Missing,
        area.len() >= 4 && 4 + area[2] + 0x100 * area[3] > area.len() ==> search_outcome(
            area,
            id,
            0,
        ) is Truncated,
        area.len() >= 4 && 4 + area[2] + 0x100 * area[3] <= area.len() && area[0] + 0x100 * area[1]
            == id ==> search_outcome(area, id, 0) == (FieldSearch::Found {
            start: 4,
            size: (area[2] + 0x100 * area[3]) as usize,
        }),
{
}

} // verus!
