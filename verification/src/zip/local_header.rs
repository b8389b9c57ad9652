//! Local headers, which stand before the data of an entry.

use super::bytes::{
    array_30, lemma_read_u16, patched, push_bytes, read_u16, read_u32, u16_at, u16_bytes, u32_at,
    write_u16,
};
use super::error::{invalid, message, outcome, Error, ErrorModel, Result};
use super::plan::{from_offset, tail_from};
use super::{checked_u16, over_u16, LOCAL_FILE_HEADER_SIG};
use crate::text::{decimal, hexadecimal, hexadecimal_text, numbered, with_number};
use vstd::prelude::*;
use vstd::slice::{slice_subrange, slice_to_vec};
use vstd::string::*;

verus! {

/// The fixed part of a local header, and its extra fields.
#[derive(Debug)]
pub struct LocalHeader {
    pub header: [u8; 30],
    pub extra: Vec<u8>,
}

#[verifier::ext_equal]
pub struct LocalHeaderModel {
    pub header: Seq<u8>,
    pub extra: Seq<u8>,
}

impl View for LocalHeader {
    type V = LocalHeaderModel;

    open spec fn view(&self) -> LocalHeaderModel {
        LocalHeaderModel { header: self.header@, extra: self.extra@ }
    }
}

/// The local header that `at` starts with and that stands at `offset` in the file.
pub open spec fn local_header_outcome(
    at: Seq<u8>,
    offset: int,
    entry_no: int,
) -> core::result::Result<LocalHeaderModel, ErrorModel> {
    let extra_at = 30 + u16_at(at, 26);
    let extra_len = u16_at(at, 28);
    if at.len() < 30 {
        Err(invalid("unexpected EOF reading LFH at entry "@ + decimal(entry_no)))
    } else if u32_at(at, 0) != LOCAL_FILE_HEADER_SIG {
        Err(
            invalid(
                "invalid LFH signature at entry "@ + decimal(entry_no) + " (offset "@ + hexadecimal(
                    offset,
                ) + ")"@,
            ),
        )
    } else if extra_len == 0 {
        Ok(LocalHeaderModel { header: at.take(30), extra: Seq::empty() })
    } else if extra_at + extra_len > at.len() {
        Err(invalid("unexpected EOF reading LFH extra at entry "@ + decimal(entry_no)))
    } else {
        Ok(
            LocalHeaderModel {
                header: at.take(30),
                extra: at.subrange(extra_at, extra_at + extra_len),
            },
        )
    }
}

/// The fixed part of a local header with new flags and new lengths.
pub open spec fn patched_local_header(
    header: Seq<u8>,
    new_flags: u16,
    new_fname_len: u16,
    new_extra_len: u16,
) -> Seq<u8> {
    patched(
        patched(patched(header, 6, u16_bytes(new_flags)), 26, u16_bytes(new_fname_len)),
        28,
        u16_bytes(new_extra_len),
    )
}

impl LocalHeaderModel {
    /// The local header with a new name, its extra fields unchanged.
    pub open spec fn bytes(self, new_name: Seq<u8>, new_flags: u16, new_extra_len: u16) -> Seq<u8> {
        patched_local_header(self.header, new_flags, new_name.len() as u16, new_extra_len)
            + new_name + self.extra
    }
}

impl LocalHeader {
    /// Reads the local header that stands at `offset`.
    pub fn read(content: &[u8], offset: u64, entry_no: u128) -> (r: Result<Self>)
        ensures
            outcome(r) == local_header_outcome(
                from_offset(content@, offset as int),
                offset as int,
                entry_no as int,
            ),
    {
        LocalHeader::parse(tail_from(content, offset), offset, entry_no)
    }

    /// Reads the local header that stands at `offset`; `at` is what the file holds from there on.
    pub fn parse(at: &[u8], offset: u64, entry_no: u128) -> (r: Result<Self>)
        ensures
            outcome(r) == local_header_outcome(at@, offset as int, entry_no as int),
    {
        if at.len() < 30 {
            return Err(
                Error::invalid_archive(
                    with_number("unexpected EOF reading LFH at entry ", entry_no).as_str(),
                ),
            );
        }
        if read_u32(at, 0) != LOCAL_FILE_HEADER_SIG {
            let mut s = numbered("invalid LFH signature at entry ", entry_no, " (offset ");
            s.append(hexadecimal_text(offset as u128).as_str());
            s.append(")");
            return Err(Error::invalid_archive(s.as_str()));
        }
        let fname_len: usize = read_u16(at, 26) as usize;
        let extra_len: usize = read_u16(at, 28) as usize;
        let header = array_30(at, 0);
        assert(header@ == at@.take(30));
        if extra_len == 0 {
            return Ok(LocalHeader { header, extra: Vec::new() });
        }
        if at.len() - 30 < fname_len || at.len() - 30 - fname_len < extra_len {
            return Err(
                Error::invalid_archive(
                    with_number("unexpected EOF reading LFH extra at entry ", entry_no).as_str(),
                ),
            );
        }
        let extra_at: usize = 30 + fname_len;
        let extra = slice_to_vec(slice_subrange(at, extra_at, extra_at + extra_len));
        assert(extra@ =~= at@.subrange(extra_at as int, extra_at + extra_len));
        Ok(LocalHeader { header, extra })
    }

    pub fn extra_len(&self) -> (n: usize)
        ensures
            n == self@.extra.len(),
    {
        self.extra.len()
    }

    /// The fixed part with new flags and new lengths.
    pub fn patched_header(&self, new_flags: u16, new_fname_len: usize, new_extra_len: u16) -> (r:
        Result<[u8; 30]>)
        ensures
            match r {
                Ok(header) => new_fname_len <= 0xFFFF && header@ == patched_local_header(
                    self@.header,
                    new_flags,
                    new_fname_len as u16,
                    new_extra_len,
                ),
                Err(e) => new_fname_len > 0xFFFF && e@ == message(
                    over_u16("LFH filename length exceeds ZIP limit"@, new_fname_len as int),
                ),
            },
    {
        let fname_len: u16 = match checked_u16(
            new_fname_len as u64,
            "LFH filename length exceeds ZIP limit",
        ) {
            Ok(fname_len) => fname_len,
            Err(e) => return Err(Error::Message(e)),
        };
        let mut header: [u8; 30] = self.header;
        write_u16(&mut header, 6, new_flags);
        write_u16(&mut header, 26, fname_len);
        write_u16(&mut header, 28, new_extra_len);
        Ok(header)
    }

    /// Appends the local header with a new name to `w`, its extra fields unchanged.
    pub fn write(
        &self,
        w: &mut Vec<u8>,
        new_name: &[u8],
        new_flags: u16,
        new_extra_len: u16,
    ) -> (r: Result<()>)
        ensures
            match r {
                Ok(()) => new_name@.len() <= 0xFFFF && final(w)@ == old(w)@ + self@.bytes(
                    new_name@,
                    new_flags,
                    new_extra_len,
                ),
                Err(e) => new_name@.len() > 0xFFFF && final(w)@ == old(w)@ && e@ == message(
                    over_u16("LFH filename length exceeds ZIP limit"@, new_name@.len() as int),
                ),
            },
    {
        let header = match self.patched_header(new_flags, new_name.len(), new_extra_len) {
            Ok(header) => header,
            Err(e) => return Err(e),
        };
        push_bytes(w, &header);
        push_bytes(w, new_name);
        push_bytes(w, self.extra.as_slice());
        assert(w@ =~= old(w)@ + self@.bytes(new_name@, new_flags, new_extra_len));
        Ok(())
    }
}

/// A local header is read exactly when its 30 bytes are there behind `PK\x03\x04`, and its extra
/// area, where it has one, is there behind the name. What is read is what stands there.
pub proof fn law_local_header(at: Seq<u8>, offset: int, entry_no: int)
    ensures
        ({
            let from = 30 + u16_at(at, 26);
            let len = u16_at(at, 28);
            let r = local_header_outcome(at, offset, entry_no);
            &&& r is Ok <==> at.len() >= 30 && u32_at(at, 0) == 0x0403_4b50 && (len == 0 || from
                + len <= at.len())
            &&& r matches Ok(h) ==> {
                &&& h.header == at.subrange(0, 30)
                &&& h.extra.len() == len
                &&& forall|i: int| 0 <= i < len ==> #[trigger] h.extra[i] == at[from + i]
            }
        }),
{
    if at.len() >= 30 {
        assert(at.take(30) =~= at.subrange(0, 30));
    }
}

/// A local header with a new name has the flags, the lengths and the name that it was given, its
/// extra fields, and else the bytes that it had.
pub proof fn law_renamed_local_header(
    h: LocalHeaderModel,
    new_name: Seq<u8>,
    new_flags: u16,
    new_extra_len: u16,
    i: int,
)
    requires
        h.header.len() == 30,
        new_name.len() <= 0xFFFF,
    ensures
        ({
            let b = h.bytes(new_name, new_flags, new_extra_len);
            &&& b.len() == 30 + new_name.len() + h.extra.len()
            &&& u16_at(b, 6) == new_flags
            &&& u16_at(b, 26) == new_name.len()
            &&& u16_at(b, 28) == new_extra_len
            &&& 0 <= i < 6 || 8 <= i < 26 ==> b[i] == h.header[i]
            &&& 0 <= i < new_name.len() ==> b[30 + i] == new_name[i]
            &&& 0 <= i < h.extra.len() ==> b[30 + new_name.len() + i] == h.extra[i]
        }),
{
    let b = h.bytes(new_name, new_flags, new_extra_len);
    assert(b.subrange(6, 8) =~= u16_bytes(new_flags));
    assert(b.subrange(26, 28) =~= u16_bytes(new_name.len() as u16));
    assert(b.subrange(28, 30) =~= u16_bytes(new_extra_len));
    lemma_read_u16(b, 6, new_flags);
    lemma_read_u16(b, 26, new_name.len() as u16);
    lemma_read_u16(b, 28, new_extra_len);
}

} // verus!
