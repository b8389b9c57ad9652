//! Reading, planning and rewriting ZIP archives.

use crate::text::with_number;
use vstd::prelude::*;
use vstd::string::*;

pub mod bytes;
pub mod cd_entry;
pub mod copy;
pub mod directory;
pub mod eocd;
pub mod error;
pub mod extra;
pub mod inplace;
pub mod job;
pub mod laws;
pub mod layout;
pub mod local_header;
pub mod names;
pub mod options;
pub mod order;
pub mod outcomes;
pub mod placing;
pub mod plan;
pub mod planner;
pub mod process;
pub mod reading;
pub mod report;
pub mod reread;
pub mod second_run;
pub mod write_new;

pub use error::{Error, Result as ZipResult};
pub use options::Options;
pub use process::{process_file, process_new};

verus! {

pub const LOCAL_FILE_HEADER_SIG: u32 = 0x04034b50;

pub const CENTRAL_DIR_SIG: u32 = 0x02014b50;

pub const EOCD_SIG: u32 = 0x06054b50;

pub const ZIP64_EOCD_SIG: u32 = 0x06064b50;

pub const ZIP64_EOCD_LOCATOR_SIG: u32 = 0x07064b50;

pub const ZIP64_EXTRA_FIELD_ID: u16 = 0x0001;

pub const PADDING_EXTRA_FIELD_ID: u16 = 0xFFFF;

/// The general purpose flag that says that a name is UTF-8.
pub const BIT11: u16 = 0x0800;

/// The size of an extra field without data: identifier and length.
pub const MIN_PADDING: u64 = 4;

/// The number of bytes that one step of a copy moves at most.
pub const COPY_BUF_SIZE: usize = 4_194_304;

/// Whether the UTF-8 flag is set in `flags`.
pub open spec fn has_bit11(flags: u16) -> bool {
    flags & BIT11 != 0
}

/// `flags` with the UTF-8 flag set or cleared.
pub open spec fn flags_with_bit11(flags: u16, enabled: bool) -> u16 {
    if enabled {
        flags | BIT11
    } else {
        flags & !BIT11
    }
}

pub fn with_bit11(flags: u16, enabled: bool) -> (r: u16)
    ensures
        r == flags_with_bit11(flags, enabled),
{
    if enabled {
        flags | BIT11
    } else {
        flags & !BIT11
    }
}

/// The flag is set exactly as asked, no other flag changes, and asking for what is there changes
/// nothing.
pub proof fn law_with_bit11(flags: u16, enabled: bool)
    ensures
        has_bit11(flags_with_bit11(flags, enabled)) == enabled,
        flags_with_bit11(flags, enabled) & !BIT11 == flags & !BIT11,
        has_bit11(flags) == enabled ==> flags_with_bit11(flags, enabled) == flags,
{
    assert((flags | 0x0800u16) & 0x0800u16 != 0) by (bit_vector);
    assert((flags & !0x0800u16) & 0x0800u16 == 0) by (bit_vector);
    assert((flags | 0x0800u16) & !0x0800u16 == flags & !0x0800u16) by (bit_vector);
    assert((flags & !0x0800u16) & !0x0800u16 == flags & !0x0800u16) by (bit_vector);
    assert(flags & 0x0800u16 != 0 ==> flags | 0x0800u16 == flags) by (bit_vector);
    assert(flags & 0x0800u16 == 0 ==> flags & !0x0800u16 == flags) by (bit_vector);
}

/// The text for a value that a 16-bit field cannot hold.
pub open spec fn over_u16(context: Seq<char>, value: int) -> Seq<char> {
    context + ": "@ + crate::text::decimal(value)
}

pub fn checked_u16(value: u64, context: &str) -> (r: core::result::Result<u16, String>)
    ensures
        r matches Ok(v) ==> v == value,
        r matches Err(e) ==> e@ == over_u16(context@, value as int),
        r is Ok <==> value <= 0xFFFF,
{
    if value <= 0xFFFF {
        Ok(value as u16)
    } else {
        Err(with_number(String::from_str(context).concat(": ").as_str(), value as u128))
    }
}

/// The message for a failed read or write.
pub fn io_err(message: &str) -> (s: String)
    ensures
        s@ == "I/O error: "@ + message@,
{
    String::from_str("I/O error: ").concat(message)
}

/// The text for a value that a field cannot hold begins with what the value is, and ends with the
/// value.
pub proof fn law_over_u16(context: Seq<char>, value: int)
    ensures
        context.is_prefix_of(over_u16(context, value)),
        crate::text::decimal(value).is_suffix_of(over_u16(context, value)),
{
    let text = over_u16(context, value);
    let number = crate::text::decimal(value);
    assert(text.subrange(0, context.len() as int) =~= context);
    assert(text.subrange(text.len() - number.len(), text.len() as int) =~= number);
}

} // verus!
