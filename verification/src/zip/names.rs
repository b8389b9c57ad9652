//! File names: UTF-8, composed characters and separators.

use super::error::{outcome, Error, ErrorModel, Result};
use super::options::{Options, OptionsModel};
use super::{has_bit11, BIT11};
use crate::text::numbered;
use unicode_normalization::UnicodeNormalization;
use vstd::prelude::*;
use vstd::slice::slice_to_vec;
use vstd::string::*;
use vstd::utf8::{
    char_is_scalar, decode_utf8, encode_scalar, encode_utf8, encode_utf8_decode_utf8,
    encode_utf8_valid_utf8, has_width_1_encoding, last_continuation_byte, leading_byte_width_1,
    leading_byte_width_2, leading_byte_width_3, leading_byte_width_4, second_last_continuation_byte,
    third_last_continuation_byte, valid_utf8,
};

verus! {

/// The text that `unicode_normalization` gives for Unicode Normalization Form C of `s`.
pub uninterp spec fn nfc_text(s: Seq<char>) -> Seq<char>;

/// The text that `String::from_utf8_lossy` gives for bytes that need not be UTF-8.
pub uninterp spec fn lossy_text(b: Seq<u8>) -> Seq<char>;

/// Calls `UnicodeNormalization::nfc` and collects its characters. The result depends on the text
/// alone and is named [`nfc_text`]. It is documented to be the text in Normalization Form C, and
/// the crate's `is_nfc_quick` documents that a text is in that form where `nfc` gives it back: so
/// the result is its own result.
#[verifier::external_body]
fn nfc(s: &str) -> (r: String)
    ensures
        r@ == nfc_text(s@),
        nfc_text(r@) == r@,
{
    s.nfc().collect()
}

/// Calls `std::str::from_utf8`. It accepts exactly the valid UTF-8 byte strings, and the text it
/// returns is the one that the bytes encode.
#[verifier::external_body]
fn utf8_text(raw: &[u8]) -> (r: Option<&str>)
    ensures
        r is Some <==> valid_utf8(raw@),
        r matches Some(s) ==> s@ == decode_utf8(raw@),
{
    std::str::from_utf8(raw).ok()
}

/// Calls `String::from_utf8_lossy`. The result depends on the bytes alone and is named
/// [`lossy_text`]; of valid UTF-8 it is the text that the bytes encode.
#[verifier::external_body]
pub(crate) fn lossy(raw: &[u8]) -> (r: String)
    ensures
        r@ == lossy_text(raw@),
        valid_utf8(raw@) ==> r@ == decode_utf8(raw@),
{
    String::from_utf8_lossy(raw).into_owned()
}

/// Whether a name has ASCII characters only.
pub open spec fn is_ascii_name(raw: Seq<u8>) -> bool {
    forall|i: int| 0 <= i < raw.len() ==> #[trigger] raw[i] < 0x80
}

/// A name with each backslash replaced by a slash.
pub open spec fn slashed(name: Seq<u8>) -> Seq<u8> {
    name.map_values(
        |b: u8|
            if b == 0x5C {
                0x2F
            } else {
                b
            },
    )
}

/// The composed form of a name, if it is no longer than the name itself.
pub open spec fn fitted_outcome(
    raw: Seq<u8>,
    composed: Seq<char>,
    entry_no: u64,
) -> core::result::Result<Seq<u8>, ErrorModel> {
    if encode_utf8(composed).len() > raw.len() {
        Err(
            ErrorModel::Message(
                "NFC normalization increased filename size for entry "@ + crate::text::decimal(
                    entry_no as int,
                ) + " (unexpected); aborting"@,
            ),
        )
    } else {
        Ok(encode_utf8(composed))
    }
}

/// The name of an entry in composed form; an ASCII name is composed as it is.
pub open spec fn nfc_outcome(raw: Seq<u8>, entry_no: u64) -> core::result::Result<
    Seq<u8>,
    ErrorModel,
> {
    if is_ascii_name(raw) {
        Ok(raw)
    } else if !valid_utf8(raw) {
        Err(ErrorModel::NonUtf8Filename { entry_no })
    } else {
        fitted_outcome(raw, nfc_text(decode_utf8(raw)), entry_no)
    }
}

/// The name that an entry is to have, and whether its UTF-8 flag is to be set.
pub open spec fn new_name_outcome(
    raw: Seq<u8>,
    flags: u16,
    entry_no: u64,
    opts: OptionsModel,
) -> core::result::Result<(Seq<u8>, bool), ErrorModel> {
    if opts.not_utf8 || opts.excludes(raw) {
        Ok((raw, has_bit11(flags)))
    } else {
        match nfc_outcome(raw, entry_no) {
            Err(e) => Err(e),
            Ok(name) => Ok(
                (
                    if opts.keep_backslashes {
                        name
                    } else {
                        slashed(name)
                    },
                    has_bit11(flags) || !is_ascii_name(raw),
                ),
            ),
        }
    }
}

fn is_ascii(raw: &[u8]) -> (r: bool)
    ensures
        r == is_ascii_name(raw@),
{
    let mut i: usize = 0;
    while i < raw.len()
        invariant
            i <= raw.len(),
            forall|j: int| 0 <= j < i ==> #[trigger] raw@[j] < 0x80,
        decreases raw.len() - i,
    {
        if raw[i] >= 0x80 {
            return false;
        }
        i += 1;
    }
    true
}

/// Replaces the backslashes of a name by slashes.
fn replace_backslashes(name: &mut Vec<u8>)
    ensures
        final(name)@ == slashed(old(name)@),
{
    let mut i: usize = 0;
    while i < name.len()
        invariant
            i <= name.len(),
            name@.len() == old(name)@.len(),
            forall|j: int| 0 <= j < i ==> name@[j] == slashed(old(name)@)[j],
            forall|j: int| i <= j < name@.len() ==> name@[j] == old(name)@[j],
        decreases name.len() - i,
    {
        if name[i] == 0x5C {
            name.set(i, 0x2F);
        }
        i += 1;
    }
    assert(name@ =~= slashed(old(name)@));
}

/// The bytes of a composed name, which must not be longer than the name that it replaces.
pub fn fit_composed(raw: &[u8], composed: &str, entry_no: u64) -> (r: Result<Vec<u8>>)
    ensures
        outcome(r) == fitted_outcome(raw@, composed@, entry_no),
{
    let bytes = composed.as_bytes();
    if bytes.len() > raw.len() {
        return Err(
            Error::Message(
                numbered(
                    "NFC normalization increased filename size for entry ",
                    entry_no as u128,
                    " (unexpected); aborting",
                ),
            ),
        );
    }
    let r = slice_to_vec(bytes);
    assert(r@ =~= bytes@);
    Ok(r)
}

/// The name of an entry in Unicode Normalization Form C. An ASCII name is returned as it is, and a
/// name that was composed stays the same when it is composed once more.
pub fn nfc_normalize(raw: &[u8], entry_no: u64) -> (r: Result<Vec<u8>>)
    ensures
        outcome(r) == nfc_outcome(raw@, entry_no),
        is_ascii_name(raw@) ==> outcome(r) == Ok::<Seq<u8>, ErrorModel>(raw@),
        r matches Ok(name) ==> forall|n: u64|
            #[trigger] nfc_outcome(name@, n) == Ok::<Seq<u8>, ErrorModel>(name@),
{
    if is_ascii(raw) {
        let name = slice_to_vec(raw);
        assert(name@ =~= raw@);
        return Ok(name);
    }
    match utf8_text(raw) {
        None => Err(Error::NonUtf8Filename { entry_no }),
        Some(s) => {
            let composed = nfc(s);
            proof {
                encode_utf8_valid_utf8(composed@);
                encode_utf8_decode_utf8(composed@);
            }
            fit_composed(raw, composed.as_str(), entry_no)
        },
    }
}

/// The name that an entry is to have, and whether its UTF-8 flag is to be set.
pub fn new_name(raw: &[u8], flags: u16, entry_no: u64, opts: &Options) -> (r: Result<
    (Vec<u8>, bool),
>)
    ensures
        match r {
            Ok((name, bit11)) => new_name_outcome(raw@, flags, entry_no, opts@) == Ok::<
                (Seq<u8>, bool),
                ErrorModel,
            >((name@, bit11)),
            Err(e) => new_name_outcome(raw@, flags, entry_no, opts@) == Err::<
                (Seq<u8>, bool),
                ErrorModel,
            >(e@),
        },
{
    let had_bit11: bool = (flags & BIT11) != 0;
    if opts.not_utf8 || opts.is_excluded(raw) {
        let name = slice_to_vec(raw);
        assert(name@ =~= raw@);
        return Ok((name, had_bit11));
    }
    let mut name: Vec<u8> = match nfc_normalize(raw, entry_no) {
        Ok(name) => name,
        Err(e) => return Err(e),
    };
    if !opts.keep_backslashes {
        replace_backslashes(&mut name);
    }
    Ok((name, had_bit11 || !is_ascii(raw)))
}

/// A text with each backslash replaced by a slash.
pub open spec fn slashed_text(text: Seq<char>) -> Seq<char> {
    text.map_values(
        |c: char|
            if c == '\\' {
                '/'
            } else {
                c
            },
    )
}

/// The text of the new name of an entry whose name is UTF-8 and not ASCII.
pub open spec fn new_text(raw: Seq<u8>, opts: OptionsModel) -> Seq<char> {
    let composed = nfc_text(decode_utf8(raw));
    if opts.keep_backslashes {
        composed
    } else {
        slashed_text(composed)
    }
}

/// Whether an entry that has got this name keeps it when names are changed once more: it is not one
/// of those that are dropped, and its text is composed.
pub open spec fn is_settled_name(name: Seq<u8>, opts: OptionsModel) -> bool {
    &&& !opts.excludes(name)
    &&& opts.not_utf8 || is_ascii_name(name) || nfc_text(decode_utf8(name)) == decode_utf8(name)
}

proof fn lemma_slashed_ascii(name: Seq<u8>)
    requires
        is_ascii_name(name),
    ensures
        is_ascii_name(slashed(name)),
{
    assert forall|i: int| 0 <= i < name.len() implies #[trigger] slashed(name)[i] < 0x80 by {
        assert(name[i] < 0x80);
    }
}

/// The bytes of one character: a slash is a byte of its own, and no other character has the byte
/// of a backslash.
proof fn lemma_slashed_scalar(c: char)
    ensures
        slashed(encode_scalar(c as u32)) == encode_scalar(
            (if c == '\\' {
                '/'
            } else {
                c
            }) as u32,
        ),
{
    char_is_scalar(c);
    let s = c as u32;
    let b = encode_scalar(s);
    if has_width_1_encoding(s) {
        assert(leading_byte_width_1(s) == s) by (bit_vector)
            requires
                has_width_1_encoding(s),
        ;
        assert(leading_byte_width_1(0x2F) == 0x2F) by (bit_vector);
        assert(slashed(b) =~= encode_scalar(
            (if c == '\\' {
                '/'
            } else {
                c
            }) as u32,
        ));
    } else {
        assert(leading_byte_width_2(s) >= 0x80 && leading_byte_width_3(s) >= 0x80
            && leading_byte_width_4(s) >= 0x80 && last_continuation_byte(s) >= 0x80
            && second_last_continuation_byte(s) >= 0x80 && third_last_continuation_byte(s)
            >= 0x80) by (bit_vector);
        assert(slashed(b) =~= b);
    }
}

/// Backslashes may be replaced before or after a text is encoded.
proof fn lemma_slashed_text(text: Seq<char>)
    ensures
        slashed(encode_utf8(text)) == encode_utf8(slashed_text(text)),
    decreases text.len(),
{
    if text.len() > 0 {
        let rest = text.drop_first();
        lemma_slashed_scalar(text[0]);
        lemma_slashed_text(rest);
        assert(slashed_text(text).drop_first() =~= slashed_text(rest));
        assert(slashed(encode_scalar(text[0] as u32) + encode_utf8(rest)) =~= slashed(
            encode_scalar(text[0] as u32),
        ) + slashed(encode_utf8(rest)));
    } else {
        assert(slashed(encode_utf8(text)) =~= encode_utf8(slashed_text(text)));
    }
}

/// The new name of an entry whose name is not ASCII is UTF-8.
proof fn lemma_new_text(raw: Seq<u8>, flags: u16, entry_no: u64, opts: OptionsModel)
    requires
        !opts.not_utf8,
        !opts.excludes(raw),
        !is_ascii_name(raw),
        new_name_outcome(raw, flags, entry_no, opts) is Ok,
    ensures
        ({
            let name = new_name_outcome(raw, flags, entry_no, opts)->Ok_0.0;
            &&& name == encode_utf8(new_text(raw, opts))
            &&& valid_utf8(name)
            &&& decode_utf8(name) == new_text(raw, opts)
        }),
{
    lemma_slashed_text(nfc_text(decode_utf8(raw)));
    encode_utf8_valid_utf8(new_text(raw, opts));
    encode_utf8_decode_utf8(new_text(raw, opts));
}

/// An entry that has got its name keeps it, and its flag, when names are changed once more.
pub proof fn law_settled_name(
    raw: Seq<u8>,
    flags: u16,
    entry_no: u64,
    next_flags: u16,
    next_no: u64,
    opts: OptionsModel,
)
    requires
        !opts.excludes(raw),
        new_name_outcome(raw, flags, entry_no, opts) matches Ok((name, bit11)) && is_settled_name(
            name,
            opts,
        ) && has_bit11(next_flags) == bit11,
    ensures
        ({
            let name = new_name_outcome(raw, flags, entry_no, opts)->Ok_0.0;
            let bit11 = new_name_outcome(raw, flags, entry_no, opts)->Ok_0.1;
            new_name_outcome(name, next_flags, next_no, opts) == Ok::<(Seq<u8>, bool), ErrorModel>(
                (name, bit11),
            )
        }),
{
    let name = new_name_outcome(raw, flags, entry_no, opts)->Ok_0.0;
    if !opts.not_utf8 {
        if !opts.keep_backslashes {
            let composed = nfc_outcome(raw, entry_no)->Ok_0;
            assert(slashed(slashed(composed)) =~= slashed(composed));
            assert(slashed(name) == name);
        }
        if is_ascii_name(raw) {
            lemma_slashed_ascii(raw);
        } else {
            lemma_new_text(raw, flags, entry_no, opts);
        }
    }
}

/// A new name is settled, unless it is one of those that are dropped, where it is ASCII or where
/// composing it twice is composing it once and no backslash in it was replaced.
pub proof fn law_composed_name_is_settled(
    raw: Seq<u8>,
    flags: u16,
    entry_no: u64,
    opts: OptionsModel,
)
    requires
        !opts.excludes(raw),
        opts.not_utf8 || is_ascii_name(raw) || {
            let composed = nfc_text(decode_utf8(raw));
            &&& nfc_text(composed) == composed
            &&& opts.keep_backslashes || !composed.contains('\\')
        },
    ensures
        new_name_outcome(raw, flags, entry_no, opts) matches Ok((name, _)) ==> (!opts.excludes(name)
            ==> is_settled_name(name, opts)),
{
    let text = nfc_text(decode_utf8(raw));
    if is_ascii_name(raw) {
        lemma_slashed_ascii(raw);
    } else if new_name_outcome(raw, flags, entry_no, opts) is Ok && !opts.not_utf8 {
        lemma_new_text(raw, flags, entry_no, opts);
        if !opts.keep_backslashes {
            assert forall|i: int| 0 <= i < text.len() implies text[i] != '\\' by {
                assert(text.contains(text[i]));
            }
            assert(slashed_text(text) =~= text);
        }
    }
}

/// A name never grows, is left alone where nothing is to be done with it, and keeps its flag
/// unless it is a name with other than ASCII characters.
pub proof fn law_new_name(raw: Seq<u8>, flags: u16, entry_no: u64, opts: OptionsModel)
    ensures
        new_name_outcome(raw, flags, entry_no, opts) matches Ok((name, bit11)) ==> {
            &&& name.len() <= raw.len()
            &&& has_bit11(flags) ==> bit11
            &&& opts.not_utf8 || opts.excludes(raw) ==> name == raw && bit11 == has_bit11(flags)
            &&& is_ascii_name(raw) ==> name.len() == raw.len() && bit11 == has_bit11(flags)
            &&& is_ascii_name(raw) && (opts.keep_backslashes || !raw.contains(0x5C)) ==> name
                == raw
        },
        is_ascii_name(raw) || opts.not_utf8 || opts.excludes(raw) ==> new_name_outcome(
            raw,
            flags,
            entry_no,
            opts,
        ) is Ok,
{
    if !raw.contains(0x5C) {
        assert(slashed(raw) =~= raw) by {
            assert forall|i: int| 0 <= i < raw.len() implies raw[i] != 0x5C by {
                assert(raw.contains(raw[i]));
            }
        }
    }
}

/// Every name with a byte that is not ASCII gets the UTF-8 flag, whatever else the name is, unless
/// names are left alone or the entry is dropped.
pub proof fn law_non_ascii_name_gets_flag(
    raw: Seq<u8>,
    i: int,
    flags: u16,
    entry_no: u64,
    opts: OptionsModel,
)
    requires
        !opts.not_utf8,
        !opts.excludes(raw),
        0 <= i < raw.len(),
        raw[i] >= 0x80,
    ensures
        new_name_outcome(raw, flags, entry_no, opts) matches Ok((_, bit11)) ==> bit11,
{
    assert(!is_ascii_name(raw));
}

/// An ASCII name always gets through, keeps its length and its flag, and each of its bytes, except
/// for the backslashes that become slashes.
pub proof fn law_ascii_name_stays(raw: Seq<u8>, flags: u16, entry_no: u64, opts: OptionsModel)
    requires
        forall|i: int| 0 <= i < raw.len() ==> #[trigger] raw[i] < 0x80,
    ensures
        new_name_outcome(raw, flags, entry_no, opts) matches Ok((name, bit11)) && {
            &&& bit11 == (flags & 0x0800 != 0)
            &&& name.len() == raw.len()
            &&& forall|i: int|
                0 <= i < raw.len() ==> #[trigger] name[i] == if raw[i] == 0x5C && !(
                opts.keep_backslashes || opts.not_utf8 || opts.excludes(raw)) {
                    0x2F
                } else {
                    raw[i]
                }
        },
{
}

/// Where names are left alone, and of an entry that is dropped, the name and the flag are those
/// that are there, whatever bytes the name has.
pub proof fn law_left_alone(raw: Seq<u8>, flags: u16, entry_no: u64, opts: OptionsModel)
    requires
        opts.not_utf8 || opts.excludes(raw),
    ensures
        new_name_outcome(raw, flags, entry_no, opts) == Ok::<(Seq<u8>, bool), ErrorModel>(
            (raw, flags & 0x0800 != 0),
        ),
{
}

/// A name that is not ASCII is changed exactly where it is UTF-8 and does not get longer. The text
/// of the new name is the composed text, character by character, except for the backslashes that
/// become slashes. A name that is not UTF-8 is refused by the number of its entry.
pub proof fn law_text_is_composed(
    raw: Seq<u8>,
    i: int,
    flags: u16,
    entry_no: u64,
    opts: OptionsModel,
)
    requires
        !opts.not_utf8,
        !opts.excludes(raw),
        0 <= i < raw.len(),
        raw[i] >= 0x80,
    ensures
        ({
            let r = new_name_outcome(raw, flags, entry_no, opts);
            let composed = nfc_text(decode_utf8(raw));
            &&& r is Ok <==> valid_utf8(raw) && encode_utf8(composed).len() <= raw.len()
            &&& !valid_utf8(raw) ==> r == Err::<(Seq<u8>, bool), ErrorModel>(
                ErrorModel::NonUtf8Filename { entry_no },
            )
            &&& r matches Ok((name, _)) ==> {
                &&& valid_utf8(name)
                &&& decode_utf8(name).len() == composed.len()
                &&& name.len() == encode_utf8(composed).len()
                &&& forall|j: int|
                    0 <= j < composed.len() ==> #[trigger] decode_utf8(name)[j] == if composed[j]
                        == '\\' && !opts.keep_backslashes {
                        '/'
                    } else {
                        composed[j]
                    }
            }
        }),
{
    assert(!is_ascii_name(raw));
    if new_name_outcome(raw, flags, entry_no, opts) is Ok {
        lemma_new_text(raw, flags, entry_no, opts);
    }
}

/// No new name has a backslash, unless backslashes or names are left alone or the entry is dropped.
pub proof fn law_no_backslash_stays(
    raw: Seq<u8>,
    flags: u16,
    entry_no: u64,
    opts: OptionsModel,
    j: int,
)
    requires
        !opts.not_utf8,
        !opts.keep_backslashes,
        !opts.excludes(raw),
    ensures
        new_name_outcome(raw, flags, entry_no, opts) matches Ok((name, _)) ==> (0 <= j < name.len()
            ==> name[j] != 0x5C),
{
}

} // verus!
