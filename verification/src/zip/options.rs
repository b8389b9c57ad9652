//! What to do with an archive, and which entries to drop.

use crate::text::same_bytes;
use vstd::prelude::*;
use vstd::slice::slice_subrange;
use vstd::string::*;
use vstd::utf8::{encode_utf8, is_ascii_chars_encode_utf8};

verus! {

#[derive(Debug, Clone)]
pub struct Options {
    /// Show the changes and make none.
    pub dry_run: bool,
    /// Rewrite only the central directory of a file.
    pub fast: bool,
    /// Leave names and their UTF-8 flags as they are.
    pub not_utf8: bool,
    /// Leave backslashes in names as they are.
    pub keep_backslashes: bool,
    /// Keep the entries that are dropped by default.
    pub no_default_exclude: bool,
    /// Drop the entries with these base names too.
    pub extra_excludes: Vec<String>,
}

/// The options, with texts as character sequences.
#[verifier::ext_equal]
pub struct OptionsModel {
    pub dry_run: bool,
    pub fast: bool,
    pub not_utf8: bool,
    pub keep_backslashes: bool,
    pub no_default_exclude: bool,
    pub extra_excludes: Seq<Seq<char>>,
}

/// The texts of a list of strings.
pub open spec fn texts(strings: Seq<String>) -> Seq<Seq<char>> {
    strings.map_values(|s: String| s@)
}

impl View for Options {
    type V = OptionsModel;

    open spec fn view(&self) -> OptionsModel {
        OptionsModel {
            dry_run: self.dry_run,
            fast: self.fast,
            not_utf8: self.not_utf8,
            keep_backslashes: self.keep_backslashes,
            no_default_exclude: self.no_default_exclude,
            extra_excludes: texts(self.extra_excludes@),
        }
    }
}

/// The part of a name behind its last slash; the whole name where it has none.
pub open spec fn base_name(raw: Seq<u8>) -> Seq<u8>
    decreases raw.len(),
{
    if raw.len() == 0 || raw.last() == 0x2F {
        Seq::empty()
    } else {
        base_name(raw.drop_last()).push(raw.last())
    }
}

/// Whether a name is one of those that macOS and Windows leave behind.
pub open spec fn is_junk(raw: Seq<u8>) -> bool {
    ||| base_name(raw) == encode_utf8(".DS_Store"@)
    ||| base_name(raw) == encode_utf8("Thumbs.db"@)
    ||| base_name(raw) == encode_utf8("desktop.ini"@)
    ||| raw == encode_utf8("__MACOSX"@)
    ||| encode_utf8("__MACOSX/"@).is_prefix_of(raw)
}

impl OptionsModel {
    /// Whether an entry with this name is to be dropped.
    pub open spec fn excludes(self, raw: Seq<u8>) -> bool {
        ||| !self.no_default_exclude && is_junk(raw)
        ||| exists|i: int|
            0 <= i < self.extra_excludes.len() && base_name(raw) == encode_utf8(
                #[trigger] self.extra_excludes[i],
            )
    }
}

impl Options {
    pub fn is_excluded(&self, raw_name: &[u8]) -> (r: bool)
        ensures
            r == self@.excludes(raw_name@),
    {
        if !self.no_default_exclude && is_default_excluded(raw_name) {
            return true;
        }
        let basename = last_component(raw_name);
        let mut i: usize = 0;
        while i < self.extra_excludes.len()
            invariant
                i <= self.extra_excludes@.len(),
                basename@ == base_name(raw_name@),
                forall|j: int|
                    0 <= j < i ==> base_name(raw_name@) != encode_utf8(
                        #[trigger] self@.extra_excludes[j],
                    ),
            decreases self.extra_excludes@.len() - i,
        {
            if same_bytes(basename, self.extra_excludes[i].as_str().as_bytes()) {
                assert(base_name(raw_name@) == encode_utf8(self@.extra_excludes[i as int]));
                return true;
            }
            i += 1;
        }
        false
    }
}

fn is_default_excluded(raw: &[u8]) -> (r: bool)
    ensures
        r == is_junk(raw@),
{
    let base = last_component(raw);
    if same_bytes(base, ".DS_Store".as_bytes()) || same_bytes(base, "Thumbs.db".as_bytes())
        || same_bytes(base, "desktop.ini".as_bytes()) {
        return true;
    }
    same_bytes(raw, "__MACOSX".as_bytes()) || starts_with(raw, "__MACOSX/".as_bytes())
}

fn starts_with(raw: &[u8], prefix: &[u8]) -> (r: bool)
    ensures
        r == prefix@.is_prefix_of(raw@),
{
    prefix.len() <= raw.len() && same_bytes(slice_subrange(raw, 0, prefix.len()), prefix)
}

/// What stands behind the last slash is the base name.
proof fn lemma_base_name_suffix(raw: Seq<u8>, from: int)
    requires
        0 <= from <= raw.len(),
        forall|i: int| from <= i < raw.len() ==> raw[i] != 0x2F,
        from == 0 || raw[from - 1] == 0x2F,
    ensures
        base_name(raw) == raw.subrange(from, raw.len() as int),
    decreases raw.len(),
{
    if raw.len() == from {
        assert(base_name(raw) =~= Seq::<u8>::empty());
    } else {
        lemma_base_name_suffix(raw.drop_last(), from);
        assert(base_name(raw) =~= raw.subrange(from, raw.len() as int));
    }
}

fn last_component(raw: &[u8]) -> (r: &[u8])
    ensures
        r@ == base_name(raw@),
{
    let mut from: usize = raw.len();
    while from > 0 && raw[from - 1] != 0x2F
        invariant
            from <= raw.len(),
            forall|i: int| from <= i < raw.len() ==> raw@[i] != 0x2F,
        decreases from,
    {
        from -= 1;
    }
    proof {
        lemma_base_name_suffix(raw@, from as int);
    }
    slice_subrange(raw, from, raw.len())
}

/// What stands behind the last slash of a name decides alone which of the given patterns drop it: a
/// pattern has to be that part in full, byte by byte, and the directories before it do not matter.
pub proof fn law_patterns_match_base_names(opts: OptionsModel, raw: Seq<u8>, from: int)
    requires
        opts.no_default_exclude,
        0 <= from <= raw.len(),
        from == 0 || raw[from - 1] == 0x2F,
        forall|i: int| from <= i < raw.len() ==> raw[i] != 0x2F,
    ensures
        opts.excludes(raw) == opts.excludes(raw.subrange(from, raw.len() as int)),
        opts.excludes(raw) <==> exists|i: int|
            0 <= i < opts.extra_excludes.len() && encode_utf8(#[trigger] opts.extra_excludes[i])
                == raw.subrange(from, raw.len() as int),
{
    let base = raw.subrange(from, raw.len() as int);
    lemma_base_name_suffix(raw, from);
    lemma_base_name_suffix(base, 0);
    assert(base.subrange(0, base.len() as int) =~= base);
    if opts.excludes(raw) {
        let i = choose|i: int|
            0 <= i < opts.extra_excludes.len() && base_name(raw) == encode_utf8(
                #[trigger] opts.extra_excludes[i],
            );
        assert(encode_utf8(opts.extra_excludes[i]) == base);
    }
    if exists|i: int|
        0 <= i < opts.extra_excludes.len() && encode_utf8(#[trigger] opts.extra_excludes[i])
            == base {
        let i = choose|i: int|
            0 <= i < opts.extra_excludes.len() && encode_utf8(#[trigger] opts.extra_excludes[i])
                == base;
        assert(base_name(raw) == encode_utf8(opts.extra_excludes[i]));
        assert(base_name(base) == encode_utf8(opts.extra_excludes[i]));
    }
}

/// `.DS_Store`
pub open spec fn ds_store_bytes() -> Seq<u8> {
    seq![0x2E, 0x44, 0x53, 0x5F, 0x53, 0x74, 0x6F, 0x72, 0x65]
}

/// `Thumbs.db`
pub open spec fn thumbs_bytes() -> Seq<u8> {
    seq![0x54, 0x68, 0x75, 0x6D, 0x62, 0x73, 0x2E, 0x64, 0x62]
}

/// `desktop.ini`
pub open spec fn desktop_bytes() -> Seq<u8> {
    seq![0x64, 0x65, 0x73, 0x6B, 0x74, 0x6F, 0x70, 0x2E, 0x69, 0x6E, 0x69]
}

/// `__MACOSX`
pub open spec fn macosx_bytes() -> Seq<u8> {
    seq![0x5F, 0x5F, 0x4D, 0x41, 0x43, 0x4F, 0x53, 0x58]
}

proof fn lemma_junk_bytes()
    ensures
        encode_utf8(".DS_Store"@) == ds_store_bytes(),
        encode_utf8("Thumbs.db"@) == thumbs_bytes(),
        encode_utf8("desktop.ini"@) == desktop_bytes(),
        encode_utf8("__MACOSX"@) == macosx_bytes(),
        encode_utf8("__MACOSX/"@) == macosx_bytes().push(0x2F),
{
    reveal_strlit(".DS_Store");
    reveal_strlit("Thumbs.db");
    reveal_strlit("desktop.ini");
    reveal_strlit("__MACOSX");
    reveal_strlit("__MACOSX/");
    is_ascii_chars_encode_utf8(".DS_Store"@);
    is_ascii_chars_encode_utf8("Thumbs.db"@);
    is_ascii_chars_encode_utf8("desktop.ini"@);
    is_ascii_chars_encode_utf8("__MACOSX"@);
    is_ascii_chars_encode_utf8("__MACOSX/"@);
    assert(encode_utf8(".DS_Store"@) =~= ds_store_bytes());
    assert(encode_utf8("Thumbs.db"@) =~= thumbs_bytes());
    assert(encode_utf8("desktop.ini"@) =~= desktop_bytes());
    assert(encode_utf8("__MACOSX"@) =~= macosx_bytes());
    assert(encode_utf8("__MACOSX/"@) =~= macosx_bytes().push(0x2F));
}

/// Unless it is told not to, the program drops, besides what the patterns name, the entries whose
/// base name is `.DS_Store`, `Thumbs.db` or `desktop.ini`, the entry `__MACOSX` and those whose
/// names begin with `__MACOSX/`, and no others.
pub proof fn law_junk_is_dropped(opts: OptionsModel, raw: Seq<u8>, from: int)
    requires
        !opts.no_default_exclude,
        0 <= from <= raw.len(),
        from == 0 || raw[from - 1] == 0x2F,
        forall|i: int| from <= i < raw.len() ==> raw[i] != 0x2F,
    ensures
        ({
            let base = raw.subrange(from, raw.len() as int);
            opts.excludes(raw) <==> {
                ||| (OptionsModel { no_default_exclude: true, ..opts }).excludes(raw)
                ||| base == ds_store_bytes() || base == thumbs_bytes() || base == desktop_bytes()
                ||| raw == macosx_bytes()
                ||| raw.len() > 8 && raw.take(8) == macosx_bytes() && raw[8] == 0x2F
            }
        }),
{
    let narrow = OptionsModel { no_default_exclude: true, ..opts };
    lemma_base_name_suffix(raw, from);
    lemma_junk_bytes();
    assert(narrow.extra_excludes == opts.extra_excludes);
    let head = macosx_bytes().push(0x2F);
    if head.is_prefix_of(raw) {
        assert(raw.take(8) =~= head.take(8));
        assert(head.take(8) =~= macosx_bytes());
        assert(raw[8] == head[8]);
    }
    if raw.len() > 8 && raw.take(8) == macosx_bytes() && raw[8] == 0x2F {
        assert(raw.subrange(0, 9) =~= head) by {
            assert forall|i: int| 0 <= i < 8 implies raw[i] == head[i] by {
                assert(raw.take(8)[i] == macosx_bytes()[i]);
            }
        }
        assert(head.is_prefix_of(raw));
    }
}

/// The options mean what their fields say: every switch and every pattern counts, in full.
pub proof fn law_every_option_counts(o: Options)
    ensures
        o@.dry_run == o.dry_run,
        o@.fast == o.fast,
        o@.not_utf8 == o.not_utf8,
        o@.keep_backslashes == o.keep_backslashes,
        o@.no_default_exclude == o.no_default_exclude,
        o@.extra_excludes.len() == o.extra_excludes@.len(),
        forall|i: int|
            0 <= i < o.extra_excludes@.len() ==> #[trigger] o@.extra_excludes[i]
                == o.extra_excludes@[i]@,
{
}

} // verus!
