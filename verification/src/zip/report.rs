//! The report of a dry run.

use super::bytes::push_bytes;
use super::names::{lossy, lossy_text};
use super::plan::{models, EntryPlan, EntryPlanModel};
use crate::text::{decimal, decimal_text, occurs, occurs_at, same_bytes};
use vstd::prelude::*;
use vstd::string::*;
use vstd::utf8::encode_utf8;

verus! {

/// The number of bytes that an entry takes, where it is known.
pub open spec fn size_text(size: int) -> Seq<char> {
    if size == 0 {
        "?"@
    } else {
        decimal(size)
    }
}

/// Whether an entry gets another name of the same length.
pub open spec fn renames_in_place(p: EntryPlanModel) -> bool {
    p.fname_delta() == 0 && p.new_fname != p.orig_fname
}

/// The lines for one entry.
pub open spec fn entry_lines(p: EntryPlanModel) -> Seq<char> {
    if p.excluded {
        "[exclude]  "@ + lossy_text(p.orig_fname) + "  ("@ + size_text(p.span_size) + " B)\n"@
    } else {
        (if p.fname_delta() > 0 {
            "[nfc]      "@ + lossy_text(p.orig_fname) + "  →  "@ + lossy_text(p.new_fname) + "  ("@
                + decimal(p.fname_delta()) + " B shorter)\n"@
        } else if renames_in_place(p) {
            "[rename]   "@ + lossy_text(p.orig_fname) + "  →  "@ + lossy_text(p.new_fname) + "\n"@
        } else {
            Seq::empty()
        }) + (if p.needs_bit11 {
            "[bit11]    "@ + lossy_text(p.orig_fname) + "\n"@
        } else {
            Seq::empty()
        })
    }
}

/// The lines for the first `n` entries.
pub open spec fn all_lines(plans: Seq<EntryPlanModel>, n: int) -> Seq<char>
    decreases n,
{
    if n <= 0 {
        Seq::empty()
    } else {
        all_lines(plans, n - 1) + entry_lines(plans[n - 1])
    }
}

/// What the summary counts.
pub struct Totals {
    pub excluded: int,
    pub orphan_bytes: int,
    /// Whether the size of some dropped entry is not known.
    pub unknown_size: bool,
    pub renamed: int,
    pub saved: int,
    /// How many entries get another name of the same length.
    pub renamed_in_place: int,
    pub flagged: int,
}

/// The counts for the first `n` entries.
pub open spec fn totals(plans: Seq<EntryPlanModel>, n: int) -> Totals
    decreases n,
{
    if n <= 0 {
        Totals {
            excluded: 0,
            orphan_bytes: 0,
            unknown_size: false,
            renamed: 0,
            saved: 0,
            renamed_in_place: 0,
            flagged: 0,
        }
    } else {
        let t = totals(plans, n - 1);
        let p = plans[n - 1];
        if p.excluded {
            Totals {
                excluded: t.excluded + 1,
                orphan_bytes: t.orphan_bytes + p.span_size,
                unknown_size: t.unknown_size || p.span_size == 0,
                ..t
            }
        } else {
            Totals {
                renamed: t.renamed + (if p.fname_delta() > 0 {
                    1int
                } else {
                    0
                }),
                saved: t.saved + (if p.fname_delta() > 0 {
                    p.fname_delta()
                } else {
                    0
                }),
                renamed_in_place: t.renamed_in_place + (if renames_in_place(p) {
                    1int
                } else {
                    0
                }),
                flagged: t.flagged + (if p.needs_bit11 {
                    1int
                } else {
                    0
                }),
                ..t
            }
        }
    }
}

/// The summary. Names of the same length are counted where there are any.
pub open spec fn summary(t: Totals) -> Seq<char> {
    "\nSummary:\n  Excluded:     "@ + decimal(t.excluded) + " entries (orphan data: "@ + (
    if t.unknown_size {
        "?"@
    } else {
        decimal(t.orphan_bytes)
    }) + " B)\n  NFC renamed:  "@ + decimal(t.renamed) + " entries (total saved: "@ + decimal(
        t.saved,
    ) + " B)\n"@ + (if t.renamed_in_place > 0 {
        "  Renamed:      "@ + decimal(t.renamed_in_place) + " entries\n"@
    } else {
        Seq::empty()
    }) + "  bit11 set:    "@ + decimal(t.flagged) + " entries\n"@
}

/// The whole report.
pub open spec fn report_text(plans: Seq<EntryPlanModel>) -> Seq<char> {
    all_lines(plans, plans.len() as int) + summary(totals(plans, plans.len() as int))
}

/// Appends the lines for one entry to `text`.
fn push_entry_lines(text: &mut String, p: &EntryPlan)
    requires
        p.excluded || p.new_fname@.len() <= p.orig_fname@.len(),
    ensures
        final(text)@ == old(text)@ + entry_lines(p@),
{
    let name = lossy(p.orig_fname.as_slice());
    if p.excluded {
        text.append("[exclude]  ");
        text.append(name.as_str());
        text.append("  (");
        if p.span_size == 0 {
            text.append("?");
        } else {
            text.append(decimal_text(p.span_size as u128).as_str());
        }
        text.append(" B)\n");
        assert(text@ =~= old(text)@ + entry_lines(p@));
        return;
    }
    let delta: u64 = p.fname_delta();
    if delta > 0 {
        text.append("[nfc]      ");
        text.append(name.as_str());
        text.append("  →  ");
        text.append(lossy(p.new_fname.as_slice()).as_str());
        text.append("  (");
        text.append(decimal_text(delta as u128).as_str());
        text.append(" B shorter)\n");
    } else if !same_bytes(p.new_fname.as_slice(), p.orig_fname.as_slice()) {
        text.append("[rename]   ");
        text.append(name.as_str());
        text.append("  →  ");
        text.append(lossy(p.new_fname.as_slice()).as_str());
        text.append("\n");
    }
    if p.needs_bit11 {
        text.append("[bit11]    ");
        text.append(name.as_str());
        text.append("\n");
    }
    assert(text@ =~= old(text)@ + entry_lines(p@));
}

/// Appends the summary to `text`.
fn push_summary(
    text: &mut String,
    excluded: u128,
    orphan_bytes: u128,
    unknown_size: bool,
    renamed: u128,
    saved: u128,
    renamed_in_place: u128,
    flagged: u128,
)
    ensures
        final(text)@ == old(text)@ + summary(
            Totals {
                excluded: excluded as int,
                orphan_bytes: orphan_bytes as int,
                unknown_size,
                renamed: renamed as int,
                saved: saved as int,
                renamed_in_place: renamed_in_place as int,
                flagged: flagged as int,
            },
        ),
{
    let orphan = if unknown_size {
        String::from_str("?")
    } else {
        decimal_text(orphan_bytes)
    };
    let mut in_place = String::from_str("");
    proof {
        reveal_strlit("");
        assert(in_place@ =~= Seq::empty());
    }
    if renamed_in_place > 0 {
        in_place = String::from_str("  Renamed:      ");
        in_place.append(decimal_text(renamed_in_place).as_str());
        in_place.append(" entries\n");
    }
    let mut lines = String::from_str("\nSummary:\n  Excluded:     ");
    lines.append(decimal_text(excluded).as_str());
    lines.append(" entries (orphan data: ");
    lines.append(orphan.as_str());
    lines.append(" B)\n  NFC renamed:  ");
    lines.append(decimal_text(renamed).as_str());
    lines.append(" entries (total saved: ");
    lines.append(decimal_text(saved).as_str());
    lines.append(" B)\n");
    lines.append(in_place.as_str());
    lines.append("  bit11 set:    ");
    lines.append(decimal_text(flagged).as_str());
    lines.append(" entries\n");
    text.append(lines.as_str());
}

/// Writes to `out` what would be done with an archive.
pub fn dry_run_report(plans: &[EntryPlan], out: &mut Vec<u8>) -> (r: core::result::Result<
    (),
    String,
>)
    requires
        forall|k: int|
            0 <= k < plans@.len() ==> (#[trigger] plans@[k]).excluded || plans@[k].new_fname@.len()
                <= plans@[k].orig_fname@.len(),
    ensures
        r is Ok,
        final(out)@ == old(out)@ + encode_utf8(report_text(models(plans@))),
{
    let ghost ms = models(plans@);
    let mut text = String::from_str("");
    let mut excluded: u128 = 0;
    let mut orphan_bytes: u128 = 0;
    let mut unknown_size: bool = false;
    let mut renamed: u128 = 0;
    let mut saved: u128 = 0;
    let mut renamed_in_place: u128 = 0;
    let mut flagged: u128 = 0;
    let mut k: usize = 0;
    proof {
        reveal_strlit("");
        assert(text@ =~= all_lines(ms, 0));
    }
    while k < plans.len()
        invariant
            k <= plans.len(),
            ms == models(plans@),
            forall|k: int|
                0 <= k < plans@.len() ==> (#[trigger] plans@[k]).excluded
                    || plans@[k].new_fname@.len() <= plans@[k].orig_fname@.len(),
            text@ == all_lines(ms, k as int),
            totals(ms, k as int) == (Totals {
                excluded: excluded as int,
                orphan_bytes: orphan_bytes as int,
                unknown_size,
                renamed: renamed as int,
                saved: saved as int,
                renamed_in_place: renamed_in_place as int,
                flagged: flagged as int,
            }),
            excluded <= k,
            renamed <= k,
            renamed_in_place <= k,
            flagged <= k,
            orphan_bytes <= k * 0xFFFF_FFFF_FFFF_FFFF,
            saved <= k * 0xFFFF_FFFF_FFFF_FFFF,
        decreases plans.len() - k,
    {
        let p = &plans[k];
        assert(ms[k as int] == p@);
        assert(k as int + 1 <= plans.len());
        push_entry_lines(&mut text, p);
        if p.excluded {
            excluded += 1;
            orphan_bytes += p.span_size as u128;
            if p.span_size == 0 {
                unknown_size = true;
            }
        } else {
            let delta: u64 = p.fname_delta();
            if delta > 0 {
                renamed += 1;
                saved += delta as u128;
            } else if !same_bytes(p.new_fname.as_slice(), p.orig_fname.as_slice()) {
                renamed_in_place += 1;
            }
            if p.needs_bit11 {
                flagged += 1;
            }
        }
        k += 1;
    }
    push_summary(
        &mut text,
        excluded,
        orphan_bytes,
        unknown_size,
        renamed,
        saved,
        renamed_in_place,
        flagged,
    );
    push_bytes(out, text.as_str().as_bytes());
    Ok(())
}

/// The sum of a number over some entries.
pub open spec fn total(plans: Seq<EntryPlanModel>, of: spec_fn(EntryPlanModel) -> int) -> int
    decreases plans.len(),
{
    if plans.len() == 0 {
        0
    } else {
        total(plans.drop_last(), of) + of(plans.last())
    }
}

/// The number of the entries for which something holds.
pub open spec fn count(plans: Seq<EntryPlanModel>, holds: spec_fn(EntryPlanModel) -> bool) -> int {
    total(
        plans,
        |p: EntryPlanModel|
            if holds(p) {
                1int
            } else {
                0
            },
    )
}

/// A part of a text occurs in it.
proof fn lemma_part_occurs(before: Seq<char>, part: Seq<char>, after: Seq<char>)
    ensures
        occurs(before + part + after, part),
{
    let text = before + part + after;
    assert(text.subrange(before.len() as int, (before.len() + part.len()) as int) =~= part);
    assert(occurs_at(text, part, before.len() as int));
}

/// What occurs in a part of a text occurs in the text.
proof fn lemma_occurs_within(before: Seq<char>, part: Seq<char>, after: Seq<char>, pat: Seq<char>)
    requires
        occurs(part, pat),
    ensures
        occurs(before + part + after, pat),
{
    let i = choose|i: int| #[trigger] occurs_at(part, pat, i);
    let text = before + part + after;
    let at = before.len() + i;
    assert(text.subrange(at, at + pat.len()) =~= part.subrange(i, i + pat.len()));
    assert(occurs_at(text, pat, at));
}

/// The lines for each entry stand in the report.
proof fn lemma_lines_occur(plans: Seq<EntryPlanModel>, k: int, n: int, pat: Seq<char>)
    requires
        0 <= k < n <= plans.len(),
        occurs(entry_lines(plans[k]), pat),
    ensures
        occurs(all_lines(plans, n), pat),
    decreases n,
{
    let front = all_lines(plans, n - 1);
    let last = entry_lines(plans[n - 1]);
    if k == n - 1 {
        lemma_occurs_within(front, last, Seq::empty(), pat);
        assert(front + last + Seq::<char>::empty() =~= front + last);
    } else {
        lemma_lines_occur(plans, k, n - 1, pat);
        lemma_occurs_within(Seq::empty(), front, last, pat);
        assert(Seq::<char>::empty() + front + last =~= front + last);
    }
}

/// Whatever occurs in the lines for an entry occurs in the report.
proof fn lemma_line_in_report(plans: Seq<EntryPlanModel>, k: int, pat: Seq<char>)
    requires
        0 <= k < plans.len(),
        occurs(entry_lines(plans[k]), pat),
    ensures
        occurs(report_text(plans), pat),
{
    let n = plans.len() as int;
    let lines = all_lines(plans, n);
    let rest = summary(totals(plans, n));
    lemma_lines_occur(plans, k, n, pat);
    lemma_occurs_within(Seq::empty(), lines, rest, pat);
    assert(Seq::<char>::empty() + lines + rest =~= lines + rest);
}

/// The report has a line for every entry that is dropped.
pub proof fn law_report_shows_dropped(plans: Seq<EntryPlanModel>, k: int)
    requires
        0 <= k < plans.len(),
        plans[k].excluded,
    ensures
        occurs(
            report_text(plans),
            "[exclude]  "@ + lossy_text(plans[k].orig_fname) + "  ("@ + (if plans[k].span_size
                == 0 {
                "?"@
            } else {
                decimal(plans[k].span_size)
            }) + " B)\n"@,
        ),
{
    let line = entry_lines(plans[k]);
    lemma_part_occurs(Seq::empty(), line, Seq::empty());
    assert(Seq::<char>::empty() + line + Seq::<char>::empty() =~= line);
    lemma_line_in_report(plans, k, line);
}

/// The report has a line for every entry that stays and gets another name: it shows both names
/// and, where the name gets shorter, by how much.
pub proof fn law_report_shows_renamed(plans: Seq<EntryPlanModel>, k: int)
    requires
        0 <= k < plans.len(),
        !plans[k].excluded,
        plans[k].new_fname != plans[k].orig_fname,
        plans[k].new_fname.len() <= plans[k].orig_fname.len(),
    ensures
        ({
            let p = plans[k];
            let saved = p.orig_fname.len() - p.new_fname.len();
            let names = lossy_text(p.orig_fname) + "  →  "@ + lossy_text(p.new_fname);
            occurs(
                report_text(plans),
                if saved > 0 {
                    "[nfc]      "@ + names + "  ("@ + decimal(saved) + " B shorter)\n"@
                } else {
                    "[rename]   "@ + names + "\n"@
                },
            )
        }),
{
    let p = plans[k];
    let saved = p.orig_fname.len() - p.new_fname.len();
    let names = lossy_text(p.orig_fname) + "  →  "@ + lossy_text(p.new_fname);
    let line = if saved > 0 {
        "[nfc]      "@ + names + "  ("@ + decimal(saved) + " B shorter)\n"@
    } else {
        "[rename]   "@ + names + "\n"@
    };
    let rest = if p.needs_bit11 {
        "[bit11]    "@ + lossy_text(p.orig_fname) + "\n"@
    } else {
        Seq::empty()
    };
    assert(entry_lines(p) =~= Seq::<char>::empty() + line + rest);
    lemma_part_occurs(Seq::empty(), line, rest);
    lemma_line_in_report(plans, k, line);
}

/// The report has a line for every entry that stays and gets the UTF-8 flag, renamed or not.
pub proof fn law_report_shows_flagged(plans: Seq<EntryPlanModel>, k: int)
    requires
        0 <= k < plans.len(),
        !plans[k].excluded,
        plans[k].needs_bit11,
    ensures
        occurs(
            report_text(plans),
            "[bit11]    "@ + lossy_text(plans[k].orig_fname) + "\n"@,
        ),
{
    let p = plans[k];
    let line = "[bit11]    "@ + lossy_text(p.orig_fname) + "\n"@;
    let before = entry_lines(p).take(entry_lines(p).len() - line.len());
    assert(entry_lines(p) =~= before + line + Seq::<char>::empty());
    lemma_part_occurs(before, line, Seq::empty());
    lemma_line_in_report(plans, k, line);
}

/// An entry has no line exactly where it stays with its name and needs no flag; a dropped one has
/// one line and no other.
pub proof fn law_report_is_quiet_of_the_rest(p: EntryPlanModel)
    requires
        p.new_fname.len() <= p.orig_fname.len(),
    ensures
        entry_lines(p).len() == 0 <==> !p.excluded && p.new_fname == p.orig_fname
            && !p.needs_bit11,
        p.excluded ==> entry_lines(p) == "[exclude]  "@ + lossy_text(p.orig_fname) + "  ("@ + (
        if p.span_size == 0 {
            "?"@
        } else {
            decimal(p.span_size)
        }) + " B)\n"@,
        !p.excluded && p.new_fname == p.orig_fname && p.needs_bit11 ==> entry_lines(p)
            == "[bit11]    "@ + lossy_text(p.orig_fname) + "\n"@,
        !p.excluded && p.new_fname.len() < p.orig_fname.len() && !p.needs_bit11 ==> entry_lines(p)
            == "[nfc]      "@ + lossy_text(p.orig_fname) + "  →  "@ + lossy_text(p.new_fname)
            + "  ("@ + decimal(p.orig_fname.len() - p.new_fname.len()) + " B shorter)\n"@,
        !p.excluded && p.needs_bit11 ==> entry_lines(p) == entry_lines(
            EntryPlanModel { needs_bit11: false, ..p },
        ) + ("[bit11]    "@ + lossy_text(p.orig_fname) + "\n"@),
{
    reveal_strlit("[exclude]  ");
    reveal_strlit("[nfc]      ");
    reveal_strlit("[rename]   ");
    reveal_strlit("[bit11]    ");
    let quiet = EntryPlanModel { needs_bit11: false, ..p };
    if !p.excluded {
        assert(entry_lines(quiet) + Seq::<char>::empty() =~= entry_lines(quiet));
        if p.needs_bit11 {
            let line = "[bit11]    "@ + lossy_text(p.orig_fname) + "\n"@;
            assert(entry_lines(p) =~= entry_lines(quiet) + line);
        } else if p.new_fname.len() < p.orig_fname.len() {
            assert(entry_lines(p) =~= "[nfc]      "@ + lossy_text(p.orig_fname) + "  →  "@
                + lossy_text(p.new_fname) + "  ("@ + decimal(
                p.orig_fname.len() - p.new_fname.len(),
            ) + " B shorter)\n"@);
        }
    }
    if !p.excluded && p.new_fname == p.orig_fname && p.needs_bit11 {
        assert(entry_lines(p) =~= "[bit11]    "@ + lossy_text(p.orig_fname) + "\n"@);
    }
    if p.excluded {
        assert(entry_lines(p).len() > 0);
    } else if p.new_fname != p.orig_fname || p.needs_bit11 {
        assert(entry_lines(p).len() > 0);
    }
}

/// The lines for some entries and then others are the lines for the first and then the others.
pub proof fn law_report_goes_in_order(first: Seq<EntryPlanModel>, then: Seq<EntryPlanModel>)
    ensures
        all_lines(first + then, (first.len() + then.len()) as int) == all_lines(
            first,
            first.len() as int,
        ) + all_lines(then, then.len() as int),
    decreases then.len(),
{
    let all = first + then;
    let n = all.len() as int;
    if then.len() == 0 {
        assert(all =~= first);
        assert(all_lines(first, first.len() as int) + Seq::<char>::empty() =~= all_lines(
            first,
            first.len() as int,
        ));
    } else {
        let rest = then.drop_last();
        law_report_goes_in_order(first, rest);
        lemma_lines_of_prefix(all, n - 1);
        lemma_lines_of_prefix(then, then.len() - 1);
        assert(all.take(n - 1) =~= first + rest);
        assert(then.take(then.len() - 1) =~= rest);
        assert(all[n - 1] == then[then.len() - 1]);
        let a = all_lines(first, first.len() as int);
        let b = all_lines(rest, rest.len() as int);
        let c = entry_lines(all[n - 1]);
        assert((a + b) + c =~= a + (b + c));
    }
}

/// The lines for the first entries do not depend on the others.
proof fn lemma_lines_of_prefix(plans: Seq<EntryPlanModel>, n: int)
    requires
        0 <= n <= plans.len(),
    ensures
        all_lines(plans, n) == all_lines(plans.take(n), n),
    decreases n,
{
    if n > 0 {
        lemma_lines_of_prefix(plans, n - 1);
        lemma_lines_of_prefix(plans.take(n), n - 1);
        assert(plans.take(n).take(n - 1) =~= plans.take(n - 1));
        assert(plans.take(n)[n - 1] == plans[n - 1]);
    }
}

/// The totals are counts and sums over the entries.
pub proof fn lemma_totals(plans: Seq<EntryPlanModel>, n: int)
    requires
        0 <= n <= plans.len(),
        forall|k: int|
            0 <= k < plans.len() ==> (#[trigger] plans[k]).new_fname.len()
                <= plans[k].orig_fname.len(),
    ensures
        ({
            let t = totals(plans, n);
            let some = plans.take(n);
            &&& t.excluded == count(some, |p: EntryPlanModel| p.excluded)
            &&& t.orphan_bytes == total(
                some,
                |p: EntryPlanModel|
                    if p.excluded {
                        p.span_size
                    } else {
                        0
                    },
            )
            &&& t.unknown_size == exists|k: int|
                0 <= k < n && (#[trigger] plans[k]).excluded && plans[k].span_size == 0
            &&& t.renamed == count(
                some,
                |p: EntryPlanModel| !p.excluded && p.new_fname.len() < p.orig_fname.len(),
            )
            &&& t.saved == total(
                some,
                |p: EntryPlanModel|
                    if p.excluded {
                        0
                    } else {
                        p.orig_fname.len() - p.new_fname.len()
                    },
            )
            &&& t.renamed_in_place == count(
                some,
                |p: EntryPlanModel|
                    !p.excluded && p.new_fname.len() == p.orig_fname.len() && p.new_fname
                        != p.orig_fname,
            )
            &&& t.flagged == count(some, |p: EntryPlanModel| !p.excluded && p.needs_bit11)
        }),
    decreases n,
{
    if n > 0 {
        lemma_totals(plans, n - 1);
        assert(plans.take(n).drop_last() =~= plans.take(n - 1));
        assert(plans.take(n).last() == plans[n - 1]);
        assert(plans[n - 1].new_fname.len() <= plans[n - 1].orig_fname.len());
        let before = exists|k: int|
            0 <= k < n - 1 && (#[trigger] plans[k]).excluded && plans[k].span_size == 0;
        let now = exists|k: int|
            0 <= k < n && (#[trigger] plans[k]).excluded && plans[k].span_size == 0;
        assert(now == (before || (plans[n - 1].excluded && plans[n - 1].span_size == 0)));
    } else {
        assert(plans.take(0) =~= Seq::empty());
    }
}

/// The report ends with a summary whose numbers count the entries: those that are dropped and their
/// bytes, those that stay and get a shorter name and the bytes that this saves, those that stay and
/// get another name of the same length, and those that stay and get the UTF-8 flag.
pub proof fn law_summary_counts_entries(plans: Seq<EntryPlanModel>)
    requires
        forall|k: int|
            0 <= k < plans.len() ==> (#[trigger] plans[k]).new_fname.len()
                <= plans[k].orig_fname.len(),
    ensures
        ({
            let dropped = count(plans, |p: EntryPlanModel| p.excluded);
            let orphan = total(
                plans,
                |p: EntryPlanModel|
                    if p.excluded {
                        p.span_size
                    } else {
                        0
                    },
            );
            let unknown = exists|k: int|
                0 <= k < plans.len() && (#[trigger] plans[k]).excluded && plans[k].span_size == 0;
            let shorter = count(
                plans,
                |p: EntryPlanModel| !p.excluded && p.new_fname.len() < p.orig_fname.len(),
            );
            let saved = total(
                plans,
                |p: EntryPlanModel|
                    if p.excluded {
                        0
                    } else {
                        p.orig_fname.len() - p.new_fname.len()
                    },
            );
            let same = count(
                plans,
                |p: EntryPlanModel|
                    !p.excluded && p.new_fname.len() == p.orig_fname.len() && p.new_fname
                        != p.orig_fname,
            );
            let flagged = count(plans, |p: EntryPlanModel| !p.excluded && p.needs_bit11);
            report_text(plans) == all_lines(plans, plans.len() as int) + (
            "\nSummary:\n  Excluded:     "@ + decimal(dropped) + " entries (orphan data: "@ + (
            if unknown {
                "?"@
            } else {
                decimal(orphan)
            }) + " B)\n  NFC renamed:  "@ + decimal(shorter) + " entries (total saved: "@
                + decimal(saved) + " B)\n"@ + (if same > 0 {
                "  Renamed:      "@ + decimal(same) + " entries\n"@
            } else {
                Seq::empty()
            }) + "  bit11 set:    "@ + decimal(flagged) + " entries\n"@)
        }),
{
    lemma_totals(plans, plans.len() as int);
    assert(plans.take(plans.len() as int) =~= plans);
}

/// What the report says first and last in its summary.
pub proof fn lemma_summary_shape(plans: Seq<EntryPlanModel>)
    ensures
        ({
            let t = totals(plans, plans.len() as int);
            let text = report_text(plans);
            &&& ("  bit11 set:    "@ + decimal(t.flagged) + " entries\n"@).is_suffix_of(text)
            &&& occurs(
                text,
                "\nSummary:\n  Excluded:     "@ + decimal(t.excluded) + " entries (orphan data: "@,
            )
        }),
{
    let n = plans.len() as int;
    let t = totals(plans, n);
    let lines = all_lines(plans, n);
    let text = report_text(plans);
    let head = "\nSummary:\n  Excluded:     "@ + decimal(t.excluded) + " entries (orphan data: "@;
    let tail = "  bit11 set:    "@ + decimal(t.flagged) + " entries\n"@;
    let orphan = if t.unknown_size {
        "?"@
    } else {
        decimal(t.orphan_bytes)
    };
    let same = if t.renamed_in_place > 0 {
        "  Renamed:      "@ + decimal(t.renamed_in_place) + " entries\n"@
    } else {
        Seq::empty()
    };
    let front = head + orphan + " B)\n  NFC renamed:  "@ + decimal(t.renamed)
        + " entries (total saved: "@ + decimal(t.saved) + " B)\n"@ + same;
    assert(summary(t) == front + "  bit11 set:    "@ + decimal(t.flagged) + " entries\n"@);
    assert(summary(t) =~= front + tail);
    assert(text.subrange(text.len() - tail.len(), text.len() as int) =~= tail);
    let rest = summary(t).skip(head.len() as int);
    assert(head.is_prefix_of(front)) by {
        assert(front.subrange(0, head.len() as int) =~= head);
    }
    assert(summary(t).subrange(0, head.len() as int) =~= head);
    assert(text =~= lines + head + rest);
    lemma_part_occurs(lines, head, rest);
}

} // verus!
