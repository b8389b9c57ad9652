//! Whole archives in memory.

use super::error::{outcome, ErrorModel, Result};
use super::inplace::{apply_ops, fast_file, inplace_file, law_fast_ops, law_inplace_ops};
use super::job::{is_clean, job_outcome, Job};
use super::options::{Options, OptionsModel};
use super::report::report_text;
use super::write_new::{emit, lemma_segments_within, new_archive};
use vstd::prelude::*;
use vstd::utf8::encode_utf8;

verus! {

/// What processing a file in place makes of it.
pub open spec fn processed_file(content: Seq<u8>, opts: OptionsModel) -> Seq<u8> {
    match job_outcome(content, content.len() as u64, opts) {
        Err(_) => content,
        Ok(a) => if opts.dry_run || is_clean(a.plans) {
            content
        } else if opts.fast {
            fast_file(content, a)
        } else {
            inplace_file(content, a)
        },
    }
}

/// The text that processing an archive prints.
pub open spec fn printed(content: Seq<u8>, file_len: u64, opts: OptionsModel) -> Seq<char> {
    match job_outcome(content, file_len, opts) {
        Ok(a) if opts.dry_run => report_text(a.plans),
        _ => Seq::empty(),
    }
}

/// The new archive that processing an archive writes.
pub open spec fn processed_new(content: Seq<u8>, file_len: u64, opts: OptionsModel) -> Seq<u8> {
    match job_outcome(content, file_len, opts) {
        Ok(a) if !opts.dry_run => new_archive(content, a),
        _ => Seq::empty(),
    }
}

/// Writes the cleaned archive to the end of `output`; in a dry run, writes to `stdout` what would
/// be done.
pub fn process_new(
    input: &[u8],
    file_len: u64,
    output: &mut Vec<u8>,
    opts: &Options,
    stdout: &mut Vec<u8>,
) -> (r: Result<()>)
    ensures
        match job_outcome(input@, file_len, opts@) {
            Ok(_) => r is Ok,
            Err(e) => outcome(r) == Err::<(), ErrorModel>(e),
        },
        final(output)@ == old(output)@ + processed_new(input@, file_len, opts@),
        final(stdout)@ == old(stdout)@ + encode_utf8(printed(input@, file_len, opts@)),
{
    assert(output@ + Seq::<u8>::empty() =~= output@);
    assert(stdout@ + encode_utf8(Seq::<char>::empty()) =~= stdout@);
    let job = match Job::open(input, file_len, opts) {
        Ok(job) => job,
        Err(e) => return Err(e),
    };
    if opts.dry_run {
        job.report(stdout);
        return Ok(());
    }
    proof {
        lemma_segments_within(input@, job@);
    }
    let segments = job.segments();
    emit(input, &segments, output);
    Ok(())
}

/// Cleans the archive that a file holds; in a dry run, writes to `stdout` what would be done.
pub fn process_file(file: &mut Vec<u8>, opts: &Options, stdout: &mut Vec<u8>) -> (r: Result<()>)
    ensures
        match job_outcome(old(file)@, old(file)@.len() as u64, opts@) {
            Ok(_) => r is Ok,
            Err(e) => outcome(r) == Err::<(), ErrorModel>(e),
        },
        final(file)@ == processed_file(old(file)@, opts@),
        final(stdout)@ == old(stdout)@ + encode_utf8(
            printed(old(file)@, old(file)@.len() as u64, opts@),
        ),
{
    assert(stdout@ + encode_utf8(Seq::<char>::empty()) =~= stdout@);
    let job = match Job::open(file.as_slice(), file.len() as u64, opts) {
        Ok(job) => job,
        Err(e) => return Err(e),
    };
    if opts.dry_run {
        job.report(stdout);
    }
    proof {
        law_inplace_ops(file@, job@);
        law_fast_ops(file@, job@);
    }
    let ops = job.changes(opts);
    apply_ops(file, &ops);
    Ok(())
}

} // verus!
