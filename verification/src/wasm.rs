//! Repair of an archive that is held in memory, with a log.

use crate::zip::directory::kept;
use crate::zip::eocd::lemma_end_sizes;
use crate::zip::job::{job_outcome, law_job};
use crate::zip::laws::lemma_new_parts;
use crate::zip::names::lossy;
use crate::zip::options::{is_junk, OptionsModel};
use crate::zip::outcomes::law_dry_run_counts_changes;
use crate::zip::process::{printed, processed_new};
use crate::zip::write_new::{body_len, new_directory};
use crate::zip::{process_new, Options};
use vstd::prelude::*;
use vstd::string::*;
use vstd::utf8::{encode_utf8, encode_utf8_decode_utf8, encode_utf8_valid_utf8};

verus! {

/// A repaired archive, or nothing in a dry run, and what was printed.
#[derive(Debug)]
pub struct RepairResult {
    data: Vec<u8>,
    log: String,
}

impl RepairResult {
    /// The bytes of the archive.
    pub closed spec fn spec_data(self) -> Seq<u8> {
        self.data@
    }

    /// The text of the log.
    pub closed spec fn spec_log(self) -> Seq<char> {
        self.log@
    }

    pub fn data(&self) -> (data: Vec<u8>)
        ensures
            data@ == self.spec_data(),
    {
        let data = self.data.clone();
        assert(data@ =~= self.data@);
        data
    }

    pub fn log(&self) -> (log: String)
        ensures
            log@ == self.spec_log(),
    {
        self.log.clone()
    }
}

/// The options of a repair.
pub open spec fn repair_options(
    dry_run: bool,
    not_utf8: bool,
    keep_backslashes: bool,
) -> OptionsModel {
    OptionsModel {
        dry_run,
        fast: false,
        not_utf8,
        keep_backslashes,
        no_default_exclude: false,
        extra_excludes: Seq::empty(),
    }
}

/// Cleans the archive in `zip_data`. The archive and the log are those that a new file would get,
/// and so is the message where the archive cannot be processed.
pub fn repair_zip(zip_data: &[u8], dry_run: bool, not_utf8: bool, keep_backslashes: bool) -> (r:
    Result<RepairResult, String>)
    ensures
        ({
            let opts = repair_options(dry_run, not_utf8, keep_backslashes);
            let file_len = zip_data@.len() as u64;
            match job_outcome(zip_data@, file_len, opts) {
                Ok(_) => r matches Ok(result) && result.spec_data() == processed_new(
                    zip_data@,
                    file_len,
                    opts,
                ) && result.spec_log() == printed(zip_data@, file_len, opts),
                Err(e) => r matches Err(text) && text@ == e.text(),
            }
        }),
{
    let opts = Options {
        dry_run,
        fast: false,
        not_utf8,
        keep_backslashes,
        no_default_exclude: false,
        extra_excludes: Vec::new(),
    };
    let mut output: Vec<u8> = Vec::new();
    let mut log_buf: Vec<u8> = Vec::new();
    let file_len: u64 = zip_data.len() as u64;
    assert(opts@ == repair_options(dry_run, not_utf8, keep_backslashes));
    match process_new(zip_data, file_len, &mut output, &opts, &mut log_buf) {
        Ok(()) => {
            proof {
                let text = printed(zip_data@, file_len, opts@);
                assert(log_buf@ =~= encode_utf8(text));
                assert(output@ =~= processed_new(zip_data@, file_len, opts@));
                encode_utf8_valid_utf8(text);
                encode_utf8_decode_utf8(text);
            }
            Ok(RepairResult { data: output, log: lossy(log_buf.as_slice()) })
        },
        Err(e) => Err(e.to_string()),
    }
}

/// A repair drops junk and nothing else, never works on the file in place, and passes on what it
/// was asked for.
pub proof fn law_repair_options(
    dry_run: bool,
    not_utf8: bool,
    keep_backslashes: bool,
    name: Seq<u8>,
)
    ensures
        ({
            let o = repair_options(dry_run, not_utf8, keep_backslashes);
            &&& o.dry_run == dry_run
            &&& o.not_utf8 == not_utf8
            &&& o.keep_backslashes == keep_backslashes
            &&& !o.fast
            &&& !o.no_default_exclude
            &&& o.extra_excludes.len() == 0
            &&& o.excludes(name) == is_junk(name)
        }),
{
}

/// A repair fails exactly when the archive cannot be read, with the text of the fault. A dry run
/// gives a log and no archive; any other run gives an archive and an empty log.
pub proof fn law_repair(
    zip_data: &[u8],
    dry_run: bool,
    not_utf8: bool,
    keep_backslashes: bool,
    r: Result<RepairResult, String>,
)
    requires
        call_ensures(repair_zip, (zip_data, dry_run, not_utf8, keep_backslashes), r),
    ensures
        ({
            let opts = OptionsModel {
                dry_run,
                fast: false,
                not_utf8,
                keep_backslashes,
                no_default_exclude: false,
                extra_excludes: Seq::empty(),
            };
            let file_len = zip_data@.len() as u64;
            let job = job_outcome(zip_data@, file_len, opts);
            &&& r is Ok <==> job is Ok
            &&& r matches Err(text) ==> (job matches Err(e) && text@ == e.text())
            &&& r matches Ok(result) ==> {
                &&& result.spec_data() == processed_new(zip_data@, file_len, opts)
                &&& result.spec_log() == printed(zip_data@, file_len, opts)
                &&& dry_run ==> result.spec_data().len() == 0 && result.spec_log().len() > 0
                &&& !dry_run ==> result.spec_data().len() >= 22 && result.spec_log().len() == 0
            }
        }),
{
    let opts = repair_options(dry_run, not_utf8, keep_backslashes);
    let file_len = zip_data@.len() as u64;
    if let Ok(a) = job_outcome(zip_data@, file_len, opts) {
        if dry_run {
            law_dry_run_counts_changes(zip_data@, file_len, opts, a);
            reveal_strlit("  bit11 set:    ");
        } else {
            law_job(zip_data@, file_len, opts);
            lemma_new_parts(zip_data@, a);
            let cd = new_directory(a.plans);
            let cd_start = body_len(a.plans, a.plans.len() as int);
            lemma_end_sizes(
                kept(a.plans).len() as u64,
                cd.len() as u64,
                cd_start as u64,
                (cd_start + cd.len()) as u64,
                a.info.archive_comment,
            );
        }
    }
}

} // verus!
