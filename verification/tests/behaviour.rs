use zipkirei::text::{decimal_text, hexadecimal_text};
use zipkirei::wasm::repair_zip;
use zipkirei::zip::bytes::{read_u16, read_u32, read_u64, write_u16, write_u32, write_u64};
use zipkirei::zip::cd_entry::build_cd_entry_into;
use zipkirei::zip::copy::{
    after_chunk, copy_has_work, copy_within_file_with_buf, next_chunk, stream_copy,
};
use zipkirei::zip::eocd::{
    build_eocd_into, build_zip64_eocd_into, find_archive_info, parse_eocd, write_zip64_eocd,
    ArchiveInfo,
};
use zipkirei::zip::error::{ArchiveError, IoError, LimitError, UnsupportedFeature};
use zipkirei::zip::inplace::{append_padding_extra_header, apply_ops, FileOp};
use zipkirei::zip::job::Job;
use zipkirei::zip::local_header::LocalHeader;
use zipkirei::zip::names::{fit_composed, new_name, nfc_normalize};
use zipkirei::zip::order::sort_by_key;
use zipkirei::zip::plan::{build_plans, cd_order, EntryPlan};
use zipkirei::zip::planner::{plan_in_pieces, Planner};
use zipkirei::zip::write_new::Segment;
use zipkirei::zip::{
    checked_u16, io_err, process_file, process_new, with_bit11, Error, Options, BIT11,
    CENTRAL_DIR_SIG, EOCD_SIG, LOCAL_FILE_HEADER_SIG,
};

const NFD: &str = "e\u{301}";
const NFC: &str = "\u{e9}";

fn options() -> Options {
    Options {
        dry_run: false,
        fast: false,
        not_utf8: false,
        keep_backslashes: false,
        no_default_exclude: false,
        extra_excludes: Vec::new(),
    }
}

fn raw_options() -> Options {
    let mut opts = options();
    opts.not_utf8 = true;
    opts.no_default_exclude = true;
    opts
}

/// An entry of an archive under test.
struct Entry {
    name: Vec<u8>,
    extra: Vec<u8>,
    data: Vec<u8>,
    comment: Vec<u8>,
}

fn entry(name: &str, data: &[u8]) -> Entry {
    Entry {
        name: name.as_bytes().to_vec(),
        extra: Vec::new(),
        data: data.to_vec(),
        comment: Vec::new(),
    }
}

/// The archive of these entries; `zip64` asks for offsets in ZIP64 fields and ZIP64 end records.
fn archive(entries: &[Entry], comment: &[u8], zip64: bool) -> Vec<u8> {
    let mut zip = Vec::new();
    let mut cd = Vec::new();
    for (i, e) in entries.iter().enumerate() {
        let offset = zip.len() as u64;
        let mut local = vec![0u8; 30];
        write_u32(&mut local, 0, LOCAL_FILE_HEADER_SIG);
        write_u32(&mut local, 14, 0x1234_0000 + i as u32);
        write_u32(&mut local, 18, e.data.len() as u32);
        write_u32(&mut local, 22, e.data.len() as u32);
        write_u16(&mut local, 26, e.name.len() as u16);
        write_u16(&mut local, 28, e.extra.len() as u16);
        zip.extend_from_slice(&local);
        zip.extend_from_slice(&e.name);
        zip.extend_from_slice(&e.extra);
        zip.extend_from_slice(&e.data);

        let mut extra = Vec::new();
        if zip64 {
            extra = vec![0u8; 12];
            write_u16(&mut extra, 0, 1);
            write_u16(&mut extra, 2, 8);
            write_u64(&mut extra, 4, offset);
        }
        let mut header = vec![0u8; 46];
        write_u32(&mut header, 0, CENTRAL_DIR_SIG);
        write_u32(&mut header, 16, 0x1234_0000 + i as u32);
        write_u32(&mut header, 20, e.data.len() as u32);
        write_u32(&mut header, 24, e.data.len() as u32);
        write_u16(&mut header, 28, e.name.len() as u16);
        write_u16(&mut header, 30, extra.len() as u16);
        write_u16(&mut header, 32, e.comment.len() as u16);
        write_u32(&mut header, 38, 0x81A4_0000);
        write_u32(&mut header, 42, if zip64 { 0xFFFF_FFFF } else { offset as u32 });
        cd.extend_from_slice(&header);
        cd.extend_from_slice(&e.name);
        cd.extend_from_slice(&extra);
        cd.extend_from_slice(&e.comment);
    }
    let cd_offset = zip.len() as u64;
    let cd_size = cd.len() as u64;
    zip.extend_from_slice(&cd);
    let n = entries.len() as u64;
    if zip64 {
        let at = zip.len() as u64;
        build_zip64_eocd_into(&mut zip, at, n, cd_size, cd_offset, comment).unwrap();
    } else {
        build_eocd_into(&mut zip, n as u16, cd_size as u32, cd_offset as u32, comment).unwrap();
    }
    zip
}

fn plans_of(zip: &[u8], opts: &Options) -> Vec<EntryPlan> {
    let info = find_archive_info(zip, zip.len() as u64).unwrap();
    build_plans(zip, &info, opts).unwrap()
}

fn cleaned_in_place(zip: &[u8], opts: &Options) -> Vec<u8> {
    let mut file = zip.to_vec();
    process_file(&mut file, opts, &mut Vec::new()).unwrap();
    file
}

fn cleaned_anew(zip: &[u8], opts: &Options) -> Vec<u8> {
    let mut output = Vec::new();
    process_new(zip, zip.len() as u64, &mut output, opts, &mut Vec::new()).unwrap();
    output
}

fn data_of<'a>(zip: &'a [u8], p: &EntryPlan, len: usize) -> &'a [u8] {
    let at = (p.lhf_offset + p.lhf_header_size) as usize;
    &zip[at..at + len]
}

fn mixed_entries() -> Vec<Entry> {
    let mut renamed = entry(&format!("{NFD}{NFD}.txt"), b"first data");
    renamed.comment = b"kept comment".to_vec();
    let mut padded = entry(&format!("{NFD}{NFD}{NFD}{NFD}/x.bin"), b"second data!");
    padded.extra = vec![0xFE, 0xCA, 2, 0, 7, 7];
    vec![
        renamed,
        entry("__MACOSX/._x", b"junk junk"),
        padded,
        entry("plain.txt", b"third"),
        entry(".DS_Store", b"more junk"),
        entry("last.txt", b""),
    ]
}

fn kept_names() -> Vec<Vec<u8>> {
    vec![
        format!("{NFC}{NFC}.txt").into_bytes(),
        format!("{NFC}{NFC}{NFC}{NFC}/x.bin").into_bytes(),
        b"plain.txt".to_vec(),
        b"last.txt".to_vec(),
    ]
}

/// What was to stay is there, in its order, with its data, checksum, attributes and comment.
fn assert_clean_archive(before: &[u8], after: &[u8], comment: &[u8]) {
    let info = find_archive_info(after, after.len() as u64).unwrap();
    assert_eq!(info.archive_comment, comment);
    assert_eq!(info.total_entries, 4);
    let old: Vec<EntryPlan> = plans_of(before, &options())
        .into_iter()
        .filter(|p| !p.excluded)
        .collect();
    let new = plans_of(after, &raw_options());
    assert_eq!(new.len(), 4);
    let data: [&[u8]; 4] = [b"first data", b"second data!", b"third", b""];
    for k in 0..4 {
        assert_eq!(new[k].cd_index, k);
        assert_eq!(new[k].orig_fname, kept_names()[k]);
        assert_eq!(new[k].new_bit11_set, k < 2);
        assert_eq!(data_of(after, &new[k], data[k].len()), data[k]);
        assert_eq!(new[k].cd_comment, old[k].cd_comment);
        for i in [16, 20, 24, 38] {
            assert_eq!(read_u32(&new[k].cd_header, i), read_u32(&old[k].cd_header, i));
        }
        let at = new[k].lhf_offset as usize;
        let was = old[k].lhf_offset as usize;
        assert!(at <= was);
        for i in [0, 14, 18, 22] {
            assert_eq!(read_u32(after, at + i), read_u32(before, was + i));
        }
        assert_eq!(read_u16(after, at + 6) & BIT11 != 0, k < 2);
    }
    let extra_at = (new[1].lhf_offset + new[1].lhf_header_size) as usize;
    assert_eq!(&after[extra_at - 6..extra_at], &[0xFE, 0xCA, 2, 0, 7, 7]);
}

#[test]
fn new_archive_reads_back() {
    for zip64 in [false, true] {
        let zip = archive(&mixed_entries(), b"hello", zip64);
        let out = cleaned_anew(&zip, &options());
        assert_clean_archive(&zip, &out, b"hello");
        let info = find_archive_info(&out, out.len() as u64).unwrap();
        assert!(!info.is_zip64);
        let plans = plans_of(&out, &raw_options());
        assert_eq!(plans[0].lhf_offset, 0);
        for k in 0..3 {
            assert_eq!(plans[k].lhf_offset + plans[k].span_size, plans[k + 1].lhf_offset);
        }
        assert_eq!(plans[3].lhf_offset + plans[3].span_size, info.cd_offset);
        assert_eq!(plans[3].lhf_offset_in_zip64_extra, zip64);
    }
}

#[test]
fn file_in_place_reads_back_and_never_grows() {
    for zip64 in [false, true] {
        let zip = archive(&mixed_entries(), b"hello", zip64);
        let out = cleaned_in_place(&zip, &options());
        assert_clean_archive(&zip, &out, b"hello");
        assert!(out.len() <= zip.len());
        let info = find_archive_info(&out, out.len() as u64).unwrap();
        assert_eq!(info.is_zip64, zip64);
    }
}

#[test]
fn fast_mode_keeps_all_bytes_before_the_directory() {
    let zip = archive(&mixed_entries(), b"hello", false);
    let mut opts = options();
    opts.fast = true;
    let out = cleaned_in_place(&zip, &opts);
    let before = find_archive_info(&zip, zip.len() as u64).unwrap();
    let after = find_archive_info(&out, out.len() as u64).unwrap();
    assert_eq!(after.cd_offset, before.cd_offset);
    assert_eq!(after.total_entries, 4);
    assert_eq!(after.archive_comment, b"hello");
    let cd = before.cd_offset as usize;
    assert_eq!(&out[..cd], &zip[..cd]);
    let first = format!("{NFC}{NFC}.txt");
    assert_eq!(&out[cd + 46..cd + 46 + first.len()], first.as_bytes());
    assert!(out.len() < zip.len());
}

#[test]
fn dry_run_changes_nothing_and_reports() {
    let mut opts = options();
    opts.dry_run = true;
    let zip = archive(
        &[
            entry(&format!("{NFD}.txt"), b"data"),
            entry(".DS_Store", b"x"),
            entry("a.txt", b""),
        ],
        b"",
        false,
    );
    let text = "[nfc]      e\u{301}.txt  →  \u{e9}.txt  (1 B shorter)\n\
                [bit11]    e\u{301}.txt\n\
                [exclude]  .DS_Store  (40 B)\n\
                \n\
                Summary:\n\
                \x20 Excluded:     1 entries (orphan data: 40 B)\n\
                \x20 NFC renamed:  1 entries (total saved: 1 B)\n\
                \x20 bit11 set:    1 entries\n";
    let mut file = zip.clone();
    let mut stdout = Vec::new();
    process_file(&mut file, &opts, &mut stdout).unwrap();
    assert_eq!(file, zip);
    assert_eq!(String::from_utf8(stdout).unwrap(), text);

    let mut output = Vec::new();
    let mut stdout = Vec::new();
    process_new(&zip, zip.len() as u64, &mut output, &opts, &mut stdout).unwrap();
    assert!(output.is_empty());
    assert_eq!(String::from_utf8(stdout).unwrap(), text);

    let mut stdout = Vec::new();
    process_file(&mut file, &options(), &mut stdout).unwrap();
    assert!(stdout.is_empty());
    assert_ne!(file, zip);
}

#[test]
fn report_shows_names_that_are_not_utf8() {
    let mut opts = options();
    opts.dry_run = true;
    opts.extra_excludes = vec!["x".to_string()];
    let mut odd = entry("", b"");
    odd.name = b"\xff/x".to_vec();
    let zip = archive(&[odd], b"", false);
    let mut stdout = Vec::new();
    process_file(&mut zip.clone(), &opts, &mut stdout).unwrap();
    assert!(String::from_utf8(stdout)
        .unwrap()
        .starts_with("[exclude]  \u{fffd}/x  (33 B)\n"));
}

#[test]
fn clean_archives_are_left_untouched() {
    let zip = archive(
        &[entry("a/b.txt", b"data"), entry("c", b"more")],
        b"comment",
        false,
    );
    assert_eq!(cleaned_in_place(&zip, &options()), zip);
    let mut opts = options();
    opts.fast = true;
    assert_eq!(cleaned_in_place(&zip, &opts), zip);
}

#[test]
fn backslashes_become_slashes() {
    let zip = archive(&[entry("dir\\sub\\file.txt", b"data")], b"", false);
    let out = cleaned_in_place(&zip, &options());
    assert_eq!(out.len(), zip.len());
    let plans = plans_of(&out, &raw_options());
    assert_eq!(plans[0].orig_fname, b"dir/sub/file.txt");
    assert!(!plans[0].new_bit11_set);
    let changed: Vec<usize> = (0..zip.len()).filter(|&i| zip[i] != out[i]).collect();
    let cd = find_archive_info(&zip, zip.len() as u64).unwrap().cd_offset as usize;
    assert_eq!(changed, [33, 37, cd + 49, cd + 53]);

    let anew = cleaned_anew(&zip, &options());
    assert_eq!(plans_of(&anew, &raw_options())[0].orig_fname, b"dir/sub/file.txt");

    let mut opts = options();
    opts.keep_backslashes = true;
    assert_eq!(cleaned_in_place(&zip, &opts), zip);
}

#[test]
fn names_follow_the_options() {
    let mut opts = options();
    let named = new_name(format!("{NFD}\\b").as_bytes(), 0, 1, &opts).unwrap();
    assert_eq!(named, (format!("{NFC}/b").into_bytes(), true));
    assert_eq!(new_name(b"a\\b", BIT11, 1, &opts).unwrap(), (b"a/b".to_vec(), true));
    assert_eq!(new_name(b"a", 0, 1, &opts).unwrap(), (b"a".to_vec(), false));
    opts.keep_backslashes = true;
    let named = new_name(format!("{NFD}\\b").as_bytes(), 0, 1, &opts).unwrap();
    assert_eq!(named, (format!("{NFC}\\b").into_bytes(), true));
    opts.not_utf8 = true;
    assert_eq!(new_name(b"\xff\\", 0, 1, &opts).unwrap(), (b"\xff\\".to_vec(), false));
    opts.not_utf8 = false;
    assert_eq!(
        new_name(b"\xff", 0, 9, &opts).unwrap_err(),
        Error::NonUtf8Filename { entry_no: 9 }
    );
}

#[test]
fn names_are_composed() {
    assert_eq!(nfc_normalize(NFD.as_bytes(), 1).unwrap(), NFC.as_bytes());
    assert_eq!(
        nfc_normalize("\u{1112}\u{1161}\u{11ab}".as_bytes(), 1).unwrap(),
        "\u{d55c}".as_bytes()
    );
    assert_eq!(nfc_normalize(b"plain", 1).unwrap(), b"plain");
    let err = nfc_normalize("\u{958}".as_bytes(), 3).unwrap_err();
    assert_eq!(
        err,
        "NFC normalization increased filename size for entry 3 (unexpected); aborting"
    );
    assert_eq!(fit_composed(b"abc", "ab", 1).unwrap(), b"ab");
    assert!(fit_composed(b"a", "ab", 7)
        .unwrap_err()
        .contains("for entry 7"));
}

#[test]
fn names_that_are_not_utf8_are_refused() {
    let mut odd = entry("", b"");
    odd.name = b"\xff".to_vec();
    let zip = archive(&[entry("a", b""), odd], b"", false);
    let mut output = vec![1, 2, 3];
    let err = process_new(&zip, zip.len() as u64, &mut output, &options(), &mut Vec::new())
        .unwrap_err();
    assert_eq!(err, Error::NonUtf8Filename { entry_no: 2 });
    assert_eq!(
        err.to_string(),
        "entry 2 has a non-UTF-8 filename; rerun with --not-utf-8 to leave filename bytes and bit 11 unchanged"
    );
    assert_eq!(output, [1, 2, 3]);
    let mut file = zip.clone();
    assert_eq!(process_file(&mut file, &options(), &mut Vec::new()).unwrap_err(), err);
    assert_eq!(file, zip);
    assert_eq!(cleaned_in_place(&zip, &raw_options()), zip);
}

#[test]
fn savings_that_no_extra_field_can_take_are_carried_on() {
    let mut full = entry(&format!("{NFD}{NFD}{NFD}{NFD}"), b"one");
    full.extra = vec![0u8; 65534];
    write_u16(&mut full.extra, 0, 0xCAFE);
    write_u16(&mut full.extra, 2, 65530);
    let zip = archive(&[full, entry("next", b"two")], b"", false);
    let before = plans_of(&zip, &raw_options());
    let out = cleaned_in_place(&zip, &options());
    let after = plans_of(&out, &raw_options());
    assert_eq!(after[0].lhf_extra_len, 65534);
    assert_eq!(after[1].lhf_offset, before[1].lhf_offset - 4);
    assert_eq!(after[1].lhf_extra_len, 4);
    assert_eq!(data_of(&out, &after[0], 3), b"one");
    assert_eq!(data_of(&out, &after[1], 3), b"two");
    let at = after[1].lhf_offset as usize + 34;
    assert_eq!(&out[at..at + 4], &[0xFF, 0xFF, 0, 0]);
}

#[test]
fn entry_behind_a_moved_orphan_lags() {
    let zip = archive(
        &[
            entry(NFD, b"one"),
            entry(".DS_Store", b"junk"),
            entry(&format!("{NFD}{NFD}{NFD}{NFD}"), b"two"),
            entry("last", b"three"),
        ],
        b"",
        false,
    );
    let before = plans_of(&zip, &raw_options());
    let out = cleaned_in_place(&zip, &options());
    let after = plans_of(&out, &raw_options());
    assert_eq!(after.len(), 3);
    assert_eq!(after[0].lhf_offset, 0);
    assert_eq!(after[1].lhf_offset, before[2].lhf_offset - 1);
    assert_eq!(after[1].lhf_extra_len, 4);
    assert_eq!(after[2].lhf_offset, before[3].lhf_offset);
    assert_eq!(data_of(&out, &after[0], 3), b"one");
    assert_eq!(data_of(&out, &after[1], 3), b"two");
    assert_eq!(data_of(&out, &after[2], 5), b"three");
}

#[test]
fn changes_are_minimal() {
    let zip = archive(&[entry("a", b"one"), entry(".DS_Store", b"junk")], b"", false);
    let job = Job::open(&zip, zip.len() as u64, &options()).unwrap();
    assert!(!job.nothing_to_do());
    assert_eq!(job.plans().len(), 2);
    let ops = job.changes(&options());
    assert_eq!(ops.len(), 2);
    let cd = find_archive_info(&zip, zip.len() as u64).unwrap().cd_offset;
    assert!(matches!(&ops[0], FileOp::Write { pos, bytes } if *pos == cd && bytes.len() == 47 + 22));
    assert!(matches!(&ops[1], FileOp::SetLen { len } if *len == cd + 47 + 22));
    let segments = job.segments();
    assert_eq!(segments.len(), 3);
    assert!(matches!(&segments[0], Segment::Bytes(b) if b.len() == 31));
    assert!(matches!(&segments[1], Segment::Input { offset: 31, len: 3 }));
    let mut opts = options();
    opts.dry_run = true;
    assert!(job.changes(&opts).is_empty());
}

#[test]
fn reading_in_pieces_comes_to_the_same() {
    for zip64 in [false, true] {
        let zip = archive(&mixed_entries(), b"hello", zip64);
        let whole = Job::open(&zip, zip.len() as u64, &options()).unwrap();
        let pieces = plan_in_pieces(&zip, options()).unwrap();
        assert_eq!(format!("{:?}", pieces), format!("{:?}", whole));
        for at in [0, 26, 28, 46, zip.len() - 100, zip.len() - 20, zip.len() - 10] {
            let mut broken = zip.clone();
            broken[at] ^= 0x15;
            let whole = Job::open(&broken, broken.len() as u64, &options());
            let pieces = plan_in_pieces(&broken, options());
            assert_eq!(format!("{:?}", pieces), format!("{:?}", whole));
        }
    }
    let empty = archive(&[], b"", false);
    assert!(plan_in_pieces(&empty, options()).unwrap().nothing_to_do());
}

#[test]
fn planner_asks_for_one_piece_after_another() {
    assert_eq!(
        Planner::new(21, options()).unwrap_err(),
        Error::InvalidArchive(ArchiveError::TooSmall)
    );
    let zip = archive(&[entry("name", b"data")], b"", false);
    let info = find_archive_info(&zip, zip.len() as u64).unwrap();
    let mut planner = Planner::new(zip.len() as u64, options()).unwrap();
    let mut asked = Vec::new();
    while let Some((offset, len)) = planner.wants() {
        asked.push((offset, len));
        let from = offset as usize;
        planner = planner.read(&zip[from..from + len as usize]).unwrap();
    }
    assert_eq!(
        asked,
        [
            (0, zip.len() as u64),
            (info.cd_offset, info.cd_size),
            (0, 30),
            (0, 34)
        ]
    );
    assert!(planner.finish().is_some());
    let planner = Planner::new(zip.len() as u64, options()).unwrap();
    assert!(planner.finish().is_none());
    let planner = Planner::new(zip.len() as u64, options()).unwrap();
    assert_eq!(planner.read(&zip[1..]).unwrap_err(), Error::end_of_input());
}

#[test]
fn repair_returns_archive_and_log() {
    let zip = archive(&mixed_entries(), b"hello", false);
    let repaired = repair_zip(&zip, false, false, false).unwrap();
    assert_eq!(repaired.data(), cleaned_anew(&zip, &options()));
    assert_eq!(repaired.log(), "");
    let dry = repair_zip(&zip, true, false, false).unwrap();
    assert!(dry.data().is_empty());
    assert!(dry.log().contains("Excluded:     2 entries"));
    assert!(dry.log().contains("→"));
    assert_eq!(
        repair_zip(b"no archive", false, false, false).unwrap_err(),
        "Invalid ZIP archive: file is too small to be a valid ZIP archive"
    );
}

#[test]
fn files_that_end_early_are_refused() {
    let zip = archive(&[entry("a", b"")], b"hello", false);
    let err = find_archive_info(&zip, zip.len() as u64 + 1).unwrap_err();
    assert_eq!(err, Error::end_of_input());
    assert_eq!(err.to_string(), "I/O error: failed to fill whole buffer");
    let mut eocd = [0u8; 22];
    eocd.copy_from_slice(&zip[zip.len() - 27..zip.len() - 5]);
    let at = zip.len() as u64 - 27;
    let short = &zip[..zip.len() - 1];
    assert_eq!(parse_eocd(short, &eocd, at, zip.len() as u64).unwrap_err(), Error::end_of_input());
    write_u16(&mut eocd, 8, 0xFFFF);
    write_u16(&mut eocd, 20, 0);
    assert_eq!(parse_eocd(&[], &eocd, 20, 42).unwrap_err(), Error::end_of_input());
}

#[test]
fn huge_entry_counts_are_refused_without_reading_on() {
    let info = ArchiveInfo {
        cd_offset: 0,
        cd_size: 0,
        total_entries: u64::MAX,
        is_zip64: true,
        archive_comment: Vec::new(),
    };
    let err = build_plans(&[], &info, &options()).unwrap_err();
    assert_eq!(err, "unexpected EOF reading CD entry header at CD entry 1");
}

#[test]
fn parts_of_directory_entries_that_are_missing_are_named() {
    let mut e = entry("name", b"");
    e.comment = b"note".to_vec();
    let zip = archive(&[e], b"", true);
    let info = find_archive_info(&zip, zip.len() as u64).unwrap();
    let cd = &zip[info.cd_offset as usize..(info.cd_offset + info.cd_size) as usize];
    for (len, part) in [(45, "CD entry header"), (49, "filename"), (61, "extra"), (65, "comment")] {
        let short = ArchiveInfo {
            cd_offset: 0,
            cd_size: len,
            total_entries: 1,
            is_zip64: false,
            archive_comment: Vec::new(),
        };
        let err = build_plans(cd, &short, &options()).unwrap_err();
        assert_eq!(err, format!("unexpected EOF reading {part} at CD entry 1"));
    }
    let mut wrong = cd.to_vec();
    wrong[0] = 0;
    let whole = ArchiveInfo {
        cd_offset: 0,
        cd_size: cd.len() as u64,
        total_entries: 1,
        is_zip64: false,
        archive_comment: Vec::new(),
    };
    let err = build_plans(&wrong, &whole, &options()).unwrap_err();
    assert_eq!(err, "invalid CD signature at entry 1");
}

#[test]
fn directory_order_is_checked() {
    let zip = archive(&[entry("a", b""), entry("b", b""), entry("c", b"")], b"", false);
    let mut plans = plans_of(&zip, &options());
    assert_eq!(cd_order(&plans).unwrap(), [0, 1, 2]);
    plans[0].cd_index = 2;
    plans[2].cd_index = 0;
    assert_eq!(cd_order(&plans).unwrap(), [2, 1, 0]);
    plans[2].cd_index = 3;
    assert_eq!(cd_order(&plans).unwrap_err(), "CD entry index 4 is out of range");
    plans[2].cd_index = 1;
    assert_eq!(cd_order(&plans).unwrap_err(), "duplicate CD entry index 2");
}

#[test]
fn parts_of_an_archive_must_fit_together() {
    let zip = archive(&[entry("a", b"data")], b"", false);
    let header = LocalHeader::read(&zip, 0, 1).unwrap();
    let info = || find_archive_info(&zip, zip.len() as u64).unwrap();
    let job = Job::assemble(info(), plans_of(&zip, &options()), vec![header]);
    assert!(job.is_some());
    assert!(Job::assemble(info(), plans_of(&zip, &options()), Vec::new()).is_none());
    let mut plans = plans_of(&zip, &options());
    plans[0].span_size += 1;
    let header = LocalHeader::read(&zip, 0, 1).unwrap();
    assert!(Job::assemble(info(), plans, vec![header]).is_none());
}

#[test]
fn local_headers_are_read_and_refused() {
    let mut e = entry("name", b"data");
    e.extra = vec![1, 2, 3];
    let zip = archive(&[e], b"", false);
    let header = LocalHeader::read(&zip, 0, 1).unwrap();
    assert_eq!(header.extra, [1, 2, 3]);
    assert_eq!(header.extra_len(), 3);
    let mut out = Vec::new();
    header.write(&mut out, b"xy", 0x0808, 3).unwrap();
    assert_eq!(out.len(), 35);
    assert_eq!(read_u16(&out, 6), 0x0808);
    assert_eq!(read_u16(&out, 26), 2);
    assert_eq!(&out[30..], b"xy\x01\x02\x03");
    let long = vec![0u8; 65536];
    assert_eq!(
        header.write(&mut out, &long, 0, 3).unwrap_err(),
        "LFH filename length exceeds ZIP limit: 65536"
    );
    assert_eq!(out.len(), 35);
    assert_eq!(
        LocalHeader::read(&zip[..29], 0, 7).unwrap_err(),
        "unexpected EOF reading LFH at entry 7"
    );
    assert_eq!(
        LocalHeader::read(&zip, 17, 2).unwrap_err(),
        "invalid LFH signature at entry 2 (offset 0x11)"
    );
    assert_eq!(
        LocalHeader::read(&zip[..36], 0, 2).unwrap_err(),
        "Invalid ZIP archive: unexpected EOF reading LFH extra at entry 2"
    );
    assert_eq!(
        LocalHeader::read(&zip, u64::MAX, 2).unwrap_err(),
        "unexpected EOF reading LFH at entry 2"
    );
}

#[test]
fn copies_say_where_they_stop() {
    let mut out = vec![9];
    stream_copy(&[1, 2, 3], &mut out, 2).unwrap();
    assert_eq!(out, [9, 1, 2]);
    assert_eq!(
        stream_copy(&[1, 2, 3], &mut out, 5).unwrap_err(),
        "unexpected EOF while copying 5 bytes (2 remaining)"
    );
    assert_eq!(out, [9, 1, 2, 1, 2, 3]);

    let mut file = vec![0, 1, 2, 3, 4, 5];
    copy_within_file_with_buf(&mut file, 2, 0, 3, &mut [0; 2]).unwrap();
    assert_eq!(file, [2, 3, 4, 3, 4, 5]);
    copy_within_file_with_buf(&mut file, 2, 0, 0, &mut []).unwrap();
    copy_within_file_with_buf(&mut file, 2, 2, 4, &mut []).unwrap();
    assert_eq!(file, [2, 3, 4, 3, 4, 5]);
    assert_eq!(
        copy_within_file_with_buf(&mut file, 2, 1, 1, &mut []).unwrap_err(),
        "in-place copy buffer is empty"
    );
    assert_eq!(
        copy_within_file_with_buf(&mut file, 4, 0, 4, &mut [0; 1]).unwrap_err(),
        "unexpected EOF during in-place copy"
    );
    assert_eq!(file, [4, 5, 4, 3, 4, 5]);
    assert_eq!(
        copy_within_file_with_buf(&mut file, 6, 0, 1, &mut [0; 1]).unwrap_err(),
        "unexpected EOF during in-place copy"
    );
}

#[test]
fn changes_are_made_one_after_another() {
    let mut file = vec![0, 1, 2, 3, 4];
    apply_ops(
        &mut file,
        &vec![
            FileOp::Write { pos: 1, bytes: vec![8, 9] },
            FileOp::Copy { src: 3, dst: 0, len: 2 },
            FileOp::Write { pos: 4, bytes: vec![5, 6, 7] },
            FileOp::SetLen { len: 6 },
        ],
    );
    assert_eq!(file, [3, 4, 9, 3, 5, 6]);
}

#[test]
fn padding_has_an_identifier_and_a_length() {
    let mut out = Vec::new();
    append_padding_extra_header(&mut out, 4 + 0x102).unwrap();
    assert_eq!(out, [0xFF, 0xFF, 0x02, 0x01]);
    assert_eq!(
        append_padding_extra_header(&mut out, 65540).unwrap_err(),
        "padding extra field exceeds ZIP limit: 65536"
    );
}

#[test]
fn order_is_stable() {
    assert_eq!(sort_by_key(&[30, 10, 20, 10, 0]), [4, 1, 3, 2, 0]);
    assert!(sort_by_key(&[]).is_empty());
}

#[test]
fn numbers_are_little_endian() {
    let mut b = [0u8; 9];
    write_u64(&mut b, 1, 0x0102_0304_0506_0708);
    assert_eq!(b, [0, 8, 7, 6, 5, 4, 3, 2, 1]);
    assert_eq!(read_u64(&b, 1), 0x0102_0304_0506_0708);
    assert_eq!(read_u32(&b, 1), 0x0506_0708);
    assert_eq!(read_u16(&b, 7), 0x0102);
    assert_eq!(EOCD_SIG.to_le_bytes(), *b"PK\x05\x06");
}

#[test]
fn numbers_are_written_out() {
    assert_eq!(decimal_text(0), "0");
    assert_eq!(decimal_text(u128::MAX), u128::MAX.to_string());
    assert_eq!(hexadecimal_text(0), "0x0");
    assert_eq!(hexadecimal_text(0xdead_beef), "0xdeadbeef");
    assert_eq!(checked_u16(65535, "count").unwrap(), 65535);
    assert_eq!(checked_u16(65536, "count").unwrap_err(), "count: 65536");
    assert_eq!(io_err("gone"), "I/O error: gone");
}

#[test]
fn flag_is_set_and_cleared() {
    assert_eq!(with_bit11(0x0008, true), 0x0808);
    assert_eq!(with_bit11(0x0808, true), 0x0808);
    assert_eq!(with_bit11(0x0808, false), 0x0008);
    assert_eq!(with_bit11(0xF7FF, false), 0xF7FF);
}

#[test]
fn errors_have_texts() {
    let io = || IoError {
        kind: "NotFound".to_string(),
        message: "gone".to_string(),
    };
    let texts = [
        (Error::from(io()), "I/O error: gone"),
        (Error::io_context("cannot open 'x'", io()), "I/O error: cannot open 'x': gone"),
        (Error::invalid_archive("odd"), "Invalid ZIP archive: odd"),
        (
            Error::InvalidArchive(ArchiveError::EocdNotFound),
            "Invalid ZIP archive: End of Central Directory record not found; not a valid ZIP archive",
        ),
        (
            Error::InvalidArchive(ArchiveError::UnexpectedEof {
                part: "name".to_string(),
                entry_no: Some(3),
            }),
            "Invalid ZIP archive: unexpected EOF reading name at entry 3",
        ),
        (
            Error::InvalidArchive(ArchiveError::UnexpectedEof {
                part: "name".to_string(),
                entry_no: None,
            }),
            "Invalid ZIP archive: unexpected EOF reading name",
        ),
        (
            Error::InvalidArchive(ArchiveError::InvalidSignature {
                record: "LFH",
                entry_no: Some(2),
                offset: Some(255),
            }),
            "Invalid ZIP archive: invalid LFH signature at entry 2 (offset 0xff)",
        ),
        (
            Error::InvalidArchive(ArchiveError::InvalidSignature {
                record: "LFH",
                entry_no: Some(2),
                offset: None,
            }),
            "Invalid ZIP archive: invalid LFH signature at entry 2",
        ),
        (
            Error::InvalidArchive(ArchiveError::InvalidSignature {
                record: "LFH",
                entry_no: None,
                offset: Some(16),
            }),
            "Invalid ZIP archive: invalid LFH signature at offset 0x10",
        ),
        (
            Error::InvalidArchive(ArchiveError::InvalidSignature {
                record: "LFH",
                entry_no: None,
                offset: None,
            }),
            "Invalid ZIP archive: invalid LFH signature",
        ),
        (
            Error::InvalidArchive(ArchiveError::CentralDirectoryRange {
                offset: 1,
                size: 2,
                file_len: 3,
            }),
            "Invalid ZIP archive: Central Directory range exceeds file length: offset 1, size 2, file length 3",
        ),
        (
            Error::InvalidArchive(ArchiveError::CentralDirectoryOverlap {
                offset: 1,
                size: 2,
                limit: 3,
            }),
            "Invalid ZIP archive: Central Directory overlaps end records: offset 1, size 2, limit 3",
        ),
        (
            Error::Unsupported(UnsupportedFeature::MultiDisk),
            "Unsupported ZIP feature: multi-disk ZIP archives are not supported",
        ),
        (
            Error::Unsupported(UnsupportedFeature::MultiDiskZip64),
            "Unsupported ZIP feature: multi-disk ZIP64 archives are not supported",
        ),
        (
            Error::Unsupported(UnsupportedFeature::EntryCountMismatch),
            "Unsupported ZIP feature: entry count mismatch; multi-disk ZIP may be unsupported",
        ),
        (Error::unsupported("odd"), "Unsupported ZIP feature: odd"),
        (Error::limit_exceeded("much"), "ZIP limit exceeded: much"),
        (
            Error::LimitExceeded(LimitError::Value {
                context: "entries".to_string(),
                value: 70000,
            }),
            "ZIP limit exceeded: entries: 70000",
        ),
        (Error::from("plain"), "plain"),
    ];
    for (error, text) in &texts {
        assert_eq!(error.to_string(), *text);
        assert_eq!(*error, *text);
        assert!(error.contains(&text[1..]));
        assert!(!error.contains("no such text"));
        assert_eq!(error.clone(), *error);
    }
    assert_eq!(Error::invalid_archive("odd"), "odd");
    assert_eq!("odd", Error::unsupported("odd"));
    assert_ne!(Error::invalid_archive("odd"), Error::unsupported("odd"));
    assert_ne!(Error::from("plain"), "Plain");
}

#[test]
fn ranges_that_overflow_are_refused() {
    let mut zip = Vec::new();
    build_zip64_eocd_into(&mut zip, 0, 0, 0, 0, b"").unwrap();
    let mut eocd = [0u8; 22];
    eocd.copy_from_slice(&zip[76..98]);
    let mut broken = zip.clone();
    write_u64(&mut broken, 4, u64::MAX - 5);
    assert_eq!(
        parse_eocd(&broken, &eocd, 76, 98).unwrap_err(),
        "ZIP64 EOCD record range overflows u64"
    );
    let mut broken = zip.clone();
    write_u64(&mut broken, 40, u64::MAX);
    write_u64(&mut broken, 48, 1);
    assert_eq!(
        parse_eocd(&broken, &eocd, 76, 98).unwrap_err(),
        "ZIP limit exceeded: Central Directory range overflows u64"
    );
    assert_eq!(
        build_eocd_into(&mut zip, 0, 0, 0, &vec![0; 65536]).unwrap_err(),
        Error::limit_exceeded("archive comment is too long for EOCD")
    );
    assert_eq!(zip.len(), 98);
}

#[test]
fn second_run_changes_nothing() {
    for zip64 in [false, true] {
        let mut entries = mixed_entries();
        entries.push(entry("dir\\file.txt", b"fourth"));
        entries.push(entry(&format!("{NFD}\\{NFD}"), b"fifth"));
        let zip = archive(&entries, b"hello", zip64);
        let anew = cleaned_anew(&zip, &options());
        assert_ne!(anew, zip);
        assert_eq!(cleaned_anew(&anew, &options()), anew);
        let in_place = cleaned_in_place(&zip, &options());
        assert_ne!(in_place, zip);
        assert_eq!(cleaned_in_place(&in_place, &options()), in_place);
        assert_eq!(cleaned_in_place(&anew, &options()), anew);
        let compact = cleaned_anew(&zip, &raw_options());
        assert_eq!(cleaned_anew(&compact, &raw_options()), compact);
    }
}

#[test]
fn name_that_becomes_junk_is_dropped_by_the_second_run() {
    let zip = archive(&[entry("dir\\.DS_Store", b"x"), entry("a", b"y")], b"", false);
    let once = cleaned_in_place(&zip, &options());
    assert_eq!(plans_of(&once, &raw_options()).len(), 2);
    let twice = cleaned_in_place(&once, &options());
    assert_eq!(plans_of(&twice, &raw_options()).len(), 1);
}

#[test]
fn refused_directory_entry_leaves_the_parts_before_the_fault() {
    let zip = archive(&[entry("name", b"data")], b"", true);
    let mut plan = plans_of(&zip, &options()).remove(0);
    let extra = vec![0xFE, 0xCA, 0, 0];
    plan.cd_extra = extra.clone();
    let mut out = vec![1];
    assert_eq!(
        build_cd_entry_into(&plan, 7, &mut out).unwrap_err(),
        "ZIP64 extra field not found while patching CD entry 1"
    );
    let mut expected = vec![1];
    expected.extend_from_slice(&plan.cd_header);
    expected.extend_from_slice(b"name");
    expected.extend_from_slice(&extra);
    assert_eq!(out, expected);

    plan.lhf_offset_in_zip64_extra = false;
    let mut out = vec![1];
    assert_eq!(
        build_cd_entry_into(&plan, 0x1_0000_0000, &mut out).unwrap_err(),
        "entry 1: LFH offset grown beyond 4 GB but no ZIP64 extra field present"
    );
    assert_eq!(out, [1]);
}

#[test]
fn refused_comment_leaves_the_records_before_it() {
    let long = vec![0u8; 65536];
    let mut whole = vec![1];
    build_zip64_eocd_into(&mut whole, 3, 4, 5, 6, b"").unwrap();
    let mut out = vec![1];
    assert_eq!(
        build_zip64_eocd_into(&mut out, 3, 4, 5, 6, &long).unwrap_err(),
        Error::limit_exceeded("archive comment is too long for EOCD")
    );
    assert_eq!(out, whole[..77]);
    let mut written = vec![1];
    let mut pos = 3u64;
    assert!(write_zip64_eocd(&mut written, &mut pos, 4, 5, 6, &long).is_err());
    assert_eq!((written.as_slice(), pos), ([1u8].as_slice(), 3));
    write_zip64_eocd(&mut written, &mut pos, 4, 5, 6, b"").unwrap();
    assert_eq!((written, pos), (whole, 101));
}

#[test]
fn report_shows_names_of_the_same_length() {
    let mut opts = options();
    opts.dry_run = true;
    let zip = archive(
        &[
            entry("dir\\file.txt", b"x"),
            entry("\u{f900}", b"y"),
            entry("plain", b"z"),
            entry("a\\.DS_Store/.DS_Store", b""),
        ],
        b"",
        false,
    );
    let mut stdout = Vec::new();
    process_file(&mut zip.clone(), &opts, &mut stdout).unwrap();
    assert_eq!(
        String::from_utf8(stdout).unwrap(),
        "[rename]   dir\\file.txt  →  dir/file.txt\n\
         [rename]   \u{f900}  →  \u{8c48}\n\
         [bit11]    \u{f900}\n\
         [exclude]  a\\.DS_Store/.DS_Store  (51 B)\n\
         \n\
         Summary:\n\
         \x20 Excluded:     1 entries (orphan data: 51 B)\n\
         \x20 NFC renamed:  0 entries (total saved: 0 B)\n\
         \x20 Renamed:      2 entries\n\
         \x20 bit11 set:    1 entries\n"
    );
}

#[test]
fn composing_twice_is_composing_once() {
    let marks = ["", "\u{300}", "\u{301}\u{323}", "\u{338}", "\u{3099}", "\u{1161}\u{11a8}"];
    let mut changed = 0;
    for c in ('\0'..'\u{3400}').chain('\u{ac00}'..'\u{ad00}').chain('\u{f900}'..'\u{fb50}') {
        for mark in marks {
            let raw = format!("{c}{mark}").into_bytes();
            if let Ok(once) = nfc_normalize(&raw, 1) {
                if once != raw {
                    changed += 1;
                }
                assert_eq!(nfc_normalize(&once, 1).unwrap(), once);
            }
        }
        if c.is_ascii() {
            let raw = c.to_string().into_bytes();
            assert_eq!(nfc_normalize(&raw, 1).unwrap(), raw);
        }
    }
    assert!(changed > 1000);
}

#[test]
fn copies_go_chunk_by_chunk() {
    assert!(copy_has_work(5, 3, 2, 1).unwrap());
    assert!(!copy_has_work(5, 3, 0, 0).unwrap());
    assert!(!copy_has_work(5, 5, 2, 0).unwrap());
    assert_eq!(copy_has_work(5, 3, 2, 0).unwrap_err(), "in-place copy buffer is empty");
    assert_eq!(
        copy_has_work(3, 5, 2, 1).unwrap_err(),
        "in-place copy invariant violated (dst > src)"
    );
    assert_eq!(next_chunk(0, 10, 4), 4);
    assert_eq!(next_chunk(8, 10, 4), 2);
    assert_eq!(after_chunk(4, 3).unwrap(), 7);
    assert_eq!(
        after_chunk(4, 0).unwrap_err(),
        Error::invalid_archive("unexpected EOF during in-place copy")
    );
}
