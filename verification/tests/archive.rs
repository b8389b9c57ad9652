use zipkirei::zip::bytes::{read_u16, read_u32, read_u64, write_u16, write_u32, write_u64};
use zipkirei::zip::cd_entry::build_cd_entry;
use zipkirei::zip::copy::{copy_within_file, stream_copy};
use zipkirei::zip::eocd::{
    find_archive_info, parse_eocd, write_eocd, write_zip64_eocd, ArchiveInfo,
};
use zipkirei::zip::local_header::LocalHeader;
use zipkirei::zip::names::nfc_normalize;
use zipkirei::zip::plan::{build_plans, resolve_lfh_offset, EntryPlan};
use zipkirei::zip::report::dry_run_report;
use zipkirei::zip::{
    process_file, process_new, Options, BIT11, CENTRAL_DIR_SIG, EOCD_SIG, LOCAL_FILE_HEADER_SIG,
    ZIP64_EXTRA_FIELD_ID,
};

fn make_options() -> Options {
    Options {
        dry_run: false,
        fast: false,
        not_utf8: false,
        keep_backslashes: false,
        no_default_exclude: false,
        extra_excludes: Vec::new(),
    }
}

fn make_eocd(
    disk: u16,
    cd_disk: u16,
    entries_this: u16,
    total_entries: u16,
    cd_size: u32,
    cd_offset: u32,
    comment_len: u16,
) -> [u8; 22] {
    let mut eocd = [0u8; 22];
    write_u32(&mut eocd, 0, EOCD_SIG);
    write_u16(&mut eocd, 4, disk);
    write_u16(&mut eocd, 6, cd_disk);
    write_u16(&mut eocd, 8, entries_this);
    write_u16(&mut eocd, 10, total_entries);
    write_u32(&mut eocd, 12, cd_size);
    write_u32(&mut eocd, 16, cd_offset);
    write_u16(&mut eocd, 20, comment_len);
    eocd
}

fn make_zip64_extra(uncompressed: u64, compressed: u64, lhf_offset: u64) -> Vec<u8> {
    let mut extra = vec![0u8; 4 + 24];
    write_u16(&mut extra, 0, ZIP64_EXTRA_FIELD_ID);
    write_u16(&mut extra, 2, 24);
    write_u64(&mut extra, 4, uncompressed);
    write_u64(&mut extra, 12, compressed);
    write_u64(&mut extra, 20, lhf_offset);
    extra
}

fn make_extra_field(id: u16, data: &[u8]) -> Vec<u8> {
    let mut extra = vec![0u8; 4];
    write_u16(&mut extra, 0, id);
    write_u16(&mut extra, 2, data.len() as u16);
    extra.extend_from_slice(data);
    extra
}

fn make_cd_entry_raw(
    name: &[u8],
    extra: &[u8],
    comment: &[u8],
    flags: u16,
    compressed_size: u32,
    uncompressed_size: u32,
    lhf_offset: u32,
) -> Vec<u8> {
    let mut raw = vec![0u8; 46];
    write_u32(&mut raw, 0, CENTRAL_DIR_SIG);
    write_u16(&mut raw, 8, flags);
    write_u32(&mut raw, 20, compressed_size);
    write_u32(&mut raw, 24, uncompressed_size);
    write_u16(&mut raw, 28, name.len() as u16);
    write_u16(&mut raw, 30, extra.len() as u16);
    write_u16(&mut raw, 32, comment.len() as u16);
    write_u32(&mut raw, 42, lhf_offset);
    raw.extend_from_slice(name);
    raw.extend_from_slice(extra);
    raw.extend_from_slice(comment);
    raw
}

fn append_lfh(zip: &mut Vec<u8>, name: &[u8], payload: &[u8]) -> u64 {
    let offset = zip.len() as u64;
    let mut header = [0u8; 30];
    write_u32(&mut header, 0, LOCAL_FILE_HEADER_SIG);
    write_u32(&mut header, 18, payload.len() as u32);
    write_u32(&mut header, 22, payload.len() as u32);
    write_u16(&mut header, 26, name.len() as u16);
    zip.extend_from_slice(&header);
    zip.extend_from_slice(name);
    zip.extend_from_slice(payload);
    offset
}

fn append_lfh_with_extra(zip: &mut Vec<u8>, name: &[u8], payload: &[u8], extra: &[u8]) -> u64 {
    let offset = zip.len() as u64;
    let mut header = [0u8; 30];
    write_u32(&mut header, 0, LOCAL_FILE_HEADER_SIG);
    write_u32(&mut header, 18, payload.len() as u32);
    write_u32(&mut header, 22, payload.len() as u32);
    write_u16(&mut header, 26, name.len() as u16);
    write_u16(&mut header, 28, extra.len() as u16);
    zip.extend_from_slice(&header);
    zip.extend_from_slice(name);
    zip.extend_from_slice(extra);
    zip.extend_from_slice(payload);
    offset
}

fn make_entry_plan(
    orig_name: &[u8],
    new_name: &[u8],
    cd_entry_raw: Vec<u8>,
    lhf_offset_in_zip64_extra: bool,
    new_bit11_set: bool,
) -> EntryPlan {
    let mut cd_header = [0u8; 46];
    cd_header.copy_from_slice(&cd_entry_raw[..46]);
    let fname_len = read_u16(&cd_header, 28) as usize;
    let extra_len = read_u16(&cd_header, 30) as usize;
    let comment_len = read_u16(&cd_header, 32) as usize;
    let extra_start = 46 + fname_len;
    let comment_start = extra_start + extra_len;
    let comment_end = comment_start + comment_len;
    EntryPlan {
        cd_index: 0,
        lhf_offset: 0,
        excluded: false,
        orig_fname: orig_name.to_vec(),
        new_fname: new_name.to_vec(),
        needs_bit11: new_bit11_set,
        new_bit11_set,
        span_size: 0,
        lhf_header_size: 0,
        lhf_extra_len: 0,
        lhf_offset_in_zip64_extra,
        cd_header,
        cd_extra: cd_entry_raw[extra_start..comment_start].to_vec(),
        cd_comment: cd_entry_raw[comment_start..comment_end].to_vec(),
    }
}

fn has_extra_field(extra: &[u8], field_id: u16) -> bool {
    let mut cursor = 0usize;
    while cursor + 4 <= extra.len() {
        let id = read_u16(extra, cursor);
        let sz = read_u16(extra, cursor + 2) as usize;
        cursor += 4;
        if cursor + sz > extra.len() {
            return false;
        }
        if id == field_id {
            return true;
        }
        cursor += sz;
    }
    false
}

/// The archive with one stored entry.
fn create_simple_zip(filename: &str, contents: &[u8]) -> Vec<u8> {
    create_zip(&[(filename.as_bytes(), contents)])
}

/// The archive with these stored entries.
fn create_zip(entries: &[(&[u8], &[u8])]) -> Vec<u8> {
    let mut zip = Vec::new();
    let mut cd = Vec::new();
    for (name, contents) in entries {
        let offset = append_lfh(&mut zip, name, contents);
        let size = contents.len() as u32;
        cd.extend_from_slice(&make_cd_entry_raw(
            name,
            &[],
            &[],
            0,
            size,
            size,
            offset as u32,
        ));
    }
    let cd_offset = zip.len() as u32;
    let count = entries.len() as u16;
    zip.extend_from_slice(&cd);
    zip.extend_from_slice(&make_eocd(0, 0, count, count, cd.len() as u32, cd_offset, 0));
    zip
}

fn add_archive_comment(zip: &mut Vec<u8>, comment: &[u8]) {
    let at = zip.len() - 2;
    write_u16(zip, at, comment.len() as u16);
    zip.extend_from_slice(comment);
}

fn read_archive_info(zip: &[u8]) -> ArchiveInfo {
    find_archive_info(zip, zip.len() as u64).unwrap()
}

fn read_plans(zip: &[u8]) -> Vec<EntryPlan> {
    build_plans(zip, &read_archive_info(zip), &make_options()).unwrap()
}

fn rewritten(zip: &[u8], opts: &Options) -> Vec<u8> {
    let mut output = Vec::new();
    process_new(zip, zip.len() as u64, &mut output, opts, &mut Vec::new()).unwrap();
    output
}

fn lfh_extra_at(zip: &[u8], offset: u64) -> Vec<u8> {
    let at = offset as usize;
    assert_eq!(read_u32(zip, at), LOCAL_FILE_HEADER_SIG);
    let from = at + 30 + read_u16(zip, at + 26) as usize;
    zip[from..from + read_u16(zip, at + 28) as usize].to_vec()
}

fn lfh_name_and_flags_at(zip: &[u8], offset: u64) -> (Vec<u8>, u16) {
    let at = offset as usize;
    assert_eq!(read_u32(zip, at), LOCAL_FILE_HEADER_SIG);
    let name_len = read_u16(zip, at + 26) as usize;
    (zip[at + 30..at + 30 + name_len].to_vec(), read_u16(zip, at + 6))
}

fn read_first_entry_flags(zip: &[u8]) -> (u16, u16) {
    assert_eq!(read_u32(zip, 0), LOCAL_FILE_HEADER_SIG);
    let cd = read_archive_info(zip).cd_offset as usize;
    assert_eq!(read_u32(zip, cd), CENTRAL_DIR_SIG);
    (read_u16(zip, 6), read_u16(zip, cd + 8))
}

fn cd_names_and_flags(zip: &[u8]) -> Vec<(Vec<u8>, u16)> {
    let info = read_archive_info(zip);
    let mut at = info.cd_offset as usize;
    let mut entries = Vec::new();
    for _ in 0..info.total_entries {
        assert_eq!(read_u32(zip, at), CENTRAL_DIR_SIG);
        let name_len = read_u16(zip, at + 28) as usize;
        let extra_len = read_u16(zip, at + 30) as usize;
        let comment_len = read_u16(zip, at + 32) as usize;
        entries.push((zip[at + 46..at + 46 + name_len].to_vec(), read_u16(zip, at + 8)));
        at += 46 + name_len + extra_len + comment_len;
    }
    entries
}

#[test]
fn find_archive_info_rejects_too_small_file() {
    let err = find_archive_info(&vec![0u8; 21], 21).unwrap_err();
    assert_eq!(err, "file is too small to be a valid ZIP archive");
}

#[test]
fn find_archive_info_rejects_missing_eocd() {
    let bytes = vec![0u8; 64];
    let err = find_archive_info(&bytes, bytes.len() as u64).unwrap_err();
    assert!(err.contains("End of Central Directory record not found"));
}

#[test]
fn find_archive_info_accepts_max_comment_length() {
    let comment = vec![0xA5; 65_535];
    let eocd = make_eocd(0, 0, 0, 0, 0, 0, comment.len() as u16);
    let mut bytes = eocd.to_vec();
    bytes.extend_from_slice(&comment);

    let info = find_archive_info(&bytes, bytes.len() as u64).unwrap();

    assert_eq!(info.archive_comment, comment);
    assert_eq!(info.total_entries, 0);
}

#[test]
fn find_archive_info_ignores_eocd_signature_inside_comment() {
    let mut comment = b"before".to_vec();
    comment.extend_from_slice(&EOCD_SIG.to_le_bytes());
    comment.extend_from_slice(b"after");
    let eocd = make_eocd(0, 0, 0, 0, 0, 0, comment.len() as u16);
    let mut bytes = eocd.to_vec();
    bytes.extend_from_slice(&comment);

    let info = find_archive_info(&bytes, bytes.len() as u64).unwrap();

    assert_eq!(info.archive_comment, comment);
}

#[test]
fn parse_eocd_rejects_multi_disk_archives() {
    let eocd = make_eocd(1, 0, 1, 1, 32, 64, 0);
    let err = parse_eocd(&eocd.to_vec(), &eocd, 0, eocd.len() as u64).unwrap_err();
    assert_eq!(err, "multi-disk ZIP archives are not supported");
}

#[test]
fn parse_eocd_reads_archive_comment() {
    let comment = b"hello-comment";
    let eocd = make_eocd(0, 0, 2, 2, 0, 0, comment.len() as u16);
    let mut bytes = eocd.to_vec();
    bytes.extend_from_slice(comment);

    let info = parse_eocd(&bytes, &eocd, 0, bytes.len() as u64).unwrap();

    assert_eq!(info.cd_offset, 0);
    assert_eq!(info.total_entries, 2);
    assert_eq!(info.archive_comment, comment);
    assert!(!info.is_zip64);
}

#[test]
fn parse_eocd_rejects_cd_range_overlapping_eocd() {
    let eocd = make_eocd(0, 0, 1, 1, 32, 10, 0);
    let err = parse_eocd(&eocd.to_vec(), &eocd, 22, 44).unwrap_err();

    assert!(err.contains("Central Directory overlaps end records"));
}

#[test]
fn parse_eocd_reads_zip64_metadata() {
    let comment = b"zip64-comment";
    let mut bytes = Vec::new();
    let mut pos = 0u64;
    write_zip64_eocd(&mut bytes, &mut pos, 7, 0, 0, comment).unwrap();
    let eocd_offset = 56 + 20;
    let mut eocd = [0u8; 22];
    eocd.copy_from_slice(&bytes[eocd_offset..eocd_offset + 22]);

    let info = parse_eocd(&bytes, &eocd, eocd_offset as u64, bytes.len() as u64).unwrap();

    assert!(info.is_zip64);
    assert_eq!(info.total_entries, 7);
    assert_eq!(info.cd_offset, 0);
    assert_eq!(info.archive_comment, comment);
}

#[test]
fn parse_eocd_rejects_missing_zip64_locator_signature() {
    let eocd = make_eocd(0, 0, 0xFFFF, 0xFFFF, 0xFFFF_FFFF, 0xFFFF_FFFF, 0);
    let mut bytes = vec![0u8; 20];
    bytes.extend_from_slice(&eocd);

    let err = parse_eocd(&bytes, &eocd, 20, 42).unwrap_err();
    assert_eq!(err, "ZIP64 EOCD locator signature not found");
}

#[test]
fn parse_eocd_rejects_zip64_locator_multi_disk() {
    let mut bytes = Vec::new();
    let mut pos = 0u64;
    write_zip64_eocd(&mut bytes, &mut pos, 1, 0, 0, b"").unwrap();
    write_u32(&mut bytes, 56 + 16, 2);

    let eocd_offset = 56 + 20;
    let mut eocd = [0u8; 22];
    eocd.copy_from_slice(&bytes[eocd_offset..eocd_offset + 22]);

    let err = parse_eocd(&bytes, &eocd, eocd_offset as u64, bytes.len() as u64).unwrap_err();
    assert_eq!(err, "multi-disk ZIP64 archives are not supported");
}

#[test]
fn parse_eocd_rejects_invalid_zip64_eocd_signature() {
    let mut bytes = Vec::new();
    let mut pos = 0u64;
    write_zip64_eocd(&mut bytes, &mut pos, 1, 0, 0, b"").unwrap();
    write_u32(&mut bytes, 0, 0);

    let eocd_offset = 56 + 20;
    let mut eocd = [0u8; 22];
    eocd.copy_from_slice(&bytes[eocd_offset..eocd_offset + 22]);

    let err = parse_eocd(&bytes, &eocd, eocd_offset as u64, bytes.len() as u64).unwrap_err();
    assert_eq!(err, "invalid ZIP64 EOCD signature");
}

#[test]
fn parse_eocd_rejects_zip64_entry_count_mismatch() {
    let mut bytes = Vec::new();
    let mut pos = 0u64;
    write_zip64_eocd(&mut bytes, &mut pos, 1, 0, 0, b"").unwrap();
    write_u64(&mut bytes, 32, 2);

    let eocd_offset = 56 + 20;
    let mut eocd = [0u8; 22];
    eocd.copy_from_slice(&bytes[eocd_offset..eocd_offset + 22]);

    let err = parse_eocd(&bytes, &eocd, eocd_offset as u64, bytes.len() as u64).unwrap_err();
    assert!(err.contains("entry count mismatch in ZIP64 EOCD"));
}

#[test]
fn parse_eocd_rejects_too_small_zip64_eocd_record_size() {
    let mut bytes = Vec::new();
    let mut pos = 0u64;
    write_zip64_eocd(&mut bytes, &mut pos, 1, 0, 0, b"").unwrap();
    write_u64(&mut bytes, 4, 43);

    let eocd_offset = 56 + 20;
    let mut eocd = [0u8; 22];
    eocd.copy_from_slice(&bytes[eocd_offset..eocd_offset + 22]);

    let err = parse_eocd(&bytes, &eocd, eocd_offset as u64, bytes.len() as u64).unwrap_err();
    assert_eq!(err, "ZIP64 EOCD record is too small");
}

#[test]
fn parse_eocd_rejects_zip64_eocd_record_overlapping_locator() {
    let mut bytes = Vec::new();
    let mut pos = 0u64;
    write_zip64_eocd(&mut bytes, &mut pos, 1, 0, 0, b"").unwrap();
    write_u64(&mut bytes, 4, 45);

    let eocd_offset = 56 + 20;
    let mut eocd = [0u8; 22];
    eocd.copy_from_slice(&bytes[eocd_offset..eocd_offset + 22]);

    let err = parse_eocd(&bytes, &eocd, eocd_offset as u64, bytes.len() as u64).unwrap_err();
    assert_eq!(err, "ZIP64 EOCD record overlaps ZIP64 locator");
}

#[test]
fn resolve_lfh_offset_reads_zip64_field() {
    let extra = make_zip64_extra(0x11, 0x22, 0x33);
    let resolved = resolve_lfh_offset(0xFFFF_FFFF, 0xFFFF_FFFF, 0xFFFF_FFFF, &extra, 1).unwrap();

    assert_eq!(resolved, (0x33, true));
}

#[test]
fn resolve_lfh_offset_skips_unknown_extra_and_uses_sentinel_layout() {
    let mut extra = make_extra_field(0xCAFE, b"skip");
    let mut zip64_data = vec![0u8; 16];
    write_u64(&mut zip64_data, 0, 0x11);
    write_u64(&mut zip64_data, 8, 0x44);
    extra.extend_from_slice(&make_extra_field(ZIP64_EXTRA_FIELD_ID, &zip64_data));

    let resolved = resolve_lfh_offset(0x22, 0xFFFF_FFFF, 0xFFFF_FFFF, &extra, 3).unwrap();

    assert_eq!(resolved, (0x44, true));
}

#[test]
fn resolve_lfh_offset_rejects_zip64_extra_without_offset_slot() {
    let extra = make_extra_field(ZIP64_EXTRA_FIELD_ID, &[0u8; 16]);
    let err = resolve_lfh_offset(0xFFFF_FFFF, 0xFFFF_FFFF, 0xFFFF_FFFF, &extra, 5).unwrap_err();

    assert_eq!(err, "ZIP64 extra too short in CD entry 5");
}

#[test]
fn resolve_lfh_offset_rejects_truncated_extra_field() {
    let extra = vec![1, 0, 8, 0, 1, 2, 3];
    let err = resolve_lfh_offset(10, 20, 0xFFFF_FFFF, &extra, 4).unwrap_err();
    assert_eq!(err, "truncated extra field in CD entry 4");
}

#[test]
fn resolve_lfh_offset_rejects_missing_zip64_extra() {
    let err = resolve_lfh_offset(10, 20, 0xFFFF_FFFF, &[], 2).unwrap_err();
    assert_eq!(err, "ZIP64 extra field missing for CD entry 2");
}

#[test]
fn build_plans_rejects_trailing_cd_bytes_after_expected_entries() {
    let mut zip = Vec::new();
    let lhf_offset = append_lfh(&mut zip, b"entry.txt", b"payload");
    let cd_offset = zip.len() as u64;
    let cd = make_cd_entry_raw(b"entry.txt", &[], &[], 0, 7, 7, lhf_offset as u32);
    zip.extend_from_slice(&cd);
    zip.push(0xAA);

    let info = ArchiveInfo {
        cd_offset,
        cd_size: cd.len() as u64 + 1,
        total_entries: 1,
        is_zip64: false,
        archive_comment: Vec::new(),
    };

    let err = build_plans(&zip, &info, &make_options()).unwrap_err();
    assert!(err.contains("trailing bytes after expected entries"));
}

#[test]
fn build_plans_rejects_truncated_cd_entry() {
    let info = ArchiveInfo {
        cd_offset: 0,
        cd_size: 45,
        total_entries: 1,
        is_zip64: false,
        archive_comment: Vec::new(),
    };

    let err = build_plans(&vec![0u8; 45], &info, &make_options()).unwrap_err();
    assert!(err.contains("unexpected EOF reading CD entry header"));
}

#[test]
fn build_plans_rejects_invalid_lfh_signature() {
    let mut zip = Vec::new();
    let lhf_offset = append_lfh(&mut zip, b"entry.txt", b"payload");
    write_u32(&mut zip, lhf_offset as usize, 0);
    let cd_offset = zip.len() as u64;
    let cd = make_cd_entry_raw(b"entry.txt", &[], &[], 0, 7, 7, lhf_offset as u32);
    zip.extend_from_slice(&cd);

    let info = ArchiveInfo {
        cd_offset,
        cd_size: cd.len() as u64,
        total_entries: 1,
        is_zip64: false,
        archive_comment: Vec::new(),
    };

    let err = build_plans(&zip, &info, &make_options()).unwrap_err();
    assert!(err.contains("invalid LFH signature at entry 1"));
}

#[test]
fn build_plans_rejects_truncated_lfh_filename() {
    let cd = make_cd_entry_raw(b"abcdefghij", &[], &[], 0, 0, 0, 56);
    let mut zip = cd.clone();
    let lhf_offset = zip.len() as u64;
    assert_eq!(lhf_offset, 56);
    let mut header = [0u8; 30];
    write_u32(&mut header, 0, LOCAL_FILE_HEADER_SIG);
    write_u16(&mut header, 26, 10);
    zip.extend_from_slice(&header);
    zip.extend_from_slice(b"abc");

    let info = ArchiveInfo {
        cd_offset: 0,
        cd_size: cd.len() as u64,
        total_entries: 1,
        is_zip64: false,
        archive_comment: Vec::new(),
    };

    let err = build_plans(&zip, &info, &make_options()).unwrap_err();
    assert!(err.contains("unexpected EOF reading LFH filename at entry 1"));
}

#[test]
fn build_plans_rejects_overlapping_lfh_offsets() {
    let mut zip = Vec::new();
    let lhf_offset = append_lfh(&mut zip, b"entry.txt", b"payload");
    let cd_offset = zip.len() as u64;
    let first_cd = make_cd_entry_raw(b"entry.txt", &[], &[], 0, 7, 7, lhf_offset as u32);
    let second_cd = make_cd_entry_raw(b"entry.txt", &[], &[], 0, 7, 7, lhf_offset as u32);
    zip.extend_from_slice(&first_cd);
    zip.extend_from_slice(&second_cd);

    let info = ArchiveInfo {
        cd_offset,
        cd_size: (first_cd.len() + second_cd.len()) as u64,
        total_entries: 2,
        is_zip64: false,
        archive_comment: Vec::new(),
    };

    let err = build_plans(&zip, &info, &make_options()).unwrap_err();
    assert!(err.contains("entry 1 has an invalid physical span"));
}

#[test]
fn build_plans_rejects_lfh_cd_filename_length_mismatch() {
    let mut zip = Vec::new();
    let lhf_offset = append_lfh(&mut zip, b"long-name.txt", b"payload");
    let cd_offset = zip.len() as u64;
    let cd = make_cd_entry_raw(b"short.txt", &[], &[], 0, 7, 7, lhf_offset as u32);
    zip.extend_from_slice(&cd);

    let info = ArchiveInfo {
        cd_offset,
        cd_size: cd.len() as u64,
        total_entries: 1,
        is_zip64: false,
        archive_comment: Vec::new(),
    };

    let err = build_plans(&zip, &info, &make_options()).unwrap_err();
    assert!(err.contains("LFH filename length mismatch at entry 1"));
    assert!(err.contains("LFH has 13, CD has 9"));
}

#[test]
fn build_plans_rejects_lfh_cd_filename_bytes_mismatch() {
    let mut zip = Vec::new();
    let lhf_offset = append_lfh(&mut zip, b"same-len-a.txt", b"payload");
    let cd_offset = zip.len() as u64;
    let cd = make_cd_entry_raw(b"same-len-b.txt", &[], &[], 0, 7, 7, lhf_offset as u32);
    zip.extend_from_slice(&cd);

    let info = ArchiveInfo {
        cd_offset,
        cd_size: cd.len() as u64,
        total_entries: 1,
        is_zip64: false,
        archive_comment: Vec::new(),
    };

    let err = build_plans(&zip, &info, &make_options()).unwrap_err();
    assert_eq!(err, "LFH filename bytes mismatch at entry 1");
}

#[test]
fn build_plans_computes_spans_in_lfh_offset_order_not_cd_order() {
    let mut zip = Vec::new();
    let first_offset = append_lfh(&mut zip, b"first.txt", b"one");
    let second_offset = append_lfh(&mut zip, b"second.txt", b"two!!");
    let cd_offset = zip.len() as u64;

    let second_cd = make_cd_entry_raw(b"second.txt", &[], &[], 0, 5, 5, second_offset as u32);
    let first_cd = make_cd_entry_raw(b"first.txt", &[], &[], 0, 3, 3, first_offset as u32);
    zip.extend_from_slice(&second_cd);
    zip.extend_from_slice(&first_cd);

    let info = ArchiveInfo {
        cd_offset,
        cd_size: (second_cd.len() + first_cd.len()) as u64,
        total_entries: 2,
        is_zip64: false,
        archive_comment: Vec::new(),
    };

    let plans = build_plans(&zip, &info, &make_options()).unwrap();

    assert_eq!(plans.len(), 2);
    assert_eq!(plans[0].orig_fname, b"first.txt");
    assert_eq!(plans[1].orig_fname, b"second.txt");
    assert_eq!(plans[0].span_size, second_offset - first_offset);
    assert_eq!(plans[1].span_size, cd_offset - second_offset);
    assert_eq!(plans[0].cd_index, 1);
    assert_eq!(plans[1].cd_index, 0);
}

#[test]
fn build_cd_entry_updates_32bit_offset_name_and_comment() {
    let extra = vec![0xAA, 0xBB];
    let comment = b"note";
    let cd_raw = make_cd_entry_raw(b"old-name.txt", &extra, comment, 0, 10, 20, 0x01020304);
    let plan = make_entry_plan(b"old-name.txt", b"new.txt", cd_raw, false, true);

    let out = build_cd_entry(&plan, 0x11223344).unwrap();

    assert_eq!(read_u32(&out, 0), CENTRAL_DIR_SIG);
    assert_eq!(read_u16(&out, 8), BIT11);
    assert_eq!(read_u16(&out, 28) as usize, b"new.txt".len());
    assert_eq!(read_u32(&out, 42), 0x11223344);
    assert_eq!(&out[46..46 + b"new.txt".len()], b"new.txt");
    assert_eq!(
        &out[46 + b"new.txt".len()..46 + b"new.txt".len() + extra.len()],
        extra.as_slice()
    );
    assert_eq!(&out[out.len() - comment.len()..], comment);
}

#[test]
fn build_cd_entry_updates_zip64_extra_offset() {
    let extra = make_zip64_extra(0x11, 0x22, 0x33);
    let cd_raw = make_cd_entry_raw(
        b"entry.bin",
        &extra,
        b"",
        0,
        0xFFFF_FFFF,
        0xFFFF_FFFF,
        0xFFFF_FFFF,
    );
    let plan = make_entry_plan(b"entry.bin", b"entry.bin", cd_raw, true, false);

    let out = build_cd_entry(&plan, 0x0102_0304_0506_0708).unwrap();
    let extra_start = 46 + b"entry.bin".len();

    assert_eq!(read_u32(&out, 42), 0xFFFF_FFFF);
    assert_eq!(read_u64(&out, extra_start + 4 + 16), 0x0102_0304_0506_0708);
}

#[test]
fn build_cd_entry_rejects_large_offset_without_zip64_extra() {
    let cd_raw = make_cd_entry_raw(b"name", &[], b"", 0, 1, 1, 0x10);
    let plan = make_entry_plan(b"name", b"name", cd_raw, false, false);

    let err = build_cd_entry(&plan, 0x1_0000_0000).unwrap_err();
    assert!(err.contains("no ZIP64 extra field present"));
}

#[test]
fn build_cd_entry_rejects_short_zip64_extra_when_patching_offset() {
    let extra = make_extra_field(ZIP64_EXTRA_FIELD_ID, &[0u8; 16]);
    let cd_raw = make_cd_entry_raw(
        b"entry.bin",
        &extra,
        b"",
        0,
        0xFFFF_FFFF,
        0xFFFF_FFFF,
        0xFFFF_FFFF,
    );
    let plan = make_entry_plan(b"entry.bin", b"entry.bin", cd_raw, true, false);

    let err = build_cd_entry(&plan, 0x0102_0304_0506_0708).unwrap_err();

    assert!(err.contains("ZIP64 extra too short to hold LFH offset for CD entry 1"));
}

#[test]
fn dry_run_report_summarizes_changes() {
    let plans = vec![
        EntryPlan {
            cd_index: 0,
            lhf_offset: 0,
            excluded: true,
            orig_fname: b"__MACOSX/ghost".to_vec(),
            new_fname: b"__MACOSX/ghost".to_vec(),
            needs_bit11: false,
            new_bit11_set: false,
            span_size: 120,
            lhf_header_size: 30,
            lhf_extra_len: 0,
            lhf_offset_in_zip64_extra: false,
            cd_header: [0u8; 46],
            cd_extra: Vec::new(),
            cd_comment: Vec::new(),
        },
        EntryPlan {
            cd_index: 1,
            lhf_offset: 120,
            excluded: false,
            orig_fname: "e\u{301}.txt".as_bytes().to_vec(),
            new_fname: "é.txt".as_bytes().to_vec(),
            needs_bit11: true,
            new_bit11_set: true,
            span_size: 50,
            lhf_header_size: 30,
            lhf_extra_len: 0,
            lhf_offset_in_zip64_extra: false,
            cd_header: [0u8; 46],
            cd_extra: Vec::new(),
            cd_comment: Vec::new(),
        },
    ];

    let mut out = Vec::new();
    dry_run_report(&plans, &mut out).unwrap();
    let out = String::from_utf8(out).unwrap();

    assert!(out.contains("[exclude]  __MACOSX/ghost  (120 B)"));
    assert!(out.contains("[nfc]      e\u{301}.txt  →  é.txt  (1 B shorter)"));
    assert!(out.contains("[bit11]    e\u{301}.txt"));
    assert!(out.contains("Excluded:     1 entries (orphan data: 120 B)"));
    assert!(out.contains("NFC renamed:  1 entries (total saved: 1 B)"));
    assert!(out.contains("bit11 set:    1 entries"));
}

#[test]
fn dry_run_report_marks_unknown_excluded_size() {
    let plans = vec![EntryPlan {
        cd_index: 0,
        lhf_offset: 0,
        excluded: true,
        orig_fname: b"__MACOSX/ghost".to_vec(),
        new_fname: b"__MACOSX/ghost".to_vec(),
        needs_bit11: false,
        new_bit11_set: false,
        span_size: 0,
        lhf_header_size: 0,
        lhf_extra_len: 0,
        lhf_offset_in_zip64_extra: false,
        cd_header: [0u8; 46],
        cd_extra: Vec::new(),
        cd_comment: Vec::new(),
    }];

    let mut out = Vec::new();
    dry_run_report(&plans, &mut out).unwrap();
    let out = String::from_utf8(out).unwrap();

    assert!(out.contains("[exclude]  __MACOSX/ghost  (? B)"));
    assert!(out.contains("Excluded:     1 entries (orphan data: ? B)"));
}

#[test]
fn default_excludes_match_basename_and_macosx_prefix() {
    let opts = make_options();

    assert!(opts.is_excluded(b".DS_Store"));
    assert!(opts.is_excluded(b"nested/.DS_Store"));
    assert!(opts.is_excluded(b"Thumbs.db"));
    assert!(opts.is_excluded(b"dir/Thumbs.db"));
    assert!(opts.is_excluded(b"__MACOSX"));
    assert!(opts.is_excluded(b"__MACOSX/path/file.txt"));

    assert!(!opts.is_excluded(b"dir/__MACOSX/file.txt"));
    assert!(!opts.is_excluded(b"notes/.DS_Store.backup"));
}

#[test]
fn default_excludes_include_desktop_ini() {
    let opts = make_options();
    assert!(opts.is_excluded(b"desktop.ini"));
    assert!(opts.is_excluded(b"subdir/desktop.ini"));
}

#[test]
fn no_default_exclude_disables_builtin_filters() {
    let mut opts = make_options();
    opts.no_default_exclude = true;

    assert!(!opts.is_excluded(b".DS_Store"));
    assert!(!opts.is_excluded(b"nested/Thumbs.db"));
    assert!(!opts.is_excluded(b"__MACOSX/file.txt"));
}

#[test]
fn extra_excludes_match_basename_only() {
    let mut opts = make_options();
    opts.no_default_exclude = true;
    opts.extra_excludes = vec!["keep.out".to_string()];

    assert!(opts.is_excluded(b"keep.out"));
    assert!(opts.is_excluded(b"nested/keep.out"));
    assert!(!opts.is_excluded(b"keep.out/child.txt"));
    assert!(!opts.is_excluded(b"nested/keep.out.backup"));
}

#[test]
fn inplace_writes_padding_extra_when_absorb_reaches_minimum() {
    let nfd_name = "e\u{301}e\u{301}e\u{301}e\u{301}.txt".as_bytes();
    let mut zip = Vec::new();
    let lhf_offset = append_lfh(&mut zip, nfd_name, b"");
    let cd_offset = zip.len() as u64;
    let cd = make_cd_entry_raw(nfd_name, &[], &[], 0, 0, 0, lhf_offset as u32);
    zip.extend_from_slice(&cd);
    zip.extend_from_slice(&make_eocd(0, 0, 1, 1, cd.len() as u32, cd_offset as u32, 0));
    let mut file = zip.clone();

    process_file(&mut file, &make_options(), &mut Vec::new()).unwrap();

    let extra = lfh_extra_at(&file, 0);
    assert!(has_extra_field(&extra, 0xFFFF));

    let plans = read_plans(&file);
    let (lfh_name, lfh_flags) = lfh_name_and_flags_at(&file, plans[0].lhf_offset);
    assert_eq!(lfh_name, plans[0].new_fname);
    assert_eq!(lfh_name, "éééé.txt".as_bytes());
    assert_ne!(lfh_flags & BIT11, 0);
    assert_ne!(read_u16(&plans[0].cd_header, 8) & BIT11, 0);

    read_plans(&file);
}

#[test]
fn inplace_accumulates_small_carry_until_padding_is_possible() {
    let names: [&[u8]; 3] = [
        "e\u{301}.txt".as_bytes(),
        "e\u{301}.dat".as_bytes(),
        "e\u{301}e\u{301}.bin".as_bytes(),
    ];

    let mut zip = Vec::new();
    let offsets: Vec<u64> = names
        .iter()
        .map(|name| append_lfh(&mut zip, name, b""))
        .collect();
    let cd_offset = zip.len() as u64;
    let mut cd = Vec::new();
    for (name, offset) in names.iter().zip(offsets) {
        cd.extend_from_slice(&make_cd_entry_raw(name, &[], &[], 0, 0, 0, offset as u32));
    }
    zip.extend_from_slice(&cd);
    zip.extend_from_slice(&make_eocd(0, 0, 3, 3, cd.len() as u32, cd_offset as u32, 0));
    let mut file = zip.clone();

    process_file(&mut file, &make_options(), &mut Vec::new()).unwrap();

    let plans = read_plans(&file);

    assert_eq!(plans.len(), 3);
    assert!(!has_extra_field(
        &lfh_extra_at(&file, plans[0].lhf_offset),
        0xFFFF
    ));
    assert!(!has_extra_field(
        &lfh_extra_at(&file, plans[1].lhf_offset),
        0xFFFF
    ));
    assert!(has_extra_field(
        &lfh_extra_at(&file, plans[2].lhf_offset),
        0xFFFF
    ));

    for plan in &plans {
        let (lfh_name, lfh_flags) = lfh_name_and_flags_at(&file, plan.lhf_offset);
        assert_eq!(lfh_name, plan.new_fname);
        assert_ne!(lfh_flags & BIT11, 0);
        assert_ne!(read_u16(&plan.cd_header, 8) & BIT11, 0);
    }

    read_plans(&file);
}

#[test]
fn rejects_non_utf8_names_without_not_utf8_mode() {
    let err = nfc_normalize(b"\xff", 1).unwrap_err();
    assert!(err.contains("--not-utf-8"));
}

#[test]
fn preserves_already_nfc_names_and_sets_bit11() {
    let name = "é.txt".as_bytes(); // Already NFC (U+00E9)
    let mut zip = Vec::new();
    let off = append_lfh(&mut zip, name, b"data");
    let cd_off = zip.len() as u64;
    let cd = make_cd_entry_raw(name, &[], &[], 0, 4, 4, off as u32);
    zip.extend_from_slice(&cd);
    zip.extend_from_slice(&make_eocd(0, 0, 1, 1, cd.len() as u32, cd_off as u32, 0));

    let out = rewritten(&zip, &make_options());
    let plans = read_plans(&out);

    assert_eq!(plans[0].new_fname, name);
    assert!(plans[0].new_bit11_set);
}

#[test]
fn process_new_leaves_ascii_names_without_bit11() {
    let name = b"ascii.txt";
    let mut zip = Vec::new();
    let off = append_lfh(&mut zip, name, b"data");
    let cd_off = zip.len() as u64;
    let cd = make_cd_entry_raw(name, &[], &[], 0, 4, 4, off as u32);
    zip.extend_from_slice(&cd);
    zip.extend_from_slice(&make_eocd(0, 0, 1, 1, cd.len() as u32, cd_off as u32, 0));

    let out = rewritten(&zip, &make_options());
    let plans = read_plans(&out);

    assert_eq!(plans[0].new_fname, name);
    assert!(!plans[0].new_bit11_set);
}

#[test]
fn process_new_handles_filename_collisions() {
    // Both normalize to "é.txt"
    let name1 = "é.txt".as_bytes();
    let name2 = "e\u{301}.txt".as_bytes();

    let mut zip = Vec::new();
    let off1 = append_lfh(&mut zip, name1, b"one");
    let off2 = append_lfh(&mut zip, name2, b"two");
    let cd_off = zip.len() as u64;
    let cd1 = make_cd_entry_raw(name1, &[], &[], 0, 3, 3, off1 as u32);
    let cd2 = make_cd_entry_raw(name2, &[], &[], 0, 3, 3, off2 as u32);
    zip.extend_from_slice(&cd1);
    zip.extend_from_slice(&cd2);
    zip.extend_from_slice(&make_eocd(
        0,
        0,
        2,
        2,
        (cd1.len() + cd2.len()) as u32,
        cd_off as u32,
        0,
    ));

    let out = rewritten(&zip, &make_options());
    let plans = read_plans(&out);

    assert_eq!(plans.len(), 2);
    assert_eq!(plans[0].new_fname, "é.txt".as_bytes());
    assert_eq!(plans[1].new_fname, "é.txt".as_bytes());
}

#[test]
fn process_new_preserves_data_descriptor() {
    let name = b"data_descriptor.txt";
    let payload = b"compressed-data";
    let mut zip = Vec::new();
    let off = zip.len() as u64;

    // LFH with Bit 3 (0x0008)
    let mut lhf = [0u8; 30];
    write_u32(&mut lhf, 0, LOCAL_FILE_HEADER_SIG);
    write_u16(&mut lhf, 6, 0x0008); // Flags: Bit 3
    write_u16(&mut lhf, 26, name.len() as u16);
    zip.extend_from_slice(&lhf);
    zip.extend_from_slice(name);
    zip.extend_from_slice(payload);

    // Data Descriptor: Sig(4) + CRC(4) + CompSize(4) + UncompSize(4)
    let dd_sig = 0x08074b50u32;
    zip.extend_from_slice(&dd_sig.to_le_bytes());
    zip.extend_from_slice(&[0u8; 12]); // CRC, sizes

    let cd_off = zip.len() as u64;
    let cd = make_cd_entry_raw(
        name,
        &[],
        &[],
        0x0008,
        payload.len() as u32,
        payload.len() as u32,
        off as u32,
    );
    zip.extend_from_slice(&cd);
    zip.extend_from_slice(&make_eocd(0, 0, 1, 1, cd.len() as u32, cd_off as u32, 0));

    let out = rewritten(&zip, &make_options());
    // The output should contain the Data Descriptor signature
    assert!(out.windows(4).any(|w| w == dd_sig.to_le_bytes()));
}

#[test]
fn preserves_directory_trailing_slash_after_normalization() {
    let name = "e\u{301}/".as_bytes();
    let expected = "é/".as_bytes();

    let mut zip = Vec::new();
    let off = append_lfh(&mut zip, name, b"");
    let cd_off = zip.len() as u64;
    let cd = make_cd_entry_raw(name, &[], &[], 0, 0, 0, off as u32);
    zip.extend_from_slice(&cd);
    zip.extend_from_slice(&make_eocd(0, 0, 1, 1, cd.len() as u32, cd_off as u32, 0));

    let out = rewritten(&zip, &make_options());
    let plans = read_plans(&out);

    assert_eq!(plans[0].new_fname, expected);
}

#[test]
fn build_cd_entry_preserves_external_attributes() {
    let mut cd_raw = make_cd_entry_raw(b"test.txt", &[], &[], 0, 0, 0, 0);
    // External attributes at offset 38 (4 bytes)
    let attr = 0x81ED0000u32; // -rw-r--r-- in Unix
    write_u32(&mut cd_raw, 38, attr);

    let plan = make_entry_plan(b"test.txt", b"test.txt", cd_raw, false, false);
    let out = build_cd_entry(&plan, 100).unwrap();

    assert_eq!(read_u32(&out, 38), attr);
}

#[test]
fn inplace_preserves_archive_comment() {
    let comment = b"staying put";
    let mut zip = Vec::new();
    zip.extend_from_slice(&make_eocd(0, 0, 0, 0, 0, 0, comment.len() as u16));
    zip.extend_from_slice(comment);
    let mut file = zip.clone();

    process_file(&mut file, &make_options(), &mut Vec::new()).unwrap();

    let info = read_archive_info(&file);
    assert_eq!(info.archive_comment, comment);
}

#[test]
fn inplace_leaves_ascii_archive_untouched_if_no_shrinkage() {
    let name = b"no-change.txt";
    let payload = b"data";
    let mut zip = Vec::new();
    let off = append_lfh(&mut zip, name, payload);
    let cd_off = zip.len() as u64;
    let cd = make_cd_entry_raw(name, &[], &[], 0, 4, 4, off as u32);
    zip.extend_from_slice(&cd);
    zip.extend_from_slice(&make_eocd(0, 0, 1, 1, cd.len() as u32, cd_off as u32, 0));
    let mut file = zip.clone();

    process_file(&mut file, &make_options(), &mut Vec::new()).unwrap();

    let zip_after = file;
    assert_eq!(zip_after, zip);
    assert_eq!(read_u16(&zip_after, off as usize + 6) & BIT11, 0);

    // The rest of the file (name and payload) should be untouched and in the same place
    assert_eq!(
        &zip_after[off as usize + 30..off as usize + 30 + name.len()],
        name
    );
    assert_eq!(
        &zip_after[off as usize + 30 + name.len()..off as usize + 30 + name.len() + payload.len()],
        payload
    );
}

#[test]
fn inplace_handles_zero_length_payload() {
    let name = b"empty.txt";
    let mut zip = Vec::new();
    let off = append_lfh(&mut zip, name, b"");
    let cd_off = zip.len() as u64;
    let cd = make_cd_entry_raw(name, &[], &[], 0, 0, 0, off as u32);
    zip.extend_from_slice(&cd);
    zip.extend_from_slice(&make_eocd(0, 0, 1, 1, cd.len() as u32, cd_off as u32, 0));
    let mut file = zip.clone();

    process_file(&mut file, &make_options(), &mut Vec::new()).unwrap();

    read_plans(&file);
}

#[test]
fn inplace_writes_minimum_padding_extra_field() {
    // Need a delta of exactly 4 bytes to trigger minimum padding
    // "e\u{301}" (3 bytes) -> "é" (2 bytes) saves 1 byte.
    // So 4 such characters will save 4 bytes.
    let nfd_name = "e\u{301}e\u{301}e\u{301}e\u{301}.txt".as_bytes();
    let nfc_name = "éééé.txt".as_bytes();
    assert_eq!(nfd_name.len() - nfc_name.len(), 4);

    let mut zip = Vec::new();
    let off = append_lfh(&mut zip, nfd_name, b"data");
    let cd_off = zip.len() as u64;
    let cd = make_cd_entry_raw(nfd_name, &[], &[], 0, 4, 4, off as u32);
    zip.extend_from_slice(&cd);
    zip.extend_from_slice(&make_eocd(0, 0, 1, 1, cd.len() as u32, cd_off as u32, 0));
    let mut file = zip.clone();

    process_file(&mut file, &make_options(), &mut Vec::new()).unwrap();

    let extra = lfh_extra_at(&file, 0);
    // Should have a padding extra field (ID 0xFFFF)
    assert!(has_extra_field(&extra, 0xFFFF));

    // Check total size of extra field is 4 bytes (ID(2) + Size(2) + Data(0))
    let mut cursor = 0;
    while cursor + 4 <= extra.len() {
        let id = read_u16(&extra, cursor);
        let sz = read_u16(&extra, cursor + 2) as usize;
        if id == 0xFFFF {
            assert_eq!(sz, 0);
            break;
        }
        cursor += 4 + sz;
    }
}

#[test]
fn parse_eocd_rejects_entry_count_mismatch() {
    let eocd = make_eocd(0, 0, 1, 2, 0, 0, 0);
    let err = parse_eocd(&eocd.to_vec(), &eocd, 0, 22).unwrap_err();
    assert!(err.contains("entry count mismatch"));
}

#[test]
fn parse_eocd_rejects_cd_beyond_file_len() {
    let eocd = make_eocd(0, 0, 1, 1, 10, 20, 0); // CD at 20..30, file len 22
    let err = parse_eocd(&eocd.to_vec(), &eocd, 0, 22).unwrap_err();
    assert!(err.contains("exceeds file length"));
}

#[test]
fn patch_zip64_lhf_offset_in_extra_rejects_missing_field() {
    let extra = make_extra_field(0xCAFE, b"data");
    let cd_raw = make_cd_entry_raw(b"test", &extra, b"", 0, 0xFFFF_FFFF, 0, 0xFFFF_FFFF);
    let plan = make_entry_plan(b"test", b"test", cd_raw, true, false);

    let err = build_cd_entry(&plan, 0x1000).unwrap_err();
    assert!(err.contains("ZIP64 extra field not found"));
}

#[test]
fn parse_eocd_rejects_zip64_if_locator_at_too_low_offset() {
    let eocd = make_eocd(0, 0, 0xFFFF, 0xFFFF, 0xFFFF_FFFF, 0xFFFF_FFFF, 0);
    let err = parse_eocd(&eocd.to_vec(), &eocd, 19, 19 + 22).unwrap_err();
    assert_eq!(err, "ZIP64 EOCD locator not found before EOCD");
}

#[test]
fn parse_eocd_rejects_multi_disk_zip64_eocd_record() {
    let mut bytes = Vec::new();
    let mut pos = 0u64;
    write_zip64_eocd(&mut bytes, &mut pos, 1, 0, 0, b"").unwrap();
    write_u32(&mut bytes, 16, 1); // z64_disk = 1

    let eocd_offset = 56 + 20;
    let mut eocd = [0u8; 22];
    eocd.copy_from_slice(&bytes[eocd_offset..eocd_offset + 22]);

    let err = parse_eocd(&bytes, &eocd, eocd_offset as u64, bytes.len() as u64).unwrap_err();
    assert_eq!(err, "multi-disk ZIP64 archives are not supported");
}

#[test]
fn patched_header_rejects_large_filename() {
    let mut header = [0u8; 30];
    write_u32(&mut header, 0, LOCAL_FILE_HEADER_SIG);
    let lhf = LocalHeader {
        header,
        extra: vec![],
    };
    let err = lhf.patched_header(0, 65536, 0).unwrap_err();
    assert!(err.contains("LFH filename length exceeds ZIP limit"));
}

#[test]
fn parse_eocd_rejects_zip64_if_locator_signature_is_wrong() {
    let eocd = make_eocd(0, 0, 0xFFFF, 0xFFFF, 0xFFFF_FFFF, 0xFFFF_FFFF, 0);
    let mut bytes = vec![0u8; 20];
    bytes.extend_from_slice(&eocd);
    // Locator signature is at bytes[0..4]. Let's make it wrong.
    bytes[0] = 0;

    let err = parse_eocd(&bytes, &eocd, 20, 42).unwrap_err();
    assert_eq!(err, "ZIP64 EOCD locator signature not found");
}

#[test]
fn inplace_preserves_arbitrary_extra_fields() {
    let name = "e\u{301}.txt".as_bytes(); // NFC will be shorter
    let custom_id = 0xCAFEu16;
    let custom_data = b"metadata";
    let extra = make_extra_field(custom_id, custom_data);

    let mut zip = Vec::new();
    let off = append_lfh_with_extra(&mut zip, name, b"payload", &extra);
    let cd_off = zip.len() as u64;
    let cd = make_cd_entry_raw(name, &extra, b"", 0, 7, 7, off as u32);
    zip.extend_from_slice(&cd);
    zip.extend_from_slice(&make_eocd(0, 0, 1, 1, cd.len() as u32, cd_off as u32, 0));
    let mut file = zip.clone();

    process_file(&mut file, &make_options(), &mut Vec::new()).unwrap();

    let extra_after = lfh_extra_at(&file, 0);
    assert!(has_extra_field(&extra_after, custom_id));
    // Verify custom data is there
    assert!(extra_after
        .windows(custom_data.len())
        .any(|w| w == custom_data));
}

#[test]
fn process_new_preserves_arbitrary_extra_fields() {
    let name = "e\u{301}.txt".as_bytes();
    let custom_id = 0xBEEFu16;
    let custom_data = b"more-metadata";
    let extra = make_extra_field(custom_id, custom_data);

    let mut zip = Vec::new();
    let off = append_lfh_with_extra(&mut zip, name, b"payload", &extra);
    let cd_off = zip.len() as u64;
    let cd = make_cd_entry_raw(name, &extra, b"", 0, 7, 7, off as u32);
    zip.extend_from_slice(&cd);
    zip.extend_from_slice(&make_eocd(0, 0, 1, 1, cd.len() as u32, cd_off as u32, 0));

    let out = rewritten(&zip, &make_options());
    let plans = read_plans(&out);

    let extra_after = lfh_extra_at(&out, plans[0].lhf_offset);
    assert!(has_extra_field(&extra_after, custom_id));
    assert!(extra_after
        .windows(custom_data.len())
        .any(|w| w == custom_data));
}

#[test]
fn inplace_shifts_data_descriptor_correctly() {
    let name = "e\u{301}.txt".as_bytes(); // Shorter after NFC
    let payload = b"compressed-data";
    let dd_sig = 0x08074b50u32;
    let mut zip = Vec::new();
    let off = zip.len() as u64;

    // LFH with Bit 3
    let mut lhf = [0u8; 30];
    write_u32(&mut lhf, 0, LOCAL_FILE_HEADER_SIG);
    write_u16(&mut lhf, 6, 0x0008);
    write_u16(&mut lhf, 26, name.len() as u16);
    zip.extend_from_slice(&lhf);
    zip.extend_from_slice(name);
    zip.extend_from_slice(payload);

    // Data Descriptor
    zip.extend_from_slice(&dd_sig.to_le_bytes());
    zip.extend_from_slice(&[0x12, 0x34, 0x56, 0x78]); // CRC
    zip.extend_from_slice(&(payload.len() as u32).to_le_bytes()); // Comp
    zip.extend_from_slice(&(payload.len() as u32).to_le_bytes()); // Uncomp

    let cd_off = zip.len() as u64;
    let cd = make_cd_entry_raw(
        name,
        &[],
        b"",
        0x0008,
        payload.len() as u32,
        payload.len() as u32,
        off as u32,
    );
    zip.extend_from_slice(&cd);
    zip.extend_from_slice(&make_eocd(0, 0, 1, 1, cd.len() as u32, cd_off as u32, 0));
    let mut file = zip.clone();

    process_file(&mut file, &make_options(), &mut Vec::new()).unwrap();

    let zip_after = file;
    // Bit 11 should be set, so flags become 0x0800 | 0x0008 = 0x0808
    assert_eq!(read_u16(&zip_after, off as usize + 6), 0x0808);

    // Original pos of DD: 30 + 7 (NFD name) + 15 (payload) = 52
    // New pos of DD: 30 + 6 (NFC name) + 15 (payload) = 51
    assert_eq!(read_u32(&zip_after, off as usize + 51), dd_sig);
}

#[test]
fn copy_within_file_handles_overlapping_forward_copy() {
    let original: Vec<u8> = (0..=255).cycle().take(400_000).collect();
    let mut file = original.clone();
    let src = 131u64;
    let dst = 19u64;
    let len = 300_000u64;

    copy_within_file(&mut file, src, dst, len).unwrap();

    let mut expected = original.clone();
    expected[dst as usize..(dst + len) as usize]
        .copy_from_slice(&original[src as usize..(src + len) as usize]);

    assert_eq!(file, expected);
}

#[test]
fn copy_within_file_rejects_backward_copy() {
    let mut file = Vec::new();
    let err = copy_within_file(&mut file, 100, 200, 10).unwrap_err();
    assert!(err.contains("invariant violated"));
}

#[test]
fn stream_copy_rejects_unexpected_eof() {
    let src = vec![0u8; 10];
    let mut dst = Vec::new();
    let err = stream_copy(&src, &mut dst, 20).unwrap_err();
    assert!(err.contains("unexpected EOF"));
}

#[test]
fn write_eocd_rejects_long_comment() {
    let comment = vec![0u8; 65536];
    let mut out = Vec::new();
    let err = write_eocd(&mut out, 0, 0, 0, &comment).unwrap_err();
    assert!(err.contains("comment is too long"));
}

#[test]
fn process_new_handles_empty_archive() {
    let eocd = make_eocd(0, 0, 0, 0, 0, 0, 0);
    let out = rewritten(&eocd, &make_options());
    assert_eq!(out, eocd);
}

#[test]
fn process_new_preserves_original_cd_order() {
    let mut zip = Vec::new();
    let first_offset = append_lfh(&mut zip, b"first.txt", b"one");
    let second_offset = append_lfh(&mut zip, b"second.txt", b"two");
    let cd_offset = zip.len() as u64;

    let second_cd = make_cd_entry_raw(b"second.txt", &[], &[], 0, 3, 3, second_offset as u32);
    let first_cd = make_cd_entry_raw(b"first.txt", &[], &[], 0, 3, 3, first_offset as u32);
    zip.extend_from_slice(&second_cd);
    zip.extend_from_slice(&first_cd);
    zip.extend_from_slice(&make_eocd(
        0,
        0,
        2,
        2,
        (second_cd.len() + first_cd.len()) as u32,
        cd_offset as u32,
        0,
    ));

    let out = rewritten(&zip, &make_options());
    let at = read_archive_info(&out).cd_offset as usize;
    let first_name_len = read_u16(&out, at + 28) as usize;
    let first_name = &out[at + 46..at + 46 + first_name_len];

    assert_eq!(first_name, b"second.txt");
}

#[test]
fn process_new_normalizes_sets_bit11_excludes_and_preserves_comment() {
    let comment = b"new archive comment";
    let kept_nfd = "e\u{301}.txt".as_bytes();
    let excluded = b"__MACOSX/ghost";

    let mut zip = create_zip(&[(kept_nfd, b""), (excluded, b"")]);
    add_archive_comment(&mut zip, comment);

    let out = rewritten(&zip, &make_options());
    let info = read_archive_info(&out);
    let plans = read_plans(&out);

    assert_eq!(info.archive_comment, comment);
    assert_eq!(plans.len(), 1);
    assert_eq!(plans[0].orig_fname, "é.txt".as_bytes());
    assert!(read_u16(&plans[0].cd_header, 8) & BIT11 != 0);
}

#[test]
fn process_new_preserves_zip64_archive_comment() {
    let comment = b"zip64 archive comment";
    let mut input_bytes = Vec::new();
    let mut pos = 0u64;
    write_zip64_eocd(&mut input_bytes, &mut pos, 0, 0, 0, comment).unwrap();

    let out = rewritten(&input_bytes, &make_options());
    assert_eq!(read_archive_info(&out).archive_comment, comment);
}

#[test]
fn process_new_downgrades_zip64_when_possible() {
    let comment = b"was zip64";
    let mut zip = Vec::new();
    let off = append_lfh(&mut zip, b"test.txt", b"data");
    let cd_off = zip.len() as u64;
    let cd = make_cd_entry_raw(b"test.txt", &[], &[], 0, 4, 4, off as u32);
    zip.extend_from_slice(&cd);
    let cd_size = cd.len() as u64;
    let mut pos = zip.len() as u64;
    write_zip64_eocd(&mut zip, &mut pos, 1, cd_size, cd_off, comment).unwrap();
    assert!(read_archive_info(&zip).is_zip64);

    let out = rewritten(&zip, &make_options());
    let info = read_archive_info(&out);

    assert!(!info.is_zip64);
    assert_eq!(info.archive_comment, comment);
}

#[test]
fn fast_mode_rewrites_only_central_directory() {
    let kept_nfd = "e\u{301}.txt".as_bytes();
    let excluded = b"__MACOSX/ghost";
    let later = b"later.txt";

    let zip = create_zip(&[(kept_nfd, b""), (excluded, b""), (later, b"")]);
    let cd_offset = read_archive_info(&zip).cd_offset;

    let mut opts = make_options();
    opts.fast = true;
    let mut after = zip.clone();
    process_file(&mut after, &opts, &mut Vec::new()).unwrap();

    assert_eq!(&after[..cd_offset as usize], &zip[..cd_offset as usize]);

    let entries = cd_names_and_flags(&after);
    assert_eq!(entries.len(), 2);
    assert_eq!(entries[0].0, "é.txt".as_bytes());
    assert_ne!(entries[0].1 & BIT11, 0);
    assert_eq!(entries[1].0, later);
    assert_eq!(entries[1].1 & BIT11, 0);
}

#[test]
fn inplace_exclude_shifts_orphan_to_absorb_unabsorbed_gap() {
    let zip = create_zip(&[
        ("e\u{301}.txt".as_bytes(), b"rename me"),
        (b"__MACOSX/ghost.txt", b"junk"),
        (b"later.txt", b"keep later"),
    ]);
    let before_plans = read_plans(&zip);

    let renamed_before = before_plans
        .iter()
        .find(|p| p.orig_fname == "e\u{301}.txt".as_bytes())
        .unwrap();
    let carry_before_exclude = renamed_before.fname_delta();

    let excluded_spans: Vec<(u64, u64)> = before_plans
        .iter()
        .filter(|p| p.excluded)
        .map(|p| (p.lhf_offset, p.span_size))
        .collect();
    assert!(!excluded_spans.is_empty());
    assert!(carry_before_exclude > 0);
    let excluded_max = before_plans
        .iter()
        .filter(|p| p.excluded)
        .map(|p| p.lhf_offset)
        .max()
        .unwrap();
    let later_before = before_plans
        .iter()
        .find(|p| p.orig_fname == b"later.txt")
        .map(|p| p.lhf_offset)
        .unwrap();
    assert!(later_before > excluded_max);

    let mut after = zip.clone();
    process_file(&mut after, &make_options(), &mut Vec::new()).unwrap();
    let after_plans = read_plans(&after);

    assert!(after_plans.iter().all(|p| !p.excluded));

    let later_after = after_plans
        .iter()
        .find(|p| p.orig_fname == b"later.txt")
        .map(|p| p.lhf_offset)
        .unwrap();
    assert_eq!(later_after, later_before);

    for &(offset, _) in &excluded_spans {
        if offset as usize + 4 <= after.len() {
            assert_ne!(read_u32(&after, offset as usize), LOCAL_FILE_HEADER_SIG);
        }
    }

    let mut shifted_orphan_offset = None;
    for shift in 1..=carry_before_exclude {
        let candidate = excluded_spans[0].0 - shift;
        if read_u32(&after, candidate as usize) == LOCAL_FILE_HEADER_SIG {
            shifted_orphan_offset = Some(candidate);
            break;
        }
    }
    assert!(shifted_orphan_offset.is_some());
}

#[test]
fn inplace_carries_small_filename_delta_across_large_payload() {
    let large = vec![0x42; 11 * 1024 * 1024];
    let mut file = create_zip(&[
        ("e\u{301}.txt".as_bytes(), &large),
        (b"later.txt", b"later"),
    ]);

    process_file(&mut file, &make_options(), &mut Vec::new()).unwrap();

    let after_plans = read_plans(&file);
    assert!(after_plans
        .iter()
        .any(|p| p.orig_fname == "é.txt".as_bytes()));
    assert!(after_plans.iter().any(|p| p.orig_fname == b"later.txt"));
    let first = after_plans[0].lhf_offset + after_plans[0].lhf_header_size;
    assert_eq!(&file[first as usize..first as usize + large.len()], &large[..]);
}

#[test]
fn not_utf8_mode_preserves_bit11_flags() {
    let zip = create_simple_zip("hello.txt", b"hello\n");

    let mut opts = make_options();
    opts.not_utf8 = true;
    let out = rewritten(&zip, &opts);

    assert_eq!(read_first_entry_flags(&zip), read_first_entry_flags(&out));
}

#[test]
fn preserves_archive_comment_when_rewriting() {
    let comment = b"archive comment";
    let mut zip = create_simple_zip("hello.txt", b"hello\n");
    add_archive_comment(&mut zip, comment);
    assert_eq!(read_archive_info(&zip).archive_comment, comment);

    let out = rewritten(&zip, &make_options());
    assert_eq!(read_archive_info(&out).archive_comment, comment);
}

#[test]
fn preserves_symbolic_links() {
    let mut zip = create_zip(&[(b"link.txt", b"target.txt"), (b"target.txt", b"content")]);
    let cd = read_archive_info(&zip).cd_offset as usize;
    write_u32(&mut zip, cd + 38, 0xA1FF_0000);

    process_file(&mut zip, &make_options(), &mut Vec::new()).unwrap();

    let plans = read_plans(&zip);
    let link_plan = plans
        .iter()
        .find(|p| p.orig_fname == b"link.txt")
        .expect("link.txt not found");
    let external_attr = read_u32(&link_plan.cd_header, 38);
    assert_eq!(
        external_attr >> 28,
        0xA,
        "External attributes should indicate a symlink"
    );
}
