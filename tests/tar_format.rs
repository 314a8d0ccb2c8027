use archive_library::error::tar_error::{TarError, TarErrorKind};
use archive_library::error::{Error, ErrorType};
use archive_library::tar::tar_record::{FileInfo, TarRecord, TypeFlag};
use archive_library::tar::{Tar, TarMode};
use archive_library::{is_hidden, padding_for, BLOCK_SIZE};

fn info(is_dir: bool) -> FileInfo {
    FileInfo {
        is_dir,
        mode: 0o644,
        user_id: 1000,
        group_id: 1000,
        modified_time: 1600000000,
        user_name: b"user".to_vec(),
        group_name: b"staff".to_vec(),
    }
}

fn file_record(path: &[u8], root: &[u8], data: &[u8]) -> TarRecord {
    TarRecord::new(path, root, info(false), data.to_vec())
}

fn dir_record(path: &[u8], root: &[u8]) -> TarRecord {
    let mut i = info(true);
    i.mode = 0o755;
    TarRecord::new(path, root, i, Vec::new())
}

fn archive_of(records: Vec<TarRecord>) -> Vec<u8> {
    Tar::new(records, TarMode::Create).write_tar().unwrap()
}

fn header_of(record: &TarRecord) -> Vec<u8> {
    let mut out = Vec::new();
    record.write_header(&mut out).unwrap();
    out
}

/// Rewrites the checksum field of a header after a deliberate change.
fn reseal(h: &mut [u8]) {
    for b in &mut h[148..156] {
        *b = b' ';
    }
    let sum: u64 = h.iter().map(|&b| b as u64).sum();
    let field = format!("{:06o}\0 ", sum);
    h[148..156].copy_from_slice(field.as_bytes());
}

fn tar_kind(e: &Error) -> TarErrorKind {
    match e.error_type() {
        ErrorType::Tar(t) => t.kind.clone(),
    }
}

#[test]
fn single_file_archive_layout() {
    let bytes = archive_of(vec![file_record(b"dir/a.txt", b"dir", b"test")]);
    assert_eq!(bytes.len(), 4 * BLOCK_SIZE);
    assert_eq!(&bytes[0..6], b"a.txt\0");
    assert_eq!(&bytes[124..136], b"00000000004 ");
    assert_eq!(&bytes[512..516], b"test");
    assert!(bytes[516..1024].iter().all(|&b| b == 0));
    assert!(bytes[1024..].iter().all(|&b| b == 0));
    let tar = Tar::extract(&bytes).unwrap();
    assert_eq!(tar.files().len(), 1);
    assert_eq!(tar.files()[0].name(), b"a.txt");
    assert_eq!(tar.files()[0].data(), b"test");
}

#[test]
fn header_fields_pinned() {
    let h = header_of(&file_record(b"a.txt", b"", b"test"));
    assert_eq!(h.len(), 512);
    assert_eq!(&h[100..108], b"000644 \0");
    assert_eq!(&h[108..116], b"001750 \0");
    assert_eq!(&h[116..124], b"001750 \0");
    assert_eq!(&h[124..136], b"00000000004 ");
    assert_eq!(&h[136..148], b"13727410000 ");
    assert_eq!(&h[148..156], b"012146\0 ");
    assert_eq!(h[156], b'0');
    assert!(h[157..257].iter().all(|&b| b == 0));
    assert_eq!(&h[257..263], b"ustar\0");
    assert_eq!(&h[263..265], b"00");
    assert_eq!(&h[265..270], b"user\0");
    assert_eq!(&h[297..303], b"staff\0");
    assert_eq!(&h[329..345], b"000000 \0000000 \0");
    assert!(h[345..].iter().all(|&b| b == 0));
}

#[test]
fn checksum_is_sum_with_blank_field() {
    let h = header_of(&file_record(b"some/long/name.bin", b"some", &[7u8; 1000]));
    let mut blank = h.clone();
    for b in &mut blank[148..156] {
        *b = b' ';
    }
    let sum: u64 = blank.iter().map(|&b| b as u64).sum();
    assert_eq!(&h[148..156], format!("{:06o}\0 ", sum).as_bytes());
}

#[test]
fn directory_with_file_round_trip() {
    let records = vec![
        dir_record(b"/home/u/dir", b"/home/u"),
        file_record(b"/home/u/dir/a.txt", b"/home/u", b"test"),
        dir_record(b"/home/u/dir/sub", b"/home/u"),
        file_record(b"/home/u/dir/sub/b.bin", b"/home/u", &[0xAB; 1300]),
    ];
    let bytes = archive_of(records);
    assert_eq!(bytes.len(), 512 + (512 + 512) + 512 + (512 + 1536) + 1024);
    let tar = Tar::extract(&bytes).unwrap();
    let files = tar.files();
    assert_eq!(files.len(), 4);
    assert_eq!(files[0].name(), b"dir/");
    assert_eq!(files[0].type_flag(), TypeFlag::Directory);
    assert_eq!(files[0].size(), 0);
    assert_eq!(files[0].mode(), 0o755);
    assert_eq!(files[1].name(), b"dir/a.txt");
    assert_eq!(files[1].type_flag(), TypeFlag::ARegFile);
    assert_eq!(files[1].data(), b"test");
    assert_eq!(files[1].modified_time(), 1600000000);
    assert_eq!(files[1].user_id(), 1000);
    assert_eq!(files[1].group_id(), 1000);
    assert_eq!(files[1].user_name(), b"user");
    assert_eq!(files[1].group_name(), b"staff");
    assert_eq!(files[2].name(), b"dir/sub/");
    assert_eq!(files[3].name(), b"dir/sub/b.bin");
    assert_eq!(files[3].data(), &[0xAB; 1300][..]);
    assert_eq!(files[3].size(), 1300);
    let again = Tar::new(
        files
            .iter()
            .map(|f| file_record_like(f))
            .collect(),
        TarMode::Create,
    )
    .write_tar()
    .unwrap();
    assert_eq!(again, bytes);
}

fn file_record_like(f: &TarRecord) -> TarRecord {
    let is_dir = f.type_flag() == TypeFlag::Directory;
    let mut name = f.name().to_vec();
    if is_dir {
        name.pop();
    }
    TarRecord::new(
        &name,
        b"",
        FileInfo {
            is_dir,
            mode: f.mode(),
            user_id: f.user_id(),
            group_id: f.group_id(),
            modified_time: f.modified_time(),
            user_name: f.user_name().to_vec(),
            group_name: f.group_name().to_vec(),
        },
        f.data().to_vec(),
    )
}

#[test]
fn every_entry_is_block_aligned() {
    for len in [0usize, 1, 4, 511, 512, 513, 1024, 1500] {
        let record = file_record(b"f", b"", &vec![1u8; len]);
        let mut out = Vec::new();
        record.write_record(&mut out).unwrap();
        assert_eq!(out.len() % 512, 0, "length {}", len);
        assert_eq!(out.len(), 512 + len.div_ceil(512) * 512);
    }
}

#[test]
fn padding_lengths() {
    assert_eq!(padding_for(0), 0);
    assert_eq!(padding_for(4), 508);
    assert_eq!(padding_for(512), 0);
    assert_eq!(padding_for(513), 511);
}

#[test]
fn archive_ends_with_two_zero_blocks() {
    let bytes = archive_of(vec![file_record(b"x", b"", b"abc")]);
    let n = bytes.len();
    assert_eq!(n % 512, 0);
    assert!(bytes[n - 1024..].iter().all(|&b| b == 0));
    assert!(bytes[n - 1024 - 512..n - 1024].iter().any(|&b| b != 0));
    let empty = archive_of(Vec::new());
    assert_eq!(empty, vec![0u8; 1024]);
}

#[test]
fn empty_file_has_no_payload_block() {
    let bytes = archive_of(vec![file_record(b"empty", b"", b"")]);
    assert_eq!(bytes.len(), 512 + 1024);
    assert_eq!(&bytes[124..136], b"00000000000 ");
    let tar = Tar::extract(&bytes).unwrap();
    assert_eq!(tar.files()[0].size(), 0);
    assert!(tar.files()[0].data().is_empty());
}

#[test]
fn encoded_header_decodes() {
    let record = file_record(b"a.txt", b"", b"test");
    let h = header_of(&record);
    let back = TarRecord::read_header(&h).unwrap();
    assert_eq!(back.name(), b"a.txt");
    assert_eq!(back.mode(), 0o644);
    assert_eq!(back.size(), 4);
    assert!(back.data().is_empty());
}

#[test]
fn flipped_byte_is_checksum_mismatch() {
    let h = header_of(&file_record(b"a.txt", b"", b"test"));
    for i in [0usize, 50, 100, 110, 125, 140, 156, 200, 263, 270, 300, 400, 511] {
        let mut c = h.clone();
        c[i] ^= 0x01;
        let err = TarRecord::read_header(&c).unwrap_err();
        assert_eq!(err.kind, TarErrorKind::InvalidChecksum, "byte {}", i);
    }
}

#[test]
fn bad_magic_is_invalid_format() {
    let h = header_of(&file_record(b"a.txt", b"", b"test"));
    let mut c = h.clone();
    c[257..263].copy_from_slice(b"gnutar");
    let err = TarRecord::read_header(&c).unwrap_err();
    assert_eq!(err.kind, TarErrorKind::InvalidMagicValue);
    let mut c = h.clone();
    c[257..263].copy_from_slice(&[0; 6]);
    assert_eq!(TarRecord::read_header(&c).unwrap_err().kind, TarErrorKind::InvalidMagicValue);
}

#[test]
fn zero_block_is_empty_header() {
    let err = TarRecord::read_header(&[0u8; 512]).unwrap_err();
    assert_eq!(err.kind, TarErrorKind::EmptyHeaderBlock);
}

#[test]
fn non_octal_field_is_rejected() {
    let mut h = header_of(&file_record(b"a.txt", b"", b"test"));
    h[101] = b'8';
    reseal(&mut h);
    assert_eq!(TarRecord::read_header(&h).unwrap_err().kind, TarErrorKind::InvalidNumericField);
}

#[test]
fn unknown_type_flag_is_rejected() {
    let mut h = header_of(&file_record(b"a.txt", b"", b"test"));
    h[156] = b'x';
    reseal(&mut h);
    assert_eq!(TarRecord::read_header(&h).unwrap_err().kind, TarErrorKind::InvalidTypeFlag);
    h[156] = b'1';
    reseal(&mut h);
    assert_eq!(TarRecord::read_header(&h).unwrap().type_flag(), TypeFlag::Link);
}

#[test]
fn truncated_archive_is_rejected() {
    let bytes = archive_of(vec![file_record(b"a.txt", b"", &[5u8; 700])]);
    let err = Tar::extract(&bytes[..1000]).err().unwrap();
    assert_eq!(tar_kind(&err), TarErrorKind::TruncatedArchive);
    let err = Tar::extract(&bytes[..300]).err().unwrap();
    assert_eq!(tar_kind(&err), TarErrorKind::TruncatedArchive);
    let err = Tar::extract(&bytes[..bytes.len() - 512]).err().unwrap();
    assert_eq!(tar_kind(&err), TarErrorKind::TruncatedArchive);
}

#[test]
fn corrupt_header_aborts_extraction() {
    let mut bytes = archive_of(vec![
        file_record(b"a", b"", b"one"),
        file_record(b"b", b"", b"two"),
    ]);
    bytes[1024 + 10] = b'!';
    let err = Tar::extract(&bytes).err().unwrap();
    assert_eq!(tar_kind(&err), TarErrorKind::InvalidChecksum);
}

#[test]
fn single_zero_block_does_not_end_archive() {
    let first = archive_of(vec![file_record(b"a", b"", b"one")]);
    let second = archive_of(vec![file_record(b"b", b"", b"two")]);
    let mut bytes = first[..1024].to_vec();
    bytes.extend_from_slice(&[0u8; 512]);
    bytes.extend_from_slice(&second);
    bytes.extend_from_slice(b"trailing bytes after the end marker");
    let tar = Tar::extract(&bytes).unwrap();
    assert_eq!(tar.files().len(), 2);
    assert_eq!(tar.files()[1].name(), b"b");
    assert_eq!(tar.files()[1].data(), b"two");
}

#[test]
fn oversized_values_are_rejected() {
    let long = vec![b'n'; 101];
    let record = file_record(&long, b"", b"x");
    let mut out = vec![9u8];
    let err = record.write_record(&mut out).unwrap_err();
    assert_eq!(err.kind, TarErrorKind::EncodingOverflow);
    assert_eq!(out, vec![9u8]);
    let exact = vec![b'n'; 100];
    let tar = Tar::extract(&archive_of(vec![file_record(&exact, b"", b"x")])).unwrap();
    assert_eq!(tar.files()[0].name(), &exact[..]);

    let mut i = info(false);
    i.modified_time = -1;
    let record = TarRecord::new(b"f", b"", i, Vec::new());
    let err = Tar::new(vec![record], TarMode::Create).write_tar().err().unwrap();
    assert_eq!(tar_kind(&err), TarErrorKind::EncodingOverflow);

    let mut i = info(false);
    i.user_id = 0o1000000;
    let record = TarRecord::new(b"f", b"", i, Vec::new());
    assert_eq!(record.write_record(&mut Vec::new()).unwrap_err().kind, TarErrorKind::EncodingOverflow);

    let mut i = info(false);
    i.user_name = vec![b'u'; 33];
    let record = TarRecord::new(b"f", b"", i, Vec::new());
    assert_eq!(record.write_record(&mut Vec::new()).unwrap_err().kind, TarErrorKind::EncodingOverflow);
}

#[test]
fn names_relative_to_root() {
    assert_eq!(file_record(b"dir/a.txt", b"dir", b"").name(), b"a.txt");
    assert_eq!(file_record(b"a.txt", b"", b"").name(), b"a.txt");
    assert_eq!(file_record(b"/a.txt", b"/", b"").name(), b"a.txt");
    assert_eq!(dir_record(b"top/d", b"top").name(), b"d/");
    assert_eq!(dir_record(b"d", b"").name(), b"d/");
}

#[test]
fn mode_is_masked_and_directories_carry_no_content() {
    let mut i = info(true);
    i.mode = 0o40755;
    let record = TarRecord::new(b"d", b"", i, b"ignored".to_vec());
    assert_eq!(record.mode(), 0o755);
    assert_eq!(record.size(), 0);
    assert!(record.data().is_empty());
    assert_eq!(record.type_flag(), TypeFlag::Directory);
    let mut i = info(false);
    i.mode = 0o106755;
    assert_eq!(TarRecord::new(b"f", b"", i, Vec::new()).mode(), 0o6755);
}

#[test]
fn extract_input_checks() {
    assert_eq!(
        Tar::check_extract_input(true, Some(b"tar")).unwrap_err().kind,
        TarErrorKind::InvalidFormatDirectory
    );
    assert_eq!(
        Tar::check_extract_input(false, None).unwrap_err().kind,
        TarErrorKind::InvalidFormatMissingExtension
    );
    assert_eq!(
        Tar::check_extract_input(false, Some(b"zip")).unwrap_err().kind,
        TarErrorKind::InvalidFormatWrongExtension
    );
    assert_eq!(
        Tar::check_extract_input(false, Some(b"tarx")).unwrap_err().kind,
        TarErrorKind::InvalidFormatWrongExtension
    );
    assert!(Tar::check_extract_input(false, Some(b"tar")).is_ok());
}

#[test]
fn hidden_names() {
    assert!(is_hidden(b".git"));
    assert!(!is_hidden(b"src"));
    assert!(!is_hidden(b""));
}

#[test]
fn errors_wrap_tar_errors() {
    let t = TarError::new(TarErrorKind::InvalidChecksum, "bad sum");
    assert_eq!(t.kind, TarErrorKind::InvalidChecksum);
    assert_eq!(t.message, "bad sum");
    let e = Error::new(ErrorType::Tar(t.clone()));
    assert_eq!(tar_kind(&e), TarErrorKind::InvalidChecksum);
    let e: Error = Error::from(t);
    assert_eq!(tar_kind(&e), TarErrorKind::InvalidChecksum);
    let io = TarError::new(TarErrorKind::IOError("disk full".to_string()), "write failed");
    assert_eq!(io.kind, TarErrorKind::IOError("disk full".to_string()));
}

#[test]
fn standard_reader_layout_is_met() {
    // Every header block carries the ustar magic and version at their fixed offsets,
    // and every payload starts right after its header.
    let bytes = archive_of(vec![
        file_record(b"a", b"", &[1u8; 600]),
        file_record(b"b", b"", b"xyz"),
    ]);
    assert_eq!(&bytes[257..265], b"ustar\000");
    assert_eq!(&bytes[512..1112], &[1u8; 600][..]);
    assert_eq!(&bytes[1536 + 257..1536 + 265], b"ustar\000");
    assert_eq!(&bytes[2048..2051], b"xyz");
}

#[test]
fn long_name_uses_prefix_field() {
    let mut path = vec![b'a'; 60];
    path.push(b'/');
    path.extend_from_slice(&[b'b'; 80]);
    let bytes = archive_of(vec![file_record(&path, b"", b"data")]);
    assert_eq!(&bytes[0..80], &[b'b'; 80][..]);
    assert_eq!(bytes[80], 0);
    assert_eq!(&bytes[345..405], &[b'a'; 60][..]);
    assert!(bytes[405..512].iter().all(|&b| b == 0));
    let tar = Tar::extract(&bytes).unwrap();
    assert_eq!(tar.files()[0].name(), &path[..]);
}

#[test]
fn long_name_cut_at_first_fitting_separator() {
    // Three separators: the first leaves more than 100 bytes after it, the second is
    // the first one that fits.
    let mut path = vec![b'x'; 10];
    path.push(b'/');
    path.extend_from_slice(&[b'y'; 100]);
    path.push(b'/');
    path.extend_from_slice(&[b'z'; 20]);
    path.push(b'/');
    path.extend_from_slice(&[b'w'; 5]);
    let record = file_record(&path, b"", b"");
    let h = header_of(&record);
    let mut expected_name = vec![b'z'; 20];
    expected_name.push(b'/');
    expected_name.extend_from_slice(&[b'w'; 5]);
    assert_eq!(&h[0..26], &expected_name[..]);
    assert_eq!(&h[345..356], &path[..11]);
    assert_eq!(&h[345..456], &path[..111]);
    assert_eq!(h[456], 0);
    let back = TarRecord::read_header(&h).unwrap();
    assert_eq!(back.name(), &path[..]);
}

#[test]
fn long_directory_name_round_trip() {
    let mut path = vec![b'd'; 120];
    path.push(b'/');
    path.extend_from_slice(&[b'e'; 10]);
    let bytes = archive_of(vec![dir_record(&path, b"")]);
    let tar = Tar::extract(&bytes).unwrap();
    let mut expected = path.clone();
    expected.push(b'/');
    assert_eq!(tar.files()[0].name(), &expected[..]);
    assert_eq!(tar.files()[0].type_flag(), TypeFlag::Directory);
}

#[test]
fn name_that_cannot_be_cut_is_rejected() {
    let mut path = vec![b'p'; 156];
    path.push(b'/');
    path.extend_from_slice(&[b'q'; 10]);
    let record = file_record(&path, b"", b"");
    assert_eq!(record.write_record(&mut Vec::new()).unwrap_err().kind, TarErrorKind::EncodingOverflow);
    let mut path = vec![b'p'; 10];
    path.push(b'/');
    path.extend_from_slice(&[b'q'; 101]);
    let record = file_record(&path, b"", b"");
    assert_eq!(record.write_record(&mut Vec::new()).unwrap_err().kind, TarErrorKind::EncodingOverflow);
}
