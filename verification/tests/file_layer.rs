use rsdb::file::{
    is_temp_name, BlockId, BlockNum, FileError, FileManager, IoErrorKind, Page, StoredFile,
    BLOCK_SIZE, I32_SIZE, MAX_FILE_BYTES, U64_SIZE,
};

fn fresh(dir: &str) -> FileManager {
    FileManager::new(dir, false, Vec::new()).expect("Failed to init file_manager")
}

fn io(kind: IoErrorKind) -> FileError {
    FileError::IoError(kind)
}

#[test]
fn set_and_get_i32_from_page() {
    let mut p1 = Page::new(BLOCK_SIZE);
    p1.set_i32(0, 64).unwrap();
    assert_eq!(p1.get_i32(0).unwrap(), 64);

    let mut p2 = Page::new(BLOCK_SIZE);
    p2.set_i32(16, 64).unwrap();
    assert_eq!(p2.get_i32(16).unwrap(), 64);
    assert_eq!(p2.get_i32(0).unwrap(), 0);
}

#[test]
fn set_and_get_bytes_from_page() {
    let mut p1 = Page::new(BLOCK_SIZE);
    p1.set_bytes(0, &[0, 0, 0, 4]).unwrap();
    assert_eq!(p1.get_bytes(0).unwrap(), &[0, 0, 0, 4]);

    let mut p2 = Page::new(BLOCK_SIZE);
    p2.set_bytes(16, &[0, 0, 0, 128]).unwrap();
    assert_eq!(p2.get_bytes(16).unwrap(), &[0, 0, 0, 128]);
    assert_eq!(p2.get_i32(0).unwrap(), 0);
}

#[test]
fn set_and_get_string_from_page() {
    let mut page = Page::new(4096);
    page.set_string(0, "abcdefghijklmn").unwrap();
    assert_eq!(page.get_string(0).unwrap(), "abcdefghijklmn");
}

#[test]
fn read_and_write_file() {
    let dirname = "__test_1/dir1";
    let filename = "testfile";

    let mut file_manager = fresh(dirname);
    let block = BlockId::new(filename, 0);
    let mut p = Page::new(BLOCK_SIZE);
    p.set_string(0, "sample text").unwrap();

    file_manager.write(&block, &mut p).unwrap();
    file_manager.read(&block, &mut p).unwrap();
    assert_eq!(p.get_string(0).unwrap(), "sample text");
}

#[test]
fn read_and_write_file_with_offset() {
    let dirname = "__test_2/dir2";
    let filename = "testfile";

    let mut fm = fresh(dirname);
    let block_id = BlockId::new(filename, 2);

    let mut p1 = Page::new(BLOCK_SIZE);
    let pos_1 = 88;
    p1.set_string(pos_1, "abcdefghijklm").unwrap();

    let size = Page::max_length("abcdefghijklm".len()) as u64;
    let pos_2 = pos_1 + size;
    p1.set_i32(pos_2, 345).unwrap();
    fm.write(&block_id, &mut p1).unwrap();

    let mut p2 = Page::new(BLOCK_SIZE);
    fm.read(&block_id, &mut p2).unwrap();
    assert_eq!(p2.get_string(pos_1).unwrap(), "abcdefghijklm");
    assert_eq!(p2.get_i32(pos_2).unwrap(), 345);
    assert_eq!(fm.length(filename).unwrap(), 3);
}

#[test]
fn constants_have_their_widths() {
    assert_eq!(BLOCK_SIZE, 4096);
    assert_eq!(I32_SIZE, 4);
    assert_eq!(U64_SIZE, 8);
    assert_eq!(MAX_FILE_BYTES, 2147483647);
}

#[test]
fn integers_are_stored_big_endian() {
    let mut p = Page::new(16);
    p.set_i32(0, 0x01020304).unwrap();
    p.set_i32(4, -2).unwrap();
    p.set_u64(8, 0x0102030405060708).unwrap();
    assert_eq!(
        p.contents().as_slice(),
        &[1, 2, 3, 4, 0xff, 0xff, 0xff, 0xfe, 1, 2, 3, 4, 5, 6, 7, 8]
    );
    assert_eq!(p.get_i32(0).unwrap(), 0x01020304);
    assert_eq!(p.get_i32(4).unwrap(), -2);
    assert_eq!(p.get_u64(8).unwrap(), 0x0102030405060708);
}

#[test]
fn integer_round_trips_at_the_limits() {
    let mut p = Page::new(BLOCK_SIZE);
    for v in [i32::MIN, -1, 0, 1, 64, i32::MAX] {
        for off in [0u64, 1, 17, 4092] {
            p.set_i32(off, v).unwrap();
            assert_eq!(p.get_i32(off).unwrap(), v);
        }
    }
    for v in [0u64, 1, 0xffff_ffff, 0x1_0000_0000, u64::MAX] {
        for off in [0u64, 3, 4088] {
            p.set_u64(off, v).unwrap();
            assert_eq!(p.get_u64(off).unwrap(), v);
        }
    }
}

#[test]
fn bytes_are_stored_behind_their_length() {
    let mut p = Page::new(12);
    p.set_bytes(2, &[9, 8, 7]).unwrap();
    assert_eq!(p.contents().as_slice(), &[0, 0, 0, 0, 0, 3, 9, 8, 7, 0, 0, 0]);
    assert_eq!(p.get_bytes(2).unwrap(), vec![9, 8, 7]);
    p.set_bytes(8, &[]).unwrap();
    assert_eq!(p.get_bytes(8).unwrap(), Vec::<u8>::new());
}

#[test]
fn string_round_trips_beyond_ascii() {
    let mut p = Page::new(BLOCK_SIZE);
    let s = "gr\u{fc}\u{df}e \u{4e16}\u{754c} \u{1f600}";
    p.set_string(100, s).unwrap();
    assert_eq!(p.get_string(100).unwrap(), s);
    assert_eq!(p.get_i32(100).unwrap(), s.len() as i32);
    p.set_string(0, "").unwrap();
    assert_eq!(p.get_string(0).unwrap(), "");
}

#[test]
fn max_length_adds_the_length_prefix() {
    assert_eq!(Page::max_length(0), 4);
    assert_eq!(Page::max_length(13), 17);
    assert_eq!(Page::max_length("abcdefghijklm".len()), 17);
}

#[test]
fn writes_leave_disjoint_ranges_alone() {
    let mut p = Page::new(64);
    p.set_i32(0, 11).unwrap();
    p.set_string(8, "left").unwrap();
    p.set_u64(40, 77).unwrap();
    p.set_bytes(16, &[1, 2, 3, 4, 5]).unwrap();
    assert_eq!(p.get_i32(0).unwrap(), 11);
    assert_eq!(p.get_string(8).unwrap(), "left");
    assert_eq!(p.get_u64(40).unwrap(), 77);
    p.set_i32(4, -5).unwrap();
    assert_eq!(p.get_i32(0).unwrap(), 11);
    assert_eq!(p.get_string(8).unwrap(), "left");
    assert_eq!(p.get_bytes(16).unwrap(), vec![1, 2, 3, 4, 5]);
}

#[test]
fn page_access_beyond_the_page_is_refused() {
    let mut p = Page::new(8);
    assert_eq!(p.get_i32(5), Err(io(IoErrorKind::OutOfBounds)));
    assert_eq!(p.get_i32(u64::MAX), Err(io(IoErrorKind::OutOfBounds)));
    assert_eq!(p.get_u64(1), Err(io(IoErrorKind::OutOfBounds)));
    assert_eq!(p.set_i32(5, 1), Err(io(IoErrorKind::OutOfBounds)));
    assert_eq!(p.set_u64(1, 1), Err(io(IoErrorKind::OutOfBounds)));
    assert_eq!(p.set_bytes(0, &[1, 2, 3, 4, 5]), Err(io(IoErrorKind::OutOfBounds)));
    assert_eq!(p.set_string(4, "a"), Err(io(IoErrorKind::OutOfBounds)));
    assert_eq!(p.contents().as_slice(), &[0u8; 8]);
    assert!(p.get_i32(4).is_ok());
    assert!(p.get_u64(0).is_ok());
    assert!(p.set_bytes(0, &[1, 2, 3, 4]).is_ok());

    let empty = Page::new(0);
    assert_eq!(empty.get_i32(0), Err(io(IoErrorKind::OutOfBounds)));
}

#[test]
fn stored_lengths_are_checked() {
    let mut p = Page::new(16);
    p.set_i32(0, -1).unwrap();
    assert_eq!(p.get_bytes(0), Err(io(IoErrorKind::BadLength)));
    assert_eq!(p.get_string(0), Err(io(IoErrorKind::BadLength)));
    p.set_i32(0, 13).unwrap();
    assert_eq!(p.get_bytes(0), Err(io(IoErrorKind::OutOfBounds)));
    p.set_i32(0, 12).unwrap();
    assert_eq!(p.get_bytes(0).unwrap().len(), 12);
    assert_eq!(p.get_bytes(14), Err(io(IoErrorKind::OutOfBounds)));
}

#[test]
fn strings_must_be_utf8() {
    let mut p = Page::new(16);
    p.set_bytes(0, &[0xff, 0xfe]).unwrap();
    assert_eq!(p.get_string(0), Err(io(IoErrorKind::InvalidUtf8)));
    p.set_bytes(0, &[0xc3]).unwrap();
    assert_eq!(p.get_string(0), Err(io(IoErrorKind::InvalidUtf8)));
    p.set_bytes(0, &[0xc3, 0xbc]).unwrap();
    assert_eq!(p.get_string(0).unwrap(), "\u{fc}");
    p.set_bytes(0, &[b'o', b'k']).unwrap();
    assert_eq!(p.get_string(0).unwrap(), "ok");
}

#[test]
fn page_from_bytes_keeps_them() {
    let mut p = Page::from(vec![0, 0, 0, 2, b'h', b'i']);
    assert_eq!(p.get_string(0).unwrap(), "hi");
    assert_eq!(p.contents().len(), 6);
    p.contents().push(7);
    assert_eq!(p.contents().as_slice(), &[0, 0, 0, 2, b'h', b'i', 7]);
}

#[test]
fn block_id_holds_its_parts() {
    let b = BlockId::new("testfile", 2);
    assert_eq!(b.filename(), "testfile");
    assert_eq!(b.number(), 2);
    assert_eq!(BlockNum(7).as_i32(), 7);
    assert_eq!(b.clone(), b);
    assert_eq!(b, BlockId::new("testfile", 2));
    assert_ne!(b, BlockId::new("testfile", 3));
    assert_ne!(b, BlockId::new("testfil", 2));
    assert_ne!(b, BlockId::new("testfilf", 2));
}

#[test]
fn temporary_names_begin_with_temp() {
    assert!(is_temp_name("temp"));
    assert!(is_temp_name("temp1"));
    assert!(is_temp_name("temporary.tbl"));
    assert!(!is_temp_name("tem"));
    assert!(!is_temp_name(""));
    assert!(!is_temp_name("Temp"));
    assert!(!is_temp_name("atemp"));
    assert!(!is_temp_name("t\u{e9}mp"));
}

#[test]
fn opening_sweeps_temporary_entries() {
    let entries = vec![
        StoredFile { name: "tbl".to_string(), data: vec![1; 4096] },
        StoredFile { name: "temp7".to_string(), data: vec![2; 4096] },
        StoredFile { name: "log".to_string(), data: vec![3; 8192] },
    ];
    let mut fm = FileManager::new("db", true, entries).unwrap();
    assert!(!fm.is_new());
    assert_eq!(fm.db_dir(), "db");
    assert_eq!(fm.block_size(), 4096);
    let mut names: Vec<String> = fm.files().iter().map(|f| f.name.clone()).collect();
    names.sort();
    assert_eq!(names, vec!["log".to_string(), "tbl".to_string()]);
    assert_eq!(fm.length("tbl").unwrap(), 1);
    assert_eq!(fm.length("log").unwrap(), 2);
    assert_eq!(fm.length("temp7").unwrap(), 0);
    assert_eq!(fm.get_file("log").unwrap().data, vec![3; 8192]);
}

#[test]
fn opening_keeps_the_last_of_two_entries_of_one_name() {
    let entries = vec![
        StoredFile { name: "a".to_string(), data: vec![1; 10] },
        StoredFile { name: "a".to_string(), data: vec![2; 20] },
    ];
    let mut fm = FileManager::new("db", true, entries).unwrap();
    assert_eq!(fm.files().len(), 1);
    assert_eq!(fm.get_file("a").unwrap().data, vec![2; 20]);
}

#[test]
fn a_new_directory_makes_a_new_manager() {
    let mut fm = fresh("fresh");
    assert!(fm.is_new());
    assert_eq!(fm.files().len(), 0);
    assert_eq!(fm.length("anything").unwrap(), 0);
    assert_eq!(fm.files().len(), 1);
    assert_eq!(fm.get_file("anything").unwrap().name, "anything");
    assert_eq!(fm.get_file("other").unwrap().data.len(), 0);
    assert_eq!(fm.files().len(), 2);
}

#[test]
fn append_grows_the_length_by_one() {
    let mut fm = fresh("db");
    for k in 0..5 {
        assert_eq!(fm.length("f").unwrap(), k);
        let block = fm.append("f").unwrap();
        assert_eq!(block, BlockId::new("f", k));
        assert_eq!(fm.length("f").unwrap(), k + 1);
    }
    assert_eq!(fm.get_file("f").unwrap().data, vec![0u8; 5 * 4096]);
}

#[test]
fn append_completes_a_partial_block() {
    let entries = vec![StoredFile { name: "f".to_string(), data: vec![5; 4100] }];
    let mut fm = FileManager::new("db", true, entries).unwrap();
    assert_eq!(fm.length("f").unwrap(), 1);
    assert_eq!(fm.append("f").unwrap(), BlockId::new("f", 1));
    assert_eq!(fm.length("f").unwrap(), 2);
    let data = &fm.get_file("f").unwrap().data;
    assert_eq!(data.len(), 8192);
    assert_eq!(&data[..4100], vec![5u8; 4100].as_slice());
    assert_eq!(&data[4100..], vec![0u8; 4092].as_slice());
}

#[test]
fn write_behind_the_end_fills_with_zeros() {
    let mut fm = fresh("db");
    let mut p = Page::new(BLOCK_SIZE);
    p.set_i32(0, 42).unwrap();
    fm.write(&BlockId::new("f", 2), &p).unwrap();
    assert_eq!(fm.length("f").unwrap(), 3);
    let mut q = Page::new(BLOCK_SIZE);
    fm.read(&BlockId::new("f", 0), &mut q).unwrap();
    assert_eq!(q.contents().as_slice(), vec![0u8; 4096].as_slice());
    fm.read(&BlockId::new("f", 1), &mut q).unwrap();
    assert_eq!(q.contents().as_slice(), vec![0u8; 4096].as_slice());
    fm.read(&BlockId::new("f", 2), &mut q).unwrap();
    assert_eq!(q.get_i32(0).unwrap(), 42);
}

#[test]
fn write_then_read_gives_the_page_and_keeps_other_blocks() {
    let mut fm = fresh("db");
    let mut a = Page::new(BLOCK_SIZE);
    let mut b = Page::new(BLOCK_SIZE);
    a.set_string(0, "first").unwrap();
    b.set_string(0, "second").unwrap();
    fm.write(&BlockId::new("f", 0), &a).unwrap();
    fm.write(&BlockId::new("f", 1), &b).unwrap();
    fm.write(&BlockId::new("g", 0), &b).unwrap();
    a.set_string(0, "changed").unwrap();
    fm.write(&BlockId::new("f", 0), &a).unwrap();
    let mut q = Page::new(BLOCK_SIZE);
    fm.read(&BlockId::new("f", 0), &mut q).unwrap();
    assert_eq!(q.contents().as_slice(), a.contents().as_slice());
    fm.read(&BlockId::new("f", 1), &mut q).unwrap();
    assert_eq!(q.get_string(0).unwrap(), "second");
    fm.read(&BlockId::new("g", 0), &mut q).unwrap();
    assert_eq!(q.get_string(0).unwrap(), "second");
    assert_eq!(fm.length("f").unwrap(), 2);
}

#[test]
fn a_short_read_fails_and_keeps_the_page() {
    let entries = vec![StoredFile { name: "f".to_string(), data: vec![5; 4096 + 4095] }];
    let mut fm = FileManager::new("db", true, entries).unwrap();
    let mut p = Page::new(BLOCK_SIZE);
    p.set_i32(0, 99).unwrap();
    assert_eq!(fm.read(&BlockId::new("f", 1), &mut p), Err(io(IoErrorKind::ShortRead)));
    assert_eq!(fm.read(&BlockId::new("f", 7), &mut p), Err(io(IoErrorKind::ShortRead)));
    assert_eq!(fm.read(&BlockId::new("none", 0), &mut p), Err(io(IoErrorKind::ShortRead)));
    assert_eq!(p.get_i32(0).unwrap(), 99);
    assert_eq!(fm.length("none").unwrap(), 0);
    assert!(fm.read(&BlockId::new("f", 0), &mut p).is_ok());
    assert_eq!(p.contents().as_slice(), vec![5u8; 4096].as_slice());
}

#[test]
fn bad_blocks_and_pages_are_refused() {
    let mut fm = fresh("db");
    let mut p = Page::new(BLOCK_SIZE);
    let mut small = Page::new(100);
    fm.append("f").unwrap();
    assert_eq!(fm.read(&BlockId::new("f", -1), &mut p), Err(io(IoErrorKind::BadBlock)));
    assert_eq!(fm.write(&BlockId::new("f", -1), &p), Err(io(IoErrorKind::BadBlock)));
    assert_eq!(fm.read(&BlockId::new("f", 0), &mut small), Err(io(IoErrorKind::PageSize)));
    assert_eq!(fm.write(&BlockId::new("f", 0), &small), Err(io(IoErrorKind::PageSize)));
    assert_eq!(small.contents().len(), 100);
    assert_eq!(fm.length("f").unwrap(), 1);
}

#[test]
fn files_do_not_grow_beyond_their_limit() {
    let mut fm = fresh("db");
    let p = Page::new(BLOCK_SIZE);
    let last = (MAX_FILE_BYTES / 4096) as i32;
    assert_eq!(fm.write(&BlockId::new("f", last), &p), Err(io(IoErrorKind::FileTooLarge)));
    assert_eq!(fm.write(&BlockId::new("f", i32::MAX), &p), Err(io(IoErrorKind::FileTooLarge)));
    assert_eq!(fm.length("f").unwrap(), 0);
    let huge = vec![StoredFile { name: "big".to_string(), data: vec![0; MAX_FILE_BYTES - 4000] }];
    let mut fm = FileManager::new("db", true, huge).unwrap();
    assert_eq!(fm.append("big"), Err(io(IoErrorKind::FileTooLarge)));
    assert_eq!(fm.length("big").unwrap(), last);
}

#[test]
fn oversized_entries_are_refused_unless_swept() {
    let data = vec![0u8; MAX_FILE_BYTES + 1];
    let swept = vec![StoredFile { name: "temp_big".to_string(), data }];
    let fm = FileManager::new("db", true, swept).unwrap();
    assert_eq!(fm.files().len(), 0);
    let data = vec![0u8; MAX_FILE_BYTES + 1];
    let kept = vec![StoredFile { name: "big".to_string(), data }];
    assert_eq!(FileManager::new("db", true, kept).err(), Some(io(IoErrorKind::FileTooLarge)));
}
