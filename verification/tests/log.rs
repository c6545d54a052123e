use rsdb::file::{
    BlockId, FileError, FileManager, IoErrorKind, Page, StoredFile, BLOCK_SIZE, I32_SIZE,
};
use rsdb::log::{LogIterator, LogManager};

fn io(kind: IoErrorKind) -> FileError {
    FileError::IoError(kind)
}

fn fresh() -> FileManager {
    FileManager::new("logdir", false, Vec::new()).unwrap()
}

fn create_log_record(s: String, len: i32) -> Vec<u8> {
    let npos = Page::max_length(s.len());
    let mut p = Page::new(npos + I32_SIZE as i32);
    p.set_string(0, &s).unwrap();
    p.set_i32(npos as u64, len).unwrap();
    p.contents().to_vec()
}

fn read_all(lm: &mut LogManager, fm: &mut FileManager) -> Vec<Vec<u8>> {
    let mut it = lm.iterator(fm).unwrap();
    let mut out = Vec::new();
    while let Some(rec) = it.next(fm).unwrap() {
        out.push(rec);
    }
    assert!(!it.has_next(fm));
    assert_eq!(it.next(fm).unwrap(), None);
    out
}

fn block_of(fm: &mut FileManager, name: &str, k: i32) -> Page {
    let mut p = Page::new(BLOCK_SIZE);
    fm.read(&BlockId::new(name, k), &mut p).unwrap();
    p
}

#[test]
fn log_manager_operations() {
    let filename = "testfile";
    let mut fm = FileManager::new("__test_3/dir3", false, Vec::new()).unwrap();
    let mut lm = LogManager::new(&mut fm, filename.to_string()).unwrap();
    println!("creating records: ");
    for i in 0..35 {
        let rec = create_log_record(format!("record{}", i), i);
        lm.append(&mut fm, rec).unwrap();
    }

    let mut it = lm.iterator(&mut fm).unwrap();
    let mut seen = Vec::new();
    while let Some(rec) = it.next(&mut fm).unwrap() {
        let page = Page::from(rec);
        let s = page.get_string(0).unwrap();
        let npos = Page::max_length(s.len());
        let val = page.get_i32(npos as u64).unwrap();
        assert_eq!(s.to_string(), format!("record{}", val).to_string());
        seen.push((s, val));
    }
    let expected: Vec<(String, i32)> = (0..35).rev().map(|i| (format!("record{}", i), i)).collect();
    assert_eq!(seen, expected);
}

#[test]
fn a_fresh_log_has_one_empty_block() {
    let mut fm = fresh();
    let mut lm = LogManager::new(&mut fm, "log".to_string()).unwrap();
    assert_eq!(lm.log_file_name(), "log");
    assert_eq!(lm.cur_block(), &BlockId::new("log", 0));
    assert_eq!(lm.latest_lsn(), 0);
    assert_eq!(lm.last_saved_lsn(), 0);
    assert_eq!(fm.length("log").unwrap(), 1);
    assert_eq!(block_of(&mut fm, "log", 0).get_i32(0).unwrap(), 4096);
    assert_eq!(read_all(&mut lm, &mut fm), Vec::<Vec<u8>>::new());
}

#[test]
fn lsns_count_up_from_one() {
    let mut fm = fresh();
    let mut lm = LogManager::new(&mut fm, "log".to_string()).unwrap();
    for expected in 1..=2000 {
        assert_eq!(lm.append(&mut fm, vec![7; 9]).unwrap(), expected);
        assert_eq!(lm.latest_lsn(), expected);
    }
    assert!(fm.length("log").unwrap() > 1);
}

#[test]
fn records_are_packed_from_the_end_of_the_block() {
    let mut fm = fresh();
    let mut lm = LogManager::new(&mut fm, "log".to_string()).unwrap();
    lm.append(&mut fm, vec![1, 2, 3]).unwrap();
    lm.append(&mut fm, vec![4, 5]).unwrap();
    lm.flush_with_lsn(&mut fm, 2).unwrap();
    let mut page = block_of(&mut fm, "log", 0);
    assert_eq!(page.get_i32(0).unwrap(), 4096 - 7 - 6);
    assert_eq!(page.get_bytes(4096 - 7).unwrap(), vec![1, 2, 3]);
    assert_eq!(page.get_bytes(4096 - 7 - 6).unwrap(), vec![4, 5]);
    assert_eq!(
        &page.contents()[4096 - 13..],
        &[0, 0, 0, 2, 4, 5, 0, 0, 0, 3, 1, 2, 3]
    );
}

#[test]
fn append_does_not_write_and_flush_does() {
    let mut fm = fresh();
    let mut lm = LogManager::new(&mut fm, "log".to_string()).unwrap();
    lm.append(&mut fm, vec![1]).unwrap();
    lm.append(&mut fm, vec![2]).unwrap();
    assert_eq!(lm.last_saved_lsn(), 0);
    assert_eq!(block_of(&mut fm, "log", 0).get_i32(0).unwrap(), 4096);

    lm.flush_with_lsn(&mut fm, 1).unwrap();
    assert_eq!(lm.last_saved_lsn(), 2);
    assert_eq!(block_of(&mut fm, "log", 0).get_i32(0).unwrap(), 4096 - 10);

    lm.append(&mut fm, vec![3]).unwrap();
    lm.flush_with_lsn(&mut fm, 1).unwrap();
    assert_eq!(lm.last_saved_lsn(), 2);
    assert_eq!(block_of(&mut fm, "log", 0).get_i32(0).unwrap(), 4096 - 10);

    lm.flush_with_lsn(&mut fm, 2).unwrap();
    assert_eq!(lm.last_saved_lsn(), 3);
    assert_eq!(block_of(&mut fm, "log", 0).get_i32(0).unwrap(), 4096 - 15);
    assert_eq!(lm.latest_lsn(), 3);
}

#[test]
fn the_third_record_opens_a_new_block() {
    let mut fm = fresh();
    let mut lm = LogManager::new(&mut fm, "log".to_string()).unwrap();
    let big = 2040;
    lm.append(&mut fm, vec![1; big]).unwrap();
    lm.append(&mut fm, vec![2; big]).unwrap();
    assert_eq!(fm.length("log").unwrap(), 1);
    assert_eq!(lm.cur_block(), &BlockId::new("log", 0));
    assert_eq!(lm.last_saved_lsn(), 0);

    let third = vec![3; 100];
    assert_eq!(lm.append(&mut fm, third.clone()).unwrap(), 3);
    assert_eq!(fm.length("log").unwrap(), 2);
    assert_eq!(lm.cur_block(), &BlockId::new("log", 1));
    assert_eq!(lm.last_saved_lsn(), 2);
    assert_eq!(block_of(&mut fm, "log", 0).get_i32(0).unwrap(), 4096 - 2 * 2044);
    assert_eq!(block_of(&mut fm, "log", 1).get_i32(0).unwrap(), 4096);

    lm.flush_with_lsn(&mut fm, 3).unwrap();
    let need_for_third = 4 + 100;
    assert_eq!(block_of(&mut fm, "log", 1).get_i32(0).unwrap(), 4096 - need_for_third);
    assert_eq!(
        read_all(&mut lm, &mut fm),
        vec![third, vec![2; big], vec![1; big]]
    );
}

#[test]
fn a_record_that_just_fits_stays_in_the_block() {
    let mut fm = fresh();
    let mut lm = LogManager::new(&mut fm, "log".to_string()).unwrap();
    lm.append(&mut fm, vec![1; 4088]).unwrap();
    assert_eq!(fm.length("log").unwrap(), 1);
    lm.flush_with_lsn(&mut fm, 1).unwrap();
    assert_eq!(block_of(&mut fm, "log", 0).get_i32(0).unwrap(), 4);
    lm.append(&mut fm, Vec::new()).unwrap();
    assert_eq!(fm.length("log").unwrap(), 2);
    assert_eq!(read_all(&mut lm, &mut fm), vec![Vec::new(), vec![1; 4088]]);
}

#[test]
fn a_record_larger_than_a_block_is_refused() {
    let mut fm = fresh();
    let mut lm = LogManager::new(&mut fm, "log".to_string()).unwrap();
    lm.append(&mut fm, vec![9; 10]).unwrap();
    assert_eq!(lm.append(&mut fm, vec![1; 4089]), Err(io(IoErrorKind::RecordTooLarge)));
    assert_eq!(lm.latest_lsn(), 1);
    assert_eq!(fm.length("log").unwrap(), 1);
    assert_eq!(read_all(&mut lm, &mut fm), vec![vec![9; 10]]);
}

#[test]
fn iteration_runs_backwards_over_many_blocks() {
    let mut fm = fresh();
    let mut lm = LogManager::new(&mut fm, "log".to_string()).unwrap();
    let mut appended = Vec::new();
    for i in 0..1500 {
        let rec = create_log_record(format!("record{}", i), i);
        appended.push(rec.clone());
        lm.append(&mut fm, rec).unwrap();
    }
    assert!(fm.length("log").unwrap() >= 7);
    appended.reverse();
    assert_eq!(read_all(&mut lm, &mut fm), appended);
    assert_eq!(lm.last_saved_lsn(), 1500);
}

#[test]
fn has_next_tells_whether_a_record_or_a_block_is_left() {
    let mut fm = fresh();
    let mut lm = LogManager::new(&mut fm, "log".to_string()).unwrap();
    let it = lm.iterator(&mut fm).unwrap();
    assert!(!it.has_next(&fm));
    lm.append(&mut fm, vec![1]).unwrap();
    let mut it = lm.iterator(&mut fm).unwrap();
    assert!(it.has_next(&fm));
    assert_eq!(it.next(&mut fm).unwrap(), Some(vec![1]));
    assert!(!it.has_next(&fm));
    assert_eq!(it.next(&mut fm).unwrap(), None);
}

#[test]
fn reopening_a_log_keeps_its_records_and_restarts_the_lsns() {
    let mut fm = fresh();
    let mut lm = LogManager::new(&mut fm, "log".to_string()).unwrap();
    for i in 0..700 {
        lm.append(&mut fm, create_log_record(format!("r{}", i), i)).unwrap();
    }
    lm.flush_with_lsn(&mut fm, 700).unwrap();
    let blocks = fm.length("log").unwrap();
    assert!(blocks > 1);

    let mut again = LogManager::new(&mut fm, "log".to_string()).unwrap();
    assert_eq!(again.cur_block(), &BlockId::new("log", blocks - 1));
    assert_eq!(again.latest_lsn(), 0);
    assert_eq!(again.append(&mut fm, create_log_record("r700".to_string(), 700)).unwrap(), 1);
    let all = read_all(&mut again, &mut fm);
    assert_eq!(all.len(), 701);
    for (k, rec) in all.iter().enumerate() {
        let i = 700 - k as i32;
        assert_eq!(rec, &create_log_record(format!("r{}", i), i));
    }
}

#[test]
fn unflushed_records_are_not_in_the_file() {
    let mut fm = fresh();
    let mut lm = LogManager::new(&mut fm, "log".to_string()).unwrap();
    lm.append(&mut fm, vec![1]).unwrap();
    lm.flush_with_lsn(&mut fm, 1).unwrap();
    lm.append(&mut fm, vec![2]).unwrap();
    let mut from_file = LogManager::new(&mut fm, "log".to_string()).unwrap();
    assert_eq!(read_all(&mut from_file, &mut fm), vec![vec![1]]);
}

#[test]
fn append_new_block_starts_an_empty_block() {
    let mut fm = fresh();
    let mut lm = LogManager::new(&mut fm, "log".to_string()).unwrap();
    lm.append(&mut fm, vec![1, 1]).unwrap();
    lm.flush_with_lsn(&mut fm, 1).unwrap();
    let block = lm.append_new_block(&mut fm).unwrap();
    assert_eq!(block, BlockId::new("log", 1));
    assert_eq!(lm.cur_block(), &block);
    assert_eq!(fm.length("log").unwrap(), 2);
    assert_eq!(block_of(&mut fm, "log", 1).get_i32(0).unwrap(), 4096);
    assert_eq!(lm.latest_lsn(), 1);
    assert_eq!(read_all(&mut lm, &mut fm), vec![vec![1, 1]]);
}

#[test]
fn a_log_block_with_a_bad_boundary_is_refused() {
    for bad in [0, 3, 4097, -1] {
        let mut page = Page::new(BLOCK_SIZE);
        page.set_i32(0, bad).unwrap();
        let entries = vec![StoredFile { name: "log".to_string(), data: page.contents().clone() }];
        let mut fm = FileManager::new("db", true, entries).unwrap();
        assert_eq!(
            LogManager::new(&mut fm, "log".to_string()).err(),
            Some(io(IoErrorKind::BadBoundary))
        );
        assert_eq!(
            LogIterator::new(&mut fm, BlockId::new("log", 0)).err(),
            Some(io(IoErrorKind::BadBoundary))
        );
    }
    for good in [4, 4096] {
        let mut page = Page::new(BLOCK_SIZE);
        page.set_i32(0, good).unwrap();
        let entries = vec![StoredFile { name: "log".to_string(), data: page.contents().clone() }];
        let mut fm = FileManager::new("db", true, entries).unwrap();
        assert!(LogManager::new(&mut fm, "log".to_string()).is_ok());
    }
}

#[test]
fn an_iterator_needs_its_block() {
    let mut fm = fresh();
    assert_eq!(
        LogIterator::new(&mut fm, BlockId::new("log", 0)).err(),
        Some(io(IoErrorKind::ShortRead))
    );
    assert_eq!(
        LogIterator::new(&mut fm, BlockId::new("log", -1)).err(),
        Some(io(IoErrorKind::BadBlock))
    );
}

#[test]
fn the_log_stops_where_its_file_cannot_grow() {
    let blocks = 524287;
    let mut data = vec![0u8; blocks * 4096];
    let last = (blocks - 1) * 4096;
    data[last..last + 4].copy_from_slice(&[0, 0, 0x10, 0]);
    let entries = vec![StoredFile { name: "log".to_string(), data }];
    let mut fm = FileManager::new("db", true, entries).unwrap();
    let mut lm = LogManager::new(&mut fm, "log".to_string()).unwrap();
    assert_eq!(lm.cur_block(), &BlockId::new("log", blocks as i32 - 1));
    assert_eq!(lm.append(&mut fm, vec![1; 4088]).unwrap(), 1);
    assert_eq!(lm.append(&mut fm, vec![2; 1]), Err(io(IoErrorKind::FileTooLarge)));
    assert_eq!(lm.latest_lsn(), 1);
    assert_eq!(lm.last_saved_lsn(), 1);
    assert_eq!(lm.append_new_block(&mut fm).err(), Some(io(IoErrorKind::FileTooLarge)));
    assert_eq!(fm.length("log").unwrap(), blocks as i32);
}
