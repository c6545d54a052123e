use rsdb::buffer::BufferManager;
use rsdb::file::{BlockId, FileError, FileManager, IoErrorKind, Page, BLOCK_SIZE};
use rsdb::log::LogManager;
use rsdb::log_records::{
    CheckPointRecord, CommitRecord, RollbackRecord, SetI32Record, SetStringRecord, StartRecord,
};
use rsdb::record::{create_log_record, LogRecord, LogRecordError, TxType};
use rsdb::recovery::{RecoveryError, RecoveryManager};

fn setup() -> (FileManager, LogManager) {
    let mut fm = FileManager::new("db", false, Vec::new()).unwrap();
    let lm = LogManager::new(&mut fm, "log".to_string()).unwrap();
    for _ in 0..4 {
        fm.append("f").unwrap();
    }
    (fm, lm)
}

fn read_all(lm: &mut LogManager, fm: &mut FileManager) -> Vec<Vec<u8>> {
    let mut it = lm.iterator(fm).unwrap();
    let mut out = Vec::new();
    while let Some(rec) = it.next(fm).unwrap() {
        out.push(rec);
    }
    out
}

#[test]
fn tags_number_the_kinds() {
    let kinds = [
        TxType::CheckPoint,
        TxType::Start,
        TxType::Commit,
        TxType::Rollback,
        TxType::SetI32,
        TxType::SetString,
    ];
    for (n, kind) in kinds.iter().enumerate() {
        assert_eq!(TxType::from_int(n as i32), Some(*kind));
        assert_eq!(kind.tag(), n as i32);
    }
    assert_eq!(TxType::from_int(6), None);
    assert_eq!(TxType::from_int(-1), None);
    assert_eq!(TxType::from_int(i32::MAX), None);
    assert!(TxType::CheckPoint < TxType::Start);
    assert!(TxType::SetI32 < TxType::SetString);
}

#[test]
fn records_report_their_operation() {
    assert_eq!(CheckPointRecord::new().op(), TxType::CheckPoint);
    assert_eq!(StartRecord::new().op(), TxType::Start);
    assert_eq!(CommitRecord::new().op(), TxType::Commit);
    assert_eq!(RollbackRecord::new().op(), TxType::Rollback);
    assert_eq!(SetI32Record::new().op(), TxType::SetI32);
    assert_eq!(SetStringRecord::new().op(), TxType::SetI32);
    assert_eq!(CheckPointRecord::new().tx_num(), -1);
    assert_eq!(StartRecord::default().tx_num(), -1);
    assert_eq!(CommitRecord::new().tx_num(), -1);
    assert_eq!(RollbackRecord::new().tx_num(), -1);
    assert_eq!(SetI32Record::new().tx_num(), -1);
    assert_eq!(SetStringRecord::new().tx_num(), -1);
}

#[test]
fn records_print_as_their_labels() {
    assert_eq!(CheckPointRecord::new().label(), "<CHECKPOINT>");
    assert_eq!(StartRecord::new().label(), "<START>");
    assert_eq!(CommitRecord::new().label(), "<COMMIT>");
    assert_eq!(RollbackRecord::new().label(), "<Rollback>");
    assert_eq!(SetI32Record::new().label(), "<SETI32>");
    assert_eq!(SetStringRecord::new().label(), "<SETSTRING>");
    assert_eq!(LogRecordError::UnknownRecord.message(), "Unknown Log record");
}

#[test]
fn a_record_is_made_from_its_tag() {
    let expected = [
        TxType::CheckPoint,
        TxType::Start,
        TxType::Commit,
        TxType::Rollback,
        TxType::SetI32,
        TxType::SetI32,
    ];
    for (n, op) in expected.iter().enumerate() {
        let rec = create_log_record(vec![0, 0, 0, n as u8, 9, 9]).unwrap();
        assert_eq!(rec.op(), *op);
        assert_eq!(rec.tx_num(), -1);
    }
    assert_eq!(create_log_record(vec![0, 0, 0, 6]).err(), Some(LogRecordError::UnknownRecord));
    assert_eq!(create_log_record(vec![1, 0, 0, 0]).err(), Some(LogRecordError::UnknownRecord));
    assert_eq!(
        create_log_record(vec![0xff, 0xff, 0xff, 0xff]).err(),
        Some(LogRecordError::UnknownRecord)
    );
    assert_eq!(create_log_record(vec![0, 0, 1]).err(), Some(LogRecordError::UnknownRecord));
    assert_eq!(create_log_record(Vec::new()).err(), Some(LogRecordError::UnknownRecord));
}

#[test]
fn each_record_is_written_as_its_tag() {
    let (mut fm, mut lm) = setup();
    assert_eq!(CheckPointRecord::write_to_log(&mut lm, &mut fm).unwrap(), 1);
    assert_eq!(StartRecord::write_to_log(&mut lm, &mut fm).unwrap(), 2);
    assert_eq!(CommitRecord::write_to_log(&mut lm, &mut fm).unwrap(), 3);
    assert_eq!(RollbackRecord::write_to_log(&mut lm, &mut fm).unwrap(), 4);
    assert_eq!(SetI32Record::write_to_log(&mut lm, &mut fm).unwrap(), 5);
    assert_eq!(SetStringRecord::write_to_log(&mut lm, &mut fm).unwrap(), 6);
    assert_eq!(
        read_all(&mut lm, &mut fm),
        vec![
            vec![0, 0, 0, 5],
            vec![0, 0, 0, 4],
            vec![0, 0, 0, 3],
            vec![0, 0, 0, 2],
            vec![0, 0, 0, 1],
            vec![0, 0, 0, 0],
        ]
    );
}

#[test]
fn a_transaction_starts_with_a_start_record() {
    let (mut fm, mut lm) = setup();
    let rm = RecoveryManager::new(5, &mut fm, &mut lm).unwrap();
    assert_eq!(rm.tx_num(), 5);
    assert_eq!(lm.latest_lsn(), 1);
    assert_eq!(lm.last_saved_lsn(), 0);
    assert_eq!(read_all(&mut lm, &mut fm), vec![vec![0, 0, 0, 1]]);
}

#[test]
fn commit_saves_the_log_and_the_pages_of_the_transaction() {
    let (mut fm, mut lm) = setup();
    let mut bm = BufferManager::new(&fm, 3);
    let rm = RecoveryManager::new(5, &mut fm, &mut lm).unwrap();
    let mine = bm.try_to_pin(&mut fm, &mut lm, BlockId::new("f", 0)).unwrap().unwrap();
    let other = bm.try_to_pin(&mut fm, &mut lm, BlockId::new("f", 1)).unwrap().unwrap();
    bm.contents(mine).set_i32(0, 50).unwrap();
    bm.set_modified(mine, 5, 1);
    bm.contents(other).set_i32(0, 60).unwrap();
    bm.set_modified(other, 6, 1);

    rm.commit(&mut bm, &mut fm, &mut lm).unwrap();
    assert_eq!(lm.latest_lsn(), 2);
    assert_eq!(lm.last_saved_lsn(), 2);
    assert_eq!(bm.buffer(mine).modifying_tx(), -1);
    assert_eq!(bm.buffer(other).modifying_tx(), 6);
    let mut p = Page::new(BLOCK_SIZE);
    fm.read(&BlockId::new("f", 0), &mut p).unwrap();
    assert_eq!(p.get_i32(0).unwrap(), 50);
    fm.read(&BlockId::new("f", 1), &mut p).unwrap();
    assert_eq!(p.get_i32(0).unwrap(), 0);
    let mut from_file = LogManager::new(&mut fm, "log".to_string()).unwrap();
    assert_eq!(
        read_all(&mut from_file, &mut fm),
        vec![vec![0, 0, 0, 2], vec![0, 0, 0, 1]]
    );
}

#[test]
fn rollback_flushes_and_leaves_a_rollback_record() {
    let (mut fm, mut lm) = setup();
    let mut bm = BufferManager::new(&fm, 3);
    let mut rm = RecoveryManager::new(-1, &mut fm, &mut lm).unwrap();
    let mine = bm.try_to_pin(&mut fm, &mut lm, BlockId::new("f", 2)).unwrap().unwrap();
    bm.contents(mine).set_i32(0, 50).unwrap();
    bm.set_modified(mine, -1, 1);

    rm.rollback(&mut bm, &mut fm, &mut lm).unwrap();
    assert_eq!(rm.tx_num(), -1);
    assert_eq!(lm.latest_lsn(), 2);
    assert_eq!(lm.last_saved_lsn(), 2);
    assert_eq!(
        read_all(&mut lm, &mut fm),
        vec![vec![0, 0, 0, 3], vec![0, 0, 0, 1]]
    );
    // The mark -1 is that of a clean page: nothing of it was written.
    let mut p = Page::new(BLOCK_SIZE);
    fm.read(&BlockId::new("f", 2), &mut p).unwrap();
    assert_eq!(p.get_i32(0).unwrap(), 0);
}

#[test]
fn rollback_stops_at_a_record_of_unknown_kind() {
    let (mut fm, mut lm) = setup();
    let mut bm = BufferManager::new(&fm, 3);
    let mut rm = RecoveryManager::new(7, &mut fm, &mut lm).unwrap();
    lm.append(&mut fm, vec![0, 0, 0, 9]).unwrap();
    CommitRecord::write_to_log(&mut lm, &mut fm).unwrap();
    assert_eq!(
        rm.rollback(&mut bm, &mut fm, &mut lm),
        Err(RecoveryError::Record(LogRecordError::UnknownRecord))
    );
    assert_eq!(lm.latest_lsn(), 3);
    assert_eq!(lm.last_saved_lsn(), 3);
}

#[test]
fn a_failing_page_write_fails_the_commit_after_the_log_is_saved() {
    let (mut fm, mut lm) = setup();
    let mut bm = BufferManager::new(&fm, 3);
    let rm = RecoveryManager::new(5, &mut fm, &mut lm).unwrap();
    let mine = bm.try_to_pin(&mut fm, &mut lm, BlockId::new("f", 0)).unwrap().unwrap();
    bm.contents(mine).contents().clear();
    bm.set_modified(mine, 5, 1);
    assert_eq!(
        rm.commit(&mut bm, &mut fm, &mut lm),
        Err(FileError::IoError(IoErrorKind::PageSize))
    );
    assert_eq!(lm.last_saved_lsn(), 2);
    assert_eq!(bm.buffer(mine).modifying_tx(), 5);
}
