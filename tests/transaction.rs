use fxkv::paging::PAGE_LEN;
use fxkv::transaction::{
    Sequencer, TransactionAction, TransactionBatchBuilder, TransactionData, TransactionWriter,
};

fn commit(id: usize) -> TransactionAction {
    TransactionAction::Commit(TransactionData { transaction_id: id, data: None })
}

fn ids(records: &[TransactionData]) -> Vec<usize> {
    records.iter().map(|r| r.transaction_id).collect()
}

#[test]
fn test_transaction_writer() {
    let mut file = Vec::new();
    let writer = TransactionWriter { transaction_id: 100, data: Some(vec![1_u8; 1050]) };
    writer.write(&mut file);
    let builder = TransactionBatchBuilder { file };
    let id = builder.recover().unwrap();
    assert_eq!(id, 100);
}

#[test]
fn test_transaction_batch() {
    let mut builder = TransactionBatchBuilder { file: Vec::new() };
    let mut sequencer = builder.build().unwrap();
    let mut file = builder.file;
    for i in 1..=100 {
        for record in sequencer.handle(commit(i)) {
            TransactionWriter { transaction_id: record.transaction_id, data: record.data }
                .write(&mut file);
        }
    }
    let builder = TransactionBatchBuilder { file };
    let id = builder.recover().unwrap();
    assert_eq!(id, 100);
}

#[test]
fn commit_record_layout() {
    let mut file = vec![9u8; 10];
    TransactionWriter { transaction_id: 0x0102, data: None }.write(&mut file);
    assert_eq!(file.len(), PAGE_LEN + 13);
    assert_eq!(&file[PAGE_LEN..], &[1, 0, 0, 0, 0, 0, 0, 0, 0, 0, 0, 1, 2]);
}

#[test]
fn empty_log_recovers_zero() {
    let mut builder = TransactionBatchBuilder { file: Vec::new() };
    assert_eq!(builder.recover(), Ok(0));
    let sequencer = builder.build().unwrap();
    assert_eq!(sequencer.windows.head, 1);
}

#[test]
fn torn_commit_record_falls_back_to_last_whole_one() {
    let mut file = Vec::new();
    TransactionWriter { transaction_id: 5, data: None }.write(&mut file);
    TransactionWriter { transaction_id: 6, data: Some(vec![3u8; 100]) }.write(&mut file);
    for cut in [PAGE_LEN + 2, PAGE_LEN + 12, PAGE_LEN + 13, PAGE_LEN + 50] {
        let mut builder = TransactionBatchBuilder { file: file[..cut].to_vec() };
        assert_eq!(builder.recover(), Ok(5));
        let sequencer = builder.build().unwrap();
        assert_eq!(sequencer.windows.head, 6);
        assert_eq!(builder.file.len(), PAGE_LEN);
    }
    let mut torn = Vec::new();
    TransactionWriter { transaction_id: 9, data: Some(vec![3u8; 100]) }.write(&mut torn);
    torn.truncate(50);
    let builder = TransactionBatchBuilder { file: torn };
    assert_eq!(builder.recover(), Ok(0));
}

#[test]
fn records_after_a_torn_one_are_recovered() {
    let mut file = Vec::new();
    TransactionWriter { transaction_id: 5, data: None }.write(&mut file);
    TransactionWriter { transaction_id: 6, data: Some(vec![3u8; 100]) }.write(&mut file);
    file.truncate(PAGE_LEN + 40);
    let mut builder = TransactionBatchBuilder { file };
    let mut sequencer = builder.build().unwrap();
    let mut file = builder.file;
    for record in sequencer.handle(commit(6)) {
        TransactionWriter { transaction_id: record.transaction_id, data: record.data }
            .write(&mut file);
    }
    assert_eq!(TransactionBatchBuilder { file }.recover(), Ok(6));
}

#[test]
fn sequencer_waits_for_earlier_ids() {
    let mut sequencer = Sequencer::new(1);
    assert!(sequencer.handle(commit(3)).is_empty());
    assert!(sequencer.handle(commit(2)).is_empty());
    assert!(sequencer.handle(TransactionAction::Drop(4)).is_empty());
    let flushed = sequencer.handle(commit(1));
    assert_eq!(ids(&flushed), vec![1, 2, 3]);
    assert!(sequencer.pending.is_empty());
}

#[test]
fn sequencer_flushes_in_id_order_for_any_interleaving() {
    let order = [7usize, 2, 9, 1, 4, 3, 8, 6, 5, 10];
    let dropped = [4usize, 8];
    let mut sequencer = Sequencer::new(1);
    let mut durable = Vec::new();
    for id in order {
        let action = if dropped.contains(&id) { TransactionAction::Drop(id) } else { commit(id) };
        durable.extend(ids(&sequencer.handle(action)));
    }
    assert_eq!(durable, vec![1, 2, 3, 5, 6, 7, 9, 10]);
}

#[test]
fn sequencer_drop_alone_flushes_nothing() {
    let mut sequencer = Sequencer::new(10);
    assert!(sequencer.handle(TransactionAction::Drop(10)).is_empty());
    assert_eq!(ids(&sequencer.handle(commit(11))), vec![11]);
}
