use fxkv::paging::{PAGE_LEN, TAG_CONTINUATION, TAG_PAYLOAD, TAG_RECORD};
use fxkv::state::{DataRetriever, DataWriter, Index, StateBuilder, StateWriter};

fn encode_index(entries: &[(String, u64, u64)]) -> Vec<u8> {
    let mut map = serde_json::Map::new();
    for (key, offset, length) in entries {
        let mut index = serde_json::Map::new();
        index.insert("offset".to_string(), serde_json::Value::from(*offset));
        index.insert("length".to_string(), serde_json::Value::from(*length));
        map.insert(key.clone(), serde_json::Value::Object(index));
    }
    serde_json::to_vec(&serde_json::Value::Object(map)).unwrap()
}

fn decode_index(body: &[u8]) -> Vec<(Vec<u8>, Index)> {
    let value: serde_json::Value = serde_json::from_slice(body).unwrap();
    let mut out = Vec::new();
    for (key, index) in value.as_object().unwrap() {
        let offset = index.get("offset").unwrap().as_u64().unwrap();
        let length = index.get("length").unwrap().as_u64().unwrap();
        out.push((key.clone().into_bytes(), Index { offset, length }));
    }
    out
}

#[test]
fn test_state_builder() {
    let builder = StateBuilder { file: Vec::new() };
    assert_eq!(builder.recover(), None);
    let mut file = builder.file;
    let mut entries = Vec::new();
    for i in 0..100 {
        let value = format!("value{i}");
        let length = value.len() as u64;
        let data_writer = DataWriter { data: value.into_bytes() };
        let offset = data_writer.write(&mut file);
        entries.push((format!("key{i}"), offset, length));
    }
    let writer = StateWriter { body: encode_index(&entries) };
    writer.write(&mut file);
    let builder = StateBuilder { file };
    let body = builder.recover().unwrap();
    let indexes = decode_index(&body);
    assert_eq!(indexes.len(), 100);
    for i in 0..100 {
        let key = format!("key{i}").into_bytes();
        let index = indexes.iter().find(|(k, _)| *k == key).unwrap().1;
        let retriever = DataRetriever { offset: index.offset, length: index.length };
        let data = retriever.retrieve(&builder.file).unwrap();
        assert_eq!(data, format!("value{i}").into_bytes());
    }
}

#[test]
fn payload_layout_on_empty_file() {
    let mut file = Vec::new();
    let offset = DataWriter { data: vec![7u8; 3] }.write(&mut file);
    assert_eq!(offset, 1);
    assert_eq!(file, vec![TAG_PAYLOAD, 7, 7, 7]);
    let offset = DataWriter { data: vec![8u8; 2] }.write(&mut file);
    assert_eq!(offset, 4);
    assert_eq!(file.len(), 6);
}

#[test]
fn payload_crossing_pages_gets_headers() {
    let mut file = Vec::new();
    let data: Vec<u8> = (0..3000u32).map(|i| (i % 251) as u8).collect();
    let offset = DataWriter { data: data.clone() }.write(&mut file);
    assert_eq!(offset, 1);
    // 1023 content bytes on each page after its tag byte.
    assert_eq!(file.len(), 3003);
    assert_eq!(file[0], TAG_PAYLOAD);
    assert_eq!(file[PAGE_LEN], TAG_PAYLOAD);
    assert_eq!(file[2 * PAGE_LEN], TAG_PAYLOAD);
    let back = DataRetriever { offset, length: 3000 }.retrieve(&file).unwrap();
    assert_eq!(back, data);
}

#[test]
fn values_of_many_sizes_read_back() {
    let mut file = Vec::new();
    let mut written = Vec::new();
    for n in [0usize, 1, 5, 1022, 1023, 1024, 1025, 2500, 17] {
        let data: Vec<u8> = (0..n).map(|i| (i * 7 % 256) as u8).collect();
        let offset = DataWriter { data: data.clone() }.write(&mut file);
        written.push((offset, data));
    }
    for (offset, data) in &written {
        let r = DataRetriever { offset: *offset, length: data.len() as u64 }.retrieve(&file);
        assert_eq!(r.as_ref(), Some(data));
    }
}

#[test]
fn payload_after_snapshot_starts_new_page() {
    let mut file = Vec::new();
    DataWriter { data: b"abc".to_vec() }.write(&mut file);
    StateWriter { body: b"{}".to_vec() }.write(&mut file);
    assert_eq!(file[PAGE_LEN], TAG_RECORD);
    assert_eq!(&file[PAGE_LEN + 1..PAGE_LEN + 5], &[0, 0, 0, 2]);
    let offset = DataWriter { data: b"xyz".to_vec() }.write(&mut file);
    assert_eq!(offset as usize, 2 * PAGE_LEN + 1);
    assert_eq!(file[2 * PAGE_LEN], TAG_PAYLOAD);
    let builder = StateBuilder { file };
    assert_eq!(builder.recover(), Some(b"{}".to_vec()));
}

#[test]
fn snapshot_spanning_pages_recovers_latest() {
    let mut file = Vec::new();
    StateWriter { body: b"old".to_vec() }.write(&mut file);
    let body: Vec<u8> = (0..2100u32).map(|i| (i % 200) as u8 + 1).collect();
    StateWriter { body: body.clone() }.write(&mut file);
    assert_eq!(file[2 * PAGE_LEN], TAG_CONTINUATION);
    let builder = StateBuilder { file };
    assert_eq!(builder.recover(), Some(body));
}

#[test]
fn truncated_snapshot_falls_back_to_previous() {
    let mut file = Vec::new();
    StateWriter { body: vec![1u8; 2000] }.write(&mut file);
    file.truncate(1500);
    assert_eq!(StateBuilder { file: file.clone() }.recover(), None);

    let mut file = Vec::new();
    StateWriter { body: b"first".to_vec() }.write(&mut file);
    let whole = file.len();
    StateWriter { body: vec![1u8; 2000] }.write(&mut file);
    for cut in [PAGE_LEN + 1, PAGE_LEN + 3, PAGE_LEN + 5, PAGE_LEN + 700, 2 * PAGE_LEN + 10] {
        let torn = file[..cut].to_vec();
        let builder = StateBuilder { file: torn };
        assert_eq!(builder.recover(), Some(b"first".to_vec()));
        let state = builder.build(Vec::new()).unwrap();
        assert_eq!(state.file.len(), PAGE_LEN);
        assert!(state.file.len() >= whole);
    }
}

#[test]
fn appends_after_torn_snapshot_keep_the_previous_one() {
    let mut file = Vec::new();
    StateWriter { body: b"first".to_vec() }.write(&mut file);
    StateWriter { body: vec![7u8; 40] }.write(&mut file);
    file.truncate(PAGE_LEN + 20);
    let state = StateBuilder { file }.build(Vec::new()).unwrap();
    let mut file = state.file;
    DataWriter { data: vec![0u8; 30] }.write(&mut file);
    assert_eq!(StateBuilder { file }.recover(), Some(b"first".to_vec()));
}

#[test]
fn retrieve_past_end_is_none() {
    let mut file = Vec::new();
    let offset = DataWriter { data: b"abc".to_vec() }.write(&mut file);
    assert!(DataRetriever { offset, length: 10 }.retrieve(&file).is_none());
    assert_eq!(DataRetriever { offset: 99, length: 0 }.retrieve(&file), Some(Vec::new()));
}

#[test]
fn build_rejects_index_past_end() {
    let mut file = Vec::new();
    let offset = DataWriter { data: b"abc".to_vec() }.write(&mut file);
    let entries = vec![(b"k".to_vec(), Index { offset, length: 50 })];
    assert!(StateBuilder { file }.build(entries).is_err());
}
