use std::io::Write;
use std::sync::Arc;

use arrow::array::{ArrayRef, FixedSizeListArray, Float32Array, StringArray};
use arrow::datatypes::{DataType, Field, Schema};
use arrow::ipc::writer::FileWriter;
use arrow::record_batch::RecordBatch;
use atlas621::previous::{ipc_safe_check, legacy_names, previous_layout, seed_slots};
use flate2::write::GzEncoder;
use flate2::Compression;

fn gz(bytes: &[u8]) -> Vec<u8> {
    let mut enc = GzEncoder::new(Vec::new(), Compression::default());
    enc.write_all(bytes).unwrap();
    enc.finish().unwrap()
}

fn arrow_file(name: &str, column: ArrayRef) -> Vec<u8> {
    let schema = Arc::new(Schema::new(vec![Field::new(name, column.data_type().clone(), true)]));
    let batch = RecordBatch::try_new(schema.clone(), vec![column]).unwrap();
    let mut out = Vec::new();
    let mut w = FileWriter::try_new(&mut out, &schema).unwrap();
    w.write(&batch).unwrap();
    w.finish().unwrap();
    drop(w);
    out
}

fn raw_names(offsets: &[u32], text: &[u8]) -> Vec<u8> {
    let mut blob: Vec<u8> = offsets.iter().flat_map(|o| o.to_le_bytes()).collect();
    blob.extend_from_slice(text);
    blob
}

fn strings(v: &[&str]) -> Vec<String> {
    v.iter().map(|s| s.to_string()).collect()
}

#[test]
fn a_raw_name_blob_is_cut_at_its_offsets() {
    let blob = raw_names(&[0, 3, 3, 6], b"foxcat");
    assert_eq!(legacy_names(&blob, 3), Some(strings(&["fox", "", "cat"])));
    assert_eq!(legacy_names(&blob[..10], 3), None);
    assert_eq!(legacy_names(&raw_names(&[0, 4, 3, 6], b"foxcat"), 3), None);
    assert_eq!(legacy_names(&raw_names(&[0, 3, 3, 7], b"foxcat"), 3), None);
    assert_eq!(legacy_names(&raw_names(&[0, 1, 2], "é".as_bytes()), 2), None);
    assert_eq!(legacy_names(&raw_names(&[0, 2], &[0xff, 0xfe]), 1), None);
    assert_eq!(legacy_names(&raw_names(&[0, 2], "é".as_bytes()), 1), Some(strings(&["é"])));
}

#[test]
fn a_raw_previous_layout_reads_its_words_and_names() {
    let words: Vec<u8> = [1u32, 2, 3, 4, 5].iter().flat_map(|w| w.to_le_bytes()).collect();
    let names = raw_names(&[0, 3, 6], b"foxcat");
    let (pos, got) = previous_layout(&gz(&words[..16]), &gz(&names), 2).unwrap();
    assert_eq!(pos, vec![(1, 2), (3, 4)]);
    assert_eq!(got, strings(&["fox", "cat"]));
    assert!(previous_layout(b"not gzip", &gz(&names), 2).is_none());
    assert!(previous_layout(&gz(&words[..3]), &gz(&names), 2).is_none());
    assert!(previous_layout(&gz(&words), &gz(&names), 2).is_none());
}

#[test]
fn an_arrow_previous_layout_reads_its_columns() {
    let flat = Float32Array::from(vec![1.5f32, -2.0, 0.25, 8.0]);
    let field = Arc::new(Field::new("item", DataType::Float32, false));
    let list = FixedSizeListArray::new(field, 2, Arc::new(flat), None);
    let positions = arrow_file("position", Arc::new(list));
    let names = arrow_file("name", Arc::new(StringArray::from(vec![Some("fox"), None])));
    let (pos, got) = previous_layout(&gz(&positions), &gz(&names), 0).unwrap();
    assert_eq!(
        pos,
        vec![(1.5f32.to_bits(), (-2.0f32).to_bits()), (0.25f32.to_bits(), 8.0f32.to_bits())]
    );
    assert_eq!(got, strings(&["fox", ""]));
    let wrong = arrow_file("place", Arc::new(StringArray::from(vec!["x"])));
    assert!(previous_layout(&gz(&positions), &gz(&wrong), 0).is_none());
}

#[test]
fn each_node_takes_the_last_previous_slot_of_its_name() {
    let names = strings(&["fox", "cat", "dog", "owl"]);
    let previous = strings(&["cat", "fox", "cat", "owl"]);
    assert_eq!(seed_slots(&names, 3, &previous, 4), vec![Some(1), Some(2), None]);
    assert_eq!(seed_slots(&names, 4, &previous, 2), vec![Some(1), Some(0), None, None]);
    assert_eq!(seed_slots(&names, 0, &previous, 4), Vec::<Option<u32>>::new());
}

fn position_file() -> Vec<u8> {
    let flat = Float32Array::from(vec![1.5f32, -2.0]);
    let field = Arc::new(Field::new("item", DataType::Float32, false));
    let list = FixedSizeListArray::new(field, 2, Arc::new(flat), None);
    arrow_file("position", Arc::new(list))
}

#[test]
fn a_written_arrow_file_passes_the_block_check() {
    let file = position_file();
    assert!(ipc_safe_check(&file));
    assert!(!ipc_safe_check(&file[..file.len() - 1]));
    assert!(!ipc_safe_check(b"ARROW1"));
    let mut long_footer = file.clone();
    let n = long_footer.len();
    long_footer[n - 10..n - 6].copy_from_slice(&(n as u32).to_le_bytes());
    assert!(!ipc_safe_check(&long_footer));
}

#[test]
fn a_negative_block_length_is_refused_without_a_panic() {
    let file = position_file();
    let n = file.len();
    let footer_len = u32::from_le_bytes([file[n - 10], file[n - 9], file[n - 8], file[n - 7]]) as usize;
    let footer_start = n - 10 - footer_len;
    let footer = arrow::ipc::root_as_footer(&file[footer_start..n - 10]).unwrap();
    let block = footer.recordBatches().unwrap().get(0);
    let body = block.bodyLength().to_le_bytes();
    let at = (footer_start..n - 10 - 8)
        .find(|&i| file[i..i + 8] == body && file[i - 8..i - 4] == block.metaDataLength().to_le_bytes())
        .unwrap();
    let mut bad = file.clone();
    bad[at..at + 8].copy_from_slice(&(-1i64).to_le_bytes());
    assert!(ipc_safe_check(&file));
    assert!(!ipc_safe_check(&bad));
    let names = arrow_file("name", Arc::new(StringArray::from(vec!["fox"])));
    assert!(previous_layout(&gz(&bad), &gz(&names), 0).is_none());
    assert!(previous_layout(&gz(&file), &gz(&names), 0).is_some());
}

#[test]
fn a_buffer_past_its_block_is_refused_without_a_panic() {
    let file = position_file();
    let n = file.len();
    let footer_len = u32::from_le_bytes([file[n - 10], file[n - 9], file[n - 8], file[n - 7]]) as usize;
    let footer = arrow::ipc::root_as_footer(&file[n - 10 - footer_len..n - 10]).unwrap();
    let block = footer.recordBatches().unwrap().get(0);
    let start = block.offset() as usize;
    let meta = block.metaDataLength() as usize;
    let prefix = if file[start..start + 4] == [0xff; 4] { 8 } else { 4 };
    let message = arrow::ipc::root_as_message(&file[start + prefix..start + meta]).unwrap();
    let listed = message.header_as_record_batch().unwrap().buffers().unwrap();
    let last = listed.get(listed.len() - 1);
    assert!(last.length() > 0);
    let mut pattern = last.offset().to_le_bytes().to_vec();
    pattern.extend_from_slice(&last.length().to_le_bytes());
    let at = (start..start + meta - 16).find(|&i| file[i..i + 16] == pattern[..]).unwrap();
    let mut bad = file.clone();
    bad[at..at + 8].copy_from_slice(&(block.bodyLength() + 64).to_le_bytes());
    assert!(!ipc_safe_check(&bad));
    let names = arrow_file("name", Arc::new(StringArray::from(vec!["fox"])));
    assert!(previous_layout(&gz(&bad), &gz(&names), 0).is_none());
}
