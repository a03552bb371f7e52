use mnist::load::LoadError;
use mnist::load::load_dataset;
use mnist::load::load_label;
use mnist::load::read_big_endian;

/// A label-file byte buffer: magic, big-endian count, one byte per label.
fn label_file(count: u32, labels: Vec<u8>) -> Vec<u8> {
    let mut buf = vec![0, 0, 8, 1];
    buf.extend_from_slice(&count.to_be_bytes());
    buf.extend_from_slice(&labels);
    buf
}

/// An image-file byte buffer: magic, big-endian count, the two grid
/// dimensions, then the pixel bytes.
fn image_file(count: u32, pixels: Vec<u8>) -> Vec<u8> {
    let mut buf = vec![0, 0, 8, 3];
    buf.extend_from_slice(&count.to_be_bytes());
    buf.extend_from_slice(&28u32.to_be_bytes());
    buf.extend_from_slice(&28u32.to_be_bytes());
    buf.extend_from_slice(&pixels);
    buf
}

#[test]
fn read_big_endian_reads_four_bytes() {
    let buf = vec![0xff, 0x01, 0x02, 0x03, 0x04, 0xff];
    let (v, next) = read_big_endian(&buf, 1);
    assert_eq!(v, 0x0102_0304);
    assert_eq!(next, 5);
}

#[test]
fn read_big_endian_reads_extremes() {
    let buf = vec![0xff, 0xff, 0xff, 0xff];
    let (v, next) = read_big_endian(&buf, 0);
    assert_eq!(v, u32::MAX);
    assert_eq!(next, 4);
}

#[test]
fn load_label_decodes_labels() {
    let buf = label_file(3, vec![7, 0, 9]);
    assert_eq!(load_label(&buf), Ok(vec![7, 0, 9]));
}

#[test]
fn load_label_short_header_is_refused() {
    let buf = vec![0, 0, 8];
    assert_eq!(load_label(&buf), Err(LoadError::IndexOutOfRange));
}

#[test]
fn load_label_truncated_data_is_refused() {
    let buf = label_file(5, vec![1, 2]);
    assert_eq!(load_label(&buf), Err(LoadError::IndexOutOfRange));
}

#[test]
fn load_label_out_of_range_class_is_refused() {
    let buf = label_file(3, vec![1, 10, 2]);
    assert_eq!(load_label(&buf), Err(LoadError::IndexOutOfRange));
}

#[test]
fn load_label_zero_count_gives_empty() {
    let buf = label_file(0, vec![]);
    assert_eq!(load_label(&buf), Ok(vec![]));
}

#[test]
fn load_dataset_decodes_one_sample() {
    let pixels: Vec<u8> = (0..784u32).map(|j| (j % 251) as u8).collect();
    let buf = image_file(1, pixels.clone());
    let imgs = load_dataset(&buf).unwrap();
    assert_eq!(imgs.len(), 1);
    assert_eq!(imgs[0], pixels);
}

#[test]
fn load_dataset_decodes_two_samples() {
    let mut pixels: Vec<u8> = vec![11; 784];
    pixels.extend_from_slice(&vec![97; 784]);
    let buf = image_file(2, pixels);
    let imgs = load_dataset(&buf).unwrap();
    assert_eq!(imgs.len(), 2);
    assert_eq!(imgs[0], vec![11; 784]);
    assert_eq!(imgs[1], vec![97; 784]);
}

#[test]
fn load_dataset_short_header_is_refused() {
    let buf = vec![0, 0, 8, 3, 0, 0, 0, 1];
    assert_eq!(load_dataset(&buf), Err(LoadError::IndexOutOfRange));
}

#[test]
fn load_dataset_truncated_pixels_is_refused() {
    let mut pixels: Vec<u8> = vec![11; 784];
    pixels.extend_from_slice(&vec![97; 10]);
    let buf = image_file(2, pixels);
    assert_eq!(load_dataset(&buf), Err(LoadError::IndexOutOfRange));
}

#[test]
fn load_dataset_zero_count_gives_empty() {
    let buf = image_file(0, vec![]);
    assert_eq!(load_dataset(&buf), Ok(vec![]));
}
