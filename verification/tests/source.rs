use image_decode::sniff::{sniff, Format};
use image_decode::source::ByteSource;

#[test]
fn reading_moves_the_position() {
    let bytes = [1u8, 2, 3, 4, 5];
    let mut source = ByteSource::new(&bytes);
    assert_eq!(source.len(), 5);
    assert_eq!(source.offset(), 0);
    assert_eq!(source.read(2), Some(&bytes[0..2]));
    assert_eq!(source.offset(), 2);
    assert_eq!(source.read(0), Some(&bytes[2..2]));
    assert_eq!(source.read(10), Some(&bytes[2..5]));
    assert_eq!(source.offset(), 5);
    assert_eq!(source.read(1), None);
    assert_eq!(source.read(0), Some(&bytes[5..5]));
    assert_eq!(source.offset(), 5);
}

#[test]
fn peeking_does_not_move_the_position() {
    let bytes = [1u8, 2, 3, 4, 5];
    let mut source = ByteSource::new(&bytes);
    assert_eq!(source.peek(3), &bytes[0..3]);
    assert_eq!(source.peek(9), &bytes[..]);
    assert_eq!(source.offset(), 0);
    assert_eq!(source.read(4), Some(&bytes[0..4]));
    assert_eq!(source.peek(3), &bytes[4..5]);
    assert_eq!(source.offset(), 4);
}

#[test]
fn taking_is_all_or_nothing() {
    let bytes = [1u8, 2, 3, 4, 5];
    let mut source = ByteSource::new(&bytes);
    assert_eq!(source.take(6), None);
    assert_eq!(source.offset(), 0);
    assert_eq!(source.take(5), Some(&bytes[..]));
    assert_eq!(source.take(1), None);
    assert_eq!(source.take(0), Some(&bytes[5..5]));
}

#[test]
fn seeking_stays_within_the_bytes() {
    let bytes = [1u8, 2, 3, 4, 5];
    let mut source = ByteSource::new(&bytes);
    assert_eq!(source.seek(3), true);
    assert_eq!(source.read(1), Some(&bytes[3..4]));
    assert_eq!(source.seek(5), true);
    assert_eq!(source.read(1), None);
    assert_eq!(source.seek(6), false);
    assert_eq!(source.offset(), 5);
    assert_eq!(source.seek(0), true);
    assert_eq!(source.as_slice(), &bytes[..]);
    assert_eq!(source.read(5), Some(&bytes[..]));
}

#[test]
fn an_empty_source_is_at_its_end() {
    let mut source = ByteSource::new(&[]);
    assert_eq!(source.read(1), None);
    assert_eq!(source.peek(4).len(), 0);
    assert_eq!(source.seek(0), true);
    assert_eq!(source.seek(1), false);
}

#[test]
fn magic_bytes_name_the_format() {
    assert_eq!(sniff(&[137, 80, 78, 71, 13, 10, 26, 10]), Some(Format::Png));
    assert_eq!(sniff(&[137, 80, 78, 71, 13, 10, 26, 10, 0, 0, 0, 13]), Some(Format::Png));
    assert_eq!(sniff(b"BM"), Some(Format::Bmp));
    assert_eq!(sniff(b"BMP and more"), Some(Format::Bmp));
}

#[test]
fn other_bytes_name_no_format() {
    assert_eq!(sniff(&[]), None);
    assert_eq!(sniff(b"B"), None);
    assert_eq!(sniff(b"bm"), None);
    assert_eq!(sniff(&[137, 80, 78, 71, 13, 10, 26]), None);
    assert_eq!(sniff(&[137, 80, 78, 71, 13, 10, 26, 11]), None);
    assert_eq!(sniff(b"GIF89a"), None);
    assert_eq!(sniff(&[0xff, 0xd8, 0xff, 0xe0]), None);
}
