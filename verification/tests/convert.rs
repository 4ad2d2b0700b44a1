use image_decode::error::Error;
use image_decode::image::{convert_channels, ImageBuffer};

fn image(channels: u8, samples: &[u8]) -> ImageBuffer {
    ImageBuffer::new(2, 1, channels, samples.to_vec()).unwrap()
}

fn converted(channels: u8, samples: &[u8], to: u8) -> Vec<u8> {
    let out = convert_channels(image(channels, samples), to as u32).unwrap();
    assert_eq!((out.width(), out.height(), out.channels()), (2, 1, to));
    out.samples().to_vec()
}

#[test]
fn gray_is_repeated_into_colour() {
    assert_eq!(converted(1, &[7, 200], 3), vec![7, 7, 7, 200, 200, 200]);
    assert_eq!(converted(1, &[7, 200], 4), vec![7, 7, 7, 255, 200, 200, 200, 255]);
    assert_eq!(converted(1, &[7, 200], 2), vec![7, 255, 200, 255]);
}

#[test]
fn gray_with_alpha_keeps_or_drops_alpha() {
    assert_eq!(converted(2, &[7, 100, 200, 0], 1), vec![7, 200]);
    assert_eq!(converted(2, &[7, 100, 200, 0], 3), vec![7, 7, 7, 200, 200, 200]);
    assert_eq!(converted(2, &[7, 100, 200, 0], 4), vec![7, 7, 7, 100, 200, 200, 200, 0]);
}

#[test]
fn colour_becomes_gray_by_its_luma() {
    // (77 r + 150 g + 29 b) / 256
    assert_eq!(converted(3, &[255, 0, 0, 0, 255, 0], 1), vec![76, 149]);
    assert_eq!(converted(3, &[0, 0, 255, 255, 255, 255], 1), vec![28, 255]);
    assert_eq!(converted(3, &[10, 20, 30, 200, 100, 50], 1), vec![18, 124]);
    assert_eq!(converted(3, &[10, 20, 30, 200, 100, 50], 2), vec![18, 255, 124, 255]);
}

#[test]
fn colour_gets_opaque_alpha() {
    assert_eq!(converted(3, &[1, 2, 3, 4, 5, 6], 4), vec![1, 2, 3, 255, 4, 5, 6, 255]);
}

#[test]
fn alpha_is_dropped_from_colour() {
    assert_eq!(converted(4, &[1, 2, 3, 9, 4, 5, 6, 8], 3), vec![1, 2, 3, 4, 5, 6]);
    assert_eq!(converted(4, &[255, 0, 0, 9, 0, 255, 0, 8], 1), vec![76, 149]);
    assert_eq!(converted(4, &[255, 0, 0, 9, 0, 255, 0, 8], 2), vec![76, 9, 149, 8]);
}

#[test]
fn same_channel_count_changes_nothing() {
    assert_eq!(converted(1, &[1, 2], 1), vec![1, 2]);
    assert_eq!(converted(2, &[1, 2, 3, 4], 2), vec![1, 2, 3, 4]);
    assert_eq!(converted(3, &[1, 2, 3, 4, 5, 6], 3), vec![1, 2, 3, 4, 5, 6]);
    assert_eq!(converted(4, &[1, 2, 3, 4, 5, 6, 7, 8], 4), vec![1, 2, 3, 4, 5, 6, 7, 8]);
}

#[test]
fn no_request_changes_nothing() {
    for channels in 1..=4u8 {
        let samples: Vec<u8> = (0..2 * channels).collect();
        let out = convert_channels(image(channels, &samples), 0).unwrap();
        assert_eq!((out.width(), out.height(), out.channels()), (2, 1, channels));
        assert_eq!(out.samples(), &samples[..]);
    }
}

#[test]
fn five_channels_cannot_be_asked_for() {
    assert_eq!(convert_channels(image(3, &[1, 2, 3, 4, 5, 6]), 5).err(), Some(Error::InvalidArgument));
    assert_eq!(convert_channels(image(1, &[1, 2]), 256).err(), Some(Error::InvalidArgument));
    assert_eq!(convert_channels(image(1, &[1, 2]), u32::MAX).err(), Some(Error::InvalidArgument));
}

#[test]
fn colour_to_gray_and_back_loses_the_colour() {
    let gray = convert_channels(image(4, &[255, 0, 0, 9, 0, 255, 0, 8]), 1).unwrap();
    let back = convert_channels(gray, 4).unwrap();
    assert_eq!(back.samples(), &[76, 76, 76, 255, 149, 149, 149, 255][..]);
}

#[test]
fn gray_to_colour_and_back_is_exact() {
    let colour = convert_channels(image(1, &[0, 255]), 3).unwrap();
    let back = convert_channels(colour, 1).unwrap();
    assert_eq!(back.samples(), &[0, 255][..]);
}

#[test]
fn parts_must_fit_together() {
    assert!(ImageBuffer::new(2, 1, 3, vec![0; 6]).is_some());
    assert!(ImageBuffer::new(2, 1, 3, vec![0; 5]).is_none());
    assert!(ImageBuffer::new(2, 1, 3, vec![0; 7]).is_none());
    assert!(ImageBuffer::new(0, 1, 3, vec![]).is_none());
    assert!(ImageBuffer::new(1, 0, 3, vec![]).is_none());
    assert!(ImageBuffer::new(1, 1, 0, vec![]).is_none());
    assert!(ImageBuffer::new(1, 1, 5, vec![0; 5]).is_none());
    assert!(ImageBuffer::new(0x4001, 0x4000, 1, vec![]).is_none());
    assert!(ImageBuffer::new(u32::MAX, u32::MAX, 4, vec![]).is_none());
}

#[test]
fn an_image_comes_apart_into_its_parts() {
    let parts = ImageBuffer::new(1, 2, 2, vec![1, 2, 3, 4]).unwrap().into_parts();
    assert_eq!(parts, (1, 2, 2, vec![1, 2, 3, 4]));
}
