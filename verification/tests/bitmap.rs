use tapir::engine::bitmap::{Bitmap1Bit, PngError};

fn pixels(b: &Bitmap1Bit) -> Vec<(u32, u32)> {
    let mut v = Vec::new();
    for y in 0..b.height {
        for x in 0..b.width {
            if b.get_pixel(x, y) {
                v.push((x, y));
            }
        }
    }
    v
}

#[test]
fn new_bitmap_is_blank_with_padded_rows() {
    let b = Bitmap1Bit::new(10, 3);
    assert_eq!(b.width, 10);
    assert_eq!(b.height, 3);
    assert_eq!(b.data.len(), 6);
    assert!(b.data.iter().all(|&x| x == 0));
    assert!(pixels(&b).is_empty());
}

#[test]
fn set_then_get_reads_back_the_write() {
    let mut b = Bitmap1Bit::new(10, 3);
    b.set_pixel(0, 0, true);
    b.set_pixel(9, 2, true);
    assert!(b.get_pixel(0, 0));
    assert!(b.get_pixel(9, 2));
    assert_eq!(b.data, vec![0x80, 0x00, 0x00, 0x00, 0x00, 0x40]);
    b.set_pixel(0, 0, false);
    assert!(!b.get_pixel(0, 0));
    assert_eq!(pixels(&b), vec![(9, 2)]);
}

#[test]
fn writes_outside_the_image_are_ignored() {
    let mut b = Bitmap1Bit::new(4, 4);
    b.set_pixel(4, 0, true);
    b.set_pixel(0, 4, true);
    assert!(pixels(&b).is_empty());
    assert!(!b.get_pixel(100, 100));
}

#[test]
fn rotate_270_moves_columns_to_rows() {
    let mut b = Bitmap1Bit::new(3, 2);
    b.set_pixel(0, 0, true);
    b.set_pixel(2, 1, true);
    let r = b.rotate_270();
    assert_eq!(r.width, 2);
    assert_eq!(r.height, 3);
    // (x, y) goes to (y, width - 1 - x)
    assert_eq!(pixels(&r), vec![(1, 0), (0, 2)]);
}

#[test]
fn rotating_four_times_gives_the_original() {
    let mut b = Bitmap1Bit::new(5, 3);
    b.set_pixel(1, 0, true);
    b.set_pixel(4, 2, true);
    b.set_pixel(0, 1, true);
    let r = b.rotate_270().rotate_270().rotate_270().rotate_270();
    assert_eq!(r.width, 5);
    assert_eq!(r.height, 3);
    assert_eq!(pixels(&r), pixels(&b));
    assert_eq!(r.data, b.data);
}

#[test]
fn column_bytes_packs_a_column_top_to_bottom() {
    let mut b = Bitmap1Bit::new(2, 10);
    b.set_pixel(0, 0, true);
    b.set_pixel(0, 9, true);
    b.set_pixel(1, 7, true);
    assert_eq!(b.column_bytes(0), vec![0x80, 0x40]);
    assert_eq!(b.column_bytes(1), vec![0x01, 0x00]);
    assert_eq!(b.column_bytes(5), vec![0x00, 0x00]);
}

#[test]
fn from_luma_thresholds_at_128() {
    let luma = vec![0u8, 127, 128, 255, 10, 200];
    let b = Bitmap1Bit::from_luma(3, 2, &luma);
    assert_eq!(pixels(&b), vec![(0, 0), (1, 0), (1, 1)]);
}

#[test]
fn scale_nearest_enlarges_each_pixel() {
    let mut b = Bitmap1Bit::new(2, 1);
    b.set_pixel(1, 0, true);
    let s = b.scale_nearest(3);
    assert_eq!(s.width, 6);
    assert_eq!(s.height, 3);
    let mut expected = Vec::new();
    for y in 0..3 {
        for x in 3..6 {
            expected.push((x, y));
        }
    }
    assert_eq!(pixels(&s), expected);
}

#[test]
fn crop_height_keeps_the_top_rows() {
    let mut b = Bitmap1Bit::new(2, 4);
    b.set_pixel(0, 0, true);
    b.set_pixel(1, 3, true);
    let c = b.crop_height(2);
    assert_eq!(c.height, 2);
    assert_eq!(c.width, 2);
    assert_eq!(pixels(&c), vec![(0, 0)]);
    let same = b.crop_height(10);
    assert_eq!(same.height, 4);
    assert_eq!(pixels(&same), pixels(&b));
}

#[test]
fn png_round_trip_keeps_pixels() {
    let mut b = Bitmap1Bit::new(9, 4);
    b.set_pixel(0, 0, true);
    b.set_pixel(8, 3, true);
    b.set_pixel(4, 2, true);
    let png = b.to_png().expect("encodes");
    assert_eq!(&png[..8], &[137, 80, 78, 71, 13, 10, 26, 10]);
    let back = Bitmap1Bit::from_png(&png).ok().expect("decodes");
    assert_eq!(back.width, 9);
    assert_eq!(back.height, 4);
    assert_eq!(pixels(&back), pixels(&b));
}

#[test]
fn from_png_rejects_garbage() {
    let r = Bitmap1Bit::from_png(&[1, 2, 3, 4]);
    assert!(matches!(r, Err(PngError::Decode(_))));
}

#[test]
fn set_pixel_changes_only_its_bit() {
    let mut b = Bitmap1Bit { width: 10, height: 2, data: vec![0xFF, 0x3F, 0x00, 0xC0] };
    b.set_pixel(9, 0, false);
    assert_eq!(b.data, vec![0xFF, 0x3F, 0x00, 0xC0]);
    b.set_pixel(8, 0, false);
    assert_eq!(b.data, vec![0xFF, 0x3F & !0x80, 0x00, 0xC0]);
    b.set_pixel(1, 1, true);
    assert_eq!(b.data, vec![0xFF, 0x3F, 0x40, 0xC0]);
    // padding bits stay as they were
    assert_eq!(b.data[3] & 0x3F, 0x00);
}

#[test]
fn set_pixel_outside_leaves_any_buffer_alone() {
    let mut b = Bitmap1Bit { width: 4, height: 4, data: vec![] };
    b.set_pixel(4, 0, true);
    b.set_pixel(0, 9, true);
    assert!(b.data.is_empty());
    assert!(!b.get_pixel(7, 7));
}

#[test]
fn get_pixel_reads_from_a_longer_buffer() {
    let b = Bitmap1Bit { width: 3, height: 1, data: vec![0x20, 0xFF, 0xFF] };
    assert!(b.get_pixel(2, 0));
    assert!(!b.get_pixel(1, 0));
    assert!(!b.get_pixel(3, 0));
}

#[test]
fn packed_column_is_a_row_of_the_rotated_bitmap() {
    let mut b = Bitmap1Bit::new(3, 10);
    b.set_pixel(1, 0, true);
    b.set_pixel(1, 9, true);
    b.set_pixel(2, 4, true);
    let r = b.rotate_270();
    let hb = ((b.height + 7) / 8) as usize;
    for col in 0..b.width {
        let k = (b.width - 1 - col) as usize;
        assert_eq!(b.column_bytes(col), r.data[k * hb..(k + 1) * hb].to_vec());
    }
}
