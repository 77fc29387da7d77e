use tapir::engine::bitmap::Bitmap1Bit;
use tapir::usb::protocol::{PrintJob, FEED_LINES_FOR_CUT};

fn sample() -> Bitmap1Bit {
    let mut b = Bitmap1Bit::new(2, 16);
    b.set_pixel(0, 0, true);
    b.set_pixel(1, 15, true);
    b
}

#[test]
fn cutter_distance_is_57_lines() {
    assert_eq!(FEED_LINES_FOR_CUT, 57);
}

#[test]
fn encode_frames_each_column() {
    let job = PrintJob { bytes_per_line: 2, tape_color_id: 0, synwait: 64 };
    let out = job.encode(&sample());
    assert_eq!(
        out,
        vec![0x1B, b'C', 0, 0x1B, b'D', 2, 0x16, 0x80, 0x00, 0x16, 0x00, 0x01, 0x1B, b'A']
    );
}

#[test]
fn encode_inserts_status_request_every_synwait_lines() {
    let job = PrintJob { bytes_per_line: 2, tape_color_id: 3, synwait: 1 };
    let out = job.encode(&sample());
    assert_eq!(
        out,
        vec![
            0x1B, b'C', 3, 0x1B, b'D', 2, 0x16, 0x80, 0x00, 0x1B, b'A', 0x16, 0x00, 0x01, 0x1B, b'A', 0x1B,
            b'A'
        ]
    );
}

#[test]
fn encode_truncates_and_pads_columns_to_the_line_width() {
    let short = PrintJob { bytes_per_line: 1, tape_color_id: 0, synwait: 64 };
    assert_eq!(
        short.encode(&sample()),
        vec![0x1B, b'C', 0, 0x1B, b'D', 1, 0x16, 0x80, 0x16, 0x00, 0x1B, b'A']
    );
    let long = PrintJob { bytes_per_line: 3, tape_color_id: 0, synwait: 64 };
    assert_eq!(
        long.encode(&sample()),
        vec![0x1B, b'C', 0, 0x1B, b'D', 3, 0x16, 0x80, 0x00, 0x00, 0x16, 0x00, 0x01, 0x00, 0x1B, b'A']
    );
}

#[test]
fn encode_of_empty_bitmap_is_header_and_trailer() {
    let job = PrintJob { bytes_per_line: 8, tape_color_id: 0, synwait: 64 };
    let out = job.encode(&Bitmap1Bit::new(0, 64));
    assert_eq!(out, vec![0x1B, b'C', 0, 0x1B, b'D', 8, 0x1B, b'A']);
}

#[test]
fn encode_feed_sends_blank_lines() {
    let job = PrintJob { bytes_per_line: 2, tape_color_id: 0, synwait: 64 };
    assert_eq!(
        job.encode_feed(2),
        vec![0x1B, b'C', 0, 0x1B, b'D', 2, 0x16, 0, 0, 0x16, 0, 0, 0x1B, b'A']
    );
    assert_eq!(job.encode_feed(0), vec![0x1B, b'C', 0, 0x1B, b'D', 2, 0x1B, b'A']);
}

#[test]
fn encode_feed_length_counts_status_requests() {
    let job = PrintJob { bytes_per_line: 8, tape_color_id: 0, synwait: 64 };
    // 178 lines: 6 header bytes, 9 bytes per line, two intermediate status requests, trailer.
    assert_eq!(job.encode_feed(178).len(), 6 + 178 * 9 + 2 * 2 + 2);
}

#[test]
fn feed_equals_printing_a_blank_bitmap() {
    let job = PrintJob { bytes_per_line: 2, tape_color_id: 1, synwait: 3 };
    let blank = Bitmap1Bit::new(7, 16);
    assert_eq!(job.encode(&blank), job.encode_feed(7));
}

#[test]
fn rows_below_the_line_width_never_reach_the_printer() {
    let job = PrintJob { bytes_per_line: 1, tape_color_id: 0, synwait: 64 };
    let mut short = Bitmap1Bit::new(2, 8);
    short.set_pixel(0, 3, true);
    let mut tall = Bitmap1Bit::new(2, 30);
    tall.set_pixel(0, 3, true);
    tall.set_pixel(1, 12, true);
    tall.set_pixel(0, 29, true);
    assert_eq!(job.encode(&short), job.encode(&tall));
}
