use tapir::api::{
    default_auto_feed, default_halign, default_line_spacing, default_pixel_scale, default_qr_version, default_valign,
    default_weight, feed_lines, feed_stream, find_device, finish_text_bitmap, parse_auto_feed, print_stream,
    printer_status, text_scale, AutoFeed,
};
use tapir::config::{default_device, DeviceDef};
use tapir::engine::bitmap::Bitmap1Bit;
use tapir::usb::device::{classify_product, detect_devices, has_product, DetectedDevice, DYMO_VENDOR_ID};
use tapir::usb::protocol::PrintJob;

fn detected(name: &str, pid: u16, storage: bool) -> DetectedDevice {
    DetectedDevice { name: name.to_string(), vendor_id: DYMO_VENDOR_ID, product_id: pid, needs_modeswitch: storage }
}

fn sample() -> Bitmap1Bit {
    let mut b = Bitmap1Bit::new(2, 16);
    b.set_pixel(0, 0, true);
    b.set_pixel(1, 15, true);
    b
}

#[test]
fn request_defaults() {
    assert_eq!(default_auto_feed(), "symmetric");
    assert_eq!(default_weight(), 400);
    assert_eq!(default_valign(), "center");
    assert_eq!(default_halign(), "left");
    assert_eq!(default_line_spacing(), 120);
    assert_eq!(default_pixel_scale(), 1);
    assert_eq!(default_qr_version(), 1);
}

#[test]
fn product_ids_are_classified() {
    assert_eq!(classify_product(0x1002), Some(("LabelManager PnP", false)));
    assert_eq!(classify_product(0x1001), Some(("LabelManager PnP (storage mode)", true)));
    assert_eq!(classify_product(0x0015), Some(("LabelPoint 350", false)));
    assert_eq!(classify_product(0x4242), None);
}

#[test]
fn detect_keeps_recognised_dymo_devices_in_bus_order() {
    let ids = vec![(0x0922, 0x1002), (0x1234, 0x1002), (0x0922, 0x9999), (0x0922, 0x1001)];
    let found = detect_devices(&ids);
    assert_eq!(found.len(), 2);
    assert_eq!(found[0].name, "LabelManager PnP");
    assert_eq!(found[0].product_id, 0x1002);
    assert!(!found[0].needs_modeswitch);
    assert_eq!(found[1].name, "LabelManager PnP (storage mode)");
    assert!(found[1].needs_modeswitch);
    assert_eq!(found[1].vendor_id, 0x0922);
}

#[test]
fn has_product_checks_the_dymo_vendor() {
    let ids = vec![(0x1234, 0x1002), (0x0922, 0x1004)];
    assert!(has_product(&ids, 0x1004));
    assert!(!has_product(&ids, 0x1002));
}

#[test]
fn status_reports_the_first_printer_ready_to_print() {
    let devices = vec![default_device()];
    let det = vec![detected("storage", 0x1001, true), detected("LabelManager PnP", 0x1002, false)];
    let st = printer_status(&det, &devices);
    let c = st.connected.expect("connected");
    assert_eq!(c.name, "LabelManager PnP");
    assert_eq!(c.product_id, 0x1002);
    assert_eq!(c.tape_mm, Some(12));
    assert!(!st.needs_modeswitch);
}

#[test]
fn status_without_definition_has_no_tape_width() {
    let det = vec![detected("LabelManager 420P", 0x1004, false)];
    let st = printer_status(&det, &vec![default_device()]);
    assert_eq!(st.connected.expect("connected").tape_mm, None);
}

#[test]
fn status_reports_storage_mode_when_nothing_is_ready() {
    let st = printer_status(&vec![detected("s", 0x1001, true)], &Vec::new());
    assert!(st.connected.is_none());
    assert!(st.needs_modeswitch);
    let none = printer_status(&Vec::new(), &Vec::new());
    assert!(none.connected.is_none());
    assert!(!none.needs_modeswitch);
}

#[test]
fn find_device_takes_the_first_match() {
    let mut a = default_device();
    a.name = "first".to_string();
    let mut b = default_device();
    b.name = "second".to_string();
    let list: Vec<DeviceDef> = vec![a, b];
    assert_eq!(find_device(&list, 0x1002).map(|d| d.name.as_str()), Some("first"));
    assert!(find_device(&list, 0x1004).is_none());
}

#[test]
fn auto_feed_modes() {
    assert_eq!(parse_auto_feed("none"), AutoFeed::NoFeed);
    assert_eq!(parse_auto_feed("cutter"), AutoFeed::Cutter);
    assert_eq!(parse_auto_feed("symmetric"), AutoFeed::Symmetric);
    assert_eq!(parse_auto_feed("whatever"), AutoFeed::Symmetric);
}

#[test]
fn feed_line_counts() {
    assert_eq!(feed_lines(AutoFeed::NoFeed, 10, 57, 180), 0);
    assert_eq!(feed_lines(AutoFeed::Cutter, 10, 57, 180), 57);
    // short label: padded up to the minimal length
    assert_eq!(feed_lines(AutoFeed::Symmetric, 10, 57, 180), 170);
    // long label: twice the cutter distance
    assert_eq!(feed_lines(AutoFeed::Symmetric, 500, 57, 180), 114);
    assert_eq!(feed_lines(AutoFeed::Symmetric, 100, 57, 180), 114);
}

#[test]
fn print_stream_for_unknown_device_uses_pnp_settings() {
    let bmp = sample();
    let job = PrintJob { bytes_per_line: 8, tape_color_id: 0, synwait: 64 };
    let (none, n0) = print_stream(&bmp, "none", None);
    assert_eq!(n0, 0);
    assert_eq!(none, job.encode(&bmp));
    let (cut, n1) = print_stream(&bmp, "cutter", None);
    assert_eq!(n1, 57);
    let mut expected = job.encode(&bmp);
    expected.extend_from_slice(&job.encode_feed(57));
    assert_eq!(cut, expected);
    let (sym, n2) = print_stream(&bmp, "symmetric", None);
    assert_eq!(n2, 178);
    let mut expected = job.encode(&bmp);
    expected.extend_from_slice(&job.encode_feed(178));
    assert_eq!(sym, expected);
}

#[test]
fn print_stream_for_known_device_sizes_lines_to_the_bitmap() {
    let bmp = sample();
    let def = default_device();
    let (out, n) = print_stream(&bmp, "none", Some(&def));
    assert_eq!(n, 0);
    assert_eq!(out, vec![0x1B, b'C', 0, 0x1B, b'D', 2, 0x16, 0x80, 0x00, 0x16, 0x00, 0x01, 0x1B, b'A']);
}

#[test]
fn feed_stream_feeds_past_the_cutter() {
    let (bytes, lines) = feed_stream(None);
    assert_eq!(lines, 57);
    assert_eq!(bytes.len(), 6 + 57 * 9 + 2);
    let mut def = default_device();
    def.max_tape_mm = 9;
    def.feed_lines_for_cut = 3;
    let (bytes, lines) = feed_stream(Some(&def));
    assert_eq!(lines, 3);
    assert_eq!(bytes, vec![0x1B, b'C', 0, 0x1B, b'D', 6, 0x16, 0, 0, 0, 0, 0, 0, 0x16, 0, 0, 0, 0, 0, 0, 0x16, 0, 0, 0, 0, 0, 0, 0x1B, b'A']);
}

#[test]
fn text_scale_clamps_and_rounds_up() {
    assert_eq!(text_scale(64, 0), (1, 64));
    assert_eq!(text_scale(64, 3), (3, 22));
    assert_eq!(text_scale(64, 9), (5, 13));
    assert_eq!(text_scale(u32::MAX, 2), (2, 2147483648));
}

#[test]
fn finish_text_bitmap_scales_and_crops() {
    let mut b = Bitmap1Bit::new(2, 3);
    b.set_pixel(0, 2, true);
    let out = finish_text_bitmap(b.clone(), 2, 5);
    assert_eq!(out.width, 4);
    assert_eq!(out.height, 5);
    assert!(out.get_pixel(0, 4));
    assert!(out.get_pixel(1, 4));
    assert!(!out.get_pixel(0, 3));
    let same = finish_text_bitmap(b.clone(), 1, 5);
    assert_eq!(same.height, 3);
    assert_eq!(same.data, b.data);
}

#[test]
fn feed_stream_for_19mm_tape_uses_13_bytes_per_line() {
    let mut def = default_device();
    def.max_tape_mm = 19;
    def.feed_lines_for_cut = 1;
    let (bytes, lines) = feed_stream(Some(&def));
    assert_eq!(lines, 1);
    let mut expected = vec![0x1B, b'C', 0, 0x1B, b'D', 13, 0x16];
    expected.extend_from_slice(&[0u8; 13]);
    expected.extend_from_slice(&[0x1B, b'A']);
    assert_eq!(bytes, expected);
}
