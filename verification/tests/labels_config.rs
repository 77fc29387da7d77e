use tapir::config::{default_device, finalize_devices, AppConfig, DeviceDef};
use tapir::label::{bytes_per_line_for_tape, default_bg, default_fg, sort_labels, LabelDef};

fn label(name: &str, mm: u8) -> LabelDef {
    LabelDef {
        name: name.to_string(),
        tape_width_mm: mm,
        background_color: default_bg(),
        foreground_color: default_fg(),
        tape_type: None,
        dymo_tape_color_id: 0,
    }
}

fn device(name: &str, pid: u16) -> DeviceDef {
    let mut d = default_device();
    d.name = name.to_string();
    d.product_id = pid;
    d
}

#[test]
fn height_px_per_tape_width() {
    assert_eq!(label("a", 12).height_px(), 64);
    assert_eq!(label("a", 9).height_px(), 48);
    assert_eq!(label("a", 6).height_px(), 32);
    assert_eq!(label("a", 19).height_px(), 104);
    assert_eq!(label("a", 24).height_px(), 128);
    assert_eq!(label("a", 0).height_px(), 0);
}

#[test]
fn label_colour_defaults() {
    assert_eq!(default_bg(), "#FFFFFF");
    assert_eq!(default_fg(), "#000000");
}

#[test]
fn labels_sort_by_name() {
    let sorted = sort_labels(vec![label("b", 9), label("C", 6), label("a", 12), label("b", 12)]);
    let names: Vec<&str> = sorted.iter().map(|l| l.name.as_str()).collect();
    assert_eq!(names, vec!["C", "a", "b", "b"]);
    // equal names keep their order
    assert_eq!(sorted[2].tape_width_mm, 9);
    assert_eq!(sorted[3].tape_width_mm, 12);
}

#[test]
fn default_config_values() {
    let c = AppConfig::default();
    assert_eq!(c.default_label, None);
    assert_eq!(c.default_canvas_width, 200);
    assert!(c.font_favourites.is_empty());
    assert!(!c.load_system_fonts);
}

#[test]
fn default_device_is_the_labelmanager_pnp() {
    let d = default_device();
    assert_eq!(d.name, "LabelManager PnP");
    assert_eq!(d.vendor_id, 0x0922);
    assert_eq!(d.product_id, 0x1002);
    assert_eq!(d.product_id_storage, Some(0x1001));
    assert_eq!(d.max_tape_mm, 12);
    assert_eq!(d.dpi, 180);
    assert_eq!(d.synwait, 64);
    assert_eq!(d.feed_lines_for_cut, 57);
    assert_eq!(d.minimal_autofeed_lines, 180);
}

#[test]
fn no_device_files_gives_the_default_device() {
    let list = finalize_devices(Vec::new());
    assert_eq!(list.len(), 1);
    assert_eq!(list[0].name, "LabelManager PnP");
}

#[test]
fn device_files_are_sorted_by_name() {
    let list = finalize_devices(vec![device("Zeta", 2), device("Alpha", 1), device("Mid", 3)]);
    let names: Vec<&str> = list.iter().map(|d| d.name.as_str()).collect();
    assert_eq!(names, vec!["Alpha", "Mid", "Zeta"]);
    assert_eq!(list[0].product_id, 1);
}

#[test]
fn bytes_per_line_round_up_to_whole_bytes() {
    assert_eq!(bytes_per_line_for_tape(6), 4);
    assert_eq!(bytes_per_line_for_tape(9), 6);
    assert_eq!(bytes_per_line_for_tape(12), 8);
    assert_eq!(bytes_per_line_for_tape(19), 13);
    assert_eq!(bytes_per_line_for_tape(0), 0);
}
