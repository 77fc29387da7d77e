use tapir::engine::bitmap::Bitmap1Bit;
use tapir::engine::text::{
    add_face, classify_face, is_font_extension, layout_text, split_lines, strike_height, text_fits_bitmap, text_line_widths, best_strike_index, compose_text, parse_halign, parse_valign, FontEntry, FontStore, Glyph, HAlign, TextMetrics, VAlign,
};

fn face(family: &str, weight: u16, italic: bool, sizes: Vec<i32>) -> FontEntry {
    FontEntry {
        path: format!("/fonts/{family}-{weight}-{italic}.otb"),
        face_index: 0,
        family: family.to_string(),
        weight,
        italic,
        is_bitmap: !sizes.is_empty(),
        available_sizes: sizes,
    }
}

fn block(w: u32, h: u32, advance: i32, top: i32) -> Glyph {
    // a solid w x h glyph, one byte per row
    let row = if w >= 8 { 0xFFu8 } else { !(0xFFu8 >> w) };
    Glyph { left: 0, top, width: w, rows: h, pitch: 1, buffer: vec![row; h as usize], advance }
}

fn pixels(b: &Bitmap1Bit) -> Vec<(u32, u32)> {
    let mut v = Vec::new();
    for y in 0..b.height {
        for x in 0..b.width {
            if b.get_pixel(x, y) {
                v.push((x, y));
            }
        }
    }
    v
}

#[test]
fn alignment_names() {
    assert_eq!(parse_valign("top"), VAlign::Top);
    assert_eq!(parse_valign("bottom"), VAlign::Bottom);
    assert_eq!(parse_valign("middle"), VAlign::Center);
    assert_eq!(parse_halign("center"), HAlign::Center);
    assert_eq!(parse_halign("right"), HAlign::Right);
    assert_eq!(parse_halign("justify"), HAlign::Left);
}

#[test]
fn families_are_grouped_favourites_first() {
    let fonts = vec![
        face("Zed", 400, false, vec![]),
        face("Beta", 700, false, vec![12, 8]),
        face("Alpha", 400, true, vec![]),
        face("Beta", 400, false, vec![8, 16]),
        face("Beta", 400, true, vec![]),
    ];
    let favs = vec!["Beta".to_string(), "Missing".to_string()];
    let store = FontStore::from_fonts(fonts, &favs, true);
    let g = store.groups();
    assert_eq!(g.favourites.len(), 1);
    let beta = &g.favourites[0];
    assert_eq!(beta.family, "Beta");
    assert_eq!(beta.weights, vec![400, 700]);
    assert!(beta.has_italic);
    assert_eq!(beta.available_sizes, vec![8, 12, 16]);
    let sys: Vec<&str> = g.system.iter().map(|f| f.family.as_str()).collect();
    assert_eq!(sys, vec!["Alpha", "Zed"]);
    assert!(g.system[0].has_italic);
    assert!(g.system[1].available_sizes.is_empty());
    assert_eq!(store.fonts().len(), 5);
}

#[test]
fn system_families_are_hidden_unless_loaded() {
    let fonts = vec![face("Zed", 400, false, vec![]), face("Beta", 400, false, vec![])];
    let store = FontStore::from_fonts(fonts, &vec!["Zed".to_string()], false);
    assert_eq!(store.groups().favourites.len(), 1);
    assert!(store.groups().system.is_empty());
}

#[test]
fn font_choice_prefers_exact_then_closest() {
    let fonts = vec![
        face("Beta", 400, false, vec![8]),
        face("Beta", 400, false, vec![12]),
        face("Beta", 700, true, vec![]),
        face("Gamma", 300, true, vec![]),
        face("Gamma", 800, false, vec![]),
    ];
    let store = FontStore::from_fonts(fonts, &Vec::new(), false);
    // exact match with the requested strike
    assert_eq!(store.find_font("Beta", 400, false, 12).unwrap().available_sizes, vec![12]);
    // exact match without that strike: the first
    assert_eq!(store.find_font("Beta", 400, false, 10).unwrap().available_sizes, vec![8]);
    // same style, closest weight
    assert_eq!(store.find_font("Beta", 600, false, 10).unwrap().weight, 400);
    // wrong style costs 1000
    assert_eq!(store.find_font("Gamma", 800, true, 10).unwrap().weight, 300);
    assert_eq!(store.find_font("Gamma", 900, false, 10).unwrap().weight, 800);
    assert!(store.find_font("Delta", 400, false, 10).is_none());
}

#[test]
fn strike_choice() {
    assert_eq!(best_strike_index(&vec![8, 12, 16], 13), 1);
    assert_eq!(best_strike_index(&vec![8, 12, 16], 16), 2);
    assert_eq!(best_strike_index(&vec![8, 12, 16], 5), 0);
    assert_eq!(best_strike_index(&vec![12, 8, 8], 4), 1);
    assert_eq!(best_strike_index(&vec![12, 12], 20), 0);
    assert_eq!(best_strike_index(&Vec::new(), 20), 0);
}

#[test]
fn compose_places_glyphs_by_alignment() {
    let lines = vec![vec![block(2, 2, 2, 2)]];
    let widths = vec![2];
    let top = TextMetrics { ascent: 2, descent: 0, line_step: 2, height: 4 };
    let b = compose_text(&lines, &widths, &top, "top", "left").expect("some ink");
    assert_eq!((b.width, b.height), (2, 4));
    assert_eq!(pixels(&b), vec![(0, 0), (1, 0), (0, 1), (1, 1)]);
    let b = compose_text(&lines, &widths, &top, "bottom", "left").expect("some ink");
    assert_eq!(pixels(&b), vec![(0, 2), (1, 2), (0, 3), (1, 3)]);
    let b = compose_text(&lines, &widths, &top, "center", "left").expect("some ink");
    assert_eq!(pixels(&b), vec![(0, 1), (1, 1), (0, 2), (1, 2)]);
}

#[test]
fn compose_aligns_each_line_horizontally() {
    let lines = vec![vec![block(1, 1, 1, 1), block(1, 1, 1, 1), block(1, 1, 1, 1)], vec![block(1, 1, 1, 1)]];
    let widths = vec![3, 1];
    let m = TextMetrics { ascent: 1, descent: 0, line_step: 1, height: 2 };
    let right = compose_text(&lines, &widths, &m, "top", "right").expect("some ink");
    assert_eq!(pixels(&right), vec![(0, 0), (1, 0), (2, 0), (2, 1)]);
    let center = compose_text(&lines, &widths, &m, "top", "center").expect("some ink");
    assert_eq!(pixels(&center), vec![(0, 0), (1, 0), (2, 0), (1, 1)]);
}

#[test]
fn compose_clips_to_the_bitmap_and_needs_width() {
    let lines = vec![vec![block(4, 4, 4, 4)]];
    let m = TextMetrics { ascent: 4, descent: 0, line_step: 4, height: 2 };
    let b = compose_text(&lines, &vec![2], &m, "top", "left").expect("some ink");
    assert_eq!((b.width, b.height), (2, 2));
    assert_eq!(pixels(&b), vec![(0, 0), (1, 0), (0, 1), (1, 1)]);
    assert!(compose_text(&lines, &vec![0], &m, "top", "left").is_none());
    assert!(compose_text(&Vec::new(), &Vec::new(), &m, "top", "left").is_none());
}

#[test]
fn font_files_by_extension() {
    for ext in ["ttf", "OTF", "Otb", "ttc", "bdf", "PCF"] {
        assert!(is_font_extension(ext));
    }
    for ext in ["", "woff", "ttff", "tt", "png"] {
        assert!(!is_font_extension(ext));
    }
}

#[test]
fn faces_are_classified() {
    assert!(classify_face("txt", true, false, None, false, true, vec![]).is_none());
    assert_eq!(classify_face("TTF", true, false, None, false, true, vec![]), Some((700, false, false, vec![])));
    assert_eq!(
        classify_face("otb", false, false, Some("Bold Oblique".to_string()), true, false, vec![8, 12]),
        Some((400, true, true, vec![8, 12]))
    );
    assert_eq!(
        classify_face("ttf", false, false, Some("ITALIC".to_string()), true, true, vec![8]),
        Some((400, true, false, vec![]))
    );
    assert_eq!(
        classify_face("ttf", false, false, Some("Regular".to_string()), false, true, vec![]),
        Some((400, false, false, vec![]))
    );
}

#[test]
fn strike_heights_fall_back_below_three_pixels() {
    assert_eq!(strike_height(12 * 64, 13), 12);
    assert_eq!(strike_height(3 * 64 + 10, 9), 3);
    assert_eq!(strike_height(64, 5), 5);
}

#[test]
fn repeated_faces_are_added_once() {
    let mut fonts = Vec::new();
    add_face(&mut fonts, face("Beta", 400, false, vec![]));
    add_face(&mut fonts, face("Beta", 400, false, vec![]));
    add_face(&mut fonts, face("Beta", 700, false, vec![]));
    assert_eq!(fonts.len(), 2);
}

#[test]
fn text_splits_at_each_newline() {
    assert_eq!(split_lines("a\nbc\n"), vec!["a", "bc", ""]);
    assert_eq!(split_lines(""), vec![""]);
    assert_eq!(split_lines("one"), vec!["one"]);
    assert_eq!(split_lines("\n\n"), vec!["", "", ""]);
}

#[test]
fn line_widths_sum_the_advances() {
    assert_eq!(text_line_widths(&vec![vec![3, 4], vec![], vec![-2, 5, 1]]), vec![7, 0, 4]);
    assert!(text_fits_bitmap(&vec![7, 0, 4], 100));
    assert!(!text_fits_bitmap(&vec![i32::MAX], 100));
}

#[test]
fn empty_text_lays_out_nothing() {
    let m = TextMetrics { ascent: 1, descent: 0, line_step: 1, height: 2 };
    let lines = vec![vec![block(1, 1, 1, 1)]];
    assert!(layout_text("", &vec![vec![]], &vec![vec![]], &m, "top", "left").is_none());
    let b = layout_text("x", &lines, &vec![vec![1]], &m, "top", "left").expect("some ink");
    assert_eq!((b.width, b.height), (1, 2));
    assert!(b.get_pixel(0, 0));
}

#[test]
fn a_single_line_ignores_horizontal_alignment_and_line_step() {
    let lines = vec![vec![block(2, 1, 2, 1)]];
    let m1 = TextMetrics { ascent: 1, descent: 0, line_step: 1, height: 3 };
    let m2 = TextMetrics { ascent: 1, descent: 0, line_step: 9, height: 3 };
    let a = compose_text(&lines, &vec![2], &m1, "center", "left").unwrap();
    let b = compose_text(&lines, &vec![2], &m2, "center", "right").unwrap();
    assert_eq!(a.data, b.data);
    let c = compose_text(&lines, &vec![2], &m1, "middle", "justify").unwrap();
    assert_eq!(a.data, c.data);
}
