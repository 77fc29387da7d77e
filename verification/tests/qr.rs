use tapir::engine::qr::{
    auto_render, auto_render_fits_memory, render_qr_fits_memory, capabilities, dm_capacity, dm_size, ec_from_str, ec_to_str, parse_qr_type, render_qr, rmqr_size,
    validate, EcLevel, QrType, RenderError,
};

#[test]
fn names_of_families_and_levels() {
    assert_eq!(parse_qr_type("standard"), Some(QrType::Standard));
    assert_eq!(parse_qr_type("micro"), Some(QrType::Micro));
    assert_eq!(parse_qr_type("rmqr"), Some(QrType::Rmqr));
    assert_eq!(parse_qr_type("datamatrix"), Some(QrType::DataMatrix));
    assert_eq!(parse_qr_type("aztec"), None);
    assert_eq!(ec_from_str("Q"), Some(EcLevel::Q));
    assert_eq!(ec_from_str("q"), None);
    assert_eq!(ec_to_str(EcLevel::H), "H");
}

#[test]
fn size_tables() {
    assert_eq!(rmqr_size(0), Some((7, 43)));
    assert_eq!(rmqr_size(10), Some((11, 27)));
    assert_eq!(rmqr_size(31), Some((17, 139)));
    assert_eq!(rmqr_size(32), None);
    assert_eq!(dm_size(0), Some((10, 10)));
    assert_eq!(dm_size(2), Some((8, 18)));
    assert_eq!(dm_size(39), Some((64, 64)));
    assert_eq!(dm_size(40), None);
}

#[test]
fn render_standard_v1_at_scale_two() {
    let (bmp, info) = render_qr(b"HELLO", "standard", 1, "M", 2, 64).ok().expect("renders");
    // 21 modules plus a 4-module quiet zone on each side, doubled
    assert_eq!(bmp.width, 58);
    assert_eq!(bmp.height, 64);
    assert_eq!(info.qr_type, "standard");
    assert_eq!(info.version_index, 1);
    assert_eq!(info.version_label, "V1");
    assert_eq!(info.ec_level, "M");
    assert_eq!(info.pixel_scale, 2);
    // centered: (64 - 58) / 2 = 3 rows above; the finder pattern's corner is dark
    assert!(!bmp.get_pixel(0, 0));
    assert!(bmp.get_pixel(8, 11));
    assert!(bmp.get_pixel(9, 12));
    assert!(!bmp.get_pixel(8, 10));
}

#[test]
fn render_clamps_the_scale() {
    let (bmp, info) = render_qr(b"1", "micro", 1, "L", 0, 64).ok().expect("renders");
    assert_eq!(info.pixel_scale, 1);
    assert_eq!(info.version_label, "M1");
    // 11 modules plus a 2-module quiet zone on each side
    assert_eq!(bmp.width, 15);
}

#[test]
fn render_rmqr_label() {
    let (bmp, info) = render_qr(b"12345", "rmqr", 0, "M", 1, 32).ok().expect("renders");
    assert_eq!(info.version_label, "R7x43");
    assert_eq!(info.version_index, 0);
    assert_eq!(bmp.width, 47);
    assert_eq!(bmp.height, 32);
}

#[test]
fn render_errors() {
    assert!(matches!(render_qr(b"", "standard", 1, "M", 1, 64), Err(RenderError::EmptyData)));
    assert!(matches!(render_qr(b"x", "aztec", 1, "M", 1, 64), Err(RenderError::InvalidType)));
    assert!(matches!(render_qr(b"x", "standard", 0, "M", 1, 64), Err(RenderError::InvalidVersion)));
    assert!(matches!(render_qr(b"x", "standard", 41, "M", 1, 64), Err(RenderError::InvalidVersion)));
    assert!(matches!(render_qr(b"x", "micro", 5, "M", 1, 64), Err(RenderError::InvalidVersion)));
    assert!(matches!(render_qr(b"x", "rmqr", 32, "M", 1, 64), Err(RenderError::InvalidVersion)));
    assert!(matches!(render_qr(b"x", "standard", 1, "X", 1, 64), Err(RenderError::InvalidEc)));
    assert!(matches!(render_qr(b"x", "standard", 10, "M", 1, 64), Err(RenderError::DoesNotFit)));
    assert!(matches!(render_qr(b"x", "standard", 1, "M", 3, 64), Err(RenderError::DoesNotFit)));
    let long = vec![b'a'; 30];
    assert!(matches!(
        render_qr(&long, "standard", 1, "L", 1, 64),
        Err(RenderError::DataTooLong { max_chars: 17 })
    ));
    assert!(matches!(render_qr(b"x", "datamatrix", 40, "", 1, 64), Err(RenderError::InvalidVersion)));
    assert!(matches!(render_qr(b"x", "datamatrix", 0, "", 6, 50), Err(RenderError::DoesNotFit)));
}

#[test]
fn render_datamatrix() {
    let (bmp, info) = render_qr(b"12", "datamatrix", 0, "ignored", 2, 64).ok().expect("renders");
    assert_eq!(info.qr_type, "datamatrix");
    assert_eq!(info.version_label, "10x10");
    assert_eq!(info.ec_level, "ECC200");
    assert_eq!(info.pixel_scale, 2);
    // 10 modules plus one quiet module on each side, doubled
    assert_eq!(bmp.width, 24);
    assert_eq!(bmp.height, 64);
    // centered: (64 - 24) / 2 = 20; the left edge of the finder is solid
    assert!(bmp.get_pixel(2, 20 + 2));
    assert!(!bmp.get_pixel(0, 20));
}

#[test]
fn validate_reports_capacity() {
    let v = validate(b"HELLO", "standard", 1, "H");
    assert!(v.fits);
    assert_eq!(v.max_chars, 5);
    let long = vec![b'a'; 30];
    let v = validate(&long, "standard", 1, "L");
    assert!(!v.fits);
    assert_eq!(v.max_chars, 17);
    let empty = validate(b"", "nothing", 99, "?");
    assert!(empty.fits);
    assert_eq!(empty.max_chars, 0);
    let bad = validate(b"x", "standard", 1, "Z");
    assert!(!bad.fits);
    assert_eq!(bad.max_chars, 0);
    let bad_dm = validate(b"x", "datamatrix", 40, "");
    assert!(!bad_dm.fits);
    assert_eq!(bad_dm.max_chars, 0);
}

#[test]
fn datamatrix_capacity_matches_validation() {
    let cap = dm_capacity(0);
    assert!(cap >= 1);
    let v = validate(&vec![0u8; cap], "datamatrix", 0, "");
    assert!(v.fits);
    assert_eq!(v.max_chars, cap);
    let v = validate(&vec![0u8; cap + 1], "datamatrix", 0, "");
    assert!(!v.fits);
    assert!(dm_capacity(39) > dm_capacity(0));
}

#[test]
fn auto_render_prefers_strong_correction_then_small_versions_then_large_scale() {
    let (bmp, info) = auto_render(b"HELLO", "standard", 64).ok().expect("renders");
    assert_eq!(info.ec_level, "H");
    assert_eq!(info.version_index, 1);
    assert_eq!(info.version_label, "V1");
    assert_eq!(info.pixel_scale, 2);
    assert_eq!(bmp.width, 58);
}

#[test]
fn auto_render_errors() {
    assert!(matches!(auto_render(b"", "standard", 64), Err(RenderError::EmptyData)));
    assert!(matches!(auto_render(b"x", "aztec", 64), Err(RenderError::InvalidType)));
    let long = vec![b'a'; 500];
    match auto_render(&long, "standard", 30) {
        Err(RenderError::DataTooLong { max_chars }) => assert_eq!(max_chars, 17),
        _ => panic!("expected DataTooLong"),
    }
}

#[test]
fn auto_render_datamatrix_takes_the_first_size_that_holds_the_data() {
    let (bmp, info) = auto_render(b"12", "datamatrix", 64).ok().expect("renders");
    assert_eq!(info.version_index, 0);
    assert_eq!(info.version_label, "10x10");
    assert_eq!(info.pixel_scale, 5);
    assert_eq!(bmp.width, 60);
}

#[test]
fn capabilities_for_a_12mm_label() {
    let caps = capabilities(64);
    assert_eq!(caps.label_height, 64);
    // 4v + 17 modules plus 8 quiet modules must fit 64 pixels
    assert_eq!(caps.standard.len(), 9);
    let v1 = &caps.standard[0];
    assert_eq!(v1.index, 1);
    assert_eq!(v1.label, "V1");
    assert_eq!(v1.modules_w, 21);
    assert_eq!(v1.modules_h, 21);
    assert_eq!(v1.quiet_zone, 4);
    assert_eq!(v1.ec_levels, vec!["L", "M", "Q", "H"]);
    assert_eq!(v1.capacity.len(), 4);
    assert_eq!(v1.capacity[0].level, "L");
    assert_eq!((v1.capacity[0].capacity.n, v1.capacity[0].capacity.a, v1.capacity[0].capacity.b), (41, 25, 17));
    assert_eq!(v1.capacity[3].level, "H");
    assert_eq!((v1.capacity[3].capacity.n, v1.capacity[3].capacity.a, v1.capacity[3].capacity.b), (17, 10, 7));
    assert_eq!(caps.standard[8].label, "V9");
    assert_eq!(caps.micro.len(), 4);
    assert_eq!(caps.micro[3].label, "M4");
    assert_eq!(caps.micro[3].quiet_zone, 2);
    assert_eq!(caps.rmqr.len(), 32);
    assert_eq!(caps.rmqr[0].label, "R7x43");
    assert_eq!(caps.rmqr[0].modules_w, 43);
    assert_eq!(caps.rmqr[0].modules_h, 7);
    // every DataMatrix size but 64x64 fits
    assert_eq!(caps.datamatrix.len(), 39);
    assert_eq!(caps.datamatrix[0].label, "10x10");
    assert_eq!(caps.datamatrix[0].ec_levels, vec!["ECC200"]);
    assert_eq!(caps.datamatrix[0].capacity[0].capacity.n, dm_capacity(0));
}

#[test]
fn capabilities_for_a_tiny_label() {
    let caps = capabilities(20);
    assert_eq!(caps.standard.len(), 0);
    // M1 to M3 (11, 13, 15 modules plus 4 quiet modules) fit 20 pixels
    assert_eq!(caps.micro.len(), 3);
    // rMQR heights up to 15 fit 20 pixels with the quiet zone; every width is kept
    assert_eq!(caps.rmqr.len(), 27);
    assert_eq!(caps.rmqr[26].label, "R15x139");
}

#[test]
fn validation_predicts_rendering() {
    for len in [1usize, 10, 17, 18, 40] {
        let data = vec![b'a'; len];
        let v = validate(&data, "standard", 1, "L");
        let r = render_qr(&data, "standard", 1, "L", 1, 64);
        assert_eq!(v.fits, r.is_ok());
        if !v.fits {
            match r {
                Err(RenderError::DataTooLong { max_chars }) => assert_eq!(max_chars, v.max_chars),
                _ => panic!("expected DataTooLong"),
            }
        }
    }
}

#[test]
fn datamatrix_validation_reports_the_capacity() {
    for i in [0usize, 5, 39] {
        let v = validate(b"x", "datamatrix", i, "");
        assert_eq!(v.max_chars, dm_capacity(i));
    }
}

#[test]
fn datamatrix_auto_render_reports_the_largest_fitting_capacity() {
    // a 12-pixel label holds only the sizes 8 and 10 modules tall
    let mut best = 0;
    for i in 0..40 {
        let (h, _) = dm_size(i).unwrap();
        if h as u32 + 2 <= 12 && dm_capacity(i) > best {
            best = dm_capacity(i);
        }
    }
    let data = vec![0u8; 400];
    match auto_render(&data, "datamatrix", 12) {
        Err(RenderError::DataTooLong { max_chars }) => assert_eq!(max_chars, best),
        _ => panic!("expected DataTooLong"),
    }
    assert!(best > 0);
}

#[test]
fn memory_bounds_depend_on_the_symbol() {
    // empty data and unknown families draw nothing
    assert!(render_qr_fits_memory(b"", "standard", 40, "L", 5, u32::MAX));
    assert!(render_qr_fits_memory(b"x", "aztec", 1, "L", 1, u32::MAX));
    // a micro symbol 21 pixels wide fits a very tall label; a V40 symbol 185 pixels wide does not
    assert!(render_qr_fits_memory(b"x", "micro", 4, "L", 1, u32::MAX / 3));
    assert!(!render_qr_fits_memory(b"x", "standard", 40, "L", 1, u32::MAX / 3));
    assert!(auto_render_fits_memory(b"x", "standard", 64));
    assert!(!auto_render_fits_memory(b"x", "standard", u32::MAX / 3));
    assert!(auto_render_fits_memory(b"", "standard", u32::MAX));
}

#[test]
fn manual_render_reproduces_the_automatic_choice() {
    for (data, t) in [(b"HELLO".to_vec(), "standard"), (b"12".to_vec(), "micro"), (b"12345".to_vec(), "rmqr"), (b"12".to_vec(), "datamatrix")] {
        let (b1, i1) = auto_render(&data, t, 64).ok().expect("renders");
        let (b2, i2) = render_qr(&data, t, i1.version_index, &i1.ec_level, i1.pixel_scale, 64).ok().expect("renders");
        assert_eq!((b1.width, b1.height, b1.data), (b2.width, b2.height, b2.data));
        assert_eq!(i1.version_label, i2.version_label);
        assert_eq!(i1.version_index, i2.version_index);
    }
}

#[test]
fn a_taller_label_keeps_every_size() {
    let low = capabilities(30);
    let high = capabilities(64);
    let labels = |v: &Vec<tapir::engine::qr::QrVersionInfo>| v.iter().map(|i| i.label.clone()).collect::<Vec<_>>();
    assert!(labels(&low.standard).iter().all(|l| labels(&high.standard).contains(l)));
    assert!(labels(&low.rmqr).iter().all(|l| labels(&high.rmqr).contains(l)));
    assert!(labels(&low.datamatrix).iter().all(|l| labels(&high.datamatrix).contains(l)));
    assert!(low.datamatrix.len() < high.datamatrix.len());
}
