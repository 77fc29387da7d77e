//! Decisions behind the HTTP endpoints: request defaults, printer status, and
//! the byte streams sent to print or feed.

use vstd::prelude::*;

use crate::config::DeviceDef;
use crate::engine::bitmap::{fits_bitmap, Bitmap1Bit};
use crate::engine::qr::str_eq;
use crate::label::{bytes_per_line_for_tape, tape_bytes_per_line};
use crate::usb::device::DetectedDevice;
use crate::usb::protocol::PrintJob;

verus! {

/// Default automatic feed mode of a print request.
pub fn default_auto_feed() -> (s: String)
    ensures
        s@ == "symmetric"@,
{
    "symmetric".to_string()
}

/// Default font weight of a text request.
pub fn default_weight() -> (w: u16)
    ensures
        w == 400,
{
    400
}

/// Default vertical alignment of a text request.
pub fn default_valign() -> (s: String)
    ensures
        s@ == "center"@,
{
    "center".to_string()
}

/// Default horizontal alignment of a text request. A QR request without a level
/// gets this value too, which names no level.
pub fn default_halign() -> (s: String)
    ensures
        s@ == "left"@,
{
    "left".to_string()
}

/// Default line spacing of a text request, in percent of the font height.
pub fn default_line_spacing() -> (n: u32)
    ensures
        n == 120,
{
    120
}

/// Default pixel scale of text and QR requests.
pub fn default_pixel_scale() -> (n: u32)
    ensures
        n == 1,
{
    1
}

/// Default version index of a QR request.
pub fn default_qr_version() -> (n: usize)
    ensures
        n == 1,
{
    1
}

/// The index of the first definition with the product ID, if any.
pub open spec fn first_def_with(devices: Seq<DeviceDef>, product_id: u16) -> Option<int> {
    if exists|i: int| 0 <= i < devices.len() && #[trigger] devices[i].product_id == product_id {
        Some(choose|i: int| 0 <= i < devices.len() && #[trigger] devices[i].product_id == product_id && forall|j: int|
            0 <= j < i ==> #[trigger] devices[j].product_id != product_id)
    } else {
        None
    }
}

/// The first device definition for a product ID.
pub fn find_device(devices: &Vec<DeviceDef>, product_id: u16) -> (d: Option<&DeviceDef>)
    ensures
        match d {
            Some(def) => exists|i: int| 0 <= i < devices@.len() && *def == devices@[i] && def.product_id == product_id
                && forall|j: int| 0 <= j < i ==> #[trigger] devices@[j].product_id != product_id,
            None => forall|j: int| 0 <= j < devices@.len() ==> #[trigger] devices@[j].product_id != product_id,
        },
{
    for i in 0..devices.len()
        invariant
            forall|j: int| 0 <= j < i ==> #[trigger] devices@[j].product_id != product_id,
    {
        if devices[i].product_id == product_id {
            return Some(&devices[i]);
        }
    }
    None
}

/// A printer ready to print.
#[derive(Debug, Clone)]
pub struct ConnectedPrinter {
    pub name: String,
    pub product_id: u16,
    /// Widest tape of the model, when its definition is known.
    pub tape_mm: Option<u8>,
}

/// Connection state as the status endpoint reports it.
#[derive(Debug, Clone)]
pub struct PrinterStatus {
    pub connected: Option<ConnectedPrinter>,
    /// Whether a printer was found that is still in mass-storage mode (only
    /// reported when none is connected).
    pub needs_modeswitch: bool,
}

/// The first detected printer not in storage mode is the connected one; its tape
/// width comes from the first definition with its product ID.
pub fn printer_status(detected: &Vec<DetectedDevice>, devices: &Vec<DeviceDef>) -> (st: PrinterStatus)
    ensures
        (forall|i: int| 0 <= i < detected@.len() ==> #[trigger] detected@[i].needs_modeswitch) ==> {
            &&& st.connected is None
            &&& st.needs_modeswitch == (detected@.len() > 0)
        },
        (exists|i: int| 0 <= i < detected@.len() && !#[trigger] detected@[i].needs_modeswitch) ==> {
            &&& !st.needs_modeswitch
            &&& exists|i: int| 0 <= i < detected@.len() && !(#[trigger] detected@[i]).needs_modeswitch && (forall|j: int|
                0 <= j < i ==> (#[trigger] detected@[j]).needs_modeswitch) && (st.connected matches Some(c) && c.name@
                == detected@[i].name@ && c.product_id == detected@[i].product_id && match first_def_with(
                devices@,
                detected@[i].product_id,
            ) {
                Some(k) => c.tape_mm == Some(devices@[k].max_tape_mm),
                None => c.tape_mm is None,
            })
        },
{
    let mut i: usize = 0;
    while i < detected.len()
        invariant
            i <= detected@.len(),
            forall|j: int| 0 <= j < i ==> (#[trigger] detected@[j]).needs_modeswitch,
        decreases detected@.len() - i,
    {
        if !detected[i].needs_modeswitch {
            let dev = &detected[i];
            let tape_mm = match find_device(devices, dev.product_id) {
                Some(def) => Some(def.max_tape_mm),
                None => None,
            };
            proof {
                let f = first_def_with(devices@, dev.product_id);
                if tape_mm is Some {
                    let k = choose|k: int| 0 <= k < devices@.len() && tape_mm == Some(devices@[k].max_tape_mm)
                        && devices@[k].product_id == dev.product_id && forall|j: int| 0 <= j < k ==> #[trigger] devices@[j].product_id
                        != dev.product_id;
                    let c = choose|c: int| 0 <= c < devices@.len() && #[trigger] devices@[c].product_id == dev.product_id
                        && forall|j: int| 0 <= j < c ==> #[trigger] devices@[j].product_id != dev.product_id;
                    assert(c == k) by {
                        if c < k {
                            assert(devices@[c].product_id != dev.product_id);
                        } else if k < c {
                            assert(devices@[k].product_id != dev.product_id);
                        }
                    }
                }
            }
            return PrinterStatus {
                connected: Some(ConnectedPrinter { name: dev.name.clone(), product_id: dev.product_id, tape_mm }),
                needs_modeswitch: false,
            };
        }
        i = i + 1;
    }
    PrinterStatus { connected: None, needs_modeswitch: detected.len() > 0 }
}

/// How much blank tape follows a printed label.
#[derive(Clone, Copy, Debug, PartialEq, Eq, Structural)]
pub enum AutoFeed {
    /// No feed.
    NoFeed,
    /// Feed the label past the cutter.
    Cutter,
    /// Equal margins: twice the cutter distance, and at least enough for the
    /// label to reach the device's minimal length.
    Symmetric,
}

pub open spec fn spec_auto_feed(s: Seq<char>) -> AutoFeed {
    if s == "none"@ {
        AutoFeed::NoFeed
    } else if s == "cutter"@ {
        AutoFeed::Cutter
    } else {
        AutoFeed::Symmetric
    }
}

/// "none" and "cutter" select those modes; anything else is symmetric.
pub fn parse_auto_feed(s: &str) -> (m: AutoFeed)
    ensures
        m == spec_auto_feed(s@),
{
    if str_eq(s, "none") {
        AutoFeed::NoFeed
    } else if str_eq(s, "cutter") {
        AutoFeed::Cutter
    } else {
        AutoFeed::Symmetric
    }
}

/// Lines of blank tape to feed after a label of `image_lines` print lines.
pub open spec fn spec_feed_lines(mode: AutoFeed, image_lines: int, feed_lines_for_cut: int, minimal_autofeed_lines: int) -> int {
    match mode {
        AutoFeed::NoFeed => 0,
        AutoFeed::Cutter => feed_lines_for_cut,
        AutoFeed::Symmetric => {
            let min_feed = 2 * feed_lines_for_cut;
            let to_minimum = if minimal_autofeed_lines > image_lines {
                minimal_autofeed_lines - image_lines
            } else {
                0
            };
            if min_feed >= to_minimum {
                min_feed
            } else {
                to_minimum
            }
        },
    }
}

/// Blank lines to feed after a label (see `spec_feed_lines`).
pub fn feed_lines(mode: AutoFeed, image_lines: u16, feed_lines_for_cut: u16, minimal_autofeed_lines: u16) -> (n: u16)
    requires
        mode == AutoFeed::Symmetric ==> 2 * feed_lines_for_cut <= u16::MAX,
    ensures
        n == spec_feed_lines(mode, image_lines as int, feed_lines_for_cut as int, minimal_autofeed_lines as int),
        mode == AutoFeed::Symmetric ==> n >= 2 * feed_lines_for_cut && image_lines + n >= minimal_autofeed_lines,
{
    match mode {
        AutoFeed::NoFeed => 0,
        AutoFeed::Cutter => feed_lines_for_cut,
        AutoFeed::Symmetric => {
            let min_feed = 2 * feed_lines_for_cut;
            let to_minimum = minimal_autofeed_lines.saturating_sub(image_lines);
            if min_feed >= to_minimum {
                min_feed
            } else {
                to_minimum
            }
        },
    }
}

/// Print settings for a bitmap `height` pixels tall: one print line holds the
/// whole height, and the device's flow control and feed distances apply (with the
/// LabelManager PnP's values for an unknown device).
pub open spec fn print_settings_ok(job: PrintJob, cut: u16, minimum: u16, height: int, def: Option<DeviceDef>) -> bool {
    match def {
        Some(d) => {
            &&& job.bytes_per_line == ((height + 7) / 8) as u8
            &&& job.tape_color_id == 0
            &&& job.synwait == d.synwait
            &&& cut == d.feed_lines_for_cut
            &&& minimum == d.minimal_autofeed_lines
        },
        None => {
            &&& job.bytes_per_line == 8
            &&& job.tape_color_id == 0
            &&& job.synwait == 64
            &&& cut == 57
            &&& minimum == 180
        },
    }
}

/// The definition behind an optional reference.
pub open spec fn owned_def(def: Option<&DeviceDef>) -> Option<DeviceDef> {
    match def {
        Some(d) => Some(*d),
        None => None,
    }
}

fn print_settings(height: u32, def: Option<&DeviceDef>) -> (r: (PrintJob, u16, u16))
    ensures
        print_settings_ok(r.0, r.1, r.2, height as int, owned_def(def)),
{
    match def {
        Some(d) => {
            let bpl = ((height as u64 + 7) / 8) as u8;
            (PrintJob { bytes_per_line: bpl, tape_color_id: 0, synwait: d.synwait }, d.feed_lines_for_cut, d.minimal_autofeed_lines)
        },
        None => (PrintJob { bytes_per_line: 8, tape_color_id: 0, synwait: 64 }, 57, 180),
    }
}

/// The stream that prints `bitmap` (its columns as print lines) followed by the
/// blank feed that `auto_feed` asks for, and the number of feed lines.
pub fn print_stream(bitmap: &Bitmap1Bit, auto_feed: &str, def: Option<&DeviceDef>) -> (r: (Vec<u8>, u16))
    requires
        bitmap.wf(),
        spec_auto_feed(auto_feed@) == AutoFeed::Symmetric ==> match def {
            Some(d) => 2 * d.feed_lines_for_cut <= u16::MAX,
            None => true,
        },
    ensures
        exists|job: PrintJob, cut: u16, minimum: u16| #[trigger] print_settings_ok(
            job,
            cut,
            minimum,
            bitmap.height as int,
            owned_def(def),
        ) && r.1 == spec_feed_lines(spec_auto_feed(auto_feed@), bitmap.width as u16 as int, cut as int, minimum as int)
            && r.0@ == job.spec_encode(*bitmap) + if r.1 > 0 {
            job.spec_encode_feed(r.1 as int)
        } else {
            Seq::<u8>::empty()
        },
{
    let (job, cut, minimum) = print_settings(bitmap.height, def);
    let mut encoded = job.encode(bitmap);
    let mode = parse_auto_feed(auto_feed);
    let n = feed_lines(mode, bitmap.width as u16, cut, minimum);
    let ghost printed = encoded@;
    if n > 0 {
        let mut feed = job.encode_feed(n);
        encoded.append(&mut feed);
    }
    assert(print_settings_ok(job, cut, minimum, bitmap.height as int, owned_def(def)));
    (encoded, n)
}

/// The stream that feeds the tape past the cutter, and the number of lines fed:
/// a full-width print line per the device's widest tape (`tape_bytes_per_line`),
/// or the LabelManager PnP's settings for an unknown device.
pub fn feed_stream(def: Option<&DeviceDef>) -> (r: (Vec<u8>, u16))
    requires
        def matches Some(d) ==> 8 * d.max_tape_mm <= u8::MAX,
    ensures
        match def {
            Some(d) => {
                &&& r.1 == d.feed_lines_for_cut
                &&& r.0@ == (PrintJob { bytes_per_line: tape_bytes_per_line(d.max_tape_mm as int) as u8, tape_color_id: 0, synwait: d.synwait }).spec_encode_feed(
                    r.1 as int,
                )
            },
            None => {
                &&& r.1 == 57
                &&& r.0@ == (PrintJob { bytes_per_line: 8, tape_color_id: 0, synwait: 64 }).spec_encode_feed(57)
            },
        },
{
    let (job, lines) = match def {
        Some(d) => (PrintJob { bytes_per_line: bytes_per_line_for_tape(d.max_tape_mm), tape_color_id: 0, synwait: d.synwait }, d.feed_lines_for_cut),
        None => (PrintJob { bytes_per_line: 8, tape_color_id: 0, synwait: 64 }, 57u16),
    };
    (job.encode_feed(lines), lines)
}

/// The scale (clamped to 1..=5) and the height to render text at before scaling:
/// the target height divided by the scale, rounded up.
pub fn text_scale(height: u32, pixel_scale: u32) -> (r: (u32, u32))
    ensures
        r.0 == if pixel_scale < 1 {
            1
        } else if pixel_scale > 5 {
            5
        } else {
            pixel_scale
        },
        r.1 == (height + r.0 - 1) / (r.0 as int),
{
    let scale = if pixel_scale < 1 {
        1
    } else if pixel_scale > 5 {
        5
    } else {
        pixel_scale
    };
    let wide: u64 = (height as u64 + scale as u64 - 1) / scale as u64;
    assert(wide <= height) by (nonlinear_arith)
        requires
            1 <= scale,
            wide == (height + scale - 1) / (scale as int),
    ;
    let effective = wide as u32;
    (scale, effective)
}

/// Brings text rendered at reduced height back to the requested height: enlarged
/// by the scale and cut to `height` rows (unchanged at scale 1).
pub fn finish_text_bitmap(bmp: Bitmap1Bit, scale: u32, height: u32) -> (out: Bitmap1Bit)
    requires
        bmp.wf(),
        1 <= scale <= 5,
        scale > 1 ==> fits_bitmap(bmp.width * scale, bmp.height * scale) && bmp.height * scale <= u32::MAX,
    ensures
        scale == 1 ==> out == bmp,
        scale > 1 ==> {
            &&& out.wf()
            &&& out.width == bmp.width * scale
            &&& out.height == if height < bmp.height * scale {
                height as int
            } else {
                bmp.height * scale
            }
            &&& forall|x: int, y: int| #[trigger] out.pixel(x, y) == (0 <= x < out.width && 0 <= y < out.height && bmp.pixel(
                x / (scale as int),
                y / (scale as int),
            ))
        },
{
    if scale > 1 {
        let scaled = bmp.scale_nearest(scale);
        let cropped = scaled.crop_height(height);
        assert forall|x: int, y: int| #[trigger] cropped.pixel(x, y) == (0 <= x < cropped.width && 0 <= y < cropped.height
            && bmp.pixel(x / (scale as int), y / (scale as int))) by {
            assert(cropped.pixel(x, y) == (y < cropped.height && scaled.pixel(x, y)));
        }
        cropped
    } else {
        bmp
    }
}

} // verus!
