//! Application settings and printer device definitions.

use vstd::prelude::*;

use crate::order::{lex_le, sort_by_name, sorted_by_name, with_name, Named};

verus! {

broadcast use vstd::seq_lib::group_to_multiset_ensures;

/// Global settings.
#[derive(Debug, Clone)]
pub struct AppConfig {
    pub default_label: Option<String>,
    pub default_canvas_width: u16,
    pub font_favourites: Vec<String>,
    pub load_system_fonts: bool,
}

/// Default canvas width in pixels.
pub fn default_canvas_width() -> (w: u16)
    ensures
        w == 200,
{
    200
}

/// System fonts are not scanned unless asked for.
pub fn default_load_system_fonts() -> (b: bool)
    ensures
        !b,
{
    false
}

impl Default for AppConfig {
    fn default() -> (c: Self)
        ensures
            c.default_label is None,
            c.default_canvas_width == 200,
            c.font_favourites@.len() == 0,
            !c.load_system_fonts,
    {
        AppConfig {
            default_label: None,
            default_canvas_width: default_canvas_width(),
            font_favourites: Vec::new(),
            load_system_fonts: default_load_system_fonts(),
        }
    }
}

/// A printer model, identified by its USB vendor and product IDs.
#[derive(Debug, Clone)]
pub struct DeviceDef {
    pub name: String,
    pub vendor_id: u16,
    pub product_id: u16,
    pub product_id_storage: Option<u16>,
    pub max_tape_mm: u8,
    pub dpi: u16,
    /// Lines between ESC-A sync commands (flow control interval).
    pub synwait: u16,
    pub feed_lines_for_cut: u16,
    pub minimal_autofeed_lines: u16,
}

/// Default print resolution.
pub fn default_dpi() -> (d: u16)
    ensures
        d == 180,
{
    180
}

/// Default flow-control interval in print lines.
pub fn default_synwait() -> (s: u16)
    ensures
        s == 64,
{
    64
}

/// Default shortest label, in print lines, that automatic feeding pads up to.
pub fn default_minimal_autofeed_lines() -> (n: u16)
    ensures
        n == 180,
{
    180
}

/// Default feed from print head to cutter, in print lines.
pub fn default_feed_lines_for_cut() -> (n: u16)
    ensures
        n == 57,
{
    57
}

/// The LabelManager PnP, used when no device definition is available.
pub open spec fn is_default_device(d: DeviceDef) -> bool {
    &&& d.name@ == "LabelManager PnP"@
    &&& d.vendor_id == 0x0922
    &&& d.product_id == 0x1002
    &&& d.product_id_storage == Some(0x1001u16)
    &&& d.max_tape_mm == 12
    &&& d.dpi == 180
    &&& d.synwait == 64
    &&& d.feed_lines_for_cut == 57
    &&& d.minimal_autofeed_lines == 180
}

/// The built-in LabelManager PnP definition.
pub fn default_device() -> (d: DeviceDef)
    ensures
        is_default_device(d),
{
    DeviceDef {
        name: "LabelManager PnP".to_string(),
        vendor_id: 0x0922,
        product_id: 0x1002,
        product_id_storage: Some(0x1001),
        max_tape_mm: 12,
        dpi: 180,
        synwait: 64,
        feed_lines_for_cut: 57,
        minimal_autofeed_lines: 180,
    }
}

impl Named for DeviceDef {
    open spec fn name_key(&self) -> Seq<u8> {
        vstd::utf8::encode_utf8(self.name@)
    }

    fn name_bytes(&self) -> (b: &[u8]) {
        self.name.as_str().as_bytes()
    }
}

/// The device list in use, given the definitions that were read: the built-in
/// default when none was, and in any case ordered by name.
pub fn finalize_devices(devices: Vec<DeviceDef>) -> (list: Vec<DeviceDef>)
    ensures
        devices@.len() > 0 ==> list@.to_multiset() == devices@.to_multiset(),
        devices@.len() > 0 ==> forall|k: Seq<u8>| #[trigger] with_name(list@, k) == with_name(devices@, k),
        devices@.len() == 0 ==> list@.len() == 1 && is_default_device(list@[0]),
        sorted_by_name(list@),
        devices_in_name_order(list@),
{
    let mut devices = devices;
    if devices.len() == 0 {
        devices.push(default_device());
        proof {
            assert(devices@.len() == 1);
        }
    }
    let ghost before = devices@;
    let sorted = sort_by_name(devices);
    proof {
        law_devices_in_name_order(sorted@);
    }
    proof {
        if before.len() == 1 {
            assert(sorted@.len() == sorted@.to_multiset().len());
            assert(sorted@.len() == 1);
            assert(before.to_multiset().count(sorted@[0]) > 0);
            assert(before.contains(sorted@[0]));
        }
    }
    sorted
}

/// The devices are in non-decreasing byte-lexicographic order of the UTF-8 bytes
/// of their whole names, the order of `String`'s `Ord`.
pub open spec fn devices_in_name_order(s: Seq<DeviceDef>) -> bool {
    forall|i: int, j: int| 0 <= i < j < s.len() ==> lex_le(
        vstd::utf8::encode_utf8(#[trigger] s[i].name@),
        vstd::utf8::encode_utf8(#[trigger] s[j].name@),
    )
}

/// Devices sorted by name are ordered by their whole names, byte by byte.
pub proof fn law_devices_in_name_order(s: Seq<DeviceDef>)
    requires
        sorted_by_name(s),
    ensures
        devices_in_name_order(s),
{
    assert forall|i: int, j: int| 0 <= i < j < s.len() implies lex_le(
        vstd::utf8::encode_utf8(#[trigger] s[i].name@),
        vstd::utf8::encode_utf8(#[trigger] s[j].name@),
    ) by {
        assert(lex_le(s[i].name_key(), s[j].name_key()));
    }
}

} // verus!
