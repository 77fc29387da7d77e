//! Label (tape) definitions.

use vstd::prelude::*;

use crate::order::{lex_le, sort_by_name, sorted_by_name, with_name, Named};

verus! {

/// One tape type: its width and the colours used to preview it.
#[derive(Debug, Clone)]
pub struct LabelDef {
    pub name: String,
    pub tape_width_mm: u8,
    pub background_color: String,
    pub foreground_color: String,
    pub tape_type: Option<String>,
    pub dymo_tape_color_id: u8,
}

/// Default preview background: white.
pub fn default_bg() -> (s: String)
    ensures
        s@ == "#FFFFFF"@,
{
    "#FFFFFF".to_string()
}

/// Default preview foreground: black.
pub fn default_fg() -> (s: String)
    ensures
        s@ == "#000000"@,
{
    "#000000".to_string()
}

/// Bytes per print line for a tape `mm` millimetres wide: `8 * mm / 12`, rounded
/// up to whole bytes (6, 9, 12 and 19 mm tape: 4, 6, 8 and 13 bytes).
pub open spec fn tape_bytes_per_line(tape_width_mm: int) -> int {
    (8 * tape_width_mm + 11) / 12
}

/// Printable height in pixels of a tape `mm` millimetres wide: its bytes per
/// print line, eight pixels each (6, 9, 12 and 19 mm tape: 32, 48, 64 and 104 px).
pub open spec fn height_px_spec(tape_width_mm: int) -> int {
    tape_bytes_per_line(tape_width_mm) * 8
}

/// Bytes per print line for a tape `mm` millimetres wide (see `tape_bytes_per_line`).
pub fn bytes_per_line_for_tape(tape_width_mm: u8) -> (b: u8)
    ensures
        b == tape_bytes_per_line(tape_width_mm as int),
{
    ((8 * tape_width_mm as u32 + 11) / 12) as u8
}

impl LabelDef {
    /// Printable height in pixels for this tape width.
    pub fn height_px(&self) -> (h: u32)
        ensures
            h == height_px_spec(self.tape_width_mm as int),
    {
        let bytes_per_line = bytes_per_line_for_tape(self.tape_width_mm) as u32;
        bytes_per_line * 8
    }
}

impl Named for LabelDef {
    open spec fn name_key(&self) -> Seq<u8> {
        vstd::utf8::encode_utf8(self.name@)
    }

    fn name_bytes(&self) -> (b: &[u8]) {
        self.name.as_str().as_bytes()
    }
}

/// Orders loaded label definitions by name.
pub fn sort_labels(labels: Vec<LabelDef>) -> (sorted: Vec<LabelDef>)
    ensures
        sorted@.to_multiset() == labels@.to_multiset(),
        sorted_by_name(sorted@),
        forall|k: Seq<u8>| #[trigger] with_name(sorted@, k) == with_name(labels@, k),
        labels_in_name_order(sorted@),
{
    let sorted = sort_by_name(labels);
    proof {
        law_labels_in_name_order(sorted@);
    }
    sorted
}

/// The labels are in non-decreasing byte-lexicographic order of the UTF-8 bytes of
/// their whole names, the order of `String`'s `Ord`.
pub open spec fn labels_in_name_order(s: Seq<LabelDef>) -> bool {
    forall|i: int, j: int| 0 <= i < j < s.len() ==> lex_le(
        vstd::utf8::encode_utf8(#[trigger] s[i].name@),
        vstd::utf8::encode_utf8(#[trigger] s[j].name@),
    )
}

/// Labels sorted by name are ordered by their whole names, byte by byte.
pub proof fn law_labels_in_name_order(s: Seq<LabelDef>)
    requires
        sorted_by_name(s),
    ensures
        labels_in_name_order(s),
{
    assert forall|i: int, j: int| 0 <= i < j < s.len() implies lex_le(
        vstd::utf8::encode_utf8(#[trigger] s[i].name@),
        vstd::utf8::encode_utf8(#[trigger] s[j].name@),
    ) by {
        assert(lex_le(s[i].name_key(), s[j].name_key()));
    }
}

} // verus!
