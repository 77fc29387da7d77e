//! Recognition of Dymo printers among the USB devices present.

use vstd::prelude::*;

verus! {

/// USB vendor ID of Dymo.
pub const DYMO_VENDOR_ID: u16 = 0x0922;

/// A recognised printer found on the bus.
#[derive(Debug, Clone)]
pub struct DetectedDevice {
    pub name: String,
    pub vendor_id: u16,
    pub product_id: u16,
    pub needs_modeswitch: bool,
}

/// The model name of a Dymo product ID and whether it is in mass-storage mode
/// (and so needs a mode switch before printing).
pub open spec fn product_model(product_id: u16) -> Option<(Seq<char>, bool)> {
    if product_id == 0x1001 {
        Some(("LabelManager PnP (storage mode)"@, true))
    } else if product_id == 0x1002 {
        Some(("LabelManager PnP"@, false))
    } else if product_id == 0x1003 {
        Some(("LabelManager 420P (storage mode)"@, true))
    } else if product_id == 0x1004 {
        Some(("LabelManager 420P"@, false))
    } else if product_id == 0x1005 {
        Some(("LabelManager 280 (storage mode)"@, true))
    } else if product_id == 0x1006 {
        Some(("LabelManager 280"@, false))
    } else if product_id == 0x1007 {
        Some(("LabelManager Wireless PnP (storage mode)"@, true))
    } else if product_id == 0x1008 {
        Some(("LabelManager Wireless PnP"@, false))
    } else if product_id == 0x0011 {
        Some(("LabelMANAGER PC"@, false))
    } else if product_id == 0x0015 {
        Some(("LabelPoint 350"@, false))
    } else {
        None
    }
}

/// Looks up a Dymo product ID (see `product_model`).
pub fn classify_product(product_id: u16) -> (r: Option<(&'static str, bool)>)
    ensures
        match product_model(product_id) {
            Some((name, storage)) => r matches Some(p) && p.0@ == name && p.1 == storage,
            None => r is None,
        },
{
    match product_id {
        0x1001 => Some(("LabelManager PnP (storage mode)", true)),
        0x1002 => Some(("LabelManager PnP", false)),
        0x1003 => Some(("LabelManager 420P (storage mode)", true)),
        0x1004 => Some(("LabelManager 420P", false)),
        0x1005 => Some(("LabelManager 280 (storage mode)", true)),
        0x1006 => Some(("LabelManager 280", false)),
        0x1007 => Some(("LabelManager Wireless PnP (storage mode)", true)),
        0x1008 => Some(("LabelManager Wireless PnP", false)),
        0x0011 => Some(("LabelMANAGER PC", false)),
        0x0015 => Some(("LabelPoint 350", false)),
        _ => None,
    }
}

/// The IDs of the printers in mass-storage mode: they need a mode switch before
/// printing.
pub open spec fn is_storage_mode_id(product_id: u16) -> bool {
    product_id == 0x1001 || product_id == 0x1003 || product_id == 0x1005 || product_id == 0x1007
}

/// Which products are recognised, and which of them need a mode switch: a detected
/// device needs one exactly when its product ID is a storage-mode ID (0x1001,
/// 0x1003, 0x1005, 0x1007); each of those is the product one below its
/// printer-mode ID and is named after it with " (storage mode)" added; the
/// recognised IDs are those, their printer-mode IDs, 0x0011 and 0x0015.
pub proof fn law_storage_mode_ids(product_id: u16, d: DetectedDevice, id: (u16, u16))
    ensures
        product_model(product_id) is Some <==> (is_storage_mode_id(product_id) || product_id == 0x1002 || product_id
            == 0x1004 || product_id == 0x1006 || product_id == 0x1008 || product_id == 0x0011 || product_id == 0x0015),
        product_model(product_id) matches Some(m) ==> (m.1 <==> is_storage_mode_id(product_id)),
        is_storage_mode_id(product_id) ==> (product_model(product_id) matches Some(s) && product_model(
            (product_id + 1) as u16,
        ) matches Some(p) && s.0 == p.0 + " (storage mode)"@),
        describes(d, id) ==> (d.needs_modeswitch <==> is_storage_mode_id(id.1)),
{
    reveal_strlit(" (storage mode)");
    reveal_strlit("LabelManager PnP (storage mode)");
    reveal_strlit("LabelManager PnP");
    reveal_strlit("LabelManager 420P (storage mode)");
    reveal_strlit("LabelManager 420P");
    reveal_strlit("LabelManager 280 (storage mode)");
    reveal_strlit("LabelManager 280");
    reveal_strlit("LabelManager Wireless PnP (storage mode)");
    reveal_strlit("LabelManager Wireless PnP");
    if is_storage_mode_id(product_id) {
        let s = product_model(product_id).unwrap().0;
        let p = product_model((product_id + 1) as u16).unwrap().0;
        assert(s =~= p + " (storage mode)"@);
    }
}

/// The bus entry (vendor, product) is a recognised Dymo printer.
pub open spec fn recognised(id: (u16, u16)) -> bool {
    id.0 == DYMO_VENDOR_ID && product_model(id.1) is Some
}

/// The recognised printers among `ids`, in bus order.
pub open spec fn recognised_ids(ids: Seq<(u16, u16)>) -> Seq<(u16, u16)>
    decreases ids.len(),
{
    if ids.len() == 0 {
        Seq::<(u16, u16)>::empty()
    } else {
        recognised_ids(ids.drop_last()) + if recognised(ids.last()) {
            seq![ids.last()]
        } else {
            Seq::<(u16, u16)>::empty()
        }
    }
}

/// `d` describes the recognised bus entry `id`.
pub open spec fn describes(d: DetectedDevice, id: (u16, u16)) -> bool {
    &&& d.vendor_id == id.0
    &&& d.product_id == id.1
    &&& product_model(id.1) matches Some(m) && d.name@ == m.0 && d.needs_modeswitch == m.1
}

/// The Dymo printers among the (vendor ID, product ID) pairs on the bus.
pub fn detect_devices(ids: &Vec<(u16, u16)>) -> (found: Vec<DetectedDevice>)
    ensures
        found@.len() == recognised_ids(ids@).len(),
        forall|k: int| 0 <= k < found@.len() ==> describes(#[trigger] found@[k], recognised_ids(ids@)[k]),
{
    let mut found: Vec<DetectedDevice> = Vec::new();
    for i in 0..ids.len()
        invariant
            found@.len() == recognised_ids(ids@.take(i as int)).len(),
            forall|k: int| 0 <= k < found@.len() ==> describes(#[trigger] found@[k], recognised_ids(ids@.take(i as int))[k]),
    {
        let (vendor_id, product_id) = ids[i];
        proof {
            assert(ids@.take(i + 1).drop_last() =~= ids@.take(i as int));
        }
        if vendor_id == DYMO_VENDOR_ID {
            match classify_product(product_id) {
                Some((name, needs_modeswitch)) => {
                    found.push(DetectedDevice { name: name.to_string(), vendor_id, product_id, needs_modeswitch });
                },
                None => {},
            }
        }
    }
    proof {
        assert(ids@.take(ids@.len() as int) =~= ids@);
    }
    found
}

/// Whether a Dymo device with the product ID is on the bus.
pub fn has_product(ids: &Vec<(u16, u16)>, product_id: u16) -> (b: bool)
    ensures
        b == exists|k: int| 0 <= k < ids@.len() && #[trigger] ids@[k] == (DYMO_VENDOR_ID, product_id),
{
    for i in 0..ids.len()
        invariant
            forall|k: int| 0 <= k < i ==> #[trigger] ids@[k] != (DYMO_VENDOR_ID, product_id),
    {
        if ids[i].0 == DYMO_VENDOR_ID && ids[i].1 == product_id {
            return true;
        }
    }
    false
}

} // verus!
