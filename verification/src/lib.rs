//! Label engine and printer protocol for the Dymo LabelManager family.

pub mod api;
pub mod config;
pub mod engine;
pub mod label;
pub mod order;
pub mod usb;

use vstd::prelude::*;

use crate::config::{AppConfig, DeviceDef};
use crate::engine::text::FontStore;
use crate::label::LabelDef;

verus! {

/// Everything the server holds between requests: the settings, the known
/// printer models, the tape definitions and the installed fonts.
pub struct AppState {
    pub config: AppConfig,
    pub devices: Vec<DeviceDef>,
    pub labels: Vec<LabelDef>,
    pub fonts: FontStore,
}

} // verus!
