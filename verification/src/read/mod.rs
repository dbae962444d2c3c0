//! Read mode: its configuration, how it is saved, and the decisions of the
//! scanning loop.
pub mod config;
pub mod scanner;

use vstd::prelude::*;
use vstd::string::StringExecFns;
use vstd::std_specs::convert::FromSpecImpl;
use vstd::std_specs::convert::FromSpec;
use crate::screen::CaptureRegion;

verus! {

/// The screen region to scan, as stored in the configuration.
#[derive(Debug, Clone, Copy)]
pub struct ScreenRegion {
    pub x: i32,
    pub y: i32,
    pub width: u32,
    pub height: u32,
}

/// A window position, as stored in the configuration.
#[derive(Debug, Clone, Copy)]
pub struct WindowPosition {
    pub x: i32,
    pub y: i32,
}

impl From<ScreenRegion> for CaptureRegion {
    fn from(s: ScreenRegion) -> (c: CaptureRegion) {
        CaptureRegion::new(s.x, s.y, s.width, s.height)
    }
}

impl FromSpecImpl<ScreenRegion> for CaptureRegion {
    open spec fn obeys_from_spec() -> bool {
        true
    }

    open spec fn from_spec(s: ScreenRegion) -> CaptureRegion {
        CaptureRegion { x: s.x, y: s.y, width: s.width, height: s.height }
    }
}

impl From<CaptureRegion> for ScreenRegion {
    fn from(c: CaptureRegion) -> (s: ScreenRegion) {
        ScreenRegion { x: c.x, y: c.y, width: c.width, height: c.height }
    }
}

impl FromSpecImpl<CaptureRegion> for ScreenRegion {
    open spec fn obeys_from_spec() -> bool {
        true
    }

    open spec fn from_spec(c: CaptureRegion) -> ScreenRegion {
        ScreenRegion { x: c.x, y: c.y, width: c.width, height: c.height }
    }
}

/// The program's settings (kept in `config.toml`).
#[derive(Debug, Clone)]
pub struct Config {
    pub region: Option<ScreenRegion>,
    pub scan_interval_ms: u64,
    pub hotkey_enabled: bool,
    pub log_enabled: bool,
    pub hotkey: String,
    pub generate_preset_index: usize,
    pub generate_interval_ms: u64,
    pub default_mode: Option<String>,
    pub generate_window_pos: Option<WindowPosition>,
    pub read_window_pos: Option<WindowPosition>,
    pub color_mode: bool,
}

impl Default for Config {
    fn default() -> (c: Self)
        ensures
            c.region is None,
            c.scan_interval_ms == 200,
            c.hotkey_enabled,
            c.log_enabled,
            c.hotkey@ == "Ctrl+Shift+V"@,
            c.generate_preset_index == 1,
            c.generate_interval_ms == 500,
            c.default_mode is None,
            c.generate_window_pos is None,
            c.read_window_pos is None,
            !c.color_mode,
    {
        Config {
            region: None,
            scan_interval_ms: 200,
            hotkey_enabled: true,
            log_enabled: true,
            hotkey: String::from_str("Ctrl+Shift+V"),
            generate_preset_index: 1,
            generate_interval_ms: 500,
            default_mode: None,
            generate_window_pos: None,
            read_window_pos: None,
            color_mode: false,
        }
    }
}

/// Converting a region to the configuration's form and back gives it back.
pub proof fn lemma_region_round_trip(c: CaptureRegion)
    ensures
        <CaptureRegion as FromSpec<ScreenRegion>>::from_spec(
            <ScreenRegion as FromSpec<CaptureRegion>>::from_spec(c),
        ) == c,
{
}

} // verus!
