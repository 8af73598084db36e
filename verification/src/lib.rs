//! # term-icon
//!
//! Strictly verified single-cell (`CELL_WIDTH == 1`) Unicode icons for terminal
//! UIs, and the measurement pipeline that verifies them: PTY cursor-position
//! assertions plus pixel-level screenshot analysis on several platforms, joined
//! by an AND gate.
pub mod analyze;
pub mod catalog;
pub mod chart;
pub mod checks;
pub mod codegen;
pub mod depiction;
pub mod dsr;
pub mod export;
pub mod font5x7;
pub mod gallery;
pub mod geom;
pub mod grid;
pub mod harness;
pub mod listing;
pub mod manifest;
pub mod pass1;
pub mod raster;
pub mod ratatui_ext;
pub mod render;
pub mod runs;
pub mod schema;
pub mod sidecar;
pub mod sort;
pub mod sync;
pub mod text;
pub mod universal;
pub mod validate;
pub mod verdict;

use crate::text::{chars_of, text_of};
use vstd::prelude::*;

verus! {

/// A single-cell icon together with its ASCII fallback.
///
/// The glyph of a shipped icon is empirically verified to render inside one
/// character cell across all supported platform default terminals. A candidate
/// that expands to two cells or drifts into a neighbour cell is rejected by the
/// verification pipeline.
#[derive(Clone, Copy, Debug, PartialEq, Eq)]
pub struct SafeIcon {
    /// The verified single-cell glyph.
    pub glyph: &'static str,
    /// Plain-ASCII substitute for environments that need a conservative
    /// rendering path (logging, non-Unicode sinks, degraded fonts).
    pub fallback: &'static str,
}

impl SafeIcon {
    /// Verified render width of every exported glyph, in terminal cells.
    pub const CELL_WIDTH: u16 = 1;

    /// Create a `SafeIcon` from its glyph and fallback.
    pub fn new(glyph: &'static str, fallback: &'static str) -> (icon: Self)
        ensures
            icon.glyph@ == glyph@,
            icon.fallback@ == fallback@,
    {
        SafeIcon { glyph, fallback }
    }

    /// The fallback, or the glyph where there is none.
    pub open spec fn plain(self) -> Seq<char> {
        if self.fallback@.len() == 0 {
            self.glyph@
        } else {
            self.fallback@
        }
    }

    /// The ASCII fallback string; glyphs that are their own fallback have none
    /// and stand for themselves.
    pub fn fallback_or_glyph(&self) -> (text: &'static str)
        ensures
            text@ == self.plain(),
    {
        if self.fallback.is_empty() {
            self.glyph
        } else {
            self.fallback
        }
    }

    /// The icon as text: its glyph.
    pub fn to_string(&self) -> (s: String)
        ensures
            s@ == self.glyph@,
    {
        let c = chars_of(self.glyph);
        text_of(c.as_slice())
    }
}

} // verus!
