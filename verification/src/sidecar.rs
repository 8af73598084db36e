//! Sidecar and Pass-1 report schemas (all coordinates 0-based page-relative).
use crate::catalog::Block;
use crate::pass1::DrainStats;
use vstd::prelude::*;

verus! {

/// Schema version of the sidecar contract.
pub const SCHEMA_VERSION: u32 = 1;

/// Pass-1 transport identifier recorded in every sidecar.
pub const PASS1_METHOD: &'static str = "batched-dsr";

/// Sentinel configuration of the anchor frame.
#[derive(Clone, Copy, Debug)]
pub struct Sentinels {
    /// Boundary bar.
    pub boundary: char,
    /// Left sentinel.
    pub left: char,
    /// Right sentinel.
    pub right: char,
}

/// Explicit SGR colors pinned by the harness before rendering.
#[derive(Clone, Copy, Debug)]
pub struct Colors {
    /// Light gray.
    pub fg: &'static str,
    /// Black.
    pub bg: &'static str,
}

/// One rendered line of the matrix.
#[derive(Clone, Debug)]
pub enum RowEntry {
    /// Reference row `| A B |` used by Pass 2 to calibrate cell geometry and to
    /// harvest the clean sentinel-B crop for the bleed check.
    Control {
        /// 0-based page.
        page: u32,
        /// 0-based page-relative row.
        page_row: u16,
    },
    /// A candidate under test.
    Candidate {
        /// Catalog id.
        id: String,
        /// Codepoint of the glyph.
        codepoint: u32,
        /// Owning block.
        block: Block,
        /// ASCII substitute.
        fallback: &'static str,
        /// 0-based page.
        page: u32,
        /// 0-based page-relative row.
        page_row: u16,
        /// Cursor column (1-based) expected after printing the frame when, and
        /// only when, the glyph renders exactly one cell wide.
        expected_end_col: u16,
    },
}

/// Sidecar describing the full render: what was printed where, and whether Pass
/// 1 ran at all. Consumed together with the per-page screenshots by the pixel
/// assertions.
#[derive(Clone, Debug)]
pub struct Sidecar {
    /// Version of this schema.
    pub schema_version: u32,
    /// Free-form platform label (e.g. `linux/xterm`).
    pub platform: String,
    /// Host emulator enum string (`wt | conhost | xterm | gnome-terminal |
    /// terminal-app`).
    pub host: String,
    /// Whether Pass 1 ran.
    pub pass1_support: bool,
    /// Pass-1 transport.
    pub pass1_method: &'static str,
    /// Sentinels of the anchor frame.
    pub sentinels: Sentinels,
    /// Colors of the render.
    pub colors: Colors,
    /// Rows per page including the control row.
    pub page_rows: u16,
    /// Number of pages.
    pub pages: u32,
    /// All lines, page by page.
    pub rows: Vec<RowEntry>,
}

/// Outcome of a single candidate's PTY-level assertion.
#[derive(Clone, Copy, Debug, PartialEq, Eq, Structural)]
pub enum Pass1Status {
    /// Cursor landed on the same row at the expected column: the glyph advanced
    /// by exactly one cell.
    Pass,
    /// Cursor landed further right or wrapped: the emulator expanded the glyph
    /// beyond one cell.
    Fail,
    /// No correlatable response arrived for this row (dropped report, timeout).
    Inconclusive,
}

/// Per-candidate Pass-1 result.
#[derive(Clone, Debug)]
pub struct Pass1Result {
    /// Catalog id.
    pub id: String,
    /// Codepoint of the glyph.
    pub codepoint: u32,
    /// 0-based page.
    pub page: u32,
    /// 0-based page-relative row.
    pub page_row: u16,
    /// Column that a one-cell glyph leads to.
    pub expected_end_col: u16,
    /// Column observed in the correlated DSR payload, if any.
    pub observed_col: Option<u16>,
    /// Outcome.
    pub status: Pass1Status,
}

/// Full Pass-1 report.
#[derive(Clone, Debug)]
pub struct Pass1Report {
    /// Whether Pass 1 ran.
    pub pass1_support: bool,
    /// Pass-1 transport.
    pub pass1_method: &'static str,
    /// One result per candidate, in sidecar order.
    pub results: Vec<Pass1Result>,
    /// Aggregate drain statistics for diagnostics.
    pub stats: DrainStats,
}

} // verus!
