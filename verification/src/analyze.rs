//! Page analysis: from captured pages to platform verdicts.
//!
//! The application opens the page images and hands them over one after the
//! other; [`Assessment`] keeps what has come of them, and turns it into the
//! report at the end.
use crate::checks::{
    bleed, box_mask, check_bleed, check_visibility, crop_mask, default_thresholds, visibility,
    BleedVerdict, Thresholds,
};
use crate::geom::{
    background, bar_end, bar_high, bar_low, bar_start, calibrate, calibrated_cells_lie_inside,
    cleaned, control_calibration, estimate_background, find_text_bands, found_bands, grid_bands,
    grid_bands_are_the_tightest_window, select_grid_bands, strip_ink, suppress_structural_lines,
    Band, Calibration, FgModel, GeometryError,
};
use crate::listing::{lemma_listing, lemma_same_listing, listing, lists};
use crate::raster::{Gray, GrayImage};
use crate::runs::{spans, spans_are_maximal_runs};
use crate::schema::{
    entries, page_entries, Pass1Report, Pass1Result, Pass1Status, RowEntry, Sidecar,
};
use crate::text::{decimal, push_number, push_str, same_text, text_of};
use crate::verdict::{
    merge, merged, status_text, verdict_views, Verdict, VerdictReport, VerdictView,
};
use vstd::prelude::*;

verus! {

/// Luminance distance from the background that counts as ink.
pub const INK_DELTA: u8 = 60;

/// Grid column of the icon.
pub const ICON_COL: u16 = 3;

/// Grid column of sentinel B.
pub const B_COL: u16 = 4;

/// The foreground model of a capture.
pub open spec fn model_spec(g: Gray) -> FgModel {
    FgModel { bg: background(g.data), delta: INK_DELTA }
}

/// The foreground model of a capture: its modal luminance is the background.
pub fn model_of(gray: &GrayImage) -> (m: FgModel)
    ensures
        m == model_spec(gray@),
{
    FgModel { bg: estimate_background(gray), delta: INK_DELTA }
}

// ---------------------------------------------------------------------------
// Geometry of a page
// ---------------------------------------------------------------------------
/// The bands of a page with `expected` rows.
pub open spec fn page_bands(g: Gray, m: FgModel, expected: usize) -> Seq<Band> {
    grid_bands(found_bands(g, m, expected), expected as int)
}

/// All bands lie inside the image.
pub open spec fn bands_inside(b: Seq<Band>, height: u32) -> bool {
    forall|i: int|
        0 <= i < b.len() ==> (#[trigger] b[i]).top <= b[i].bottom && b[i].bottom < height
}

/// Place of the control row: that of the page's first row.
pub open spec fn control_place(rows: Seq<RowEntry>) -> int {
    if rows.len() == 0 {
        0
    } else {
        rows[0].page_row_spec() as int
    }
}

/// Calibration of a page from its control band.
pub open spec fn page_calibration(
    g: Gray,
    m: FgModel,
    bands: Seq<Band>,
    rows: Seq<RowEntry>,
) -> Result<Calibration, GeometryError> {
    if control_place(rows) >= bands.len() {
        Err(GeometryError::MissingBars)
    } else {
        control_calibration(g, m, bands[control_place(rows)])
    }
}

/// Geometry of a page: as many bands as rows, and a calibrated control band.
pub open spec fn geometry(g: Gray, m: FgModel, rows: Seq<RowEntry>) -> Result<
    (Calibration, Seq<Band>),
    GeometryError,
> {
    let bands = page_bands(g, m, rows.len() as usize);
    if bands.len() != rows.len() {
        Err(
            GeometryError::BandMismatch {
                found: bands.len() as usize,
                expected: rows.len() as usize,
            },
        )
    } else {
        match page_calibration(g, m, bands, rows) {
            Ok(cal) => Ok((cal, bands)),
            Err(e) => Err(e),
        }
    }
}

fn find_bands(gray: &GrayImage, model: &FgModel, expected: usize) -> (bands: Vec<Band>)
    requires
        gray.wf(),
    ensures
        bands@ == page_bands(gray@, *model, expected),
        bands_inside(bands@, gray.height),
{
    let found = find_text_bands(gray, model, expected);
    let bands = select_grid_bands(found.as_slice(), expected);
    assert forall|i: int| 0 <= i < bands@.len() implies (#[trigger] bands@[i]).top
        <= bands@[i].bottom && bands@[i].bottom < gray.height by {
        assert(found@.contains(bands@[i]));
        let j = choose|j: int| 0 <= j < found@.len() && found@[j] == bands@[i];
        assert(found@[j].top <= found@[j].bottom);
    }
    bands
}

fn calibrate_page(gray: &GrayImage, model: &FgModel, bands: &[Band], rows: &[&RowEntry]) -> (out:
    Result<Calibration, GeometryError>)
    requires
        gray.wf(),
        bands_inside(bands@, gray.height),
    ensures
        out == page_calibration(gray@, *model, bands@, entries(rows@)),
{
    let place: usize = if rows.len() == 0 {
        0
    } else {
        rows[0].page_row() as usize
    };
    assert(rows@.len() > 0 ==> entries(rows@)[0] == *rows@[0]);
    if place >= bands.len() {
        return Err(GeometryError::MissingBars);
    }
    calibrate(gray, model, &bands[place])
}

/// Locates the rows of a page and calibrates its grid.
pub fn page_geometry(gray: &GrayImage, model: &FgModel, rows: &[&RowEntry]) -> (out: Result<
    (Calibration, Vec<Band>),
    GeometryError,
>)
    requires
        gray.wf(),
    ensures
        match out {
            Ok(v) => geometry(gray@, *model, entries(rows@)) == Ok::<_, GeometryError>(
                (v.0, v.1@),
            ) && bands_inside(v.1@, gray.height),
            Err(e) => geometry(gray@, *model, entries(rows@)) == Err::<
                (Calibration, Seq<Band>),
                GeometryError,
            >(e),
        },
{
    let n = rows.len();
    let bands = find_bands(gray, model, n);
    if bands.len() != n {
        return Err(GeometryError::BandMismatch { found: bands.len(), expected: n });
    }
    match calibrate_page(gray, model, bands.as_slice(), rows) {
        Ok(cal) => Ok((cal, bands)),
        Err(e) => Err(e),
    }
}

// ---------------------------------------------------------------------------
// Assertions on a page
// ---------------------------------------------------------------------------
/// One analyzed row of a page.
#[derive(Clone, Copy, Debug)]
pub struct RowOutcome<'a> {
    /// The row.
    pub entry: &'a RowEntry,
    /// Whether the icon is visible.
    pub visible: bool,
    /// Whether nothing bled into sentinel B.
    pub no_bleed: bool,
}

/// Visibility and isolation of a row. The control row has both.
pub open spec fn outcome(
    g: Gray,
    m: FgModel,
    cal: Calibration,
    bands: Seq<Band>,
    reference_b: Seq<bool>,
    row: RowEntry,
) -> (bool, bool) {
    match row {
        RowEntry::Control { .. } => (true, true),
        RowEntry::Candidate { block, page_row, .. } => {
            let band = bands[page_row as int];
            let t = default_thresholds();
            (
                visibility(g, m, cal.crop(ICON_COL as int, band), block, t) is Ok,
                bleed(g, m, cal, band, reference_b, t) == BleedVerdict::Clean,
            )
        },
    }
}

/// Sentinel B of the control row, as every candidate's is to look.
pub open spec fn reference_mask(g: Gray, m: FgModel, cal: Calibration, control: Band) -> Seq<bool> {
    box_mask(g, m, cal.crop(B_COL as int, control))
}

/// Every candidate row has a band.
pub open spec fn rows_have_bands(rows: Seq<RowEntry>, bands: nat) -> bool {
    forall|i: int|
        0 <= i < rows.len() && (#[trigger] rows[i]) is Candidate ==> rows[i].page_row_spec() < bands
}

/// Every candidate row of a page whose geometry is found has a band.
pub open spec fn rows_fit(g: Gray, rows: Seq<RowEntry>) -> bool {
    geometry(cleaned(g, model_spec(g)), model_spec(g), rows) is Ok ==> rows_have_bands(
        rows,
        rows.len(),
    )
}

/// The outcomes are those of the rows.
pub open spec fn are_outcomes(
    v: Seq<RowOutcome>,
    g: Gray,
    m: FgModel,
    cal: Calibration,
    bands: Seq<Band>,
    rows: Seq<RowEntry>,
) -> bool {
    let reference = reference_mask(g, m, cal, bands[control_place(rows)]);
    &&& v.len() == rows.len()
    &&& forall|i: int|
        0 <= i < v.len() ==> *(#[trigger] v[i]).entry == rows[i] && (v[i].visible, v[i].no_bleed)
            == outcome(g, m, cal, bands, reference, rows[i])
}

/// Calibrate once from the control band, then assert every candidate row
/// through fixed-grid slicing.
pub fn analyze_page<'a>(
    gray: &GrayImage,
    model: &FgModel,
    bands: &[Band],
    expected_rows: &[&'a RowEntry],
) -> (out: Result<(Calibration, Vec<RowOutcome<'a>>), GeometryError>)
    requires
        gray.wf(),
        bands_inside(bands@, gray.height),
        page_calibration(gray@, *model, bands@, entries(expected_rows@)) is Ok ==> rows_have_bands(
            entries(expected_rows@),
            bands@.len(),
        ),
    ensures
        match page_calibration(gray@, *model, bands@, entries(expected_rows@)) {
            Ok(cal) => out is Ok && out->Ok_0.0 == cal && are_outcomes(
                out->Ok_0.1@,
                gray@,
                *model,
                cal,
                bands@,
                entries(expected_rows@),
            ),
            Err(e) => out is Err && out->Err_0 == e,
        },
{
    let ghost rows = entries(expected_rows@);
    let cal = match calibrate_page(gray, model, bands, expected_rows) {
        Ok(cal) => cal,
        Err(e) => {
            return Err(e);
        },
    };
    let place: usize = if expected_rows.len() == 0 {
        0
    } else {
        expected_rows[0].page_row() as usize
    };
    let ghost control = bands@[control_place(rows)];
    proof {
        assert(expected_rows@.len() > 0 ==> rows[0] == *expected_rows@[0]);
        calibrated_cells_lie_inside(gray@, *model, control, cal, ICON_COL as int, 7);
    }
    let reference_b = crop_mask(gray, model, &cal.cell_box(B_COL, &bands[place]));
    let t = Thresholds::default();
    let mut out: Vec<RowOutcome<'a>> = Vec::new();
    for i in 0..expected_rows.len()
        invariant
            gray.wf(),
            cal.wf(),
            0 <= cal.pixel(ICON_COL as int, 7) < u32::MAX,
            bands_inside(bands@, gray.height),
            rows == entries(expected_rows@),
            rows_have_bands(rows, bands@.len()),
            t == default_thresholds(),
            reference_b@ == reference_mask(gray@, *model, cal, bands@[control_place(rows)]),
            out@.len() == i,
            forall|j: int|
                0 <= j < i ==> *(#[trigger] out@[j]).entry == rows[j] && (
                    out@[j].visible,
                    out@[j].no_bleed,
                ) == outcome(gray@, *model, cal, bands@, reference_b@, rows[j]),
    {
        let row = expected_rows[i];
        assert(*row == rows[i as int]);
        match row {
            RowEntry::Control { .. } => {
                out.push(RowOutcome { entry: row, visible: true, no_bleed: true });
            },
            RowEntry::Candidate { block, page_row, .. } => {
                assert(rows[i as int] is Candidate);
                let band = &bands[*page_row as usize];
                let icon_box = cal.cell_box(ICON_COL, band);
                let visible = check_visibility(gray, model, &icon_box, *block, &t).is_ok();
                let no_bleed = check_bleed(gray, model, &cal, band, reference_b.as_slice(), &t)
                    == BleedVerdict::Clean;
                out.push(RowOutcome { entry: row, visible, no_bleed });
            },
        }
    }
    Ok((cal, out))
}

// ---------------------------------------------------------------------------
// Verdicts of a page
// ---------------------------------------------------------------------------
/// Pass-1 status of a candidate: that of its last result, or inconclusive.
pub open spec fn status_for(results: Seq<Pass1Result>, id: Seq<char>) -> Pass1Status
    decreases results.len(),
{
    if results.len() == 0 {
        Pass1Status::Inconclusive
    } else if results.last().id@ == id {
        results.last().status
    } else {
        status_for(results.drop_last(), id)
    }
}

fn find_status(results: &[Pass1Result], id: &str) -> (s: Pass1Status)
    ensures
        s == status_for(results@, id@),
{
    let mut n = results.len();
    assert(results@.take(n as int) =~= results@);
    while n > 0
        invariant
            n <= results@.len(),
            status_for(results@, id@) == status_for(results@.take(n as int), id@),
        decreases n,
    {
        assert(results@.take(n as int).drop_last() =~= results@.take(n - 1));
        if same_text(results[n - 1].id.as_str(), id) {
            return results[n - 1].status;
        }
        n -= 1;
    }
    Pass1Status::Inconclusive
}

/// The verdicts of the candidate rows of a page, in order.
pub open spec fn page_verdicts(
    g: Gray,
    m: FgModel,
    cal: Calibration,
    bands: Seq<Band>,
    reference_b: Seq<bool>,
    rows: Seq<RowEntry>,
    results: Seq<Pass1Result>,
) -> Seq<VerdictView>
    decreases rows.len(),
{
    if rows.len() == 0 {
        seq![]
    } else {
        let init = page_verdicts(g, m, cal, bands, reference_b, rows.drop_last(), results);
        match rows.last() {
            RowEntry::Control { .. } => init,
            RowEntry::Candidate { id, codepoint, .. } => {
                let o = outcome(g, m, cal, bands, reference_b, rows.last());
                init.push(merged(id@, codepoint, status_for(results, id@), o.0, o.1))
            },
        }
    }
}

/// The verdicts of a capture that could not be analyzed: every candidate fails.
pub open spec fn closed_verdicts(rows: Seq<RowEntry>) -> Seq<VerdictView>
    decreases rows.len(),
{
    if rows.len() == 0 {
        seq![]
    } else {
        match rows.last() {
            RowEntry::Control { .. } => closed_verdicts(rows.drop_last()),
            RowEntry::Candidate { id, codepoint, .. } => closed_verdicts(rows.drop_last()).push(
                merged(id@, codepoint, Pass1Status::Inconclusive, false, false),
            ),
        }
    }
}

fn fail_closed(rows: &[RowEntry]) -> (out: Vec<Verdict>)
    ensures
        verdict_views(out@) == closed_verdicts(rows@),
{
    let mut out: Vec<Verdict> = Vec::new();
    assert(verdict_views(out@) =~= seq![]);
    for i in 0..rows.len()
        invariant
            verdict_views(out@) == closed_verdicts(rows@.take(i as int)),
    {
        proof {
            assert(rows@.take(i + 1).drop_last() =~= rows@.take(i as int));
            assert(rows@.take(i + 1).last() == rows@[i as int]);
        }
        if let RowEntry::Candidate { id, codepoint, .. } = &rows[i] {
            let ghost before = out@;
            let v = merge(id.as_str(), *codepoint, Pass1Status::Inconclusive, false, false);
            out.push(v);
            assert(verdict_views(out@) =~= verdict_views(before).push(v@));
        }
    }
    assert(rows@.take(rows@.len() as int) =~= rows@);
    out
}

// ---------------------------------------------------------------------------
// Messages
// ---------------------------------------------------------------------------
/// The name of a geometry failure, with its numbers.
pub open spec fn error_text(e: GeometryError) -> Seq<char> {
    match e {
        GeometryError::MissingBars => "MissingBars"@,
        GeometryError::BarsTooWide => "BarsTooWide"@,
        GeometryError::ImplausiblePitch => "ImplausiblePitch"@,
        GeometryError::SentinelSpacingMismatch => "SentinelSpacingMismatch"@,
        GeometryError::BandMismatch { found, expected } => "BandMismatch { found: "@ + decimal(
            found as nat,
        ) + ", expected: "@ + decimal(expected as nat) + " }"@,
    }
}

fn push_error(out: &mut Vec<char>, e: &GeometryError)
    ensures
        final(out)@ == old(out)@ + error_text(*e),
{
    match e {
        GeometryError::MissingBars => push_str(out, "MissingBars"),
        GeometryError::BarsTooWide => push_str(out, "BarsTooWide"),
        GeometryError::ImplausiblePitch => push_str(out, "ImplausiblePitch"),
        GeometryError::SentinelSpacingMismatch => push_str(out, "SentinelSpacingMismatch"),
        GeometryError::BandMismatch { found, expected } => {
            push_str(out, "BandMismatch { found: ");
            push_number(out, *found as u64);
            push_str(out, ", expected: ");
            push_number(out, *expected as u64);
            push_str(out, " }");
        },
    }
    assert(out@ =~= old(out)@ + error_text(*e));
}

/// The geometry failure in words.
pub fn error_message(e: &GeometryError) -> (s: String)
    ensures
        s@ == error_text(*e),
{
    let mut out: Vec<char> = Vec::new();
    push_error(&mut out, e);
    assert(out@ =~= error_text(*e));
    text_of(out.as_slice())
}

/// What every structural failure begins with.
pub open spec fn page_prefix(page: u32) -> Seq<char> {
    "page "@ + decimal(page as nat) + ": "@
}

/// A capture that was found implausible.
pub open spec fn implausible_text(page: u32, stats: Seq<char>) -> Seq<char> {
    page_prefix(page) + "implausible capture ("@ + stats + ")"@
}

/// A page whose geometry failed.
pub open spec fn geometry_text(page: u32, e: GeometryError) -> Seq<char> {
    match e {
        GeometryError::BandMismatch { found, expected } => page_prefix(page) + decimal(
            found as nat,
        ) + " text bands rendered but sidecar declares "@ + decimal(expected as nat) + " rows"@,
        _ => page_prefix(page) + "calibration failed: "@ + error_text(e),
    }
}

fn push_prefix(out: &mut Vec<char>, page: u32)
    ensures
        final(out)@ == old(out)@ + page_prefix(page),
{
    push_str(out, "page ");
    push_number(out, page as u64);
    push_str(out, ": ");
    assert(out@ =~= old(out)@ + page_prefix(page));
}

fn implausible_message(page: u32, stats: &str) -> (s: String)
    ensures
        s@ == implausible_text(page, stats@),
{
    let mut out: Vec<char> = Vec::new();
    push_prefix(&mut out, page);
    push_str(&mut out, "implausible capture (");
    push_str(&mut out, stats);
    push_str(&mut out, ")");
    assert(out@ =~= implausible_text(page, stats@));
    text_of(out.as_slice())
}

fn geometry_message(page: u32, e: &GeometryError) -> (s: String)
    ensures
        s@ == geometry_text(page, *e),
{
    let mut out: Vec<char> = Vec::new();
    push_prefix(&mut out, page);
    match e {
        GeometryError::BandMismatch { found, expected } => {
            push_number(&mut out, *found as u64);
            push_str(&mut out, " text bands rendered but sidecar declares ");
            push_number(&mut out, *expected as u64);
            push_str(&mut out, " rows");
        },
        _ => {
            push_str(&mut out, "calibration failed: ");
            push_error(&mut out, e);
        },
    }
    assert(out@ =~= geometry_text(page, *e));
    text_of(out.as_slice())
}

// ---------------------------------------------------------------------------
// The run
// ---------------------------------------------------------------------------
/// What has come of the pages so far.
#[derive(Debug)]
pub struct Assessment {
    /// The last structural failure.
    pub structural_fail: Option<String>,
    /// The verdicts of the pages that could be analyzed.
    pub verdicts: Vec<Verdict>,
}

/// An assessment with its texts taken as characters.
#[verifier::ext_equal]
pub ghost struct AssessmentView {
    /// The last structural failure.
    pub fail: Option<Seq<char>>,
    /// The verdicts so far.
    pub verdicts: Seq<VerdictView>,
}

/// An optional text as characters.
pub open spec fn opt_view(s: Option<String>) -> Option<Seq<char>> {
    match s {
        None => None,
        Some(t) => Some(t@),
    }
}

/// What one page adds. A broken capture must fail loudly before it can
/// masquerade as thousands of glyph failures, so the first implausible page is
/// not analyzed; once a failure is recorded, plausibility is no longer asked for.
pub open spec fn after_page(
    st: AssessmentView,
    page: u32,
    g: Gray,
    plausible: bool,
    stats: Seq<char>,
    all_rows: Seq<RowEntry>,
    results: Seq<Pass1Result>,
) -> AssessmentView {
    if st.fail is None && !plausible {
        AssessmentView { fail: Some(implausible_text(page, stats)), ..st }
    } else {
        let m = model_spec(g);
        let clean = cleaned(g, m);
        let rows = page_entries(all_rows, page);
        match geometry(clean, m, rows) {
            Err(e) => AssessmentView { fail: Some(geometry_text(page, e)), ..st },
            Ok(v) => AssessmentView {
                verdicts: st.verdicts + page_verdicts(
                    clean,
                    m,
                    v.0,
                    v.1,
                    reference_mask(clean, m, v.0, v.1[control_place(rows)]),
                    rows,
                    results,
                ),
                ..st
            },
        }
    }
}

impl Assessment {
    /// The assessment with its texts taken as characters.
    pub open spec fn view(&self) -> AssessmentView {
        AssessmentView {
            fail: opt_view(self.structural_fail),
            verdicts: verdict_views(self.verdicts@),
        }
    }

    /// No page seen yet.
    pub fn new() -> (a: Self)
        ensures
            a@ == (AssessmentView { fail: None, verdicts: seq![] }),
    {
        let a = Assessment { structural_fail: None, verdicts: Vec::new() };
        assert(a@.verdicts =~= seq![]);
        a
    }

    /// Takes one page. `plausible` and `stats` are what the capture gate found:
    /// its verdict, and the statistics in words.
    pub fn take_page(
        &mut self,
        page: u32,
        gray: &GrayImage,
        plausible: bool,
        stats: &str,
        sidecar: &Sidecar,
        pass1: &Pass1Report,
    )
        requires
            gray.wf(),
            old(self)@.fail is None && !plausible || rows_fit(
                gray@,
                page_entries(sidecar.rows@, page),
            ),
        ensures
            final(self)@ == after_page(
                old(self)@,
                page,
                gray@,
                plausible,
                stats@,
                sidecar.rows@,
                pass1.results@,
            ),
    {
        if self.structural_fail.is_none() && !plausible {
            self.structural_fail = Some(implausible_message(page, stats));
            return;
        }
        let model = model_of(gray);
        let clean = suppress_structural_lines(gray, &model);
        let expected = sidecar.rows_for_page(page);
        let ghost rows = page_entries(sidecar.rows@, page);
        let (bands, n) = (find_bands(&clean, &model, expected.len()), expected.len());
        assert(rows.len() == n);
        if bands.len() != n {
            let e = GeometryError::BandMismatch { found: bands.len(), expected: n };
            self.structural_fail = Some(geometry_message(page, &e));
            return;
        }
        match analyze_page(&clean, &model, bands.as_slice(), expected.as_slice()) {
            Ok((cal, outcomes)) => {
                let ghost reference = reference_mask(
                    clean@,
                    model,
                    cal,
                    bands@[control_place(rows)],
                );
                let ghost st = old(self)@;
                proof {
                    assert(self@.verdicts =~= st.verdicts + page_verdicts(
                        clean@,
                        model,
                        cal,
                        bands@,
                        reference,
                        rows.take(0),
                        pass1.results@,
                    ));
                }
                for i in 0..outcomes.len()
                    invariant
                        st == old(self)@,
                        self.structural_fail == old(self).structural_fail,
                        are_outcomes(outcomes@, clean@, model, cal, bands@, rows),
                        reference == reference_mask(
                            clean@,
                            model,
                            cal,
                            bands@[control_place(rows)],
                        ),
                        self@.verdicts == st.verdicts + page_verdicts(
                            clean@,
                            model,
                            cal,
                            bands@,
                            reference,
                            rows.take(i as int),
                            pass1.results@,
                        ),
                {
                    let o = &outcomes[i];
                    let ghost before = self@.verdicts;
                    proof {
                        assert(*outcomes@[i as int].entry == rows[i as int]);
                        assert(rows.take(i + 1).drop_last() =~= rows.take(i as int));
                        assert(rows.take(i + 1).last() == rows[i as int]);
                    }
                    if let RowEntry::Candidate { id, codepoint, .. } = o.entry {
                        let status = find_status(pass1.results.as_slice(), id.as_str());
                        let v = merge(id.as_str(), *codepoint, status, o.visible, o.no_bleed);
                        self.verdicts.push(v);
                        assert(self@.verdicts =~= before.push(v@));
                    }
                    assert(self@.verdicts =~= st.verdicts + page_verdicts(
                        clean@,
                        model,
                        cal,
                        bands@,
                        reference,
                        rows.take(i + 1),
                        pass1.results@,
                    ));
                }
                assert(rows.take(rows.len() as int) =~= rows);
            },
            Err(e) => {
                proof {
                    lemma_calibration_never_mismatches(clean@, model, bands@, rows, e);
                }
                self.structural_fail = Some(geometry_message(page, &e));
            },
        }
    }

    /// The report. A structural failure fails every candidate.
    pub fn finish(self, sidecar: &Sidecar, pass1: &Pass1Report) -> (report: VerdictReport)
        ensures
            is_report(report, self@, *sidecar, *pass1),
    {
        let failed = self.structural_fail.is_some();
        let results = if failed {
            fail_closed(sidecar.rows.as_slice())
        } else {
            self.verdicts
        };
        VerdictReport {
            schema_version: 1,
            platform: sidecar.platform.clone(),
            host: sidecar.host.clone(),
            pass1_support: pass1.pass1_support && !failed,
            structural_fail: self.structural_fail,
            results,
        }
    }
}

/// Calibrating never ends in a band mismatch.
proof fn lemma_calibration_never_mismatches(
    g: Gray,
    m: FgModel,
    bands: Seq<Band>,
    rows: Seq<RowEntry>,
    e: GeometryError,
)
    requires
        page_calibration(g, m, bands, rows) == Err::<Calibration, GeometryError>(e),
    ensures
        !(e is BandMismatch),
{
}

/// The report of an assessment.
pub open spec fn is_report(
    r: VerdictReport,
    st: AssessmentView,
    sidecar: Sidecar,
    pass1: Pass1Report,
) -> bool {
    &&& r.schema_version == 1
    &&& r.platform@ == sidecar.platform@
    &&& r.host@ == sidecar.host@
    &&& r.pass1_support == (pass1.pass1_support && st.fail is None)
    &&& opt_view(r.structural_fail) == st.fail
    &&& verdict_views(r.results@) == (if st.fail is Some {
        closed_verdicts(sidecar.rows@)
    } else {
        st.verdicts
    })
}

/// Whether every candidate of the report passes.
pub fn all_pass(report: &VerdictReport) -> (ok: bool)
    ensures
        ok == (report.structural_fail is None && report.passing().len() == report.results@.len()),
{
    report.structural_fail.is_none() && report.passing_ids().len() == report.results.len()
}

/// What a finished run prints.
pub fn summary_line(report: &VerdictReport) -> (s: String)
    ensures
        s@ == "verdicts: "@ + decimal(report.passing().len()) + "/"@ + decimal(
            report.results@.len(),
        ) + " candidates pass"@ + (if report.structural_fail is Some {
            " [STRUCTURAL FAIL]"@
        } else {
            ""@
        }),
{
    let mut out: Vec<char> = Vec::new();
    push_str(&mut out, "verdicts: ");
    push_number(&mut out, report.passing_ids().len() as u64);
    push_str(&mut out, "/");
    push_number(&mut out, report.results.len() as u64);
    push_str(&mut out, " candidates pass");
    push_str(
        &mut out,
        if report.structural_fail.is_some() {
            " [STRUCTURAL FAIL]"
        } else {
            ""
        },
    );
    text_of(out.as_slice())
}

/// Checks that there is one image per page.
pub fn check_page_count(pages: u32, images: usize) -> (out: Result<(), String>)
    ensures
        match out {
            Ok(()) => images == pages,
            Err(s) => images != pages && s@ == "expected "@ + decimal(pages as nat)
                + " page images, got "@ + decimal(images as nat),
        },
{
    if images as u64 == pages as u64 {
        return Ok(());
    }
    let mut out: Vec<char> = Vec::new();
    push_str(&mut out, "expected ");
    push_number(&mut out, pages as u64);
    push_str(&mut out, " page images, got ");
    push_number(&mut out, images as u64);
    Err(text_of(out.as_slice()))
}

/// Whether every candidate row of a page lies among the page's rows.
pub fn page_is_contiguous(rows: &[&RowEntry]) -> (ok: bool)
    ensures
        ok == rows_have_bands(entries(rows@), rows@.len()),
{
    let ghost e = entries(rows@);
    for i in 0..rows.len()
        invariant
            e == entries(rows@),
            forall|j: int|
                0 <= j < i && (#[trigger] e[j]) is Candidate ==> e[j].page_row_spec()
                    < rows@.len(),
    {
        assert(e[i as int] == *rows@[i as int]);
        if let RowEntry::Candidate { page_row, .. } = rows[i] {
            if *page_row as usize >= rows.len() {
                return false;
            }
        }
    }
    true
}

/// Whether a captured page can be analyzed row by row: every candidate row lies
/// among the page's rows, unless the page's geometry is not found anyway.
pub fn page_fits(gray: &GrayImage, rows: &[&RowEntry]) -> (ok: bool)
    requires
        gray.wf(),
    ensures
        ok == rows_fit(gray@, entries(rows@)),
{
    if page_is_contiguous(rows) {
        return true;
    }
    let model = model_of(gray);
    let clean = suppress_structural_lines(gray, &model);
    page_geometry(&clean, &model, rows).is_err()
}

// ---------------------------------------------------------------------------
// Laws
// ---------------------------------------------------------------------------
/// A structural failure is never forgotten: later pages may replace its text,
/// not clear it.
pub proof fn failures_are_never_forgotten(
    st: AssessmentView,
    page: u32,
    g: Gray,
    plausible: bool,
    stats: Seq<char>,
    all_rows: Seq<RowEntry>,
    results: Seq<Pass1Result>,
)
    requires
        st.fail is Some,
    ensures
        after_page(st, page, g, plausible, stats, all_rows, results).fail is Some,
{
}

/// A structural failure fails closed: every candidate of the sidecar is listed
/// and failed, and no id passes.
pub proof fn structural_failure_fails_every_candidate(
    r: VerdictReport,
    st: AssessmentView,
    sidecar: Sidecar,
    pass1: Pass1Report,
)
    requires
        is_report(r, st, sidecar, pass1),
        st.fail is Some,
    ensures
        r.results@.len() == row_candidates(sidecar.rows@),
        forall|i: int|
            0 <= i < r.results@.len() ==> (#[trigger] r.results@[i]).overall@ == "fail"@
                && !r.results@[i].visible && !r.results@[i].no_bleed,
        !r.pass1_support,
        r.passing() == Seq::<Seq<char>>::empty(),
{
    lemma_closed(sidecar.rows@);
    let v = verdict_views(r.results@);
    assert(v.len() == r.results@.len());
    assert forall|i: int| 0 <= i < r.results@.len() implies (#[trigger] r.results@[i]).overall@
        == "fail"@ && !r.results@[i].visible && !r.results@[i].no_bleed by {
        assert(v[i] == closed_verdicts(sidecar.rows@)[i]);
    }
}

/// Number of candidate rows.
pub open spec fn row_candidates(rows: Seq<RowEntry>) -> nat
    decreases rows.len(),
{
    if rows.len() == 0 {
        0
    } else {
        row_candidates(rows.drop_last()) + (if rows.last() is Candidate {
            1nat
        } else {
            0
        })
    }
}

proof fn lemma_closed(rows: Seq<RowEntry>)
    ensures
        closed_verdicts(rows).len() == row_candidates(rows),
        forall|i: int|
            0 <= i < closed_verdicts(rows).len() ==> (#[trigger] closed_verdicts(rows)[i]).overall
                == "fail"@ && !closed_verdicts(rows)[i].visible && !closed_verdicts(
                rows,
            )[i].no_bleed,
    decreases rows.len(),
{
    if rows.len() > 0 {
        lemma_closed(rows.drop_last());
    }
}

/// An analyzed page has exactly one verdict per candidate row.
pub proof fn every_candidate_gets_a_verdict(
    g: Gray,
    m: FgModel,
    cal: Calibration,
    bands: Seq<Band>,
    reference_b: Seq<bool>,
    rows: Seq<RowEntry>,
    results: Seq<Pass1Result>,
)
    ensures
        page_verdicts(g, m, cal, bands, reference_b, rows, results).len() == row_candidates(rows),
    decreases rows.len(),
{
    if rows.len() > 0 {
        every_candidate_gets_a_verdict(
            g,
            m,
            cal,
            bands,
            reference_b,
            rows.drop_last(),
            results,
        );
    }
}

/// Missing Pass-1 data fails closed: a candidate without a Pass-1 result is
/// inconclusive and cannot pass, whatever its pixels.
pub proof fn missing_pass1_fails_closed(
    results: Seq<Pass1Result>,
    id: Seq<char>,
    codepoint: u32,
    visible: bool,
    no_bleed: bool,
)
    requires
        forall|i: int| 0 <= i < results.len() ==> (#[trigger] results[i]).id@ != id,
    ensures
        status_for(results, id) == Pass1Status::Inconclusive,
        merged(id, codepoint, status_for(results, id), visible, no_bleed).overall == "fail"@,
    decreases results.len(),
{
    if results.len() > 0 {
        assert(results[results.len() - 1].id@ != id);
        assert forall|i: int| 0 <= i < results.drop_last().len() implies (
        #[trigger] results.drop_last()[i]).id@ != id by {
            assert(results[i].id@ != id);
        }
        missing_pass1_fails_closed(results.drop_last(), id, codepoint, visible, no_bleed);
    }
}

/// Result `k` is the last one with the id.
pub open spec fn is_last_with(results: Seq<Pass1Result>, id: Seq<char>, k: int) -> bool {
    &&& 0 <= k < results.len()
    &&& results[k].id@ == id
    &&& forall|j: int| k < j < results.len() ==> (#[trigger] results[j]).id@ != id
}

/// The word of the last result with the id, and `inconclusive` where there is none.
pub open spec fn is_last_word(results: Seq<Pass1Result>, id: Seq<char>, word: Seq<char>) -> bool {
    &&& (forall|k: int| 0 <= k < results.len() ==> (#[trigger] results[k]).id@ != id) ==> word
        == "inconclusive"@
    &&& forall|k: int| #[trigger]
        is_last_with(results, id, k) ==> {
            &&& results[k].status is Pass ==> word == "pass"@
            &&& results[k].status is Fail ==> word == "fail"@
            &&& results[k].status is Inconclusive ==> word == "inconclusive"@
        }
}

proof fn lemma_last_word(results: Seq<Pass1Result>, id: Seq<char>)
    ensures
        is_last_word(results, id, status_text(status_for(results, id))),
    decreases results.len(),
{
    let n = results.len() as int;
    if n > 0 {
        let init = results.drop_last();
        assert(results[n - 1] == results.last());
        if results.last().id@ != id {
            lemma_last_word(init, id);
            assert forall|k: int| #[trigger] is_last_with(results, id, k) implies is_last_with(
                init,
                id,
                k,
            ) by {
                assert(k < n - 1);
            }
            if forall|k: int| 0 <= k < n ==> (#[trigger] results[k]).id@ != id {
                assert forall|k: int| 0 <= k < init.len() implies (#[trigger] init[k]).id@
                    != id by {
                    assert(results[k].id@ != id);
                }
            }
        } else {
            assert forall|k: int| #[trigger] is_last_with(results, id, k) implies k == n - 1 by {
                if k < n - 1 {
                    assert(results[n - 1].id@ != id);
                }
            }
        }
    }
}

/// The tuned limits, in thousandths.
pub open spec fn tuned() -> Thresholds {
    Thresholds {
        eps_default: 20,
        eps_braille: 2,
        bleed_max: 350,
        tofu_bbox_min_ratio: 550,
        tofu_interior_max_ratio: 150,
    }
}

/// The verdict on a candidate row: the first pass by its last word, the icon by
/// the window of column 3, and the neighbors by the gutters and by the right
/// sentinel in column 4, held against that of the control row.
pub open spec fn judges(
    v: VerdictView,
    row: RowEntry,
    g: Gray,
    m: FgModel,
    cal: Calibration,
    bands: Seq<Band>,
    control: Band,
    results: Seq<Pass1Result>,
) -> bool {
    &&& row matches RowEntry::Candidate { id, codepoint, block, page_row, .. }
    &&& v.id == id@
    &&& v.codepoint == codepoint
    &&& is_last_word(results, id@, v.pass1)
    &&& v.visible == (visibility(g, m, cal.crop(3, bands[page_row as int]), block, tuned()) is Ok)
    &&& v.no_bleed == (bleed(
        g,
        m,
        cal,
        bands[page_row as int],
        box_mask(g, m, cal.crop(4, control)),
        tuned(),
    ) == BleedVerdict::Clean)
    &&& v.pass1 == "pass"@ && v.visible && v.no_bleed ==> v.overall == "pass"@
    &&& !(v.pass1 == "pass"@ && v.visible && v.no_bleed) ==> v.overall == "fail"@
}

/// The positions of the candidate rows, in ascending order.
pub open spec fn lists_candidates(at: Seq<int>, rows: Seq<RowEntry>) -> bool {
    lists(at, rows.len() as int, |k: int| rows[k] is Candidate)
}

spec fn candidate_listing(rows: Seq<RowEntry>) -> Seq<int> {
    listing(rows.len() as int, |k: int| rows[k] is Candidate)
}

proof fn lemma_candidate_listing(rows: Seq<RowEntry>)
    ensures
        lists_candidates(candidate_listing(rows), rows),
        rows.len() > 0 ==> candidate_listing(rows) == (if rows.last() is Candidate {
            candidate_listing(rows.drop_last()).push(rows.len() - 1)
        } else {
            candidate_listing(rows.drop_last())
        }),
{
    let f = |k: int| rows[k] is Candidate;
    lemma_listing(rows.len() as int, f);
    if rows.len() > 0 {
        let w = rows.drop_last();
        let g = |k: int| w[k] is Candidate;
        let n = w.len() as int;
        assert forall|k: int| 0 <= k < n implies #[trigger] f(k) == g(k) by {
            assert(w[k] == rows[k]);
        }
        lemma_same_listing(n, f, g);
        assert(f(n) == (rows.last() is Candidate));
    }
}

proof fn lemma_judged(
    g: Gray,
    m: FgModel,
    cal: Calibration,
    bands: Seq<Band>,
    control: Band,
    rows: Seq<RowEntry>,
    results: Seq<Pass1Result>,
)
    ensures
        ({
            let v = page_verdicts(
                g,
                m,
                cal,
                bands,
                reference_mask(g, m, cal, control),
                rows,
                results,
            );
            let at = candidate_listing(rows);
            &&& v.len() == at.len()
            &&& forall|k: int|
                0 <= k < v.len() ==> judges(
                    #[trigger] v[k],
                    rows[at[k]],
                    g,
                    m,
                    cal,
                    bands,
                    control,
                    results,
                )
        }),
    decreases rows.len(),
{
    let reference = reference_mask(g, m, cal, control);
    let v = page_verdicts(g, m, cal, bands, reference, rows, results);
    let at = candidate_listing(rows);
    lemma_candidate_listing(rows);
    if rows.len() > 0 {
        let w = rows.drop_last();
        lemma_judged(g, m, cal, bands, control, w, results);
        lemma_candidate_listing(w);
        let init = page_verdicts(g, m, cal, bands, reference, w, results);
        let before = candidate_listing(w);
        assert forall|k: int| 0 <= k < v.len() implies judges(
            #[trigger] v[k],
            rows[at[k]],
            g,
            m,
            cal,
            bands,
            control,
            results,
        ) by {
            if k < init.len() {
                assert(judges(init[k], w[before[k]], g, m, cal, bands, control, results));
                assert(at[k] == before[k]);
                assert(0 <= before[k] < w.len());
            } else {
                assert(at[k] == rows.len() - 1);
                match rows.last() {
                    RowEntry::Control { .. } => {},
                    RowEntry::Candidate { id, codepoint, .. } => {
                        let o = outcome(g, m, cal, bands, reference, rows.last());
                        let status = status_for(results, id@);
                        lemma_last_word(results, id@);
                        reveal_strlit("pass");
                        reveal_strlit("fail");
                        reveal_strlit("inconclusive");
                        assert("pass"@[0] != "fail"@[0]);
                        assert("pass"@[0] != "inconclusive"@[0]);
                        assert(v[k] == merged(id@, codepoint, status, o.0, o.1));
                    },
                }
            }
        }
    } else {
        assert(at.len() == 0);
    }
}

/// The name of what keeps a control row from being read.
pub open spec fn reason_name(e: GeometryError) -> Seq<char> {
    match e {
        GeometryError::MissingBars => "MissingBars"@,
        GeometryError::ImplausiblePitch => "ImplausiblePitch"@,
        GeometryError::BarsTooWide => "BarsTooWide"@,
        GeometryError::SentinelSpacingMismatch => "SentinelSpacingMismatch"@,
        GeometryError::BandMismatch { .. } => ""@,
    }
}

/// A page either fails or has each of its candidates judged, in the order of its
/// rows. It fails where the capture is implausible and nothing failed before,
/// where the number of text bands found on the cleaned image is not that of the
/// rows, or where the control row cannot be read. What was judged before stays.
#[verifier::rlimit(50)]
pub proof fn a_page_fails_or_judges_its_candidates(
    st: AssessmentView,
    page: u32,
    g: Gray,
    plausible: bool,
    stats: Seq<char>,
    all_rows: Seq<RowEntry>,
    results: Seq<Pass1Result>,
)
    requires
        page_entries(all_rows, page).len() <= usize::MAX,
    ensures
        ({
            let after = after_page(st, page, g, plausible, stats, all_rows, results);
            let m = FgModel { bg: background(g.data), delta: 60 };
            let clean = cleaned(g, m);
            let rows = page_entries(all_rows, page);
            let bands = grid_bands(
                found_bands(clean, m, rows.len() as usize),
                rows.len() as int,
            );
            let first = if rows.len() == 0 {
                0
            } else {
                rows[0].page_row_spec() as int
            };
            let cal = control_calibration(clean, m, bands[first]);
            let unusable = st.fail is None && !plausible;
            let unread = bands.len() != rows.len() || first >= bands.len() || cal is Err;
            &&& unusable || unread ==> after.fail is Some && after.verdicts == st.verdicts
            &&& unusable ==> after.fail == Some(
                "page "@ + decimal(page as nat) + ": "@ + "implausible capture ("@ + stats + ")"@,
            )
            &&& !unusable && bands.len() != rows.len() ==> after.fail == Some(
                "page "@ + decimal(page as nat) + ": "@ + decimal(bands.len())
                    + " text bands rendered but sidecar declares "@ + decimal(rows.len())
                    + " rows"@,
            )
            &&& !unusable && bands.len() == rows.len() && first >= bands.len() ==> after.fail
                == Some("page "@ + decimal(page as nat) + ": "@ + "calibration failed: "@
                + "MissingBars"@)
            &&& !unusable && bands.len() == rows.len() && first < bands.len() && cal is Err
                ==> after.fail == Some("page "@ + decimal(page as nat) + ": "@
                + "calibration failed: "@ + reason_name(cal->Err_0))
            &&& !unusable && !unread ==> after.fail == st.fail && exists|at: Seq<int>| #[trigger]
                lists_candidates(at, rows) && after.verdicts.len() == st.verdicts.len() + at.len()
                    && (forall|k: int|
                    0 <= k < st.verdicts.len() ==> #[trigger] after.verdicts[k] == st.verdicts[k])
                    && forall|k: int|
                    0 <= k < at.len() ==> judges(
                        after.verdicts[st.verdicts.len() + k],
                        rows[#[trigger] at[k]],
                        clean,
                        m,
                        cal->Ok_0,
                        bands,
                        bands[first],
                        results,
                    )
        }),
{
    let after = after_page(st, page, g, plausible, stats, all_rows, results);
    let m = FgModel { bg: background(g.data), delta: 60 };
    let clean = cleaned(g, m);
    let rows = page_entries(all_rows, page);
    let bands = grid_bands(found_bands(clean, m, rows.len() as usize), rows.len() as int);
    lemma_bands_fit(clean, m, rows.len() as usize);
    let first = control_place(rows);
    if !(st.fail is None && !plausible) {
        if bands.len() == rows.len() && page_calibration(clean, m, bands, rows) is Err {
            lemma_calibration_never_mismatches(
                clean,
                m,
                bands,
                rows,
                page_calibration(clean, m, bands, rows)->Err_0,
            );
        }
        if geometry(clean, m, rows) is Ok {
            let cal = geometry(clean, m, rows)->Ok_0.0;
            lemma_judged(clean, m, cal, bands, bands[first], rows, results);
            lemma_candidate_listing(rows);
            let at = candidate_listing(rows);
            assert(lists_candidates(at, rows));
            assert forall|k: int| 0 <= k < at.len() implies judges(
                after.verdicts[st.verdicts.len() + k],
                rows[#[trigger] at[k]],
                clean,
                m,
                cal,
                bands,
                bands[first],
                results,
            ) by {
                let v = page_verdicts(
                    clean,
                    m,
                    cal,
                    bands,
                    reference_mask(clean, m, cal, bands[first]),
                    rows,
                    results,
                );
                assert(after.verdicts == st.verdicts + v);
                assert(after.verdicts[st.verdicts.len() + k] == v[k]);
            }
        }
    }
}

/// The bands of an image are fewer than its rows.
proof fn lemma_bands_fit(g: Gray, m: FgModel, expected: usize)
    ensures
        page_bands(g, m, expected).len() <= g.height,
{
    let b = found_bands(g, m, expected);
    lemma_found_bands_fit(g, m, expected);
    if 0 < expected < b.len() {
        let s = grid_bands_are_the_tightest_window(b, expected as int);
    }
}

proof fn lemma_found_bands_fit(g: Gray, m: FgModel, expected: usize)
    ensures
        found_bands(g, m, expected).len() <= g.height,
{
    let x0 = bar_start(g, m, bar_high(expected) as nat, 0);
    if expected != 0 && x0 < g.width {
        let f = strip_ink(g, m, x0, bar_end(g, m, bar_low(expected) as nat, x0, x0));
        lemma_spans_fit(f);
    }
}

proof fn lemma_spans_fit(f: Seq<bool>)
    ensures
        spans(f).len() <= f.len(),
    decreases f.len(),
{
    if f.len() > 0 {
        lemma_spans_fit(f.drop_last());
        spans_are_maximal_runs(f.drop_last());
        let n = f.len() - 1;
        if f.last() && n > 0 && f[n - 1] {
            assert(f.drop_last()[n - 1]);
        }
    }
}

/// A report says what the pages gave. After a structural failure it says so and
/// fails every candidate row of the sidecar, in order, as neither visible nor
/// isolated and without a first pass.
pub proof fn reports_fail_closed(
    r: VerdictReport,
    st: AssessmentView,
    sidecar: Sidecar,
    pass1: Pass1Report,
)
    requires
        is_report(r, st, sidecar, pass1),
    ensures
        r.schema_version == 1,
        r.platform@ == sidecar.platform@,
        r.host@ == sidecar.host@,
        r.structural_fail is Some <==> st.fail is Some,
        r.structural_fail is Some ==> Some(r.structural_fail->Some_0@) == st.fail,
        r.pass1_support <==> pass1.pass1_support && st.fail is None,
        st.fail is None ==> verdict_views(r.results@) == st.verdicts,
        st.fail is Some ==> exists|at: Seq<int>| #[trigger]
            lists_candidates(at, sidecar.rows@) && at.len() == r.results@.len() && forall|k: int|
                0 <= k < at.len() ==> fails_row(r.results@[k]@, sidecar.rows@[#[trigger] at[k]]),
{
    if st.fail is Some {
        let rows = sidecar.rows@;
        let at = candidate_listing(rows);
        lemma_candidate_listing(rows);
        lemma_closed_rows(rows);
        let v = verdict_views(r.results@);
        assert(v == closed_verdicts(rows));
        assert forall|k: int| 0 <= k < at.len() implies fails_row(
            r.results@[k]@,
            rows[#[trigger] at[k]],
        ) by {
            assert(v[k] == r.results@[k]@);
        }
        assert(lists_candidates(at, rows));
    }
}

/// The verdict fails the candidate row outright.
pub open spec fn fails_row(v: VerdictView, row: RowEntry) -> bool {
    &&& row matches RowEntry::Candidate { id, codepoint, .. }
    &&& v.id == id@
    &&& v.codepoint == codepoint
    &&& v.pass1 == "inconclusive"@
    &&& !v.visible
    &&& !v.no_bleed
    &&& v.overall == "fail"@
}

proof fn lemma_closed_rows(rows: Seq<RowEntry>)
    ensures
        closed_verdicts(rows).len() == candidate_listing(rows).len(),
        forall|k: int|
            0 <= k < closed_verdicts(rows).len() ==> fails_row(
                #[trigger] closed_verdicts(rows)[k],
                rows[candidate_listing(rows)[k]],
            ),
    decreases rows.len(),
{
    let v = closed_verdicts(rows);
    let at = candidate_listing(rows);
    lemma_candidate_listing(rows);
    if rows.len() > 0 {
        let w = rows.drop_last();
        lemma_closed_rows(w);
        lemma_candidate_listing(w);
        let init = closed_verdicts(w);
        let before = candidate_listing(w);
        assert forall|k: int| 0 <= k < v.len() implies fails_row(
            #[trigger] v[k],
            rows[at[k]],
        ) by {
            if k < init.len() {
                assert(fails_row(init[k], w[before[k]]));
                assert(at[k] == before[k]);
                assert(0 <= before[k] < w.len());
            } else {
                assert(at[k] == rows.len() - 1);
            }
        }
    } else {
        assert(at.len() == 0);
    }
}

/// The outcome of every row of a page, in order. A control row is sound by itself; a
/// candidate is judged by the window of column 3 and by its neighbors, held against
/// the right sentinel of the control row.
pub proof fn rows_come_out_in_order(
    v: Seq<RowOutcome>,
    g: Gray,
    m: FgModel,
    cal: Calibration,
    bands: Seq<Band>,
    rows: Seq<RowEntry>,
    i: int,
)
    requires
        are_outcomes(v, g, m, cal, bands, rows),
        0 <= i < rows.len(),
    ensures
        v.len() == rows.len(),
        *v[i].entry == rows[i],
        rows[i] is Control ==> v[i].visible && v[i].no_bleed,
        rows[i] matches RowEntry::Candidate { block, page_row, .. } ==> {
            let band = bands[page_row as int];
            let control = bands[rows[0].page_row_spec() as int];
            &&& v[i].visible == (visibility(g, m, cal.crop(3, band), block, tuned()) is Ok)
            &&& v[i].no_bleed == (bleed(
                g,
                m,
                cal,
                band,
                box_mask(g, m, cal.crop(4, control)),
                tuned(),
            ) == BleedVerdict::Clean)
        },
{
    assert(*v[i].entry == rows[i]);
}

/// The rows of a page have their bands when every candidate's place is below the
/// number of bands. Only a page that can be read needs them.
pub proof fn candidates_stand_on_bands(g: Gray, rows: Seq<RowEntry>, bands: nat)
    ensures
        rows_have_bands(rows, bands) <==> forall|i: int|
            0 <= i < rows.len() ==> ((#[trigger] rows[i]) matches RowEntry::Candidate {
                page_row,
                ..
            } ==> page_row < bands),
        rows_have_bands(rows, rows.len()) ==> rows_fit(g, rows),
{
    if rows_have_bands(rows, bands) {
        assert forall|i: int| 0 <= i < rows.len() implies ((#[trigger] rows[i])
            matches RowEntry::Candidate { page_row, .. } ==> page_row < bands) by {
            if rows[i] is Candidate {
                assert(rows[i].page_row_spec() < bands);
            }
        }
    }
    if forall|i: int|
        0 <= i < rows.len() ==> ((#[trigger] rows[i]) matches RowEntry::Candidate { page_row, .. }
            ==> page_row < bands) {
        assert forall|i: int|
            0 <= i < rows.len() && (#[trigger] rows[i]) is Candidate implies rows[i].page_row_spec()
            < bands by {
            assert(rows[i] matches RowEntry::Candidate { page_row, .. } ==> page_row < bands);
        }
    }
}

/// A geometry error reads as it is named, with its numbers.
pub proof fn geometry_errors_read(found: usize, expected: usize)
    ensures
        error_text(GeometryError::MissingBars) == "MissingBars"@,
        error_text(GeometryError::BarsTooWide) == "BarsTooWide"@,
        error_text(GeometryError::ImplausiblePitch) == "ImplausiblePitch"@,
        error_text(GeometryError::SentinelSpacingMismatch) == "SentinelSpacingMismatch"@,
        error_text(GeometryError::BandMismatch { found, expected }) == "BandMismatch { found: "@
            + decimal(found as nat) + ", expected: "@ + decimal(expected as nat) + " }"@,
{
}

} // verus!
