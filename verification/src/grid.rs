//! Inputs of the verified-grid preview: which icons it shows, and where their
//! pixels come from.
//!
//! A stateless visualization engine. It consumes an id set scraped from a
//! generated manifest, the single source of truth, locates each icon's cell
//! through the platform sidecars, and slices native-resolution crops, never
//! resampled. No verdict data is read here: set membership is decided upstream.
use crate::analyze::{geometry, model_of, model_spec, page_geometry, ICON_COL};
use crate::catalog::{Block, Candidate};
use crate::geom::{
    calibrated_cells_lie_inside, cleaned, lemma_nearest_apart, suppress_structural_lines, Band,
    Calibration, CellBox, GeometryError,
};
use crate::listing::{lemma_listing, lemma_same_listing, listing, lists};
use crate::raster::{images_are_fixed_by_their_picture, Gray, GrayImage, Pic, RgbImage};
use crate::schema::{entries, RowEntry, Sidecar};
use crate::sort::{as_ints, is_order, sort_selected, stable_order, stable_order_exists};
use crate::text::{
    begins_with, chars_of, decimal, ends_with, find_char, index_from, is_listed, listed, lower,
    matches_at, parse_u32, push_number, push_str, read_u32, same_text, slice_chars, text_of,
    to_lower, trim, trim_chars,
};
use vstd::prelude::*;

verus! {

/// Number of platforms.
pub const PLATFORMS: usize = 3;

/// Platform whose rasterization fills the display charts.
pub const CANONICAL: usize = 2;

/// Label of a platform, in column order.
pub open spec fn platform_text(p: int) -> Seq<char> {
    if p == 0 {
        "macos"@
    } else if p == 1 {
        "windows"@
    } else {
        "linux"@
    }
}

/// Label of a platform, in the column order that is pinned for cross-run
/// comparability.
pub fn platform_label(p: usize) -> (s: &'static str)
    ensures
        s@ == platform_text(p as int),
{
    if p == 0 {
        "macos"
    } else if p == 1 {
        "windows"
    } else {
        "linux"
    }
}

/// Column of a platform label.
pub fn platform_index(label: &str) -> (p: Option<usize>)
    ensures
        match p {
            Some(i) => i < PLATFORMS && platform_text(i as int) == label@,
            None => !known_label(label@),
        },
{
    for i in 0..PLATFORMS
        invariant
            forall|j: int| 0 <= j < i ==> platform_text(j) != label@,
    {
        if same_text(platform_label(i), label) {
            return Some(i);
        }
    }
    None
}

/// A label of one of the platforms.
pub open spec fn known_label(s: Seq<char>) -> bool {
    exists|i: int| 0 <= i < PLATFORMS && s == #[trigger] platform_text(i)
}

// ---------------------------------------------------------------------------
// Errors
// ---------------------------------------------------------------------------
/// Why a preview cannot be exported.
#[derive(Clone, Debug)]
pub enum GridError {
    /// An input that is not `label=dir`.
    BadInput {
        /// The input.
        raw: String,
    },
    /// Not one input per platform.
    InputCount {
        /// Number of inputs.
        found: usize,
    },
    /// A label of no platform.
    UnknownLabel {
        /// The label.
        label: String,
    },
    /// Two inputs for one platform.
    DuplicateLabel {
        /// The label.
        label: String,
    },
    /// The manifest lists no icons.
    EmptyManifest {
        /// Where the manifest was read from.
        path: String,
    },
    /// A manifest id that the catalog does not have.
    UnknownId {
        /// The id.
        id: String,
    },
    /// A platform's sidecar describes another render.
    Skew {
        /// The platform.
        platform: usize,
    },
    /// A manifest id that was not captured.
    AbsentId {
        /// The id.
        id: String,
    },
    /// Not a single crop was extracted.
    NoCrops,
    /// An icon without a crop on a platform.
    MissingCrop {
        /// The platform.
        platform: usize,
        /// The id.
        id: String,
    },
    /// A canvas beyond what an image can hold.
    TooLarge,
}

/// An error with its texts taken as characters.
pub ghost enum GridFault {
    /// An input that is not `label=dir`.
    BadInput(Seq<char>),
    /// Not one input per platform.
    InputCount(int),
    /// A label of no platform.
    UnknownLabel(Seq<char>),
    /// Two inputs for one platform.
    DuplicateLabel(Seq<char>),
    /// The manifest lists no icons.
    EmptyManifest(Seq<char>),
    /// A manifest id that the catalog does not have.
    UnknownId(Seq<char>),
    /// A platform's sidecar describes another render.
    Skew(int),
    /// A manifest id that was not captured.
    AbsentId(Seq<char>),
    /// Not a single crop was extracted.
    NoCrops,
    /// An icon without a crop on a platform.
    MissingCrop(int, Seq<char>),
    /// A canvas beyond what an image can hold.
    TooLarge,
}

impl GridError {
    /// The error with its texts taken as characters.
    pub open spec fn view(&self) -> GridFault {
        match *self {
            GridError::BadInput { raw } => GridFault::BadInput(raw@),
            GridError::InputCount { found } => GridFault::InputCount(found as int),
            GridError::UnknownLabel { label } => GridFault::UnknownLabel(label@),
            GridError::DuplicateLabel { label } => GridFault::DuplicateLabel(label@),
            GridError::EmptyManifest { path } => GridFault::EmptyManifest(path@),
            GridError::UnknownId { id } => GridFault::UnknownId(id@),
            GridError::Skew { platform } => GridFault::Skew(platform as int),
            GridError::AbsentId { id } => GridFault::AbsentId(id@),
            GridError::NoCrops => GridFault::NoCrops,
            GridError::MissingCrop { platform, id } => GridFault::MissingCrop(platform as int, id@),
            GridError::TooLarge => GridFault::TooLarge,
        }
    }

    /// The error in words.
    pub fn message(&self) -> (s: String)
        ensures
            s@ == fault_text(self@),
    {
        let mut out: Vec<char> = Vec::new();
        match self {
            GridError::BadInput { raw } => {
                push_str(&mut out, "bad --grid-input '");
                push_str(&mut out, raw.as_str());
                push_str(&mut out, "': expected label=dir");
            },
            GridError::InputCount { found } => {
                push_str(&mut out, "expected exactly 3 --grid-input roots, got ");
                push_number(&mut out, *found as u64);
            },
            GridError::UnknownLabel { label } => {
                push_str(&mut out, "unknown platform label '");
                push_str(&mut out, label.as_str());
                push_str(
                    &mut out,
                    "' (expected one of [\"macos\", \"windows\", \"linux\"])",
                );
            },
            GridError::DuplicateLabel { label } => {
                push_str(&mut out, "duplicate platform label '");
                push_str(&mut out, label.as_str());
                push_str(&mut out, "'");
            },
            GridError::EmptyManifest { path } => {
                push_str(&mut out, "manifest ");
                push_str(&mut out, path.as_str());
                push_str(&mut out, " lists no icon ids — refusing to render an empty set");
            },
            GridError::UnknownId { id } => {
                push_str(&mut out, "manifest id '");
                push_str(&mut out, id.as_str());
                push_str(&mut out, "' is not present in the icon catalog");
            },
            GridError::Skew { platform } => {
                push_str(&mut out, "sidecar candidate sequence for '");
                push_str(&mut out, platform_label(*platform));
                push_str(&mut out, "' differs from 'linux'");
            },
            GridError::AbsentId { id } => {
                push_str(&mut out, "manifest id '");
                push_str(&mut out, id.as_str());
                push_str(&mut out, "' is absent from the captured sidecars");
            },
            GridError::NoCrops => {
                push_str(
                    &mut out,
                    "no crops extracted — manifest ids and captures disagree",
                );
            },
            GridError::MissingCrop { platform, id } => {
                push_str(&mut out, "missing ");
                push_str(&mut out, platform_label(*platform));
                push_str(&mut out, " crop for '");
                push_str(&mut out, id.as_str());
                push_str(&mut out, "'");
            },
            GridError::TooLarge => {
                push_str(&mut out, "the charts do not fit into an image");
            },
        }
        assert(out@ =~= fault_text(self@));
        text_of(out.as_slice())
    }
}

/// The text of an error.
pub open spec fn fault_text(f: GridFault) -> Seq<char> {
    match f {
        GridFault::BadInput(raw) => "bad --grid-input '"@ + raw + "': expected label=dir"@,
        GridFault::InputCount(n) => "expected exactly 3 --grid-input roots, got "@ + decimal(
            n as nat,
        ),
        GridFault::UnknownLabel(l) => "unknown platform label '"@ + l
            + "' (expected one of [\"macos\", \"windows\", \"linux\"])"@,
        GridFault::DuplicateLabel(l) => "duplicate platform label '"@ + l + "'"@,
        GridFault::EmptyManifest(path) => "manifest "@ + path
            + " lists no icon ids — refusing to render an empty set"@,
        GridFault::UnknownId(id) => "manifest id '"@ + id
            + "' is not present in the icon catalog"@,
        GridFault::Skew(p) => "sidecar candidate sequence for '"@ + platform_text(p)
            + "' differs from 'linux'"@,
        GridFault::AbsentId(id) => "manifest id '"@ + id
            + "' is absent from the captured sidecars"@,
        GridFault::NoCrops => "no crops extracted — manifest ids and captures disagree"@,
        GridFault::MissingCrop(p, id) => "missing "@ + platform_text(p) + " crop for '"@ + id
            + "'"@,
        GridFault::TooLarge => "the charts do not fit into an image"@,
    }
}

// ---------------------------------------------------------------------------
// Platform inputs
// ---------------------------------------------------------------------------
/// Splits `label=dir`: the label trimmed and in lower case, the directory
/// trimmed.
pub fn parse_input(raw: &str) -> (out: Result<(String, String), GridError>)
    ensures
        match out {
            Ok(v) => index_from(raw@, '=', 0) < raw@.len() && v.0@ == lower(
                trim(raw@.take(index_from(raw@, '=', 0))),
            ) && v.1@ == trim(raw@.skip(index_from(raw@, '=', 0) + 1)),
            Err(e) => index_from(raw@, '=', 0) >= raw@.len() && e@ == GridFault::BadInput(raw@),
        },
{
    let c = chars_of(raw);
    let n = c.len();
    let k = find_char(c.as_slice(), '=', 0);
    if k >= n {
        return Err(GridError::BadInput { raw: raw.to_owned() });
    }
    let left = slice_chars(c.as_slice(), 0, k);
    let right = slice_chars(c.as_slice(), k + 1, n);
    assert(left@ =~= raw@.take(k as int));
    assert(right@ =~= raw@.skip(k + 1));
    let label = to_lower(trim_chars(left.as_slice()).as_slice());
    let dir = trim_chars(right.as_slice());
    Ok((text_of(label.as_slice()), text_of(dir.as_slice())))
}

/// The first fault of the labels from position `i` on: an unknown one, or one
/// that came before.
pub open spec fn label_fault(labels: Seq<String>, i: int) -> Option<GridFault>
    decreases labels.len() - i,
{
    if i >= labels.len() {
        None
    } else if !known_label(labels[i]@) {
        Some(GridFault::UnknownLabel(labels[i]@))
    } else if listed(labels.take(i), labels[i]@) {
        Some(GridFault::DuplicateLabel(labels[i]@))
    } else {
        label_fault(labels, i + 1)
    }
}

/// The fault of the inputs as a whole.
pub open spec fn inputs_fault(labels: Seq<String>) -> Option<GridFault> {
    if labels.len() != PLATFORMS {
        Some(GridFault::InputCount(labels.len() as int))
    } else {
        label_fault(labels, 0)
    }
}

/// An optional error with its texts taken as characters.
pub open spec fn fault_of(r: Result<(), GridError>) -> Option<GridFault> {
    match r {
        Ok(()) => None,
        Err(e) => Some(e@),
    }
}

/// Checks that there is exactly one input per platform.
pub fn check_labels(labels: &[String]) -> (out: Result<(), GridError>)
    ensures
        fault_of(out) == inputs_fault(labels@),
{
    let n = labels.len();
    if n != PLATFORMS {
        return Err(GridError::InputCount { found: n });
    }
    for i in 0..n
        invariant
            n == labels@.len() == PLATFORMS,
            label_fault(labels@, 0) == label_fault(labels@, i as int),
    {
        let label = labels[i].as_str();
        if platform_index(label).is_none() {
            return Err(GridError::UnknownLabel { label: label.to_owned() });
        }
        let ghost before = labels@.take(i as int);
        for j in 0..i
            invariant
                n == labels@.len() == PLATFORMS,
                i < n,
                before == labels@.take(i as int),
                label@ == labels@[i as int]@,
                known_label(label@),
                label_fault(labels@, 0) == label_fault(labels@, i as int),
                forall|k: int| 0 <= k < j ==> (#[trigger] before[k])@ != label@,
        {
            assert(before[j as int] == labels@[j as int]);
            if same_text(labels[j].as_str(), label) {
                assert(listed(before, label@));
                return Err(GridError::DuplicateLabel { label: label.to_owned() });
            }
        }
        assert(!listed(before, label@));
    }
    Ok(())
}

// ---------------------------------------------------------------------------
// Targets
// ---------------------------------------------------------------------------
/// Position of the first candidate with the id, or the length.
pub open spec fn first_with_id(catalog: Seq<Candidate>, id: Seq<char>, from: int) -> int
    decreases catalog.len() - from,
{
    if from >= catalog.len() {
        catalog.len() as int
    } else if catalog[from].id@ == id {
        from
    } else {
        first_with_id(catalog, id, from + 1)
    }
}

fn find_id(catalog: &[Candidate], id: &str) -> (k: usize)
    ensures
        k == first_with_id(catalog@, id@, 0),
        k <= catalog@.len(),
        k < catalog@.len() ==> catalog@[k as int].id@ == id@,
{
    for k in 0..catalog.len()
        invariant
            first_with_id(catalog@, id@, 0) == first_with_id(catalog@, id@, k as int),
    {
        if same_text(catalog[k].id.as_str(), id) {
            return k;
        }
    }
    catalog.len()
}

/// The first id from position `i` on that the catalog does not have.
pub open spec fn unknown_id(catalog: Seq<Candidate>, ids: Seq<String>, i: int) -> Option<GridFault>
    decreases ids.len() - i,
{
    if i >= ids.len() {
        None
    } else if first_with_id(catalog, ids[i]@, 0) >= catalog.len() {
        Some(GridFault::UnknownId(ids[i]@))
    } else {
        unknown_id(catalog, ids, i + 1)
    }
}

/// Display order of the catalog: by block in manifest order, then by codepoint.
pub open spec fn display_keys(catalog: Seq<Candidate>) -> Seq<u64> {
    catalog.map_values(|c: Candidate| display_key(c.block, c.codepoint))
}

/// Display rank of a codepoint of a block.
pub open spec fn display_key(block: Block, codepoint: u32) -> u64 {
    (block.rank_spec() * 0x1_0000_0000 + codepoint) as u64
}

/// Which candidates the ids ask for.
pub open spec fn asked_for(catalog: Seq<Candidate>, ids: Seq<String>) -> Seq<bool> {
    Seq::new(
        catalog.len(),
        |k: int| listed(ids, catalog[k].id@) && first_with_id(catalog, catalog[k].id@, 0) == k,
    )
}

/// The icons to render: positions in the catalog, in display order.
pub open spec fn targets_spec(
    catalog: Seq<Candidate>,
    ids: Seq<String>,
    path: Seq<char>,
) -> Result<Seq<int>, GridFault> {
    if ids.len() == 0 {
        Err(GridFault::EmptyManifest(path))
    } else if unknown_id(catalog, ids, 0) is Some {
        Err(unknown_id(catalog, ids, 0).unwrap())
    } else {
        Ok(stable_order(display_keys(catalog), asked_for(catalog, ids)))
    }
}

/// Resolves the ids of the manifest at `path` to the icons to render, in display
/// order.
pub fn resolve_targets(catalog: &[Candidate], ids: &[String], path: &str) -> (out: Result<
    Vec<usize>,
    GridError,
>)
    ensures
        match out {
            Ok(v) => targets_spec(catalog@, ids@, path@) == Ok::<_, GridFault>(as_ints(v@))
                && is_order(display_keys(catalog@), asked_for(catalog@, ids@), as_ints(v@)),
            Err(e) => targets_spec(catalog@, ids@, path@) == Err::<Seq<int>, _>(e@),
        },
{
    if ids.len() == 0 {
        return Err(GridError::EmptyManifest { path: path.to_owned() });
    }
    for i in 0..ids.len()
        invariant
            unknown_id(catalog@, ids@, 0) == unknown_id(catalog@, ids@, i as int),
            ids@.len() > 0,
    {
        if find_id(catalog, ids[i].as_str()) >= catalog.len() {
            return Err(GridError::UnknownId { id: ids[i].clone() });
        }
    }
    let mut keys: Vec<u64> = Vec::new();
    let mut keep: Vec<bool> = Vec::new();
    for k in 0..catalog.len()
        invariant
            keys@.len() == k,
            keep@.len() == k,
            forall|j: int| 0 <= j < k ==> keys@[j] == display_keys(catalog@)[j],
            forall|j: int| 0 <= j < k ==> keep@[j] == asked_for(catalog@, ids@)[j],
    {
        let c = &catalog[k];
        keys.push(c.block.rank() * 0x1_0000_0000 + c.codepoint as u64);
        keep.push(is_listed(ids, c.id.as_str()) && find_id(catalog, c.id.as_str()) == k);
    }
    assert(keys@ =~= display_keys(catalog@));
    assert(keep@ =~= asked_for(catalog@, ids@));
    Ok(sort_selected(keys.as_slice(), keep.as_slice()))
}

// ---------------------------------------------------------------------------
// Sidecars
// ---------------------------------------------------------------------------
/// Ordered `(id, codepoint, page, page_row)` of the candidate rows: the
/// cross-platform identity of a capture.
pub open spec fn candidate_sequence(rows: Seq<RowEntry>) -> Seq<(Seq<char>, u32, u32, u16)>
    decreases rows.len(),
{
    if rows.len() == 0 {
        seq![]
    } else {
        match rows.last() {
            RowEntry::Control { .. } => candidate_sequence(rows.drop_last()),
            RowEntry::Candidate { id, codepoint, page, page_row, .. } => candidate_sequence(
                rows.drop_last(),
            ).push((id@, codepoint, page, page_row)),
        }
    }
}

/// One candidate row's identity.
struct Identity<'a> {
    id: &'a str,
    codepoint: u32,
    page: u32,
    page_row: u16,
}

spec fn identities(v: Seq<Identity>) -> Seq<(Seq<char>, u32, u32, u16)> {
    v.map_values(|x: Identity| (x.id@, x.codepoint, x.page, x.page_row))
}

fn sequence_of<'a>(rows: &'a [RowEntry]) -> (out: Vec<Identity<'a>>)
    ensures
        identities(out@) == candidate_sequence(rows@),
{
    let mut out: Vec<Identity<'a>> = Vec::new();
    assert(identities(out@) =~= seq![]);
    for i in 0..rows.len()
        invariant
            identities(out@) == candidate_sequence(rows@.take(i as int)),
    {
        proof {
            assert(rows@.take(i + 1).drop_last() =~= rows@.take(i as int));
            assert(rows@.take(i + 1).last() == rows@[i as int]);
        }
        if let RowEntry::Candidate { id, codepoint, page, page_row, .. } = &rows[i] {
            let ghost before = out@;
            out.push(
                Identity {
                    id: id.as_str(),
                    codepoint: *codepoint,
                    page: *page,
                    page_row: *page_row,
                },
            );
            assert(identities(out@) =~= identities(before).push(
                (id@, *codepoint, *page, *page_row),
            ));
        }
    }
    assert(rows@.take(rows@.len() as int) =~= rows@);
    out
}

/// Whether two sidecars describe the same candidates in the same places.
pub fn same_render(a: &Sidecar, b: &Sidecar) -> (same: bool)
    ensures
        same == (candidate_sequence(a.rows@) == candidate_sequence(b.rows@)),
{
    let x = sequence_of(a.rows.as_slice());
    let y = sequence_of(b.rows.as_slice());
    assert(identities(x@).len() == x@.len() && identities(y@).len() == y@.len());
    if x.len() != y.len() {
        return false;
    }
    for i in 0..x.len()
        invariant
            x@.len() == y@.len(),
            identities(x@) == candidate_sequence(a.rows@),
            identities(y@) == candidate_sequence(b.rows@),
            forall|j: int| 0 <= j < i ==> #[trigger] identities(x@)[j] == identities(y@)[j],
    {
        let (p, q) = (&x[i], &y[i]);
        let same = same_text(p.id, q.id) && p.codepoint == q.codepoint && p.page == q.page
            && p.page_row == q.page_row;
        assert(same == (identities(x@)[i as int] == identities(y@)[i as int]));
        if !same {
            return false;
        }
    }
    assert(identities(x@) =~= identities(y@));
    true
}

/// The first platform from `p` on whose sidecar differs from the canonical one.
pub open spec fn skewed(sidecars: Seq<&Sidecar>, p: int) -> Option<GridFault>
    decreases PLATFORMS - p,
{
    if p >= PLATFORMS {
        None
    } else if candidate_sequence(sidecars[p].rows@) != candidate_sequence(
        sidecars[CANONICAL as int].rows@,
    ) {
        Some(GridFault::Skew(p))
    } else {
        skewed(sidecars, p + 1)
    }
}

/// Checks that every platform describes the identical render. The sidecars are
/// given in platform order.
pub fn check_sidecars(sidecars: &[&Sidecar]) -> (out: Result<(), GridError>)
    requires
        sidecars@.len() == PLATFORMS,
    ensures
        fault_of(out) == skewed(sidecars@, 0),
{
    for p in 0..PLATFORMS
        invariant
            sidecars@.len() == PLATFORMS,
            skewed(sidecars@, 0) == skewed(sidecars@, p as int),
    {
        if !same_render(sidecars[p], sidecars[CANONICAL]) {
            return Err(GridError::Skew { platform: p });
        }
    }
    Ok(())
}

/// The id is one of the captured candidates.
pub open spec fn captured(rows: Seq<RowEntry>, wanted: Seq<char>) -> bool {
    exists|i: int|
        0 <= i < rows.len() && ((#[trigger] rows[i]) matches RowEntry::Candidate { id, .. } && id@
            == wanted)
}

fn is_captured(rows: &[RowEntry], wanted: &str) -> (found: bool)
    ensures
        found == captured(rows@, wanted@),
{
    for i in 0..rows.len()
        invariant
            forall|j: int|
                0 <= j < i ==> !((#[trigger] rows@[j]) matches RowEntry::Candidate { id, .. } && id@
                    == wanted@),
    {
        if let RowEntry::Candidate { id, .. } = &rows[i] {
            if same_text(id.as_str(), wanted) {
                assert(rows@[i as int] matches RowEntry::Candidate { id, .. } && id@ == wanted@);
                return true;
            }
        }
    }
    false
}

/// The first target from position `i` on that was not captured.
pub open spec fn absent(
    catalog: Seq<Candidate>,
    targets: Seq<int>,
    rows: Seq<RowEntry>,
    i: int,
) -> Option<GridFault>
    decreases targets.len() - i,
{
    if i >= targets.len() {
        None
    } else if !captured(rows, catalog[targets[i]].id@) {
        Some(GridFault::AbsentId(catalog[targets[i]].id@))
    } else {
        absent(catalog, targets, rows, i + 1)
    }
}

/// Checks that every icon to render was captured.
pub fn check_captured(catalog: &[Candidate], targets: &[usize], canonical: &Sidecar) -> (out: Result<
    (),
    GridError,
>)
    requires
        forall|i: int| 0 <= i < targets@.len() ==> (#[trigger] targets@[i]) < catalog@.len(),
    ensures
        fault_of(out) == absent(catalog@, as_ints(targets@), canonical.rows@, 0),
{
    for i in 0..targets.len()
        invariant
            forall|i: int| 0 <= i < targets@.len() ==> (#[trigger] targets@[i]) < catalog@.len(),
            absent(catalog@, as_ints(targets@), canonical.rows@, 0) == absent(
                catalog@,
                as_ints(targets@),
                canonical.rows@,
                i as int,
            ),
    {
        assert(as_ints(targets@)[i as int] == targets@[i as int]);
        let c = &catalog[targets[i]];
        if !is_captured(canonical.rows.as_slice(), c.id.as_str()) {
            return Err(GridError::AbsentId { id: c.id.clone() });
        }
    }
    Ok(())
}

// ---------------------------------------------------------------------------
// Page images
// ---------------------------------------------------------------------------
/// Why a directory of page images is refused.
#[derive(Clone, Debug)]
pub enum PageError {
    /// A page image whose number cannot be read.
    Unparseable {
        /// The file name.
        name: String,
    },
    /// Not one image per page.
    Count {
        /// Number of pages.
        expected: u32,
        /// Number of images.
        found: usize,
    },
    /// A gap or a repetition in the numbers.
    NonContiguous {
        /// The first number out of place.
        number: u32,
    },
}

/// An error with its texts taken as characters.
pub ghost enum PageFault {
    /// A page image whose number cannot be read.
    Unparseable(Seq<char>),
    /// Not one image per page.
    Count(int, int),
    /// A gap or a repetition in the numbers.
    NonContiguous(int),
}

impl PageError {
    /// The error with its texts taken as characters.
    pub open spec fn view(&self) -> PageFault {
        match *self {
            PageError::Unparseable { name } => PageFault::Unparseable(name@),
            PageError::Count { expected, found } => PageFault::Count(
                expected as int,
                found as int,
            ),
            PageError::NonContiguous { number } => PageFault::NonContiguous(number as int),
        }
    }

    /// The error in words.
    pub fn message(&self) -> (s: String)
        ensures
            s@ == match self@ {
                PageFault::Unparseable(name) => "unparseable page image name '"@ + name + "'"@,
                PageFault::Count(expected, found) => "expected "@ + decimal(expected as nat)
                    + " page images, found "@ + decimal(found as nat),
                PageFault::NonContiguous(n) => "non-contiguous page numbering at shot_page_"@
                    + decimal(n as nat),
            },
    {
        let mut out: Vec<char> = Vec::new();
        match self {
            PageError::Unparseable { name } => {
                push_str(&mut out, "unparseable page image name '");
                push_str(&mut out, name.as_str());
                push_str(&mut out, "'");
            },
            PageError::Count { expected, found } => {
                push_str(&mut out, "expected ");
                push_number(&mut out, *expected as u64);
                push_str(&mut out, " page images, found ");
                push_number(&mut out, *found as u64);
            },
            PageError::NonContiguous { number } => {
                push_str(&mut out, "non-contiguous page numbering at shot_page_");
                push_number(&mut out, *number as u64);
            },
        }
        text_of(out.as_slice())
    }
}

/// The name is that of a page image.
pub open spec fn is_page_name(name: Seq<char>) -> bool {
    begins_with(name, "shot_page_"@) && ends_with(name.skip("shot_page_"@.len() as int), ".png"@)
}

/// The number in the name of a page image.
pub open spec fn page_number(name: Seq<char>) -> Option<u32> {
    let from = "shot_page_"@.len() as int;
    parse_u32(name.subrange(from, name.len() - ".png"@.len()), 10)
}

/// The first name from position `i` on that is a page image without a number.
pub open spec fn unparseable(names: Seq<String>, i: int) -> Option<PageFault>
    decreases names.len() - i,
{
    if i >= names.len() {
        None
    } else if is_page_name(names[i]@) && page_number(names[i]@) is None {
        Some(PageFault::Unparseable(names[i]@))
    } else {
        unparseable(names, i + 1)
    }
}

/// Which names are page images.
pub open spec fn page_flags(names: Seq<String>) -> Seq<bool> {
    names.map_values(|s: String| is_page_name(s@))
}

/// The page numbers; 0 for what is no page image.
pub open spec fn page_keys(names: Seq<String>) -> Seq<u64> {
    names.map_values(
        |s: String|
            if is_page_name(s@) {
                page_number(s@).unwrap_or(0) as u64
            } else {
                0u64
            },
    )
}

/// The first number from position `i` of the order on that is out of place.
pub open spec fn out_of_place(keys: Seq<u64>, order: Seq<int>, i: int) -> Option<PageFault>
    decreases order.len() - i,
{
    if i >= order.len() {
        None
    } else if keys[order[i]] != i {
        Some(PageFault::NonContiguous(keys[order[i]] as int))
    } else {
        out_of_place(keys, order, i + 1)
    }
}

/// The page images of a directory listing: positions in page order, for exactly
/// `expected` contiguous pages.
pub open spec fn pages_spec(names: Seq<String>, expected: u32) -> Result<Seq<int>, PageFault> {
    let order = stable_order(page_keys(names), page_flags(names));
    if unparseable(names, 0) is Some {
        Err(unparseable(names, 0).unwrap())
    } else if order.len() != expected {
        Err(PageFault::Count(expected as int, order.len() as int))
    } else if out_of_place(page_keys(names), order, 0) is Some {
        Err(out_of_place(page_keys(names), order, 0).unwrap())
    } else {
        Ok(order)
    }
}

fn read_name(name: &str) -> (out: (bool, Option<u32>))
    ensures
        out.0 == is_page_name(name@),
        out.0 ==> out.1 == page_number(name@),
{
    let c = chars_of(name);
    let prefix = chars_of("shot_page_");
    let suffix = chars_of(".png");
    let n = c.len();
    if !matches_at(c.as_slice(), prefix.as_slice(), 0) {
        return (false, None);
    }
    let from = prefix.len();
    let rest = slice_chars(c.as_slice(), from, n);
    assert(rest@ =~= name@.skip("shot_page_"@.len() as int));
    if rest.len() < suffix.len() || !matches_at(
        rest.as_slice(),
        suffix.as_slice(),
        rest.len() - suffix.len(),
    ) {
        return (false, None);
    }
    let num = slice_chars(c.as_slice(), from, n - suffix.len());
    (true, read_u32(num.as_slice(), 10))
}

/// Orders the page images of a directory listing by number, requiring exactly
/// `expected` contiguous pages.
pub fn order_pages(names: &[String], expected: u32) -> (out: Result<Vec<usize>, PageError>)
    ensures
        match out {
            Ok(v) => pages_spec(names@, expected) == Ok::<_, PageFault>(as_ints(v@)) && forall|i:
                int| 0 <= i < v@.len() ==> (#[trigger] v@[i]) < names@.len(),
            Err(e) => pages_spec(names@, expected) == Err::<Seq<int>, _>(e@),
        },
{
    let mut keys: Vec<u64> = Vec::new();
    let mut keep: Vec<bool> = Vec::new();
    for i in 0..names.len()
        invariant
            unparseable(names@, 0) == unparseable(names@, i as int),
            keys@.len() == i,
            keep@.len() == i,
            forall|j: int| 0 <= j < i ==> keys@[j] == page_keys(names@)[j],
            forall|j: int| 0 <= j < i ==> keep@[j] == page_flags(names@)[j],
    {
        let (is_page, number) = read_name(names[i].as_str());
        if is_page {
            match number {
                None => {
                    return Err(PageError::Unparseable { name: names[i].clone() });
                },
                Some(n) => {
                    keys.push(n as u64);
                },
            }
        } else {
            keys.push(0);
        }
        keep.push(is_page);
    }
    assert(keys@ =~= page_keys(names@));
    assert(keep@ =~= page_flags(names@));
    let order = sort_selected(keys.as_slice(), keep.as_slice());
    let ghost o = as_ints(order@);
    assert(o.len() == order@.len());
    if order.len() as u64 != expected as u64 {
        return Err(PageError::Count { expected, found: order.len() });
    }
    for i in 0..order.len()
        invariant
            keys@ == page_keys(names@),
            keys@.len() == names@.len(),
            o == as_ints(order@),
            o == stable_order(page_keys(names@), page_flags(names@)),
            is_order(keys@, keep@, o),
            order@.len() == expected,
            unparseable(names@, 0) is None,
            out_of_place(keys@, o, 0) == out_of_place(keys@, o, i as int),
            forall|j: int| 0 <= j < keys@.len() ==> #[trigger] keys@[j] <= u32::MAX,
    {
        assert(o[i as int] == order@[i as int]);
        let n = keys[order[i]];
        if n != i as u64 {
            return Err(PageError::NonContiguous { number: n as u32 });
        }
    }
    assert forall|i: int| 0 <= i < order@.len() implies (#[trigger] order@[i]) < names@.len() by {
        assert(o[i] == order@[i]);
    }
    Ok(order)
}

// ---------------------------------------------------------------------------
// Crops
// ---------------------------------------------------------------------------
/// First column or row of a clamped crop.
pub open spec fn clamp_start(lo: u32, size: u32) -> int {
    if lo < size {
        lo as int
    } else {
        size - 1
    }
}

/// Extent of a clamped crop.
pub open spec fn clamp_len(lo: u32, hi: u32, size: u32) -> int {
    let start = clamp_start(lo, size);
    if hi - start + 1 < size - start {
        hi - start + 1
    } else {
        size - start
    }
}

/// The part of a capture that a box covers, as a gray picture.
pub open spec fn crop_pic(g: Gray, b: CellBox) -> Pic {
    let x = clamp_start(b.left, g.width);
    let y = clamp_start(b.top, g.height);
    Pic {
        w: clamp_len(b.left, b.right, g.width),
        h: clamp_len(b.top, b.bottom, g.height),
        px: |i: int, j: int|
            {
                let v = g.at(x + i, y + j);
                (v, v, v)
            },
    }
}

/// Bounds-clamped crop: rounding at canvas edges can push the far edges one
/// pixel past the buffer, which stays out of the crop.
pub fn clamp_crop(img: &GrayImage, b: CellBox) -> (out: RgbImage)
    requires
        img.wf(),
        0 < img.width,
        0 < img.height,
        b.left <= b.right,
        b.top <= b.bottom,
        3 * (img.width * img.height) <= usize::MAX,
    ensures
        out.shows(crop_pic(img@, b)),
        out.width >= 1,
        out.height >= 1,
        out.width <= img.width,
        out.height <= img.height,
{
    let x = if b.left < img.width {
        b.left
    } else {
        img.width - 1
    };
    let y = if b.top < img.height {
        b.top
    } else {
        img.height - 1
    };
    let w = if b.right - x < img.width - x {
        b.right - x + 1
    } else {
        img.width - x
    };
    let h = if b.bottom - y < img.height - y {
        b.bottom - y + 1
    } else {
        img.height - y
    };
    assert(w * h <= img.width * img.height) by (nonlinear_arith)
        requires
            w <= img.width,
            h <= img.height,
    ;
    let mut out = RgbImage::from_pixel(w, h, (0, 0, 0));
    for j in 0..h
        invariant
            img.wf(),
            out.wf(),
            out.width == w,
            out.height == h,
            x + w <= img.width,
            y + h <= img.height,
            forall|a: int, c: int|
                0 <= a < w && 0 <= c < j ==> #[trigger] out.at(a, c) == (
                    img.at(x + a, y + c),
                    img.at(x + a, y + c),
                    img.at(x + a, y + c),
                ),
    {
        for i in 0..w
            invariant
                img.wf(),
                out.wf(),
                out.width == w,
                out.height == h,
                j < h,
                x + w <= img.width,
                y + h <= img.height,
                forall|a: int, c: int|
                    0 <= a < w && 0 <= c < h && (c < j || (c == j && a < i)) ==> #[trigger] out.at(
                        a,
                        c,
                    ) == (img.at(x + a, y + c), img.at(x + a, y + c), img.at(x + a, y + c)),
        {
            let v = img.get_pixel(x + i, y + j);
            out.put_pixel(i, j, (v, v, v));
        }
    }
    out
}

/// One icon's pixels on one platform.
#[derive(Clone, Debug)]
pub struct Crop {
    /// Platform column.
    pub platform: usize,
    /// Catalog id.
    pub id: String,
    /// The pixels.
    pub image: RgbImage,
}

/// Every crop is an image with pixels.
pub open spec fn crops_ok(crops: Seq<Crop>) -> bool {
    forall|k: int|
        0 <= k < crops.len() ==> (#[trigger] crops[k]).image.wf() && crops[k].image.width > 0
            && crops[k].image.height > 0
}

/// Position of the platform's crop of an id, or the length.
pub open spec fn crop_place(crops: Seq<Crop>, platform: usize, id: Seq<char>, from: int) -> int
    decreases crops.len() - from,
{
    if from >= crops.len() {
        crops.len() as int
    } else if crops[from].platform == platform && crops[from].id@ == id {
        from
    } else {
        crop_place(crops, platform, id, from + 1)
    }
}

/// Position of the platform's crop of an id, or the length.
pub fn find_crop(crops: &[Crop], platform: usize, id: &str) -> (k: usize)
    ensures
        k == crop_place(crops@, platform, id@, 0),
        k <= crops@.len(),
{
    for k in 0..crops.len()
        invariant
            crop_place(crops@, platform, id@, 0) == crop_place(crops@, platform, id@, k as int),
    {
        if crops[k].platform == platform && same_text(crops[k].id.as_str(), id) {
            return k;
        }
    }
    crops.len()
}

/// Crops after one more: it replaces the platform's earlier crop of the id.
pub open spec fn with_crop(crops: Seq<Crop>, c: Crop) -> Seq<Crop> {
    let k = crop_place(crops, c.platform, c.id@, 0);
    if k < crops.len() {
        crops.update(k, c)
    } else {
        crops.push(c)
    }
}

/// Adds a crop, in place of the platform's earlier crop of the id.
pub fn put_crop(crops: &mut Vec<Crop>, c: Crop)
    ensures
        final(crops)@ == with_crop(old(crops)@, c),
        crops_ok(old(crops)@) && crops_ok(seq![c]) ==> crops_ok(final(crops)@),
{
    assert(seq![c][0] == c);
    let k = find_crop(crops.as_slice(), c.platform, c.id.as_str());
    if k < crops.len() {
        crops.set(k, c);
    } else {
        crops.push(c);
    }
}

/// The crop shows the icon cell of its row.
pub open spec fn is_crop(
    c: Crop,
    platform: usize,
    g: Gray,
    cal: Calibration,
    bands: Seq<Band>,
    row: RowEntry,
) -> bool {
    &&& c.platform == platform
    &&& row matches RowEntry::Candidate { id, page_row, .. } && c.id@ == id@ && c.image.shows(
        crop_pic(g, cal.cell(ICON_COL as int, bands[page_row as int])),
    )
}

/// The crops of the page's wanted rows, in order.
pub open spec fn are_crops(
    v: Seq<Crop>,
    platform: usize,
    g: Gray,
    cal: Calibration,
    bands: Seq<Band>,
    rows: Seq<RowEntry>,
    ids: Seq<String>,
) -> bool
    decreases rows.len(),
{
    if rows.len() == 0 {
        v.len() == 0
    } else if wanted_row(rows.last(), ids) {
        &&& v.len() > 0
        &&& is_crop(v.last(), platform, g, cal, bands, rows.last())
        &&& are_crops(v.drop_last(), platform, g, cal, bands, rows.drop_last(), ids)
    } else {
        are_crops(v, platform, g, cal, bands, rows.drop_last(), ids)
    }
}

/// A candidate row of one of the ids.
pub open spec fn wanted_row(row: RowEntry, ids: Seq<String>) -> bool {
    row matches RowEntry::Candidate { id, .. } && listed(ids, id@)
}

/// Every wanted row has a band.
pub open spec fn wanted_have_bands(rows: Seq<RowEntry>, ids: Seq<String>, bands: nat) -> bool {
    forall|i: int|
        0 <= i < rows.len() && wanted_row(#[trigger] rows[i], ids) ==> rows[i].page_row_spec()
            < bands
}

/// Every wanted row of a page whose geometry is found has a band.
pub open spec fn crops_fit(g: Gray, rows: Seq<RowEntry>, ids: Seq<String>) -> bool {
    geometry(cleaned(g, model_spec(g)), model_spec(g), rows) is Ok ==> wanted_have_bands(
        rows,
        ids,
        rows.len(),
    )
}

/// Whether the wanted rows can be cut out of a captured page: each lies among the
/// page's rows, unless the page's geometry is not found anyway.
pub fn crops_fit_page(gray: &GrayImage, rows: &[&RowEntry], ids: &[String]) -> (ok: bool)
    requires
        gray.wf(),
    ensures
        ok == crops_fit(gray@, entries(rows@), ids@),
{
    let ghost e = entries(rows@);
    for i in 0..rows.len()
        invariant
            gray.wf(),
            e == entries(rows@),
            forall|j: int|
                0 <= j < i && wanted_row(#[trigger] e[j], ids@) ==> e[j].page_row_spec()
                    < rows@.len(),
    {
        assert(e[i as int] == *rows@[i as int]);
        if let RowEntry::Candidate { id, page_row, .. } = rows[i] {
            if *page_row as usize >= rows.len() && is_listed(ids, id.as_str()) {
                assert(wanted_row(e[i as int], ids@));
                let model = model_of(gray);
                let clean = suppress_structural_lines(gray, &model);
                return page_geometry(&clean, &model, rows).is_err();
            }
        }
    }
    true
}

/// Cuts the icon cells of the wanted rows out of one captured page. The page's
/// geometry is found on the capture without its window chrome; the pixels are
/// those of the capture itself.
pub fn page_crops(gray: &GrayImage, rows: &[&RowEntry], ids: &[String], platform: usize) -> (out:
    Result<Vec<Crop>, GeometryError>)
    requires
        gray.wf(),
        3 * (gray.width * gray.height) <= usize::MAX,
        crops_fit(gray@, entries(rows@), ids@),
    ensures
        match geometry(cleaned(gray@, model_spec(gray@)), model_spec(gray@), entries(rows@)) {
            Ok(v) => out matches Ok(crops) && are_crops(
                crops@,
                platform,
                gray@,
                v.0,
                v.1,
                entries(rows@),
                ids@,
            ),
            Err(e) => out matches Err(f) && f == e,
        },
        out matches Ok(crops) ==> crops_ok(crops@),
{
    let model = model_of(gray);
    let clean = suppress_structural_lines(gray, &model);
    let ghost all = entries(rows@);
    let (cal, bands) = match page_geometry(&clean, &model, rows) {
        Ok(v) => v,
        Err(e) => {
            return Err(e);
        },
    };
    let mut out: Vec<Crop> = Vec::new();
    for i in 0..rows.len()
        invariant
            gray.wf(),
            3 * (gray.width * gray.height) <= usize::MAX,
            all == entries(rows@),
            wanted_have_bands(all, ids@, rows@.len()),
            clean@ == cleaned(gray@, model),
            geometry(clean@, model, all) == Ok::<_, GeometryError>((cal, bands@)),
            bands@.len() == rows@.len(),
            forall|i: int|
                0 <= i < bands@.len() ==> (#[trigger] bands@[i]).top <= bands@[i].bottom
                    && bands@[i].bottom < gray.height,
            are_crops(out@, platform, gray@, cal, bands@, all.take(i as int), ids@),
            crops_ok(out@),
    {
        let row = rows[i];
        proof {
            assert(all.take(i + 1).drop_last() =~= all.take(i as int));
            assert(all.take(i + 1).last() == *row);
        }
        if let RowEntry::Candidate { id, page_row, .. } = row {
            if is_listed(ids, id.as_str()) {
                assert(wanted_row(all[i as int], ids@));
                let band = &bands[*page_row as usize];
                proof {
                    lemma_icon_cell(clean@, model, all, cal, bands@);
                }
                let image = clamp_crop(gray, cal.cell_box_full(ICON_COL, band));
                let ghost before = out@;
                out.push(Crop { platform, id: id.clone(), image });
                assert(out@.drop_last() =~= before);
            }
        }
    }
    assert(all.take(all.len() as int) =~= all);
    Ok(out)
}

/// The icon's full cell of a calibrated page lies inside the image and is not
/// empty.
proof fn lemma_icon_cell(
    g: Gray,
    m: crate::geom::FgModel,
    rows: Seq<RowEntry>,
    cal: Calibration,
    bands: Seq<Band>,
)
    requires
        geometry(g, m, rows) == Ok::<_, GeometryError>((cal, bands)),
    ensures
        cal.wf(),
        1 <= cal.pixel(ICON_COL as int, 10) <= g.width - 1,
        cal.pixel(ICON_COL as int, -10) <= cal.pixel(ICON_COL as int, 10) - 1,
{
    let control = bands[crate::analyze::control_place(rows)];
    calibrated_cells_lie_inside(g, m, control, cal, ICON_COL as int, 10);
    calibrated_cells_lie_inside(g, m, control, cal, ICON_COL as int, -10);
    lemma_nearest_apart(
        cal.place(ICON_COL as int, -10),
        cal.place(ICON_COL as int, 10),
        20 * cal.unit as int,
    );
}

// ---------------------------------------------------------------------------
// Laws
// ---------------------------------------------------------------------------
/// The icons to render are exactly those the manifest lists, each once, ordered
/// by block and codepoint.
pub proof fn targets_are_sorted_and_complete(
    catalog: Seq<Candidate>,
    ids: Seq<String>,
    path: Seq<char>,
    order: Seq<int>,
)
    requires
        targets_spec(catalog, ids, path) == Ok::<_, GridFault>(order),
    ensures
        forall|i: int|
            0 <= i < order.len() ==> 0 <= #[trigger] order[i] < catalog.len() && listed(
                ids,
                catalog[order[i]].id@,
            ),
        forall|i: int, j: int|
            0 <= i < j < order.len() ==> #[trigger] order[i] != #[trigger] order[j] && display_key(
                catalog[order[i]].block,
                catalog[order[i]].codepoint,
            ) <= display_key(catalog[order[j]].block, catalog[order[j]].codepoint),
        forall|k: int|
            0 <= k < ids.len() ==> order.contains(first_with_id(catalog, (#[trigger] ids[k])@, 0)),
{
    let keys = display_keys(catalog);
    let keep = asked_for(catalog, ids);
    stable_order_exists(keys, keep);
    assert forall|i: int| 0 <= i < order.len() implies 0 <= #[trigger] order[i] < catalog.len()
        && listed(ids, catalog[order[i]].id@) by {
        assert(keep[order[i]]);
    }
    assert forall|i: int, j: int| 0 <= i < j < order.len() implies #[trigger] order[i]
        != #[trigger] order[j] && display_key(
        catalog[order[i]].block,
        catalog[order[i]].codepoint,
    ) <= display_key(catalog[order[j]].block, catalog[order[j]].codepoint) by {
        assert(crate::sort::goes_before(keys, order[i], order[j]));
        assert(keys[order[i]] == display_key(
            catalog[order[i]].block,
            catalog[order[i]].codepoint,
        ));
        assert(keys[order[j]] == display_key(
            catalog[order[j]].block,
            catalog[order[j]].codepoint,
        ));
    }
    assert forall|k: int| 0 <= k < ids.len() implies order.contains(
        first_with_id(catalog, (#[trigger] ids[k])@, 0),
    ) by {
        lemma_no_unknown(catalog, ids, 0, k);
        let f = first_with_id(catalog, ids[k]@, 0);
        lemma_first_with_id(catalog, ids[k]@, 0);
        assert(keep[f]);
    }
}

/// Every icon to render is the catalog's first with its id.
pub proof fn targets_stand_first(
    catalog: Seq<Candidate>,
    ids: Seq<String>,
    path: Seq<char>,
    order: Seq<int>,
    i: int,
)
    requires
        targets_spec(catalog, ids, path) == Ok::<_, GridFault>(order),
        0 <= i < order.len(),
    ensures
        0 <= order[i] < catalog.len(),
        first_with_id(catalog, catalog[order[i]].id@, 0) == order[i],
        listed(ids, catalog[order[i]].id@),
{
    let keep = asked_for(catalog, ids);
    stable_order_exists(display_keys(catalog), keep);
    assert(keep[order[i]]);
}

/// Every id of a manifest whose icons are rendered is one of the catalog.
pub proof fn manifest_ids_are_known(
    catalog: Seq<Candidate>,
    ids: Seq<String>,
    path: Seq<char>,
    k: int,
)
    requires
        targets_spec(catalog, ids, path) is Ok,
        0 <= k < ids.len(),
    ensures
        0 <= first_with_id(catalog, ids[k]@, 0) < catalog.len(),
        catalog[first_with_id(catalog, ids[k]@, 0)].id@ == ids[k]@,
{
    lemma_no_unknown(catalog, ids, 0, k);
    lemma_first_with_id(catalog, ids[k]@, 0);
}

/// The order in which a manifest lists its ids, and how often it lists them, is
/// irrelevant.
pub proof fn manifest_order_is_irrelevant(
    catalog: Seq<Candidate>,
    ids: Seq<String>,
    path: Seq<char>,
    other: Seq<String>,
    other_path: Seq<char>,
)
    requires
        forall|id: Seq<char>| #[trigger] listed(ids, id) == listed(other, id),
    ensures
        targets_spec(catalog, ids, path) is Ok <==> targets_spec(catalog, other, other_path) is Ok,
        targets_spec(catalog, ids, path) is Ok ==> targets_spec(catalog, ids, path)
            == targets_spec(catalog, other, other_path),
{
    assert(asked_for(catalog, ids) =~= asked_for(catalog, other));
    lemma_resolves(catalog, ids, path, other, other_path);
    lemma_resolves(catalog, other, other_path, ids, path);
}

proof fn lemma_resolves(
    catalog: Seq<Candidate>,
    ids: Seq<String>,
    path: Seq<char>,
    other: Seq<String>,
    other_path: Seq<char>,
)
    requires
        forall|id: Seq<char>| #[trigger] listed(ids, id) == listed(other, id),
    ensures
        targets_spec(catalog, ids, path) is Ok ==> targets_spec(catalog, other, other_path) is Ok,
{
    if targets_spec(catalog, ids, path) is Ok {
        assert(listed(ids, ids[0]@));
        assert(listed(other, ids[0]@));
        assert forall|k: int| 0 <= k < other.len() implies first_with_id(
            catalog,
            (#[trigger] other[k])@,
            0,
        ) < catalog.len() by {
            assert(listed(other, other[k]@));
            assert(listed(ids, other[k]@));
            let j = choose|j: int| 0 <= j < ids.len() && (#[trigger] ids[j])@ == other[k]@;
            lemma_no_unknown(catalog, ids, 0, j);
        }
        lemma_all_known(catalog, other, 0);
    }
}

proof fn lemma_all_known(catalog: Seq<Candidate>, ids: Seq<String>, i: int)
    requires
        0 <= i,
        forall|k: int|
            0 <= k < ids.len() ==> first_with_id(catalog, (#[trigger] ids[k])@, 0) < catalog.len(),
    ensures
        unknown_id(catalog, ids, i) is None,
    decreases ids.len() - i,
{
    if i < ids.len() {
        lemma_all_known(catalog, ids, i + 1);
    }
}

proof fn lemma_no_unknown(catalog: Seq<Candidate>, ids: Seq<String>, i: int, k: int)
    requires
        0 <= i <= k < ids.len(),
        unknown_id(catalog, ids, i) is None,
    ensures
        first_with_id(catalog, ids[k]@, 0) < catalog.len(),
    decreases k - i,
{
    if i < k {
        lemma_no_unknown(catalog, ids, i + 1, k);
    }
}

proof fn lemma_first_with_id(catalog: Seq<Candidate>, id: Seq<char>, from: int)
    requires
        0 <= from,
        first_with_id(catalog, id, from) < catalog.len(),
    ensures
        from <= first_with_id(catalog, id, from),
        catalog[first_with_id(catalog, id, from)].id@ == id,
    decreases catalog.len() - from,
{
    if from < catalog.len() && catalog[from].id@ != id {
        lemma_first_with_id(catalog, id, from + 1);
    }
}

/// No platform has two crops of one id.
pub open spec fn crops_unique(crops: Seq<Crop>) -> bool {
    forall|i: int, j: int|
        0 <= i < j < crops.len() ==> (#[trigger] crops[i]).platform != (#[trigger] crops[j]).platform
            || crops[i].id@ != crops[j].id@
}

/// Two crops of one icon on one platform, pixel for pixel.
pub open spec fn same_crop(a: Crop, b: Crop) -> bool {
    &&& a.platform == b.platform
    &&& a.id@ == b.id@
    &&& a.image.width == b.image.width
    &&& a.image.height == b.image.height
    &&& a.image.data@ == b.image.data@
}

/// The same crops, in the same order.
pub open spec fn same_crops(a: Seq<Crop>, b: Seq<Crop>) -> bool {
    &&& a.len() == b.len()
    &&& forall|i: int| 0 <= i < a.len() ==> same_crop(#[trigger] a[i], b[i])
}

/// A captured page fixes the crops cut out of it, pixel for pixel, whatever the
/// order of the wanted ids.
pub proof fn pages_fix_their_crops(
    a: Seq<Crop>,
    b: Seq<Crop>,
    platform: usize,
    g: Gray,
    cal: Calibration,
    bands: Seq<Band>,
    rows: Seq<RowEntry>,
    ids: Seq<String>,
    other: Seq<String>,
)
    requires
        forall|id: Seq<char>| #[trigger] listed(ids, id) == listed(other, id),
        are_crops(a, platform, g, cal, bands, rows, ids),
        are_crops(b, platform, g, cal, bands, rows, other),
    ensures
        same_crops(a, b),
    decreases rows.len(),
{
    if rows.len() > 0 {
        let row = rows.last();
        assert(wanted_row(row, ids) == wanted_row(row, other));
        if wanted_row(row, ids) {
            let (x, y) = (a.drop_last(), b.drop_last());
            pages_fix_their_crops(x, y, platform, g, cal, bands, rows.drop_last(), ids, other);
            let band = bands[row.page_row_spec() as int];
            images_are_fixed_by_their_picture(
                a.last().image,
                b.last().image,
                crop_pic(g, cal.cell(ICON_COL as int, band)),
            );
            assert forall|i: int| 0 <= i < a.len() implies same_crop(#[trigger] a[i], b[i]) by {
                if i < x.len() {
                    assert(same_crop(x[i], y[i]));
                }
            }
        } else {
            pages_fix_their_crops(a, b, platform, g, cal, bands, rows.drop_last(), ids, other);
        }
    }
}

/// The same crops are found at the same place.
pub proof fn same_crops_same_place(
    a: Seq<Crop>,
    b: Seq<Crop>,
    platform: usize,
    id: Seq<char>,
    from: int,
)
    requires
        same_crops(a, b),
        0 <= from,
    ensures
        crop_place(a, platform, id, from) == crop_place(b, platform, id, from),
    decreases a.len() - from,
{
    if from < a.len() {
        assert(same_crop(a[from], b[from]));
        same_crops_same_place(a, b, platform, id, from + 1);
    }
}

/// Adding the same crop to the same crops leaves the same crops.
pub proof fn same_crops_stay_the_same(a: Seq<Crop>, b: Seq<Crop>, c: Crop, d: Crop)
    requires
        same_crops(a, b),
        same_crop(c, d),
    ensures
        same_crops(with_crop(a, c), with_crop(b, d)),
{
    same_crops_same_place(a, b, c.platform, c.id@, 0);
    lemma_crop_place(a, c.platform, c.id@, 0);
    let (x, y) = (with_crop(a, c), with_crop(b, d));
    let k = crop_place(a, c.platform, c.id@, 0);
    assert forall|i: int| 0 <= i < x.len() implies same_crop(#[trigger] x[i], y[i]) by {
        if i != k {
            assert(same_crop(a[i], b[i]));
        }
    }
}

proof fn lemma_crop_place(crops: Seq<Crop>, platform: usize, id: Seq<char>, from: int)
    requires
        0 <= from <= crops.len(),
    ensures
        from <= crop_place(crops, platform, id, from) <= crops.len(),
        crop_place(crops, platform, id, from) < crops.len() ==> {
            let k = crop_place(crops, platform, id, from);
            crops[k].platform == platform && crops[k].id@ == id
        },
        forall|k: int|
            from <= k < crop_place(crops, platform, id, from) ==> (#[trigger] crops[k]).platform
                != platform || crops[k].id@ != id,
    decreases crops.len() - from,
{
    if from < crops.len() && !(crops[from].platform == platform && crops[from].id@ == id) {
        lemma_crop_place(crops, platform, id, from + 1);
    }
}

/// A crop is found among the crops, or past them.
pub proof fn crop_places_lie_inside(crops: Seq<Crop>, platform: usize, id: Seq<char>)
    ensures
        0 <= crop_place(crops, platform, id, 0) <= crops.len(),
{
    lemma_crop_place(crops, platform, id, 0);
}

/// A crop that was added is the one found for its platform and id, all other
/// crops are found as before, and no platform ever has two crops of one id.
pub proof fn the_latest_crop_counts(crops: Seq<Crop>, c: Crop, platform: usize, id: Seq<char>)
    requires
        crops_unique(crops),
    ensures
        ({
            let after = with_crop(crops, c);
            let k = crop_place(after, platform, id, 0);
            let was = crop_place(crops, platform, id, 0);
            &&& crops_unique(after)
            &&& platform == c.platform && id == c.id@ ==> k < after.len() && after[k] == c
            &&& platform != c.platform || id != c.id@ ==> if was < crops.len() {
                k < after.len() && after[k] == crops[was]
            } else {
                k == after.len()
            }
        }),
{
    let after = with_crop(crops, c);
    let at = crop_place(crops, c.platform, c.id@, 0);
    lemma_crop_place(crops, c.platform, c.id@, 0);
    lemma_crop_place(crops, platform, id, 0);
    lemma_crop_place(after, platform, id, 0);
    assert(at < after.len() && after[at] == c);
    assert forall|i: int| 0 <= i < after.len() && i != at implies (#[trigger] after[i])
        == crops[i] && i < crops.len() by {}
    let k = crop_place(after, platform, id, 0);
    let was = crop_place(crops, platform, id, 0);
    if platform == c.platform && id == c.id@ {
        assert(k <= at);
        if k < at {
            assert(after[k] == crops[k]);
        }
    } else {
        if was < crops.len() {
            assert(was != at);
            assert(after[was] == crops[was]);
            assert(k <= was);
            if k < was {
                assert(k != at);
                assert(after[k] == crops[k]);
            }
        } else if k < after.len() {
            assert(k != at);
            assert(after[k] == crops[k]);
        }
    }
}

/// The platform labels are pairwise different, so that three accepted inputs
/// cover all platforms.
pub proof fn platform_labels_are_distinct(p: int, q: int)
    requires
        0 <= p < PLATFORMS,
        0 <= q < PLATFORMS,
        platform_text(p) == platform_text(q),
    ensures
        p == q,
{
    reveal_strlit("macos");
    reveal_strlit("windows");
    reveal_strlit("linux");
    assert("macos"@[0] == 'm');
    assert("windows"@[0] == 'w');
    assert("linux"@[0] == 'l');
}

// ---------------------------------------------------------------------------
// What the inputs must be, and what comes of them
// ---------------------------------------------------------------------------
/// One of the three labels.
pub open spec fn is_platform(s: Seq<char>) -> bool {
    s == "macos"@ || s == "windows"@ || s == "linux"@
}

/// The label is none of the three, or stands earlier in the list.
pub open spec fn is_misplaced(labels: Seq<String>, i: int) -> bool {
    &&& 0 <= i < labels.len()
    &&& !is_platform(labels[i]@) || exists|j: int|
        0 <= j < i && (#[trigger] labels[j])@ == labels[i]@
}

/// The label is the first misplaced one.
pub open spec fn is_first_misplaced(labels: Seq<String>, i: int) -> bool {
    &&& is_misplaced(labels, i)
    &&& forall|j: int| 0 <= j < i ==> !#[trigger] is_misplaced(labels, j)
}

proof fn lemma_known(s: Seq<char>)
    ensures
        known_label(s) == is_platform(s),
{
    if s == "macos"@ {
        assert(s == platform_text(0));
    }
    if s == "windows"@ {
        assert(s == platform_text(1));
    }
    if s == "linux"@ {
        assert(s == platform_text(2));
    }
}

proof fn lemma_label_fault(labels: Seq<String>, i: int)
    requires
        0 <= i <= labels.len(),
        forall|j: int| 0 <= j < i ==> !#[trigger] is_misplaced(labels, j),
    ensures
        label_fault(labels, i) is None <==> forall|j: int|
            0 <= j < labels.len() ==> !#[trigger] is_misplaced(labels, j),
        forall|k: int| #[trigger]
            is_first_misplaced(labels, k) ==> label_fault(labels, i) == Some(
                if is_platform(labels[k]@) {
                    GridFault::DuplicateLabel(labels[k]@)
                } else {
                    GridFault::UnknownLabel(labels[k]@)
                },
            ),
    decreases labels.len() - i,
{
    if i < labels.len() {
        lemma_known(labels[i]@);
        let before = labels.take(i);
        assert(listed(before, labels[i]@) <==> exists|j: int|
            0 <= j < i && (#[trigger] labels[j])@ == labels[i]@) by {
            if listed(before, labels[i]@) {
                let j = choose|j: int|
                    0 <= j < before.len() && (#[trigger] before[j])@ == labels[i]@;
                assert(labels[j]@ == labels[i]@);
            }
            if exists|j: int| 0 <= j < i && (#[trigger] labels[j])@ == labels[i]@ {
                let j = choose|j: int| 0 <= j < i && (#[trigger] labels[j])@ == labels[i]@;
                assert(before[j]@ == labels[i]@);
            }
        }
        if is_misplaced(labels, i) {
            assert forall|k: int| #[trigger] is_first_misplaced(labels, k) implies k == i by {
                if k < i {
                    assert(!is_misplaced(labels, k));
                }
                if k > i {
                    assert(!is_misplaced(labels, i));
                }
            }
        } else {
            lemma_label_fault(labels, i + 1);
        }
    }
}

/// The inputs are accepted when, and only when, there is one for each of the three
/// platforms. Otherwise their number is refused, or the first label that is none of
/// the three or that came before.
pub proof fn there_is_one_input_per_platform(labels: Seq<String>)
    ensures
        inputs_fault(labels) is None <==> labels.len() == 3 && listed(labels, "macos"@) && listed(
            labels,
            "windows"@,
        ) && listed(labels, "linux"@),
        labels.len() != 3 ==> inputs_fault(labels) == Some(
            GridFault::InputCount(labels.len() as int),
        ),
        labels.len() == 3 ==> forall|k: int| #[trigger]
            is_first_misplaced(labels, k) ==> inputs_fault(labels) == Some(
                if is_platform(labels[k]@) {
                    GridFault::DuplicateLabel(labels[k]@)
                } else {
                    GridFault::UnknownLabel(labels[k]@)
                },
            ),
{
    if labels.len() == 3 {
        lemma_label_fault(labels, 0);
        lemma_labels_differ();
        let (a, b, c) = (labels[0]@, labels[1]@, labels[2]@);
        if inputs_fault(labels) is None {
            assert(!is_misplaced(labels, 0));
            assert(!is_misplaced(labels, 1));
            assert(!is_misplaced(labels, 2));
            assert(a != b && a != c && b != c);
            assert(listed(labels, a) && listed(labels, b) && listed(labels, c));
        }
        if listed(labels, "macos"@) && listed(labels, "windows"@) && listed(labels, "linux"@) {
            let i = choose|i: int| 0 <= i < labels.len() && (#[trigger] labels[i])@ == "macos"@;
            let j = choose|i: int| 0 <= i < labels.len() && (#[trigger] labels[i])@ == "windows"@;
            let k = choose|i: int| 0 <= i < labels.len() && (#[trigger] labels[i])@ == "linux"@;
            assert(i != j && i != k && j != k);
            assert forall|n: int| 0 <= n < labels.len() implies !#[trigger] is_misplaced(
                labels,
                n,
            ) by {
                assert(n == i || n == j || n == k);
                assert forall|m: int| 0 <= m < n implies (#[trigger] labels[m])@ != labels[n]@ by {
                    assert(m == i || m == j || m == k);
                }
            }
        }
    }
}

proof fn lemma_labels_differ()
    ensures
        "macos"@ != "windows"@,
        "macos"@ != "linux"@,
        "windows"@ != "linux"@,
{
    reveal_strlit("macos");
    reveal_strlit("windows");
    reveal_strlit("linux");
    assert("macos"@[0] != "windows"@[0]);
    assert("macos"@[0] != "linux"@[0]);
    assert("windows"@[0] != "linux"@[0]);
}

/// The positions of the candidate rows, in ascending order.
pub open spec fn lists_candidates(at: Seq<int>, rows: Seq<RowEntry>) -> bool {
    lists(at, rows.len() as int, |k: int| rows[k] is Candidate)
}

/// The identities are those of the candidate rows, in order: id, codepoint, page
/// and place on the page.
pub open spec fn identifies(q: Seq<(Seq<char>, u32, u32, u16)>, rows: Seq<RowEntry>) -> bool {
    exists|at: Seq<int>| #[trigger]
        lists_candidates(at, rows) && q.len() == at.len() && forall|k: int|
            0 <= k < at.len() ==> (rows[#[trigger] at[k]] matches RowEntry::Candidate {
                id,
                codepoint,
                page,
                page_row,
                ..
            } && q[k] == (id@, codepoint, page, page_row))
}

proof fn lemma_identities(rows: Seq<RowEntry>)
    ensures
        ({
            let at = listing(rows.len() as int, |k: int| rows[k] is Candidate);
            let q = candidate_sequence(rows);
            &&& q.len() == at.len()
            &&& forall|k: int|
                0 <= k < at.len() ==> (rows[#[trigger] at[k]] matches RowEntry::Candidate {
                    id,
                    codepoint,
                    page,
                    page_row,
                    ..
                } && q[k] == (id@, codepoint, page, page_row))
        }),
    decreases rows.len(),
{
    let f = |k: int| rows[k] is Candidate;
    let at = listing(rows.len() as int, f);
    let q = candidate_sequence(rows);
    if rows.len() > 0 {
        let w = rows.drop_last();
        let n = w.len() as int;
        let g = |k: int| w[k] is Candidate;
        lemma_identities(w);
        assert forall|k: int| 0 <= k < n implies #[trigger] f(k) == g(k) by {
            assert(w[k] == rows[k]);
        }
        lemma_same_listing(n, f, g);
        lemma_listing(n, g);
        let before = listing(n, g);
        assert(f(n) == (rows.last() is Candidate));
        assert forall|k: int| 0 <= k < at.len() implies (rows[#[trigger] at[k]]
            matches RowEntry::Candidate { id, codepoint, page, page_row, .. } && q[k] == (
            id@,
            codepoint,
            page,
            page_row,
        )) by {
            if k < before.len() {
                assert(at[k] == before[k]);
                assert(0 <= before[k] < n);
                assert(w[before[k]] == rows[at[k]]);
            } else {
                assert(rows[at[k]] == rows.last());
            }
        }
    }
}

proof fn lemma_skewed(sidecars: Seq<&Sidecar>, p: int)
    requires
        0 <= p <= 3,
    ensures
        skewed(sidecars, p) is None <==> forall|q: int|
            p <= q < 3 ==> candidate_sequence((#[trigger] sidecars[q]).rows@)
                == candidate_sequence(sidecars[2].rows@),
        forall|q: int|
            p <= q < 3 && candidate_sequence((#[trigger] sidecars[q]).rows@) != candidate_sequence(
                sidecars[2].rows@,
            ) && (forall|r: int|
                p <= r < q ==> candidate_sequence((#[trigger] sidecars[r]).rows@)
                    == candidate_sequence(sidecars[2].rows@)) ==> skewed(sidecars, p) == Some(
                GridFault::Skew(q),
            ),
    decreases 3 - p,
{
    if p < 3 {
        lemma_skewed(sidecars, p + 1);
        let same = candidate_sequence(sidecars[p].rows@) == candidate_sequence(sidecars[2].rows@);
        if same && skewed(sidecars, p) is None {
            assert forall|q: int| p <= q < 3 implies candidate_sequence(
                (#[trigger] sidecars[q]).rows@,
            ) == candidate_sequence(sidecars[2].rows@) by {
                if q > p {
                    assert(p + 1 <= q);
                }
            }
        }
    }
}

/// Captures agree when every platform drew the same candidates at the same places
/// as the Linux one. The first that did not is named.
pub proof fn captures_agree_with_linux(sidecars: Seq<&Sidecar>)
    requires
        sidecars.len() == 3,
    ensures
        forall|p: int|
            0 <= p < 3 ==> identifies(
                candidate_sequence((#[trigger] sidecars[p]).rows@),
                sidecars[p].rows@,
            ),
        skewed(sidecars, 0) is None <==> forall|p: int|
            0 <= p < 3 ==> candidate_sequence((#[trigger] sidecars[p]).rows@)
                == candidate_sequence(sidecars[2].rows@),
        forall|p: int|
            0 <= p < 3 && candidate_sequence((#[trigger] sidecars[p]).rows@) != candidate_sequence(
                sidecars[2].rows@,
            ) && (forall|r: int|
                0 <= r < p ==> candidate_sequence((#[trigger] sidecars[r]).rows@)
                    == candidate_sequence(sidecars[2].rows@)) ==> skewed(sidecars, 0) == Some(
                GridFault::Skew(p),
            ),
{
    assert forall|p: int| 0 <= p < 3 implies identifies(
        candidate_sequence((#[trigger] sidecars[p]).rows@),
        sidecars[p].rows@,
    ) by {
        let rows = sidecars[p].rows@;
        lemma_identities(rows);
        lemma_listing(rows.len() as int, |k: int| rows[k] is Candidate);
        let at = listing(rows.len() as int, |k: int| rows[k] is Candidate);
        assert(lists_candidates(at, rows));
    }
    lemma_skewed(sidecars, 0);
}

/// Candidate `a` of the catalog is shown before `b`: blocks in their fixed order,
/// inside a block by codepoint.
pub open spec fn shown_before(a: Candidate, b: Candidate) -> bool {
    block_place(a.block) < block_place(b.block) || a.block == b.block && a.codepoint <= b.codepoint
}

/// The fixed order of the blocks.
pub open spec fn block_place(block: Block) -> int {
    seq![
        Block::Ascii,
        Block::Arrows,
        Block::BoxDrawing,
        Block::BlockElements,
        Block::GeometricShapes,
        Block::MiscSymbols,
        Block::Dingbats,
        Block::Braille,
    ].index_of(block)
}

proof fn lemma_block_place(block: Block)
    ensures
        block_place(block) == block.rank_spec(),
{
    let s = seq![
        Block::Ascii,
        Block::Arrows,
        Block::BoxDrawing,
        Block::BlockElements,
        Block::GeometricShapes,
        Block::MiscSymbols,
        Block::Dingbats,
        Block::Braille,
    ];
    let r = block.rank_spec() as int;
    assert(s[r] == block);
    assert(s.contains(block));
    let i = s.index_of(block);
    assert(0 <= i < s.len() && s[i] == block);
    assert(s[i].rank_spec() == i);
}

/// The icons to show stand in the order of display, and no id twice.
pub proof fn icons_are_shown_by_block_and_codepoint(
    catalog: Seq<Candidate>,
    ids: Seq<String>,
    path: Seq<char>,
    order: Seq<int>,
    i: int,
    j: int,
)
    requires
        targets_spec(catalog, ids, path) == Ok::<_, GridFault>(order),
        0 <= i < j < order.len(),
    ensures
        0 <= order[i] < catalog.len(),
        0 <= order[j] < catalog.len(),
        shown_before(catalog[order[i]], catalog[order[j]]),
        catalog[order[i]].id@ != catalog[order[j]].id@,
{
    targets_are_sorted_and_complete(catalog, ids, path, order);
    let (a, b) = (catalog[order[i]], catalog[order[j]]);
    assert(order[i] != order[j]);
    assert(display_key(a.block, a.codepoint) <= display_key(b.block, b.codepoint));
    lemma_block_place(a.block);
    lemma_block_place(b.block);
    targets_stand_first(catalog, ids, path, order, i);
    targets_stand_first(catalog, ids, path, order, j);
}

/// Every icon to show is asked for by the manifest, and is the catalog's first
/// with its id.
pub proof fn shown_icons_are_asked_for(
    catalog: Seq<Candidate>,
    ids: Seq<String>,
    path: Seq<char>,
    order: Seq<int>,
    i: int,
    k: int,
)
    requires
        targets_spec(catalog, ids, path) == Ok::<_, GridFault>(order),
        0 <= i < order.len(),
    ensures
        0 <= order[i] < catalog.len(),
        0 <= k < order[i] ==> catalog[k].id@ != catalog[order[i]].id@,
        exists|n: int| 0 <= n < ids.len() && (#[trigger] ids[n])@ == catalog[order[i]].id@,
{
    targets_stand_first(catalog, ids, path, order, i);
    if 0 <= k < order[i] {
        lemma_none_before(catalog, catalog[order[i]].id@, 0, k);
    }
}

/// Every id of the manifest has its icon shown. A manifest without ids is refused,
/// and so is an id that the catalog does not have: the first one is named.
pub proof fn manifest_ids_are_shown(
    catalog: Seq<Candidate>,
    ids: Seq<String>,
    path: Seq<char>,
    k: int,
)
    requires
        0 <= k < ids.len() || ids.len() == 0,
    ensures
        ids.len() == 0 ==> targets_spec(catalog, ids, path) == Err::<Seq<int>, _>(
            GridFault::EmptyManifest(path),
        ),
        targets_spec(catalog, ids, path) is Ok && ids.len() > 0 ==> exists|i: int|
            0 <= i < targets_spec(catalog, ids, path)->Ok_0.len() && catalog[
                #[trigger] targets_spec(catalog, ids, path)->Ok_0[i]].id@ == ids[k]@,
        0 <= k < ids.len() && !in_catalog(catalog, ids[k]@) && (forall|j: int|
            0 <= j < k ==> in_catalog(catalog, (#[trigger] ids[j])@)) ==> targets_spec(
            catalog,
            ids,
            path,
        ) == Err::<Seq<int>, _>(GridFault::UnknownId(ids[k]@)),
{
    if targets_spec(catalog, ids, path) is Ok && ids.len() > 0 {
        let order = targets_spec(catalog, ids, path)->Ok_0;
        targets_are_sorted_and_complete(catalog, ids, path, order);
        manifest_ids_are_known(catalog, ids, path, k);
        let f = first_with_id(catalog, ids[k]@, 0);
        assert(order.contains(f));
        let i = choose|i: int| 0 <= i < order.len() && order[i] == f;
        assert(catalog[order[i]].id@ == ids[k]@);
    }
    if 0 <= k < ids.len() && !in_catalog(catalog, ids[k]@) && (forall|j: int|
        0 <= j < k ==> in_catalog(catalog, (#[trigger] ids[j])@)) {
        lemma_unknown(catalog, ids, 0, k);
    }
}

/// The catalog has an entry with the id.
pub open spec fn in_catalog(catalog: Seq<Candidate>, id: Seq<char>) -> bool {
    exists|i: int| 0 <= i < catalog.len() && (#[trigger] catalog[i]).id@ == id
}

proof fn lemma_in_catalog(catalog: Seq<Candidate>, id: Seq<char>)
    ensures
        in_catalog(catalog, id) <==> first_with_id(catalog, id, 0) < catalog.len(),
{
    if first_with_id(catalog, id, 0) < catalog.len() {
        lemma_first_with_id(catalog, id, 0);
    }
    if in_catalog(catalog, id) && first_with_id(catalog, id, 0) >= catalog.len() {
        let i = choose|i: int| 0 <= i < catalog.len() && (#[trigger] catalog[i]).id@ == id;
        lemma_none_before(catalog, id, 0, i);
    }
}

proof fn lemma_unknown(catalog: Seq<Candidate>, ids: Seq<String>, from: int, k: int)
    requires
        0 <= from <= k < ids.len(),
        !in_catalog(catalog, ids[k]@),
        forall|j: int| 0 <= j < k ==> in_catalog(catalog, (#[trigger] ids[j])@),
    ensures
        unknown_id(catalog, ids, from) == Some(GridFault::UnknownId(ids[k]@)),
    decreases k - from,
{
    lemma_in_catalog(catalog, ids[from]@);
    if from < k {
        assert(in_catalog(catalog, ids[from]@));
        lemma_unknown(catalog, ids, from + 1, k);
    }
}

proof fn lemma_none_before(catalog: Seq<Candidate>, id: Seq<char>, from: int, k: int)
    requires
        0 <= from <= k < first_with_id(catalog, id, from),
        k < catalog.len(),
    ensures
        catalog[k].id@ != id,
    decreases k - from,
{
    if from < k {
        lemma_none_before(catalog, id, from + 1, k);
    }
}

/// The name of a page image with the given number.
pub open spec fn names_page(name: Seq<char>, number: Seq<char>) -> bool {
    name == "shot_page_"@ + number + ".png"@
}

/// A page image is named by its number: nothing else counts as one, and a name of
/// that form without a number is refused.
pub proof fn page_images_are_named_by_number(name: Seq<char>, middle: Seq<char>)
    ensures
        names_page(name, middle) ==> is_page_name(name) && page_number(name) == parse_u32(
            middle,
            10,
        ),
        is_page_name(name) ==> exists|m: Seq<char>| #[trigger] names_page(name, m),
{
    reveal_strlit("shot_page_");
    reveal_strlit(".png");
    let (a, b) = ("shot_page_"@, ".png"@);
    if name == a + middle + b {
        assert(name.subrange(0, a.len() as int) =~= a);
        let rest = name.skip(a.len() as int);
        assert(rest.subrange(rest.len() - b.len(), rest.len() as int) =~= b);
        assert(name.subrange(a.len() as int, name.len() - b.len()) =~= middle);
    }
    if is_page_name(name) {
        let rest = name.skip(a.len() as int);
        let m = rest.take(rest.len() - b.len());
        assert(rest.subrange(rest.len() - b.len(), rest.len() as int) == b);
        assert(rest =~= m + b);
        assert(name.subrange(0, a.len() as int) == a);
        assert(name =~= a + m + b);
        assert(names_page(name, m));
    }
}

/// Ordered pages are the page images among the names, each number from zero on
/// once, in the order of their numbers.
pub proof fn pages_are_numbered_from_zero(names: Seq<String>, expected: u32, order: Seq<int>)
    requires
        pages_spec(names, expected) == Ok::<_, PageFault>(order),
    ensures
        order.len() == expected,
        forall|i: int|
            0 <= i < order.len() ==> 0 <= #[trigger] order[i] < names.len() && is_page_name(
                names[order[i]]@,
            ) && page_number(names[order[i]]@) == Some(i as u32),
        forall|k: int|
            0 <= k < names.len() && is_page_name((#[trigger] names[k])@) ==> order.contains(k),
{
    let keys = page_keys(names);
    let keep = page_flags(names);
    stable_order_exists(keys, keep);
    assert forall|i: int| 0 <= i < order.len() implies 0 <= #[trigger] order[i] < names.len()
        && is_page_name(names[order[i]]@) && page_number(names[order[i]]@) == Some(i as u32) by {
        assert(keep[order[i]]);
        lemma_in_place(keys, order, 0, i);
        lemma_parseable(names, 0, order[i]);
        assert(keys[order[i]] == i);
    }
    assert forall|k: int| 0 <= k < names.len() && is_page_name(
        (#[trigger] names[k])@,
    ) implies order.contains(k) by {
        assert(keep[k]);
    }
}

proof fn lemma_in_place(keys: Seq<u64>, order: Seq<int>, from: int, i: int)
    requires
        out_of_place(keys, order, from) is None,
        0 <= from <= i < order.len(),
    ensures
        keys[order[i]] == i,
    decreases i - from,
{
    if from < i {
        lemma_in_place(keys, order, from + 1, i);
    }
}

proof fn lemma_parseable(names: Seq<String>, from: int, k: int)
    requires
        unparseable(names, from) is None,
        0 <= from <= k < names.len(),
    ensures
        is_page_name(names[k]@) ==> page_number(names[k]@) is Some,
    decreases k - from,
{
    if from < k {
        lemma_parseable(names, from + 1, k);
    }
}

/// A crop shows the pixels of its box, gray for gray. What of the box lies outside
/// the image is cut off, and a box that begins outside begins in the last column
/// or row instead.
pub proof fn crops_show_their_box(g: Gray, b: CellBox, i: int, j: int)
    requires
        0 < g.width,
        0 < g.height,
        b.left <= b.right,
        b.top <= b.bottom,
        0 <= i,
        0 <= j,
    ensures
        b.right < g.width ==> crop_pic(g, b).w == b.right - b.left + 1,
        b.bottom < g.height ==> crop_pic(g, b).h == b.bottom - b.top + 1,
        b.left < g.width <= b.right ==> crop_pic(g, b).w == g.width - b.left,
        b.top < g.height <= b.bottom ==> crop_pic(g, b).h == g.height - b.top,
        b.left >= g.width ==> crop_pic(g, b).w == 1,
        b.top >= g.height ==> crop_pic(g, b).h == 1,
        b.left + i < g.width && b.top + j < g.height ==> ({
            let v = g.data[(b.top + j) * g.width + (b.left + i)];
            crop_pic(g, b).at(i, j) == (v, v, v)
        }),
{
}

/// The positions of the wanted rows, in ascending order.
pub open spec fn lists_wanted(at: Seq<int>, rows: Seq<RowEntry>, ids: Seq<String>) -> bool {
    lists(
        at,
        rows.len() as int,
        |k: int| rows[k] matches RowEntry::Candidate { id, .. } && listed(ids, id@),
    )
}

proof fn lemma_crops_listed(
    v: Seq<Crop>,
    platform: usize,
    g: Gray,
    cal: Calibration,
    bands: Seq<Band>,
    rows: Seq<RowEntry>,
    ids: Seq<String>,
) -> (at: Seq<int>)
    requires
        are_crops(v, platform, g, cal, bands, rows, ids),
    ensures
        at == listing(
            rows.len() as int,
            |k: int| rows[k] matches RowEntry::Candidate { id, .. } && listed(ids, id@),
        ),
        at.len() == v.len(),
        forall|k: int|
            0 <= k < at.len() ==> is_crop(v[k], platform, g, cal, bands, rows[#[trigger] at[k]]),
    decreases rows.len(),
{
    let f = |k: int| rows[k] matches RowEntry::Candidate { id, .. } && listed(ids, id@);
    let at = listing(rows.len() as int, f);
    if rows.len() > 0 {
        let w = rows.drop_last();
        let n = w.len() as int;
        let h = |k: int| w[k] matches RowEntry::Candidate { id, .. } && listed(ids, id@);
        assert forall|k: int| 0 <= k < n implies #[trigger] f(k) == h(k) by {
            assert(w[k] == rows[k]);
        }
        lemma_same_listing(n, f, h);
        lemma_listing(n, h);
        assert(f(n) == wanted_row(rows.last(), ids));
        let u = if wanted_row(rows.last(), ids) {
            v.drop_last()
        } else {
            v
        };
        let before = lemma_crops_listed(u, platform, g, cal, bands, w, ids);
        assert forall|k: int| 0 <= k < at.len() implies is_crop(
            v[k],
            platform,
            g,
            cal,
            bands,
            rows[#[trigger] at[k]],
        ) by {
            if k < before.len() {
                assert(at[k] == before[k]);
                assert(0 <= before[k] < n);
                assert(w[before[k]] == rows[at[k]]);
                assert(u[k] == v[k]);
            } else {
                assert(rows[at[k]] == rows.last());
                assert(v[k] == v.last());
            }
        }
    }
    at
}

/// A page gives one crop per wanted candidate row, in the order of its rows: the
/// full cell of column 3 of the row's band.
pub proof fn pages_give_the_icon_cells_of_their_rows(
    v: Seq<Crop>,
    platform: usize,
    g: Gray,
    cal: Calibration,
    bands: Seq<Band>,
    rows: Seq<RowEntry>,
    ids: Seq<String>,
)
    requires
        are_crops(v, platform, g, cal, bands, rows, ids),
    ensures
        exists|at: Seq<int>| #[trigger]
            lists_wanted(at, rows, ids) && at.len() == v.len() && forall|k: int|
                0 <= k < at.len() ==> (rows[#[trigger] at[k]] matches RowEntry::Candidate {
                    id,
                    page_row,
                    ..
                } && v[k].id@ == id@ && v[k].platform == platform && v[k].image.shows(
                    crop_pic(g, cal.cell(3, bands[page_row as int])),
                )),
{
    let at = lemma_crops_listed(v, platform, g, cal, bands, rows, ids);
    lemma_listing(
        rows.len() as int,
        |k: int| rows[k] matches RowEntry::Candidate { id, .. } && listed(ids, id@),
    );
    assert(lists_wanted(at, rows, ids));
}

/// Some candidate row has the id.
pub open spec fn has_row(rows: Seq<RowEntry>, wanted: Seq<char>) -> bool {
    exists|i: int|
        0 <= i < rows.len() && (#[trigger] rows[i]) is Candidate && rows[i]->id@ == wanted
}

proof fn lemma_absent(
    catalog: Seq<Candidate>,
    targets: Seq<int>,
    rows: Seq<RowEntry>,
    from: int,
    k: int,
)
    requires
        0 <= from <= targets.len(),
    ensures
        absent(catalog, targets, rows, from) is None ==> (from <= k < targets.len() ==> has_row(
            rows,
            catalog[targets[k]].id@,
        )),
        from <= k < targets.len() && !has_row(rows, catalog[targets[k]].id@) && (forall|j: int|
            from <= j < k ==> has_row(rows, catalog[#[trigger] targets[j]].id@)) ==> absent(
            catalog,
            targets,
            rows,
            from,
        ) == Some(GridFault::AbsentId(catalog[targets[k]].id@)),
        (forall|j: int|
            from <= j < targets.len() ==> has_row(rows, catalog[#[trigger] targets[j]].id@))
            ==> absent(catalog, targets, rows, from) is None,
    decreases targets.len() - from,
{
    if from < targets.len() {
        let id = catalog[targets[from]].id@;
        assert(captured(rows, id) == has_row(rows, id)) by {
            if captured(rows, id) {
                let i = choose|i: int|
                    0 <= i < rows.len() && ((#[trigger] rows[i]) matches RowEntry::Candidate {
                        id: own,
                        ..
                    } && own@ == id);
                assert(rows[i] is Candidate && rows[i]->id@ == id);
            }
            if has_row(rows, id) {
                let i = choose|i: int|
                    0 <= i < rows.len() && (#[trigger] rows[i]) is Candidate && rows[i]->id@ == id;
                assert(rows[i] matches RowEntry::Candidate { id: own, .. } && own@ == id);
            }
        }
        lemma_absent(catalog, targets, rows, from + 1, k);
    }
}

/// The captures have every icon to show, or the first one that they lack is named.
pub proof fn shown_icons_are_captured(
    catalog: Seq<Candidate>,
    targets: Seq<int>,
    rows: Seq<RowEntry>,
    k: int,
)
    requires
        0 <= k < targets.len(),
    ensures
        absent(catalog, targets, rows, 0) is None ==> has_row(rows, catalog[targets[k]].id@),
        !has_row(rows, catalog[targets[k]].id@) && (forall|j: int|
            0 <= j < k ==> has_row(rows, catalog[#[trigger] targets[j]].id@)) ==> absent(
            catalog,
            targets,
            rows,
            0,
        ) == Some(GridFault::AbsentId(catalog[targets[k]].id@)),
        (forall|j: int|
            0 <= j < targets.len() ==> has_row(rows, catalog[#[trigger] targets[j]].id@))
            ==> absent(catalog, targets, rows, 0) is None,
{
    lemma_absent(catalog, targets, rows, 0, k);
}

/// Why a preview is refused, in words.
pub proof fn refusals_read(t: Seq<char>, n: nat, p: int)
    requires
        0 <= p < 3,
    ensures
        fault_text(GridFault::BadInput(t)) == "bad --grid-input '"@ + t + "': expected label=dir"@,
        fault_text(GridFault::InputCount(n as int))
            == "expected exactly 3 --grid-input roots, got "@ + decimal(n),
        fault_text(GridFault::UnknownLabel(t)) == "unknown platform label '"@ + t
            + "' (expected one of [\"macos\", \"windows\", \"linux\"])"@,
        fault_text(GridFault::DuplicateLabel(t)) == "duplicate platform label '"@ + t + "'"@,
        fault_text(GridFault::UnknownId(t)) == "manifest id '"@ + t
            + "' is not present in the icon catalog"@,
        fault_text(GridFault::AbsentId(t)) == "manifest id '"@ + t
            + "' is absent from the captured sidecars"@,
        fault_text(GridFault::NoCrops)
            == "no crops extracted — manifest ids and captures disagree"@,
        fault_text(GridFault::EmptyManifest(t)) == "manifest "@ + t
            + " lists no icon ids — refusing to render an empty set"@,
        fault_text(GridFault::MissingCrop(p, t)) == "missing "@ + platform_text(p) + " crop for '"@ + t
            + "'"@,
        fault_text(GridFault::Skew(p)) == "sidecar candidate sequence for '"@ + platform_text(p)
            + "' differs from 'linux'"@,
        platform_text(0) == "macos"@,
        platform_text(1) == "windows"@,
        platform_text(2) == "linux"@,
{
}

} // verus!
